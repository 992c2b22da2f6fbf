//! Writing to a file: missing blocks are added, and the size follows.

use vstd::prelude::*;
use crate::bytes::put_bytes;
use crate::data::{lemma_pieces, merged, piece_end, piece_start};
use crate::device::{Block, BlockDevice, Event};
use crate::error::{failed, ErrCode, Ext4Error, Result};
use crate::fs::Ext4;
use crate::inode::{
    halves64, lemma_size_reads_back, with_halves64, FileType, InodeRef, SB_GOOD_INODE_SIZE,
};
use crate::range::{addressable, range_of, WriteLogicalRange};
use crate::volume::Volume;
use crate::{InodeId, LBlockId, PBlockId, BLOCK_SIZE};

verus! {

/// The bytes of an inode whose file reaches at least to `end`.
pub open spec fn grown_to(raw: Seq<u8>, size: u64, end: int) -> Seq<u8> {
    if end > size as usize {
        with_halves64(raw, 4, 108, end as u64)
    } else {
        raw
    }
}

impl<D: BlockDevice, V: Volume<D>> Ext4<D, V> {
    /// What replacing bytes of a block calls and returns.
    pub open spec fn home_overwritten(
        &self,
        after: &Self,
        home: PBlockId,
        offset: usize,
        data: Seq<u8>,
        index: int,
        outcome: Result<()>,
    ) -> bool {
        exists|read: Self, reply: Result<Block>|
            {
                &&& #[trigger] self.block_read(&read, home, reply)
                &&& match reply {
                    Ok(block) => read.did(
                        after,
                        Event::WriteBlock {
                            id: block.id,
                            data: merged(block.data@, offset, data, index),
                            reply: outcome,
                        },
                    ),
                    Err(error) => read.idle(after) && outcome == Err::<(), Ext4Error>(error),
                }
            }
    }

    /// What writing block number `index` of a write calls and returns.
    pub open spec fn block_overwritten(
        &self,
        after: &Self,
        file: InodeRef,
        offset: usize,
        data: Seq<u8>,
        index: int,
        outcome: Result<()>,
    ) -> bool {
        exists|queried: Self, found: Result<PBlockId>|
            {
                &&& #[trigger] self.block_located(
                    &queried,
                    file,
                    (offset as int / BLOCK_SIZE as int + index) as u32,
                    found,
                )
                &&& match found {
                    Ok(home) => queried.home_overwritten(
                        after,
                        home,
                        offset,
                        data,
                        index,
                        outcome,
                    ),
                    Err(error) => queried.idle(after) && outcome == Err::<(), Ext4Error>(error),
                }
            }
    }

    /// What writing the blocks of a write from number `index` on calls and returns.
    pub open spec fn blocks_overwritten(
        &self,
        after: &Self,
        file: InodeRef,
        offset: usize,
        data: Seq<u8>,
        index: int,
        count: int,
        outcome: Result<()>,
    ) -> bool
        decreases count - index,
    {
        if index >= count {
            self.idle(after) && outcome == Ok::<(), Ext4Error>(())
        } else {
            exists|written: Self, reply: Result<()>|
                {
                    &&& #[trigger] self.block_overwritten(
                        &written,
                        file,
                        offset,
                        data,
                        index,
                        reply,
                    )
                    &&& match reply {
                        Ok(_) => written.blocks_overwritten(
                            after,
                            file,
                            offset,
                            data,
                            index + 1,
                            count,
                            outcome,
                        ),
                        Err(error) => written.idle(after) && outcome == Err::<(), Ext4Error>(
                            error,
                        ),
                    }
                }
        }
    }

    /// Writes block number `index` of a write.
    fn overwrite_block(
        &mut self,
        file: &InodeRef,
        offset: usize,
        data: &[u8],
        index: usize,
        start: usize,
    ) -> (outcome: Result<()>)
        requires
            old(self).inv(),
            data@.len() > 0,
            addressable(offset, data@.len() as usize),
            index < range_of(offset, data@.len() as usize).block_count,
            start == piece_start(offset, index as int),
        ensures
            final(self).state() == old(self).state(),
            old(self).block_overwritten(
                final(self),
                *file,
                offset,
                data@,
                index as int,
                outcome,
            ),
    {
        let len: usize = data.len();
        proof {
            lemma_pieces(offset, len, index as int);
        }
        let iblock: LBlockId = (offset / BLOCK_SIZE + index) as u32;
        let found = self.extent_query(file, iblock);
        let ghost queried = *self;
        assert(old(self).block_located(
            &queried,
            *file,
            (offset as int / BLOCK_SIZE as int + index) as u32,
            found,
        ));
        let home: PBlockId = match found {
            Ok(home) => home,
            Err(error) => {
                return Err(error);
            },
        };
        let block_offset: usize = if index == 0 {
            offset % BLOCK_SIZE
        } else {
            0
        };
        let left: usize = len - start;
        let room: usize = BLOCK_SIZE - block_offset;
        let write_len: usize = if room < left {
            room
        } else {
            left
        };
        assert(start + write_len == piece_end(offset, data@.len(), index as int));
        let reply = self.read_block(home);
        let ghost read = *self;
        assert(queried.block_read(&read, home, reply));
        match reply {
            Ok(block) => {
                let mut image: [u8; BLOCK_SIZE] = *block.data;
                put_bytes(
                    &mut image,
                    block_offset,
                    vstd::slice::slice_subrange(data, start, start + write_len),
                );
                self.write_block(&Block::new(block.id, Box::new(image)))
            },
            Err(error) => Err(error),
        }
    }

    /// Writes the blocks of a write.
    fn overwrite_blocks(&mut self, file: &InodeRef, offset: usize, data: &[u8]) -> (outcome: Result<
        (),
    >)
        requires
            old(self).inv(),
            data@.len() > 0,
            addressable(offset, data@.len() as usize),
        ensures
            final(self).state() == old(self).state(),
            old(self).blocks_overwritten(
                final(self),
                *file,
                offset,
                data@,
                0,
                range_of(offset, data@.len() as usize).block_count as int,
                outcome,
            ),
    {
        let len: usize = data.len();
        let skew: usize = offset % BLOCK_SIZE;
        let last: usize = (offset + (len - 1)) / BLOCK_SIZE;
        let count: usize = last - offset / BLOCK_SIZE + 1;
        assert(count == range_of(offset, len).block_count);
        let mut index: usize = 0;
        let mut start: usize = 0;
        while index < count
            invariant
                self.inv(),
                self.state() == old(self).state(),
                len == data@.len(),
                len > 0,
                addressable(offset, len),
                count == range_of(offset, len).block_count,
                skew == offset as int % BLOCK_SIZE as int,
                index <= count,
                index < count ==> start == piece_start(offset, index as int),
                forall|end: Self, outcome: Result<()>|
                    #[trigger] self.blocks_overwritten(
                        &end,
                        *file,
                        offset,
                        data@,
                        index as int,
                        count as int,
                        outcome,
                    ) ==> old(self).blocks_overwritten(
                        &end,
                        *file,
                        offset,
                        data@,
                        0,
                        count as int,
                        outcome,
                    ),
            decreases count - index,
        {
            let ghost before = *self;
            let ghost tried = index;
            proof {
                lemma_pieces(offset, len, index as int);
            }
            let reply = self.overwrite_block(file, offset, data, index, start);
            let ghost written = *self;
            assert(before.block_overwritten(
                &written,
                *file,
                offset,
                data@,
                tried as int,
                reply,
            ));
            match reply {
                Ok(_) => {},
                Err(error) => {
                    assert(before.blocks_overwritten(
                        self,
                        *file,
                        offset,
                        data@,
                        tried as int,
                        count as int,
                        Err(error),
                    ));
                    return Err(error);
                },
            }
            let left: usize = len - start;
            let room: usize = if index == 0 {
                BLOCK_SIZE - skew
            } else {
                BLOCK_SIZE
            };
            start = start + if room < left {
                room
            } else {
                left
            };
            index = index + 1;
            proof {
                if index < count {
                    lemma_pieces(offset, len, index as int);
                }
            }
            assert forall|end: Self, outcome: Result<()>|
                #[trigger] self.blocks_overwritten(
                    &end,
                    *file,
                    offset,
                    data@,
                    index as int,
                    count as int,
                    outcome,
                ) implies old(self).blocks_overwritten(
                &end,
                *file,
                offset,
                data@,
                0,
                count as int,
                outcome,
            ) by {
                assert(before.block_overwritten(
                    &written,
                    *file,
                    offset,
                    data@,
                    tried as int,
                    reply,
                ));
                assert(before.blocks_overwritten(
                    &end,
                    *file,
                    offset,
                    data@,
                    tried as int,
                    count as int,
                    outcome,
                ));
            }
        }
        assert(self.blocks_overwritten(
            self,
            *file,
            offset,
            data@,
            index as int,
            count as int,
            Ok(()),
        ));
        Ok(())
    }

    /// What recording the end of a write in the inode calls and returns.
    pub open spec fn size_recorded(
        &self,
        after: &Self,
        file: InodeRef,
        offset: usize,
        len: usize,
        outcome: Result<usize>,
    ) -> bool {
        exists|grown: InodeRef, sealed: InodeRef, reply: Result<()>|
            {
                &&& #[trigger] self.inode_written(after, grown, sealed, reply)
                &&& grown.id == file.id
                &&& grown.inode@ == grown_to(
                    file.inode@,
                    file.inode.byte_size(),
                    offset + len,
                )
                &&& outcome == match reply {
                    Ok(_) => Ok::<usize, Ext4Error>(len),
                    Err(error) => Err(error),
                }
            }
    }

    /// What writing to blocks that a file has calls and returns.
    pub open spec fn content_written(
        &self,
        after: &Self,
        file: InodeRef,
        offset: usize,
        data: Seq<u8>,
        outcome: Result<usize>,
    ) -> bool {
        exists|stored: Self, reply: Result<()>|
            {
                &&& #[trigger] self.blocks_overwritten(
                    &stored,
                    file,
                    offset,
                    data,
                    0,
                    range_of(offset, data.len() as usize).block_count as int,
                    reply,
                )
                &&& match reply {
                    Ok(_) => stored.size_recorded(
                        after,
                        file,
                        offset,
                        data.len() as usize,
                        outcome,
                    ),
                    Err(error) => stored.idle(after) && outcome == Err::<usize, Ext4Error>(error),
                }
            }
    }

    /// What writing to an inode calls, changes and returns.
    pub open spec fn inode_filled(
        &self,
        after: &Self,
        file: InodeRef,
        offset: usize,
        data: Seq<u8>,
        outcome: Result<usize>,
    ) -> bool {
        if file.inode.kind() != FileType::RegularFile {
            self.idle(after) && outcome == failed::<usize>(ErrCode::EISDIR)
        } else if data.len() == 0 {
            self.idle(after) && outcome == Ok::<usize, Ext4Error>(0)
        } else {
            exists|ready: Self, filled: InodeRef, reply: Result<()>|
                {
                    &&& #[trigger] self.range_filled(
                        &ready,
                        file,
                        filled,
                        range_of(offset, data.len() as usize),
                        false,
                        reply,
                    )
                    &&& match reply {
                        Ok(_) => ready.content_written(after, filled, offset, data, outcome),
                        Err(error) => ready.idle(after) && outcome == Err::<usize, Ext4Error>(
                            error,
                        ),
                    }
                }
        }
    }

    /// What writing to a file calls, changes and returns, inside the barrier.
    pub open spec fn file_written(
        &self,
        after: &Self,
        file: InodeId,
        offset: usize,
        data: Seq<u8>,
        outcome: Result<usize>,
    ) -> bool {
        if data.len() > 0 && !addressable(offset, data.len() as usize) {
            self.idle(after) && outcome == failed::<usize>(ErrCode::EFBIG)
        } else {
            exists|read: Self, found: Result<InodeRef>|
                {
                    &&& #[trigger] self.inode_read(&read, file, found)
                    &&& match found {
                        Err(error) => read.idle(after) && outcome == Err::<usize, Ext4Error>(
                            error,
                        ),
                        Ok(inode) => read.inode_filled(after, inode, offset, data, outcome),
                    }
                }
        }
    }

    /// Writes to a file, inside the barrier.
    fn write_locked(&mut self, file: InodeId, offset: usize, data: &[u8]) -> (outcome: Result<usize>)
        requires
            old(self).inv(),
        ensures
            final(self).inv(),
            old(self).frame_kept(final(self)),
            old(self).file_written(final(self), file, offset, data@, outcome),
    {
        let checked = match WriteLogicalRange::checked(offset, data.len()) {
            Ok(checked) => checked,
            Err(error) => {
                return Err(error);
            },
        };
        let found = self.read_inode(file);
        let ghost read = *self;
        assert(old(self).inode_read(&read, file, found));
        let mut inode = match found {
            Ok(inode) => inode,
            Err(error) => {
                return Err(error);
            },
        };
        if !inode.inode.is_file() {
            return Err(Ext4Error::new(ErrCode::EISDIR));
        }
        let range = match checked {
            Some(range) => range,
            None => {
                return Ok(0);
            },
        };
        let ghost original = inode;
        let reply = self.ensure_blocks_for_write_range_locked(&mut inode, &range, false);
        let ghost ready = *self;
        let ghost filled = inode;
        assert(range == range_of(offset, data@.len() as usize));
        assert(read.range_filled(
            &ready,
            original,
            filled,
            range_of(offset, data@.len() as usize),
            false,
            reply,
        ));
        match reply {
            Ok(_) => {},
            Err(error) => {
                assert(read.inode_filled(self, original, offset, data@, Err(error)));
                return Err(error);
            },
        }
        let reply = self.overwrite_blocks(&inode, offset, data);
        let ghost stored = *self;
        assert(ready.blocks_overwritten(
            &stored,
            filled,
            offset,
            data@,
            0,
            range_of(offset, data@.len() as usize).block_count as int,
            reply,
        ));
        match reply {
            Ok(_) => {},
            Err(error) => {
                assert(ready.content_written(self, filled, offset, data@, Err(error)));
                assert(read.inode_filled(self, original, offset, data@, Err(error)));
                return Err(error);
            },
        }
        let end: usize = offset + data.len();
        if end > inode.inode.size() as usize {
            inode.inode.set_size(end as u64);
        }
        let ghost grown = inode;
        let reply = self.write_inode_with_csum(&mut inode);
        assert(stored.inode_written(self, grown, inode, reply));
        let outcome: Result<usize> = match reply {
            Ok(_) => Ok(data.len()),
            Err(error) => Err(error),
        };
        assert(stored.size_recorded(self, filled, offset, data@.len() as usize, outcome));
        assert(ready.content_written(self, filled, offset, data@, outcome));
        assert(read.inode_filled(self, original, offset, data@, outcome));
        outcome
    }

    /// Writes to a file. What is no regular file is refused, whether or not there is data.
    pub fn write(&mut self, file: InodeId, offset: usize, data: &[u8]) -> (outcome: Result<usize>)
        requires
            old(self).inv(),
        ensures
            final(self).inv(),
            final(self).state().gate == old(self).state().gate,
            old(self).changed_directly(
                final(self),
                |inside: Self, left: Self, outcome: Result<usize>|
                    inside.file_written(&left, file, offset, data@, outcome),
                outcome,
            ),
    {
        match self.ensure_mutable() {
            Ok(_) => {},
            Err(error) => {
                return Err(error);
            },
        }
        let lock = self.lock_direct_metadata_mutation();
        let ghost inside = *self;
        assert(old(self).direct_entered(&inside, lock));
        match lock {
            Ok(_) => {},
            Err(error) => {
                return Err(error);
            },
        }
        let outcome = self.write_locked(file, offset, data);
        self.unlock_direct_metadata_mutation();
        outcome
    }
}

/// A file that was written to reaches at least to the end of the write, and is never shorter than
/// before.
pub proof fn lemma_write_reaches_its_end(raw: Seq<u8>, end: int)
    requires
        raw.len() == SB_GOOD_INODE_SIZE,
        0 <= end <= usize::MAX,
    ensures
        ({
            let size = halves64(raw, 4, 108);
            halves64(grown_to(raw, size, end), 4, 108) == if end > size as usize {
                end as u64
            } else {
                size
            }
        }),
{
    lemma_size_reads_back(raw, end as u64);
}

} // verus!
