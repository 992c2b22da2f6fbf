//! Reading files and symbolic links.

use vstd::prelude::*;
use crate::bytes::{put_bytes, put_zeros, splice, zeros};
use crate::data::Mapping;
use crate::device::{Block, BlockDevice, Event};
use crate::error::{failed, ErrCode, Ext4Error, Result};
use crate::extent::ExtentWriteRange;
use crate::fs::Ext4;
use crate::inode::{inline_of, FileType, InodeRef};
use crate::volume::Volume;
use crate::{InodeId, LBlockId, PBlockId, BLOCK_SIZE};

verus! {

/// Bytes of a file, the number of the block behind them, and an extent that is at hand.
pub type Chunk = (Seq<u8>, int, Option<ExtentWriteRange>);

/// The smaller of two numbers.
pub open spec fn least(left: int, right: int) -> int {
    if left < right {
        left
    } else {
        right
    }
}

/// A vector of zero bytes.
pub(crate) fn zeroed_bytes(len: usize) -> (bytes: Vec<u8>)
    ensures
        bytes@ == zeros(len as nat),
{
    let mut bytes: Vec<u8> = Vec::new();
    while bytes.len() < len
        invariant
            bytes@ == zeros(bytes@.len()),
            bytes@.len() <= len,
        decreases len - bytes@.len(),
    {
        let ghost before = bytes@;
        bytes.push(0);
        assert(bytes@ =~= zeros(before.len() + 1));
    }
    bytes
}

impl<D: BlockDevice, V: Volume<D>> Ext4<D, V> {
    /// What reading part of a block calls and returns.
    pub open spec fn part_read(
        &self,
        after: &Self,
        home: PBlockId,
        at: int,
        len: int,
        outcome: Result<Seq<u8>>,
    ) -> bool {
        exists|reply: Result<Block>|
            {
                &&& #[trigger] self.block_read(after, home, reply)
                &&& outcome == match reply {
                    Ok(block) => Ok::<Seq<u8>, Ext4Error>(block.data@.subrange(at, at + len)),
                    Err(error) => Err(error),
                }
            }
    }

    /// What reading part of one block of a file calls and returns: a block that is not mapped
    /// reads as zero bytes.
    pub open spec fn piece_read(
        &self,
        after: &Self,
        file: InodeRef,
        iblock: LBlockId,
        at: int,
        len: int,
        outcome: Result<Seq<u8>>,
    ) -> bool {
        exists|queried: Self, found: Result<PBlockId>|
            {
                &&& #[trigger] self.block_located(&queried, file, iblock, found)
                &&& match found {
                    Ok(home) => queried.part_read(after, home, at, len, outcome),
                    Err(error) => {
                        &&& queried.idle(after)
                        &&& outcome == if error.code == ErrCode::ENOENT {
                            Ok::<Seq<u8>, Ext4Error>(zeros(len as nat))
                        } else {
                            Err(error)
                        }
                    },
                }
            }
    }

    /// Reads part of one block of a file; a block that is not mapped reads as zero bytes.
    pub fn read_extent_or_hole(
        &mut self,
        file: &InodeRef,
        iblock: LBlockId,
        block_offset: usize,
        buf: &mut [u8],
    ) -> (outcome: Result<()>)
        requires
            old(self).inv(),
            block_offset + old(buf)@.len() <= BLOCK_SIZE,
        ensures
            final(self).state() == old(self).state(),
            final(buf)@.len() == old(buf)@.len(),
            match outcome {
                Ok(_) => old(self).piece_read(
                    final(self),
                    *file,
                    iblock,
                    block_offset as int,
                    old(buf)@.len() as int,
                    Ok(final(buf)@),
                ),
                Err(error) => {
                    &&& final(buf)@ == old(buf)@
                    &&& old(self).piece_read(
                        final(self),
                        *file,
                        iblock,
                        block_offset as int,
                        old(buf)@.len() as int,
                        Err(error),
                    )
                },
            },
    {
        let len: usize = buf.len();
        let found = self.extent_query(file, iblock);
        let ghost queried = *self;
        assert(old(self).block_located(&queried, *file, iblock, found));
        match found {
            Ok(home) => {
                let reply = self.read_block(home);
                assert(queried.block_read(self, home, reply));
                match reply {
                    Ok(block) => {
                        let part = vstd::slice::slice_subrange(
                            block.data.as_slice(),
                            block_offset,
                            block_offset + len,
                        );
                        put_bytes(buf, 0, part);
                        assert(buf@ =~= part@);
                        assert(queried.part_read(
                            self,
                            home,
                            block_offset as int,
                            len as int,
                            Ok(buf@),
                        ));
                        Ok(())
                    },
                    Err(error) => {
                        assert(queried.part_read(
                            self,
                            home,
                            block_offset as int,
                            len as int,
                            Err(error),
                        ));
                        Err(error)
                    },
                }
            },
            Err(error) => {
                if error.code() == ErrCode::ENOENT {
                    put_zeros(buf, 0, len);
                    assert(buf@ =~= zeros(len as nat));
                    Ok(())
                } else {
                    Err(error)
                }
            },
        }
    }

    /// What reading blocks of one extent calls and returns.
    pub open spec fn run_read(
        &self,
        after: &Self,
        start_lblock: LBlockId,
        end_lblock: LBlockId,
        start_pblock: PBlockId,
        len: int,
        outcome: Result<Seq<u8>>,
    ) -> bool {
        let count = if start_lblock < end_lblock {
            end_lblock - start_lblock
        } else {
            0
        };
        let size = least(len, count * BLOCK_SIZE);
        if count * BLOCK_SIZE > usize::MAX {
            self.idle(after) && outcome == failed::<Seq<u8>>(ErrCode::EFBIG)
        } else if size == 0 {
            self.idle(after) && outcome == Ok::<Seq<u8>, Ext4Error>(Seq::empty())
        } else if !self.valid_pblock(start_pblock) || !self.data_range(start_pblock, count as u64) {
            self.idle(after) && outcome == failed::<Seq<u8>>(ErrCode::EIO)
        } else {
            &&& self.did(
                after,
                Event::ReadBlocks { start: start_pblock, len: size as nat, reply: outcome },
            )
            &&& outcome matches Ok(bytes) ==> bytes.len() == size
        }
    }

    /// Reads blocks of one extent with a single request.
    fn read_extent_run(
        &mut self,
        start_lblock: LBlockId,
        end_lblock: LBlockId,
        start_pblock: PBlockId,
        len: usize,
    ) -> (outcome: Result<Vec<u8>>)
        requires
            old(self).inv(),
        ensures
            final(self).state() == old(self).state(),
            old(self).run_read(
                final(self),
                start_lblock,
                end_lblock,
                start_pblock,
                len as int,
                crate::data::bytes_in(outcome),
            ),
    {
        let block_count: usize = end_lblock.saturating_sub(start_lblock) as usize;
        let byte_count: usize = match block_count.checked_mul(BLOCK_SIZE) {
            Some(bytes) => bytes,
            None => {
                return Err(Ext4Error::new(ErrCode::EFBIG));
            },
        };
        let read_len: usize = if len < byte_count {
            len
        } else {
            byte_count
        };
        if read_len == 0 {
            let bytes: Vec<u8> = Vec::new();
            assert(bytes@ =~= Seq::<u8>::empty());
            return Ok(bytes);
        }
        match self.ensure_valid_pblock(start_pblock) {
            Ok(_) => {},
            Err(error) => {
                return Err(error);
            },
        }
        match self.validate_data_blocks(start_pblock, block_count as u64) {
            Ok(_) => {},
            Err(error) => {
                return Err(error);
            },
        }
        let mut bytes: Vec<u8> = zeroed_bytes(read_len);
        match self.read_blocks(start_pblock, bytes.as_mut_slice()) {
            Ok(_) => Ok(bytes),
            Err(error) => Err(error),
        }
    }

    /// What reading the whole blocks of one extent calls and returns.
    pub open spec fn run_chunk(
        &self,
        after: &Self,
        iblock: LBlockId,
        mapping: Mapping,
        left: int,
        outcome: Result<Chunk>,
    ) -> bool {
        let count = least(left / BLOCK_SIZE as int, mapping.1.end_lblock - iblock);
        exists|bytes: Result<Seq<u8>>|
            {
                &&& #[trigger] self.run_read(
                    after,
                    iblock,
                    (iblock + count) as u32,
                    mapping.0,
                    count * BLOCK_SIZE,
                    bytes,
                )
                &&& outcome == match bytes {
                    Ok(found) => Ok::<Chunk, Ext4Error>((found, iblock + count, Some(mapping.1))),
                    Err(error) => Err(error),
                }
            }
    }

    /// What reading the last bytes of a file calls and returns.
    pub open spec fn tail_chunk(
        &self,
        after: &Self,
        file: InodeRef,
        iblock: LBlockId,
        cached: Option<ExtentWriteRange>,
        left: int,
        outcome: Result<Chunk>,
    ) -> bool {
        exists|bytes: Result<Seq<u8>>|
            {
                &&& #[trigger] self.piece_read(after, file, iblock, 0, left, bytes)
                &&& outcome == match bytes {
                    Ok(found) => Ok::<Chunk, Ext4Error>((found, iblock as int, cached)),
                    Err(error) => Err(error),
                }
            }
    }

    /// What reading the next bytes of a file calls and returns: as many whole blocks as one extent
    /// maps, one whole block that is not mapped, or part of the last block.
    pub open spec fn chunk_read(
        &self,
        after: &Self,
        file: InodeRef,
        iblock: int,
        cached: Option<ExtentWriteRange>,
        left: int,
        outcome: Result<Chunk>,
    ) -> bool {
        if iblock > u32::MAX {
            self.idle(after) && outcome == failed::<Chunk>(ErrCode::EFBIG)
        } else if left < BLOCK_SIZE {
            self.tail_chunk(after, file, iblock as u32, cached, left, outcome)
        } else {
            exists|mapped: Self, found: Result<Mapping>|
                {
                    &&& #[trigger] self.resolved(&mapped, file, iblock as u32, cached, found)
                    &&& match found {
                        Ok(mapping) => mapped.run_chunk(
                            after,
                            iblock as u32,
                            mapping,
                            left,
                            outcome,
                        ),
                        Err(error) => {
                            &&& mapped.idle(after)
                            &&& outcome == if error.code != ErrCode::ENOENT {
                                Err::<Chunk, Ext4Error>(error)
                            } else if iblock == u32::MAX {
                                failed(ErrCode::EFBIG)
                            } else {
                                Ok((zeros(BLOCK_SIZE as nat), iblock + 1, cached))
                            }
                        },
                    }
                }
        }
    }

    /// Reads the next bytes of a file.
    fn read_chunk(
        &mut self,
        file: &InodeRef,
        iblock: u64,
        cached: Option<ExtentWriteRange>,
        left: usize,
    ) -> (outcome: Result<(Vec<u8>, u64, Option<ExtentWriteRange>)>)
        requires
            old(self).inv(),
            left > 0,
        ensures
            final(self).state() == old(self).state(),
            old(self).chunk_read(
                final(self),
                *file,
                iblock as int,
                cached,
                left as int,
                chunk_in(outcome),
            ),
            outcome matches Ok(chunk) ==> 0 < chunk.0@.len() <= left && chunk.1 <= u32::MAX + 1,
    {
        if iblock > u32::MAX as u64 {
            return Err(Ext4Error::new(ErrCode::EFBIG));
        }
        let ghost before = *self;
        let lblock: LBlockId = iblock as u32;
        if left < BLOCK_SIZE {
            let mut bytes: Vec<u8> = zeroed_bytes(left);
            let reply = self.read_extent_or_hole(file, lblock, 0, bytes.as_mut_slice());
            let outcome: Result<(Vec<u8>, u64, Option<ExtentWriteRange>)> = match reply {
                Ok(_) => {
                    assert(before.piece_read(self, *file, lblock, 0, left as int, Ok(bytes@)));
                    Ok((bytes, iblock, cached))
                },
                Err(error) => {
                    assert(before.piece_read(self, *file, lblock, 0, left as int, Err(error)));
                    Err(error)
                },
            };
            return outcome;
        }
        let found = self.resolve(file, lblock, &cached);
        let ghost mapped = *self;
        assert(before.resolved(&mapped, *file, iblock as int as u32, cached, found));
        match found {
            Ok((home, extent)) => {
                let whole: usize = left / BLOCK_SIZE;
                let rest: LBlockId = extent.end_lblock - lblock;
                let count: LBlockId = if whole < rest as usize {
                    whole as u32
                } else {
                    rest
                };
                assert(count == least(left as int / BLOCK_SIZE as int, extent.end_lblock - lblock));
                let reply = self.read_extent_run(
                    lblock,
                    lblock + count,
                    home,
                    count as usize * BLOCK_SIZE,
                );
                assert(mapped.run_read(
                    self,
                    lblock,
                    (lblock + count) as u32,
                    home,
                    count * BLOCK_SIZE,
                    crate::data::bytes_in(reply),
                ));
                let outcome: Result<(Vec<u8>, u64, Option<ExtentWriteRange>)> = match reply {
                    Ok(bytes) => Ok((bytes, iblock + count as u64, Some(extent))),
                    Err(error) => Err(error),
                };
                assert(mapped.run_chunk(
                    self,
                    lblock,
                    (home, extent),
                    left as int,
                    chunk_in(outcome),
                ));
                outcome
            },
            Err(error) => {
                if error.code() != ErrCode::ENOENT {
                    return Err(error);
                }
                if lblock == u32::MAX {
                    return Err(Ext4Error::new(ErrCode::EFBIG));
                }
                Ok((zeroed_bytes(BLOCK_SIZE), iblock + 1, cached))
            },
        }
    }

    /// What reading the bytes of a file from `cursor` to `size` calls and returns.
    pub open spec fn fetched(
        &self,
        after: &Self,
        file: InodeRef,
        iblock: int,
        cached: Option<ExtentWriteRange>,
        cursor: int,
        size: int,
        buf: Seq<u8>,
        buf_after: Seq<u8>,
        outcome: Result<usize>,
    ) -> bool
        decreases size - cursor,
    {
        if cursor >= size {
            self.idle(after) && buf_after == buf && outcome == Ok::<usize, Ext4Error>(
                cursor as usize,
            )
        } else {
            exists|read: Self, chunk: Result<Chunk>|
                {
                    &&& #[trigger] self.chunk_read(
                        &read,
                        file,
                        iblock,
                        cached,
                        size - cursor,
                        chunk,
                    )
                    &&& match chunk {
                        Err(error) => {
                            &&& read.idle(after)
                            &&& buf_after == buf
                            &&& outcome == Err::<usize, Ext4Error>(error)
                        },
                        Ok(found) => {
                            &&& 0 < found.0.len() <= size - cursor
                            &&& read.fetched(
                                after,
                                file,
                                found.1,
                                found.2,
                                cursor + found.0.len(),
                                size,
                                splice(buf, cursor, found.0),
                                buf_after,
                                outcome,
                            )
                        },
                    }
                }
        }
    }

    /// Reads the bytes of a file from `start` to `size`.
    fn fetch(
        &mut self,
        file: &InodeRef,
        first: u64,
        start: usize,
        size: usize,
        buf: &mut [u8],
    ) -> (outcome: Result<usize>)
        requires
            old(self).inv(),
            first <= u32::MAX + 1,
            start <= size <= old(buf)@.len(),
        ensures
            final(self).state() == old(self).state(),
            final(buf)@.len() == old(buf)@.len(),
            old(self).fetched(
                final(self),
                *file,
                first as int,
                None,
                start as int,
                size as int,
                old(buf)@,
                final(buf)@,
                outcome,
            ),
    {
        let ghost original = buf@;
        let mut cached: Option<ExtentWriteRange> = None;
        let mut iblock: u64 = first;
        let mut cursor: usize = start;
        while cursor < size
            invariant
                self.inv(),
                self.state() == old(self).state(),
                iblock <= u32::MAX + 1,
                cursor <= size <= buf@.len(),
                buf@.len() == original.len(),
                original == old(buf)@,
                forall|end: Self, buf_after: Seq<u8>, outcome: Result<usize>|
                    #[trigger] self.fetched(
                        &end,
                        *file,
                        iblock as int,
                        cached,
                        cursor as int,
                        size as int,
                        buf@,
                        buf_after,
                        outcome,
                    ) ==> old(self).fetched(
                        &end,
                        *file,
                        first as int,
                        None,
                        start as int,
                        size as int,
                        original,
                        buf_after,
                        outcome,
                    ),
            decreases size - cursor,
        {
            let ghost before = *self;
            let ghost done = (iblock, cached, cursor, buf@);
            let reply = self.read_chunk(file, iblock, cached, size - cursor);
            let ghost read = *self;
            let ghost chunk = chunk_in(reply);
            assert(before.chunk_read(
                &read,
                *file,
                done.0 as int,
                done.1,
                size - done.2,
                chunk,
            ));
            match reply {
                Ok((bytes, next, extent)) => {
                    put_bytes(buf, cursor, bytes.as_slice());
                    cursor = cursor + bytes.len();
                    iblock = next;
                    cached = extent;
                },
                Err(error) => {
                    assert(before.fetched(
                        self,
                        *file,
                        done.0 as int,
                        done.1,
                        done.2 as int,
                        size as int,
                        done.3,
                        buf@,
                        Err(error),
                    ));
                    return Err(error);
                },
            }
            assert forall|end: Self, buf_after: Seq<u8>, outcome: Result<usize>|
                #[trigger] self.fetched(
                    &end,
                    *file,
                    iblock as int,
                    cached,
                    cursor as int,
                    size as int,
                    buf@,
                    buf_after,
                    outcome,
                ) implies old(self).fetched(
                &end,
                *file,
                first as int,
                None,
                start as int,
                size as int,
                original,
                buf_after,
                outcome,
            ) by {
                assert(before.chunk_read(
                    &read,
                    *file,
                    done.0 as int,
                    done.1,
                    size - done.2,
                    chunk,
                ));
                assert(before.fetched(
                    &end,
                    *file,
                    done.0 as int,
                    done.1,
                    done.2 as int,
                    size as int,
                    done.3,
                    buf_after,
                    outcome,
                ));
            }
        }
        assert(self.fetched(
            self,
            *file,
            iblock as int,
            cached,
            cursor as int,
            size as int,
            buf@,
            buf@,
            Ok(cursor),
        ));
        Ok(cursor)
    }
}

/// The chunk of an outcome.
pub open spec fn chunk_in(outcome: Result<(Vec<u8>, u64, Option<ExtentWriteRange>)>) -> Result<
    Chunk,
> {
    match outcome {
        Ok(chunk) => Ok((chunk.0@, chunk.1 as int, chunk.2)),
        Err(error) => Err(error),
    }
}

impl<D: BlockDevice, V: Volume<D>> Ext4<D, V> {
    /// What reading the part of a block at which a read begins calls and returns.
    pub open spec fn head_read(
        &self,
        after: &Self,
        file: InodeRef,
        offset: usize,
        size: int,
        outcome: Result<Seq<u8>>,
    ) -> bool {
        let skew = offset as int % BLOCK_SIZE as int;
        self.piece_read(
            after,
            file,
            (offset as int / BLOCK_SIZE as int) as u32,
            skew,
            least(BLOCK_SIZE - skew, size),
            outcome,
        )
    }

    /// Reads the part of a block at which a read begins.
    fn read_head(&mut self, file: &InodeRef, offset: usize, size: usize, buf: &mut [u8]) -> (outcome:
        Result<usize>)
        requires
            old(self).inv(),
            size <= old(buf)@.len(),
        ensures
            final(self).state() == old(self).state(),
            final(buf)@.len() == old(buf)@.len(),
            match outcome {
                Ok(len) => {
                    &&& len == least(BLOCK_SIZE - offset as int % BLOCK_SIZE as int, size as int)
                    &&& final(buf)@ == splice(old(buf)@, 0, final(buf)@.take(len as int))
                    &&& old(self).head_read(
                        final(self),
                        *file,
                        offset,
                        size as int,
                        Ok(final(buf)@.take(len as int)),
                    )
                },
                Err(error) => {
                    &&& final(buf)@ == old(buf)@
                    &&& old(self).head_read(final(self), *file, offset, size as int, Err(error))
                },
            },
    {
        let skew: usize = offset % BLOCK_SIZE;
        let room: usize = BLOCK_SIZE - skew;
        let len: usize = if room < size {
            room
        } else {
            size
        };
        let mut bytes: Vec<u8> = zeroed_bytes(len);
        match self.read_extent_or_hole(
            file,
            (offset / BLOCK_SIZE) as u32,
            skew,
            bytes.as_mut_slice(),
        ) {
            Ok(_) => {
                put_bytes(buf, 0, bytes.as_slice());
                assert(buf@.take(len as int) =~= bytes@);
                assert(buf@ =~= splice(old(buf)@, 0, buf@.take(len as int)));
                Ok(len)
            },
            Err(error) => Err(error),
        }
    }

    /// What reading `size` bytes from `offset` on calls and returns.
    pub open spec fn content_read(
        &self,
        after: &Self,
        file: InodeRef,
        offset: usize,
        size: int,
        buf: Seq<u8>,
        buf_after: Seq<u8>,
        outcome: Result<usize>,
    ) -> bool {
        let first = (offset as int / BLOCK_SIZE as int) as u32;
        if offset as int % BLOCK_SIZE as int == 0 {
            self.fetched(after, file, first as int, None, 0, size, buf, buf_after, outcome)
        } else {
            exists|read: Self, head: Result<Seq<u8>>|
                {
                    &&& #[trigger] self.head_read(&read, file, offset, size, head)
                    &&& match head {
                        Err(error) => {
                            &&& read.idle(after)
                            &&& buf_after == buf
                            &&& outcome == Err::<usize, Ext4Error>(error)
                        },
                        Ok(bytes) => read.fetched(
                            after,
                            file,
                            first + 1,
                            None,
                            bytes.len() as int,
                            size,
                            splice(buf, 0, bytes),
                            buf_after,
                            outcome,
                        ),
                    }
                }
        }
    }

    /// What reading from an inode calls and returns.
    pub open spec fn file_read(
        &self,
        after: &Self,
        file: InodeRef,
        offset: usize,
        buf: Seq<u8>,
        buf_after: Seq<u8>,
        outcome: Result<usize>,
    ) -> bool {
        let size = file.inode.byte_size() as usize;
        if file.inode.kind() != FileType::RegularFile {
            &&& self.idle(after)
            &&& buf_after == buf
            &&& outcome == failed::<usize>(ErrCode::EISDIR)
        } else if buf.len() == 0 || offset >= size {
            &&& self.idle(after)
            &&& buf_after == buf
            &&& outcome == Ok::<usize, Ext4Error>(0)
        } else {
            self.content_read(
                after,
                file,
                offset,
                least(buf.len() as int, size - offset),
                buf,
                buf_after,
                outcome,
            )
        }
    }

    /// What reading a file calls and returns.
    pub open spec fn was_read(
        &self,
        after: &Self,
        file: InodeId,
        offset: usize,
        buf: Seq<u8>,
        buf_after: Seq<u8>,
        outcome: Result<usize>,
    ) -> bool {
        exists|read: Self, found: Result<InodeRef>|
            {
                &&& #[trigger] self.inode_read(&read, file, found)
                &&& match found {
                    Err(error) => {
                        &&& read.idle(after)
                        &&& buf_after == buf
                        &&& outcome == Err::<usize, Ext4Error>(error)
                    },
                    Ok(inode) => read.file_read(after, inode, offset, buf, buf_after, outcome),
                }
            }
    }

    /// Reads from a file, up to the end of the buffer or of the file.
    pub fn read(&mut self, file: InodeId, offset: usize, buf: &mut [u8]) -> (outcome: Result<usize>)
        requires
            old(self).inv(),
        ensures
            final(self).state() == old(self).state(),
            final(buf)@.len() == old(buf)@.len(),
            old(self).was_read(final(self), file, offset, old(buf)@, final(buf)@, outcome),
    {
        let found = self.read_inode(file);
        let ghost opened = *self;
        assert(old(self).inode_read(&opened, file, found));
        let inode = match found {
            Ok(inode) => inode,
            Err(error) => {
                return Err(error);
            },
        };
        if !inode.inode.is_file() {
            return Err(Ext4Error::new(ErrCode::EISDIR));
        }
        let size: usize = inode.inode.size() as usize;
        if buf.len() == 0 || offset >= size {
            return Ok(0);
        }
        let rest: usize = size - offset;
        let read_size: usize = if buf.len() < rest {
            buf.len()
        } else {
            rest
        };
        let first: LBlockId = (offset / BLOCK_SIZE) as u32;
        if offset % BLOCK_SIZE == 0 {
            return self.fetch(&inode, first as u64, 0, read_size, buf);
        }
        match self.read_head(&inode, offset, read_size, buf) {
            Ok(len) => {
                let ghost read = *self;
                assert(opened.head_read(
                    &read,
                    inode,
                    offset,
                    read_size as int,
                    Ok(buf@.take(len as int)),
                ));
                self.fetch(&inode, first as u64 + 1, len, read_size, buf)
            },
            Err(error) => {
                assert(opened.head_read(self, inode, offset, read_size as int, Err(error)));
                Err(error)
            },
        }
    }

    /// What reading the blocks of a symbolic link one by one calls and returns.
    pub open spec fn link_fetched(
        &self,
        after: &Self,
        link: InodeRef,
        iblock: int,
        cursor: int,
        size: int,
        buf: Seq<u8>,
        buf_after: Seq<u8>,
        outcome: Result<usize>,
    ) -> bool
        decreases size - cursor,
    {
        let len = least(BLOCK_SIZE as int, size - cursor);
        if cursor >= size {
            self.idle(after) && buf_after == buf && outcome == Ok::<usize, Ext4Error>(
                cursor as usize,
            )
        } else if iblock > u32::MAX {
            self.idle(after) && buf_after == buf && outcome == failed::<usize>(ErrCode::EFBIG)
        } else {
            exists|read: Self, piece: Result<Seq<u8>>|
                {
                    &&& #[trigger] self.piece_read(&read, link, iblock as u32, 0, len, piece)
                    &&& match piece {
                        Err(error) => {
                            &&& read.idle(after)
                            &&& buf_after == buf
                            &&& outcome == Err::<usize, Ext4Error>(error)
                        },
                        Ok(bytes) => read.link_fetched(
                            after,
                            link,
                            iblock + 1,
                            cursor + len,
                            size,
                            splice(buf, cursor, bytes),
                            buf_after,
                            outcome,
                        ),
                    }
                }
        }
    }

    /// Reads the blocks of a symbolic link one by one.
    fn fetch_link(
        &mut self,
        link: &InodeRef,
        first: u64,
        start: usize,
        size: usize,
        buf: &mut [u8],
    ) -> (outcome: Result<usize>)
        requires
            old(self).inv(),
            first <= u32::MAX + 1,
            start <= size <= old(buf)@.len(),
        ensures
            final(self).state() == old(self).state(),
            final(buf)@.len() == old(buf)@.len(),
            old(self).link_fetched(
                final(self),
                *link,
                first as int,
                start as int,
                size as int,
                old(buf)@,
                final(buf)@,
                outcome,
            ),
    {
        let ghost original = buf@;
        let mut iblock: u64 = first;
        let mut cursor: usize = start;
        while cursor < size
            invariant
                self.inv(),
                self.state() == old(self).state(),
                iblock <= u32::MAX + 1,
                cursor <= size <= buf@.len(),
                buf@.len() == original.len(),
                original == old(buf)@,
                forall|end: Self, buf_after: Seq<u8>, outcome: Result<usize>|
                    #[trigger] self.link_fetched(
                        &end,
                        *link,
                        iblock as int,
                        cursor as int,
                        size as int,
                        buf@,
                        buf_after,
                        outcome,
                    ) ==> old(self).link_fetched(
                        &end,
                        *link,
                        first as int,
                        start as int,
                        size as int,
                        original,
                        buf_after,
                        outcome,
                    ),
            decreases size - cursor,
        {
            let ghost before = *self;
            let ghost done = (iblock, cursor, buf@);
            if iblock > u32::MAX as u64 {
                assert(self.link_fetched(
                    self,
                    *link,
                    iblock as int,
                    cursor as int,
                    size as int,
                    buf@,
                    buf@,
                    failed(ErrCode::EFBIG),
                ));
                return Err(Ext4Error::new(ErrCode::EFBIG));
            }
            let left: usize = size - cursor;
            let len: usize = if BLOCK_SIZE < left {
                BLOCK_SIZE
            } else {
                left
            };
            let mut bytes: Vec<u8> = zeroed_bytes(len);
            let reply = self.read_extent_or_hole(link, iblock as u32, 0, bytes.as_mut_slice());
            let ghost read = *self;
            match reply {
                Ok(_) => {
                    put_bytes(buf, cursor, bytes.as_slice());
                },
                Err(error) => {
                    assert(before.piece_read(
                        self,
                        *link,
                        done.0 as int as u32,
                        0,
                        least(BLOCK_SIZE as int, size - done.1),
                        Err(error),
                    ));
                    assert(before.link_fetched(
                        self,
                        *link,
                        done.0 as int,
                        done.1 as int,
                        size as int,
                        done.2,
                        buf@,
                        Err(error),
                    ));
                    return Err(error);
                },
            }
            cursor = cursor + len;
            iblock = iblock + 1;
            assert forall|end: Self, buf_after: Seq<u8>, outcome: Result<usize>|
                #[trigger] self.link_fetched(
                    &end,
                    *link,
                    iblock as int,
                    cursor as int,
                    size as int,
                    buf@,
                    buf_after,
                    outcome,
                ) implies old(self).link_fetched(
                &end,
                *link,
                first as int,
                start as int,
                size as int,
                original,
                buf_after,
                outcome,
            ) by {
                assert(before.piece_read(
                    &read,
                    *link,
                    done.0 as int as u32,
                    0,
                    least(BLOCK_SIZE as int, size - done.1),
                    Ok(bytes@),
                ));
                assert(before.link_fetched(
                    &end,
                    *link,
                    done.0 as int,
                    done.1 as int,
                    size as int,
                    done.2,
                    buf_after,
                    outcome,
                ));
            }
        }
        assert(self.link_fetched(
            self,
            *link,
            iblock as int,
            cursor as int,
            size as int,
            buf@,
            buf@,
            Ok(cursor),
        ));
        Ok(cursor)
    }

    /// What reading the blocks of a symbolic link from `offset` on calls and returns.
    pub open spec fn link_blocks_read(
        &self,
        after: &Self,
        link: InodeRef,
        offset: usize,
        size: int,
        buf: Seq<u8>,
        buf_after: Seq<u8>,
        outcome: Result<usize>,
    ) -> bool {
        let first = (offset as int / BLOCK_SIZE as int) as u32;
        if offset as int % BLOCK_SIZE as int == 0 {
            self.link_fetched(after, link, first as int, 0, size, buf, buf_after, outcome)
        } else {
            exists|read: Self, head: Result<Seq<u8>>|
                {
                    &&& #[trigger] self.head_read(&read, link, offset, size, head)
                    &&& match head {
                        Err(error) => {
                            &&& read.idle(after)
                            &&& buf_after == buf
                            &&& outcome == Err::<usize, Ext4Error>(error)
                        },
                        Ok(bytes) => read.link_fetched(
                            after,
                            link,
                            first + 1,
                            bytes.len() as int,
                            size,
                            splice(buf, 0, bytes),
                            buf_after,
                            outcome,
                        ),
                    }
                }
        }
    }

    /// What reading the target of a symbolic link calls and returns: a short target stands inside
    /// the inode.
    pub open spec fn link_read(
        &self,
        after: &Self,
        link: InodeRef,
        offset: usize,
        buf: Seq<u8>,
        buf_after: Seq<u8>,
        outcome: Result<usize>,
    ) -> bool {
        let size = link.inode.byte_size() as usize;
        let len = least(buf.len() as int, size - offset);
        if link.inode.kind() != FileType::SymLink {
            &&& self.idle(after)
            &&& buf_after == buf
            &&& outcome == failed::<usize>(ErrCode::EINVAL)
        } else if buf.len() == 0 || offset >= size {
            &&& self.idle(after)
            &&& buf_after == buf
            &&& outcome == Ok::<usize, Ext4Error>(0)
        } else if size <= inline_of(link.inode@).len() && link.inode.sectors() / 8 == 0 {
            &&& self.idle(after)
            &&& buf_after == splice(
                buf,
                0,
                inline_of(link.inode@).subrange(offset as int, offset + len),
            )
            &&& outcome == Ok::<usize, Ext4Error>(len as usize)
        } else {
            self.link_blocks_read(after, link, offset, len, buf, buf_after, outcome)
        }
    }

    /// What reading the target of a symbolic link by its number calls and returns.
    pub open spec fn target_read(
        &self,
        after: &Self,
        link: InodeId,
        offset: usize,
        buf: Seq<u8>,
        buf_after: Seq<u8>,
        outcome: Result<usize>,
    ) -> bool {
        exists|read: Self, found: Result<InodeRef>|
            {
                &&& #[trigger] self.inode_read(&read, link, found)
                &&& match found {
                    Err(error) => {
                        &&& read.idle(after)
                        &&& buf_after == buf
                        &&& outcome == Err::<usize, Ext4Error>(error)
                    },
                    Ok(inode) => read.link_read(after, inode, offset, buf, buf_after, outcome),
                }
            }
    }

    /// Reads the target of a symbolic link.
    pub fn readlink(&mut self, inode_id: InodeId, offset: usize, buf: &mut [u8]) -> (outcome: Result<
        usize,
    >)
        requires
            old(self).inv(),
        ensures
            final(self).state() == old(self).state(),
            final(buf)@.len() == old(buf)@.len(),
            old(self).target_read(final(self), inode_id, offset, old(buf)@, final(buf)@, outcome),
    {
        let found = self.read_inode(inode_id);
        let ghost opened = *self;
        assert(old(self).inode_read(&opened, inode_id, found));
        let link = match found {
            Ok(link) => link,
            Err(error) => {
                return Err(error);
            },
        };
        if !link.inode.is_softlink() {
            return Err(Ext4Error::new(ErrCode::EINVAL));
        }
        let size: usize = link.inode.size() as usize;
        if buf.len() == 0 || offset >= size {
            return Ok(0);
        }
        let rest: usize = size - offset;
        let len: usize = if buf.len() < rest {
            buf.len()
        } else {
            rest
        };
        let inline = link.inode.inline_block();
        if size <= inline.len() && link.inode.fs_block_count() == 0 {
            put_bytes(buf, 0, vstd::slice::slice_subrange(inline, offset, offset + len));
            return Ok(len);
        }
        let first: LBlockId = (offset / BLOCK_SIZE) as u32;
        if offset % BLOCK_SIZE == 0 {
            return self.fetch_link(&link, first as u64, 0, len, buf);
        }
        match self.read_head(&link, offset, len, buf) {
            Ok(done) => {
                let ghost read = *self;
                assert(opened.head_read(
                    &read,
                    link,
                    offset,
                    len as int,
                    Ok(buf@.take(done as int)),
                ));
                self.fetch_link(&link, first as u64 + 1, done, len, buf)
            },
            Err(error) => {
                assert(opened.head_read(self, link, offset, len as int, Err(error)));
                Err(error)
            },
        }
    }
}

} // verus!
