//! Finding the blocks of a file, and moving bytes between them and the caller.

use vstd::prelude::*;
use crate::bytes::{put_bytes, splice};
use crate::device::{Block, BlockDevice, Event};
use crate::error::{failed, ErrCode, Ext4Error, Result};
use crate::extent::{extent_at, extent_in, has_entry, ExtentWriteRange};
use crate::fs::Ext4;
use crate::inode::{inline_of, FileType, InodeRef};
use crate::range::{addressable, range_of, WriteLogicalRange};
use crate::volume::{ExtentSearchStep, LayerCall, Volume};
use crate::{InodeId, LBlockId, PBlockId, BLOCK_SIZE};

verus! {

broadcast use Ext4::lemma_with_counts;

/// Where a block of a file stands, and the extent that maps it.
pub type Mapping = (PBlockId, ExtentWriteRange);

impl<D: BlockDevice, V: Volume<D>> Ext4<D, V> {
    /// Where `iblock` stands in an extent, if the block may hold data.
    pub open spec fn mapped_by(&self, extent: ExtentWriteRange, iblock: LBlockId) -> Result<PBlockId> {
        let pblock = extent.start_pblock + (iblock - extent.start_lblock);
        if pblock > u64::MAX || !self.valid_pblock(pblock as u64) || !self.data_range(
            pblock as u64,
            1,
        ) {
            failed(ErrCode::EIO)
        } else {
            Ok(pblock as u64)
        }
    }

    /// Where `iblock` stands by the entry at `index` of a leaf node.
    pub open spec fn mapping_in(&self, node: Seq<u8>, index: usize, iblock: LBlockId) -> Result<
        Mapping,
    > {
        let extent = extent_in(node, index as nat);
        let range = ExtentWriteRange {
            start_lblock: extent.start_lblock,
            end_lblock: (extent.start_lblock + extent.block_count) as u32,
            start_pblock: extent.start_pblock,
        };
        if !has_entry(node, index as nat) || extent.start_lblock + extent.block_count > u32::MAX {
            failed(ErrCode::EIO)
        } else if !range.maps(iblock) {
            failed(ErrCode::ENOENT)
        } else {
            match self.mapped_by(range, iblock) {
                Ok(pblock) => Ok((pblock, range)),
                Err(error) => Err(error),
            }
        }
    }

    /// What following the way to a leaf calls and returns.
    pub open spec fn leaf_read(
        &self,
        after: &Self,
        inode: InodeRef,
        iblock: LBlockId,
        path: Result<Vec<ExtentSearchStep>>,
        outcome: Result<Mapping>,
    ) -> bool {
        match path {
            Err(error) => self.idle(after) && outcome == Err::<Mapping, Ext4Error>(error),
            Ok(steps) => if steps@.len() == 0 {
                self.idle(after) && outcome == failed::<Mapping>(ErrCode::EIO)
            } else {
                match steps@.last().index {
                    Err(_) => self.idle(after) && outcome == failed::<Mapping>(ErrCode::ENOENT),
                    Ok(index) => if steps@.last().pblock == 0 {
                        &&& self.idle(after)
                        &&& outcome == self.mapping_in(inline_of(inode.inode@), index, iblock)
                    } else if !self.valid_pblock(steps@.last().pblock) {
                        self.idle(after) && outcome == failed::<Mapping>(ErrCode::EIO)
                    } else {
                        self.node_read(after, steps@.last().pblock, index, iblock, outcome)
                    },
                }
            },
        }
    }

    /// What reading a leaf outside the inode calls and returns.
    pub open spec fn node_read(
        &self,
        after: &Self,
        home: PBlockId,
        index: usize,
        iblock: LBlockId,
        outcome: Result<Mapping>,
    ) -> bool {
        exists|reply: Result<Block>|
            {
                &&& #[trigger] self.block_read(after, home, reply)
                &&& outcome == match reply {
                    Ok(node) => self.mapping_in(node.data@, index, iblock),
                    Err(error) => Err(error),
                }
            }
    }

    /// What looking for a block of a file calls, counts and returns.
    pub open spec fn extent_found(
        &self,
        after: &Self,
        inode: InodeRef,
        iblock: LBlockId,
        outcome: Result<Mapping>,
    ) -> bool {
        exists|asked: Self, path: Result<Vec<ExtentSearchStep>>|
            {
                &&& #[trigger] self.with_counts(self.counts().with_query()).asked(
                    &asked,
                    LayerCall::FindExtent { inode, iblock, reply: path },
                )
                &&& asked.leaf_read(after, inode, iblock, path, outcome)
            }
    }

    /// Where `iblock` stands in an extent, if the block may hold data.
    fn pblock_in(&self, extent: &ExtentWriteRange, iblock: LBlockId) -> (outcome: Result<PBlockId>)
        requires
            extent.maps(iblock),
        ensures
            outcome == self.mapped_by(*extent, iblock),
    {
        let pblock: PBlockId = match extent.start_pblock.checked_add(
            (iblock - extent.start_lblock) as u64,
        ) {
            Some(pblock) => pblock,
            None => {
                return Err(Ext4Error::new(ErrCode::EIO));
            },
        };
        if self.ensure_valid_pblock(pblock).is_err() || self.validate_data_blocks(
            pblock,
            1,
        ).is_err() {
            return Err(Ext4Error::new(ErrCode::EIO));
        }
        Ok(pblock)
    }

    /// Where `iblock` stands by the entry at `index` of a leaf node.
    fn mapping_at(&self, node: &[u8], index: usize, iblock: LBlockId) -> (outcome: Result<Mapping>)
        ensures
            outcome == self.mapping_in(node@, index, iblock),
    {
        let extent = match extent_at(node, index) {
            Some(extent) => extent,
            None => {
                return Err(Ext4Error::new(ErrCode::EIO));
            },
        };
        let end_lblock: LBlockId = match extent.start_lblock.checked_add(extent.block_count) {
            Some(end) => end,
            None => {
                return Err(Ext4Error::new(ErrCode::EIO));
            },
        };
        if iblock < extent.start_lblock || iblock >= end_lblock {
            return Err(Ext4Error::new(ErrCode::ENOENT));
        }
        let range = ExtentWriteRange {
            start_lblock: extent.start_lblock,
            end_lblock,
            start_pblock: extent.start_pblock,
        };
        match self.pblock_in(&range, iblock) {
            Ok(pblock) => Ok((pblock, range)),
            Err(error) => Err(error),
        }
    }

    /// Where a block of a file stands, and the extent that maps it.
    pub(crate) fn extent_query_with_range(&mut self, inode: &InodeRef, iblock: LBlockId) -> (outcome:
        Result<Mapping>)
        requires
            old(self).inv(),
        ensures
            final(self).state() == old(self).state(),
            old(self).extent_found(final(self), *inode, iblock, outcome),
            outcome matches Ok((_, range)) ==> range.maps(iblock),
    {
        self.record_extent_query_attempt();
        let path = self.find_extent(inode, iblock);
        let ghost asked = *self;
        let ghost way = path;
        assert(old(self).with_counts(old(self).counts().with_query()).asked(
            &asked,
            LayerCall::FindExtent { inode: *inode, iblock, reply: way },
        ));
        let steps = match path {
            Ok(steps) => steps,
            Err(error) => {
                return Err(error);
            },
        };
        if steps.len() == 0 {
            return Err(Ext4Error::new(ErrCode::EIO));
        }
        let leaf = steps[steps.len() - 1];
        assert(leaf == steps@.last());
        let index: usize = match leaf.index {
            Ok(index) => index,
            Err(_) => {
                return Err(Ext4Error::new(ErrCode::ENOENT));
            },
        };
        if leaf.pblock == 0 {
            return self.mapping_at(inode.inode.inline_block(), index, iblock);
        }
        match self.ensure_valid_pblock(leaf.pblock) {
            Ok(_) => {},
            Err(error) => {
                return Err(error);
            },
        }
        let reply = self.read_block(leaf.pblock);
        assert(asked.block_read(self, leaf.pblock, reply));
        match reply {
            Ok(node) => self.mapping_at(node.data.as_slice(), index, iblock),
            Err(error) => Err(error),
        }
    }

    /// What asking for the place of a block calls and returns.
    pub open spec fn block_located(
        &self,
        after: &Self,
        inode: InodeRef,
        iblock: LBlockId,
        outcome: Result<PBlockId>,
    ) -> bool {
        exists|reply: Result<Mapping>|
            {
                &&& #[trigger] self.extent_found(after, inode, iblock, reply)
                &&& outcome == match reply {
                    Ok(mapping) => Ok::<PBlockId, Ext4Error>(mapping.0),
                    Err(error) => Err(error),
                }
            }
    }

    /// Where a block of a file stands.
    pub fn extent_query(&mut self, inode: &InodeRef, iblock: LBlockId) -> (outcome: Result<PBlockId>)
        requires
            old(self).inv(),
        ensures
            final(self).state() == old(self).state(),
            old(self).block_located(final(self), *inode, iblock, outcome),
    {
        let reply = self.extent_query_with_range(inode, iblock);
        assert(old(self).extent_found(self, *inode, iblock, reply));
        match reply {
            Ok((pblock, _)) => Ok(pblock),
            Err(error) => Err(error),
        }
    }
}

/// The first byte of a write that belongs to its block number `index`.
pub open spec fn piece_start(offset: usize, index: int) -> int {
    if index == 0 {
        0
    } else {
        index * BLOCK_SIZE - offset as int % BLOCK_SIZE as int
    }
}

/// The byte of a write behind the last one that belongs to its block number `index`.
pub open spec fn piece_end(offset: usize, len: nat, index: int) -> int {
    let end = (index + 1) * BLOCK_SIZE - offset as int % BLOCK_SIZE as int;
    if end < len {
        end
    } else {
        len as int
    }
}

/// The offset inside block number `index` of a write at which its bytes go.
pub open spec fn piece_offset(offset: usize, index: int) -> int {
    if index == 0 {
        offset as int % BLOCK_SIZE as int
    } else {
        0
    }
}

/// Whether a write replaces all of its block number `index`.
pub open spec fn covers_block(offset: usize, len: nat, index: int) -> bool {
    piece_end(offset, len, index) - piece_start(offset, index) == BLOCK_SIZE
}

/// Block number `index` of a write, once its bytes went over what the block held.
pub open spec fn merged(base: Seq<u8>, offset: usize, data: Seq<u8>, index: int) -> Seq<u8> {
    splice(
        base,
        piece_offset(offset, index),
        data.subrange(piece_start(offset, index), piece_end(offset, data.len(), index)),
    )
}

/// The end of the stretch of neighbouring blocks that begins at `at`.
pub open spec fn stretch_end(blocks: Seq<PBlockId>, at: int) -> int
    decreases blocks.len() - at,
{
    if at + 1 < blocks.len() && blocks[at] + 1 == blocks[at + 1] {
        stretch_end(blocks, at + 1)
    } else {
        at + 1
    }
}

/// The end of the stretch of neighbouring blocks that begins at `at`.
fn find_stretch_end(blocks: &Vec<PBlockId>, at: usize) -> (end: usize)
    requires
        at < blocks@.len(),
    ensures
        end == stretch_end(blocks@, at as int),
        at < end <= blocks@.len(),
{
    let count: usize = blocks.len();
    let mut end: usize = at + 1;
    while end < count && blocks[end - 1] < u64::MAX && blocks[end - 1] + 1 == blocks[end]
        invariant
            at < end <= count,
            count == blocks@.len(),
            stretch_end(blocks@, at as int) == stretch_end(blocks@, end - 1),
        decreases blocks@.len() - end,
    {
        end = end + 1;
    }
    end
}

impl<D: BlockDevice, V: Volume<D>> Ext4<D, V> {
    /// What finding the place of a block calls and returns where an extent is at hand.
    pub open spec fn resolved(
        &self,
        after: &Self,
        inode: InodeRef,
        iblock: LBlockId,
        cached: Option<ExtentWriteRange>,
        found: Result<Mapping>,
    ) -> bool {
        if cached is Some && cached->0.maps(iblock) {
            &&& self.idle(after)
            &&& found == match self.mapped_by(cached->0, iblock) {
                Ok(pblock) => Ok::<Mapping, Ext4Error>((pblock, cached->0)),
                Err(error) => Err(error),
            }
        } else {
            self.extent_found(after, inode, iblock, found)
        }
    }

    /// Finds the place of a block, in an extent that is at hand where it maps the block.
    pub(crate) fn resolve(
        &mut self,
        inode: &InodeRef,
        iblock: LBlockId,
        cached: &Option<ExtentWriteRange>,
    ) -> (found: Result<Mapping>)
        requires
            old(self).inv(),
        ensures
            final(self).state() == old(self).state(),
            old(self).resolved(final(self), *inode, iblock, *cached, found),
    {
        match cached {
            Some(extent) => {
                if iblock >= extent.start_lblock && iblock < extent.end_lblock {
                    return match self.pblock_in(extent, iblock) {
                        Ok(pblock) => Ok((pblock, *extent)),
                        Err(error) => Err(error),
                    };
                }
            },
            None => {},
        }
        self.extent_query_with_range(inode, iblock)
    }

    /// What finding the places of the next `left` blocks of a file calls and returns.
    pub open spec fn blocks_mapped(
        &self,
        after: &Self,
        inode: InodeRef,
        iblock: int,
        left: nat,
        cached: Option<ExtentWriteRange>,
        done: Seq<PBlockId>,
        outcome: Result<Seq<PBlockId>>,
    ) -> bool
        decreases left,
    {
        if left == 0 {
            self.idle(after) && outcome == Ok::<Seq<PBlockId>, Ext4Error>(done)
        } else {
            exists|mapped: Self, found: Result<Mapping>|
                {
                    &&& #[trigger] self.resolved(&mapped, inode, iblock as u32, cached, found)
                    &&& match found {
                        Ok(mapping) => mapped.blocks_mapped(
                            after,
                            inode,
                            iblock + 1,
                            (left - 1) as nat,
                            Some(mapping.1),
                            done.push(mapping.0),
                            outcome,
                        ),
                        Err(error) => mapped.idle(after) && outcome == Err::<
                            Seq<PBlockId>,
                            Ext4Error,
                        >(error),
                    }
                }
        }
    }

    /// Finds the places of the blocks of a range.
    fn map_blocks(&mut self, inode: &InodeRef, range: &WriteLogicalRange) -> (outcome: Result<
        Vec<PBlockId>,
    >)
        requires
            old(self).inv(),
            range.inv(),
        ensures
            final(self).state() == old(self).state(),
            old(self).blocks_mapped(
                final(self),
                *inode,
                range.first_lblock as int,
                range.block_count as nat,
                None,
                Seq::empty(),
                crate::balloc::blocks_in(outcome),
            ),
            outcome matches Ok(blocks) ==> blocks@.len() == range.block_count,
    {
        let mut blocks: Vec<PBlockId> = Vec::new();
        let mut cached: Option<ExtentWriteRange> = None;
        assert(blocks@ =~= Seq::<PBlockId>::empty());
        while blocks.len() < range.block_count
            invariant
                self.inv(),
                range.inv(),
                self.state() == old(self).state(),
                blocks@.len() <= range.block_count,
                forall|end: Self, outcome: Result<Seq<PBlockId>>|
                    #[trigger] self.blocks_mapped(
                        &end,
                        *inode,
                        range.first_lblock + blocks@.len(),
                        (range.block_count - blocks@.len()) as nat,
                        cached,
                        blocks@,
                        outcome,
                    ) ==> old(self).blocks_mapped(
                        &end,
                        *inode,
                        range.first_lblock as int,
                        range.block_count as nat,
                        None,
                        Seq::empty(),
                        outcome,
                    ),
            decreases range.block_count - blocks@.len(),
        {
            let ghost before = *self;
            let ghost done = blocks@;
            let ghost held = cached;
            let iblock: LBlockId = range.first_lblock + blocks.len() as u32;
            let found = self.resolve(inode, iblock, &cached);
            let ghost mapped = *self;
            assert(before.resolved(
                &mapped,
                *inode,
                (range.first_lblock + done.len()) as u32,
                held,
                found,
            ));
            match found {
                Ok((pblock, extent)) => {
                    blocks.push(pblock);
                    cached = Some(extent);
                },
                Err(error) => {
                    assert(before.blocks_mapped(
                        self,
                        *inode,
                        range.first_lblock + done.len(),
                        (range.block_count - done.len()) as nat,
                        held,
                        done,
                        Err(error),
                    ));
                    return Err(error);
                },
            }
            assert forall|end: Self, outcome: Result<Seq<PBlockId>>|
                #[trigger] self.blocks_mapped(
                    &end,
                    *inode,
                    range.first_lblock + blocks@.len(),
                    (range.block_count - blocks@.len()) as nat,
                    cached,
                    blocks@,
                    outcome,
                ) implies old(self).blocks_mapped(
                &end,
                *inode,
                range.first_lblock as int,
                range.block_count as nat,
                None,
                Seq::empty(),
                outcome,
            ) by {
                assert(before.resolved(
                    &mapped,
                    *inode,
                    (range.first_lblock + done.len()) as u32,
                    held,
                    found,
                ));
                assert(before.blocks_mapped(
                    &end,
                    *inode,
                    range.first_lblock + done.len(),
                    (range.block_count - done.len()) as nat,
                    held,
                    done,
                    outcome,
                ));
            }
        }
        assert(self.blocks_mapped(
            self,
            *inode,
            range.first_lblock + blocks@.len(),
            (range.block_count - blocks@.len()) as nat,
            cached,
            blocks@,
            Ok(blocks@),
        ));
        Ok(blocks)
    }

    /// What making up the blocks of a write calls and returns: a block that the write does not
    /// cover is read first.
    pub open spec fn blocks_merged(
        &self,
        after: &Self,
        blocks: Seq<PBlockId>,
        index: int,
        offset: usize,
        data: Seq<u8>,
        done: Seq<u8>,
        outcome: Result<Seq<u8>>,
    ) -> bool
        decreases blocks.len() - index,
    {
        if index >= blocks.len() {
            self.idle(after) && outcome == Ok::<Seq<u8>, Ext4Error>(done)
        } else if covers_block(offset, data.len(), index) {
            self.blocks_merged(
                after,
                blocks,
                index + 1,
                offset,
                data,
                done + data.subrange(
                    piece_start(offset, index),
                    piece_end(offset, data.len(), index),
                ),
                outcome,
            )
        } else {
            exists|read: Self, reply: Result<Block>|
                {
                    &&& #[trigger] self.block_read(&read, blocks[index], reply)
                    &&& match reply {
                        Ok(block) => read.blocks_merged(
                            after,
                            blocks,
                            index + 1,
                            offset,
                            data,
                            done + merged(block.data@, offset, data, index),
                            outcome,
                        ),
                        Err(error) => read.idle(after) && outcome == Err::<Seq<u8>, Ext4Error>(
                            error,
                        ),
                    }
                }
        }
    }

    /// What writing blocks in stretches of neighbours calls and returns.
    pub open spec fn stretches_written(
        &self,
        after: &Self,
        blocks: Seq<PBlockId>,
        at: int,
        bytes: Seq<u8>,
        outcome: Result<()>,
    ) -> bool
        decreases blocks.len() - at,
    {
        let end = stretch_end(blocks, at);
        if !(0 <= at < end <= blocks.len()) {
            self.idle(after) && outcome == Ok::<(), Ext4Error>(())
        } else {
            exists|written: Self, reply: Result<()>|
                {
                    &&& #[trigger] self.did(
                        &written,
                        Event::WriteBlocks {
                            start: blocks[at],
                            data: bytes.subrange(at * BLOCK_SIZE, end * BLOCK_SIZE),
                            reply,
                        },
                    )
                    &&& match reply {
                        Ok(_) => written.stretches_written(after, blocks, end, bytes, outcome),
                        Err(error) => written.idle(after) && outcome == Err::<(), Ext4Error>(
                            error,
                        ),
                    }
                }
        }
    }
}

/// The bytes of an outcome.
pub open spec fn bytes_in(outcome: Result<Vec<u8>>) -> Result<Seq<u8>> {
    match outcome {
        Ok(bytes) => Ok(bytes@),
        Err(error) => Err(error),
    }
}

/// The last piece of a write ends with its last block, and the others fill theirs.
pub proof fn lemma_pieces(offset: usize, len: usize, index: int)
    requires
        len > 0,
        addressable(offset, len),
        0 <= index < range_of(offset, len).block_count,
    ensures
        0 <= piece_start(offset, index) < piece_end(offset, len as nat, index) <= len,
        piece_offset(offset, index) + piece_end(offset, len as nat, index) - piece_start(
            offset,
            index,
        ) <= BLOCK_SIZE,
        index == 0 ==> piece_offset(offset, index) < BLOCK_SIZE,
        range_of(offset, len).block_count == (offset as int % BLOCK_SIZE as int + len - 1)
            / BLOCK_SIZE as int + 1,
{
    let skew = offset as int % BLOCK_SIZE as int;
    let first = offset as int / BLOCK_SIZE as int;
    assert(offset == first * BLOCK_SIZE + skew);
    assert((offset + len - 1) / BLOCK_SIZE as int == first + (skew + len - 1) / BLOCK_SIZE as int);
    assert(range_of(offset, len).block_count == (skew + len - 1) / BLOCK_SIZE as int + 1);
}

impl<D: BlockDevice, V: Volume<D>> Ext4<D, V> {
    /// Makes up the blocks of a write.
    fn merge_blocks(&mut self, blocks: &Vec<PBlockId>, offset: usize, data: &[u8]) -> (outcome:
        Result<Vec<u8>>)
        requires
            old(self).inv(),
            data@.len() > 0,
            addressable(offset, data@.len() as usize),
            blocks@.len() == range_of(offset, data@.len() as usize).block_count,
        ensures
            final(self).state() == old(self).state(),
            old(self).blocks_merged(
                final(self),
                blocks@,
                0,
                offset,
                data@,
                Seq::empty(),
                bytes_in(outcome),
            ),
            outcome matches Ok(bytes) ==> bytes@.len() == blocks@.len() * BLOCK_SIZE,
    {
        let skew: usize = offset % BLOCK_SIZE;
        let len: usize = data.len();
        let mut bytes: Vec<u8> = Vec::new();
        let mut index: usize = 0;
        let mut start: usize = 0;
        assert(bytes@ =~= Seq::<u8>::empty());
        while index < blocks.len()
            invariant
                self.inv(),
                self.state() == old(self).state(),
                skew == offset as int % BLOCK_SIZE as int,
                len == data@.len(),
                len > 0,
                addressable(offset, len),
                blocks@.len() == range_of(offset, len).block_count,
                index <= blocks@.len(),
                index < blocks@.len() ==> start == piece_start(offset, index as int),
                bytes@.len() == index * BLOCK_SIZE,
                forall|end: Self, outcome: Result<Seq<u8>>|
                    #[trigger] self.blocks_merged(
                        &end,
                        blocks@,
                        index as int,
                        offset,
                        data@,
                        bytes@,
                        outcome,
                    ) ==> old(self).blocks_merged(
                        &end,
                        blocks@,
                        0,
                        offset,
                        data@,
                        Seq::empty(),
                        outcome,
                    ),
            decreases blocks@.len() - index,
        {
            let ghost before = *self;
            let ghost done = bytes@;
            let ghost tried = index;
            proof {
                lemma_pieces(offset, len, index as int);
            }
            let block_offset: usize = if index == 0 {
                skew
            } else {
                0
            };
            let left: usize = len - start;
            let room: usize = BLOCK_SIZE - block_offset;
            let write_len: usize = if room < left {
                room
            } else {
                left
            };
            assert(start + write_len == piece_end(offset, len as nat, index as int));
            let piece = vstd::slice::slice_subrange(data, start, start + write_len);
            let ghost mut read = *self;
            let ghost mut answer: Result<Block> = Err(Ext4Error { code: ErrCode::EIO });
            if write_len == BLOCK_SIZE {
                append(&mut bytes, piece);
            } else {
                let reply = self.read_block(blocks[index]);
                proof {
                    read = *self;
                    answer = reply;
                }
                assert(before.block_read(&read, blocks@[index as int], reply));
                match reply {
                    Ok(block) => {
                        let mut image: [u8; BLOCK_SIZE] = *block.data;
                        put_bytes(&mut image, block_offset, piece);
                        append(&mut bytes, image.as_slice());
                    },
                    Err(error) => {
                        assert(before.blocks_merged(
                            self,
                            blocks@,
                            index as int,
                            offset,
                            data@,
                            done,
                            Err(error),
                        ));
                        return Err(error);
                    },
                }
            }
            start = start + write_len;
            index = index + 1;
            assert forall|end: Self, outcome: Result<Seq<u8>>|
                #[trigger] self.blocks_merged(
                    &end,
                    blocks@,
                    index as int,
                    offset,
                    data@,
                    bytes@,
                    outcome,
                ) implies old(self).blocks_merged(
                &end,
                blocks@,
                0,
                offset,
                data@,
                Seq::empty(),
                outcome,
            ) by {
                if write_len != BLOCK_SIZE {
                    assert(before.block_read(&read, blocks@[tried as int], answer));
                }
                assert(before.blocks_merged(
                    &end,
                    blocks@,
                    tried as int,
                    offset,
                    data@,
                    done,
                    outcome,
                ));
            }
        }
        assert(self.blocks_merged(
            self,
            blocks@,
            index as int,
            offset,
            data@,
            bytes@,
            Ok(bytes@),
        ));
        Ok(bytes)
    }

    /// Writes blocks in stretches of neighbours.
    fn write_stretches(&mut self, blocks: &Vec<PBlockId>, bytes: &Vec<u8>) -> (outcome: Result<()>)
        requires
            old(self).inv(),
            bytes@.len() == blocks@.len() * BLOCK_SIZE,
        ensures
            final(self).state() == old(self).state(),
            old(self).stretches_written(final(self), blocks@, 0, bytes@, outcome),
    {
        let total: usize = bytes.len();
        let mut at: usize = 0;
        while at < blocks.len()
            invariant
                self.inv(),
                self.state() == old(self).state(),
                total == bytes@.len(),
                bytes@.len() == blocks@.len() * BLOCK_SIZE,
                at <= blocks@.len(),
                forall|end: Self, outcome: Result<()>|
                    #[trigger] self.stretches_written(
                        &end,
                        blocks@,
                        at as int,
                        bytes@,
                        outcome,
                    ) ==> old(self).stretches_written(&end, blocks@, 0, bytes@, outcome),
            decreases blocks@.len() - at,
        {
            let ghost before = *self;
            let ghost tried = at;
            let next: usize = find_stretch_end(blocks, at);
            let reply = self.write_blocks(
                blocks[at],
                vstd::slice::slice_subrange(bytes.as_slice(), at * BLOCK_SIZE, next * BLOCK_SIZE),
            );
            let ghost written = *self;
            assert(before.did(
                &written,
                Event::WriteBlocks {
                    start: blocks@[at as int],
                    data: bytes@.subrange(at * BLOCK_SIZE, next * BLOCK_SIZE),
                    reply,
                },
            ));
            match reply {
                Ok(_) => {},
                Err(error) => {
                    assert(before.stretches_written(
                        self,
                        blocks@,
                        at as int,
                        bytes@,
                        Err(error),
                    ));
                    return Err(error);
                },
            }
            at = next;
            assert forall|end: Self, outcome: Result<()>|
                #[trigger] self.stretches_written(
                    &end,
                    blocks@,
                    at as int,
                    bytes@,
                    outcome,
                ) implies old(self).stretches_written(&end, blocks@, 0, bytes@, outcome) by {
                assert(before.did(
                    &written,
                    Event::WriteBlocks {
                        start: blocks@[tried as int],
                        data: bytes@.subrange(tried * BLOCK_SIZE, at * BLOCK_SIZE),
                        reply,
                    },
                ));
                assert(before.stretches_written(&end, blocks@, tried as int, bytes@, outcome));
            }
        }
        assert(self.stretches_written(self, blocks@, at as int, bytes@, Ok(())));
        Ok(())
    }

    /// What writing to mapped blocks calls and returns: every block is found before the first one
    /// is read, and all are made up before the first one is written.
    pub open spec fn mapped_written(
        &self,
        after: &Self,
        file: InodeRef,
        offset: usize,
        data: Seq<u8>,
        outcome: Result<usize>,
    ) -> bool {
        let len = data.len() as usize;
        let range = range_of(offset, len);
        if len == 0 {
            self.idle(after) && outcome == Ok::<usize, Ext4Error>(0)
        } else if !addressable(offset, len) {
            self.idle(after) && outcome == failed::<usize>(ErrCode::EFBIG)
        } else if file.inode.kind() != FileType::RegularFile {
            self.idle(after) && outcome == failed::<usize>(ErrCode::EISDIR)
        } else {
            exists|mapped: Self, blocks: Result<Seq<PBlockId>>|
                {
                    &&& #[trigger] self.blocks_mapped(
                        &mapped,
                        file,
                        range.first_lblock as int,
                        range.block_count as nat,
                        None,
                        Seq::empty(),
                        blocks,
                    )
                    &&& match blocks {
                        Err(error) => mapped.idle(after) && outcome == Err::<usize, Ext4Error>(
                            error,
                        ),
                        Ok(homes) => mapped.homes_written(after, homes, offset, data, outcome),
                    }
                }
        }
    }

    /// What writing to blocks that were found calls and returns.
    pub open spec fn homes_written(
        &self,
        after: &Self,
        homes: Seq<PBlockId>,
        offset: usize,
        data: Seq<u8>,
        outcome: Result<usize>,
    ) -> bool {
        exists|made: Self, bytes: Result<Seq<u8>>|
            {
                &&& #[trigger] self.blocks_merged(
                    &made,
                    homes,
                    0,
                    offset,
                    data,
                    Seq::empty(),
                    bytes,
                )
                &&& match bytes {
                    Err(error) => made.idle(after) && outcome == Err::<usize, Ext4Error>(error),
                    Ok(images) => made.images_written(
                        after,
                        homes,
                        images,
                        data.len() as usize,
                        outcome,
                    ),
                }
            }
    }

    /// What writing blocks that were made up calls and returns.
    pub open spec fn images_written(
        &self,
        after: &Self,
        homes: Seq<PBlockId>,
        images: Seq<u8>,
        len: usize,
        outcome: Result<usize>,
    ) -> bool {
        exists|reply: Result<()>|
            {
                &&& #[trigger] self.stretches_written(after, homes, 0, images, reply)
                &&& outcome == match reply {
                    Ok(_) => Ok::<usize, Ext4Error>(len),
                    Err(error) => Err(error),
                }
            }
    }

    /// Writes to blocks that are already mapped.
    pub(crate) fn write_mapped_data(&mut self, file: &InodeRef, offset: usize, data: &[u8]) -> (
    outcome: Result<usize>)
        requires
            old(self).inv(),
        ensures
            final(self).state() == old(self).state(),
            old(self).mapped_written(final(self), *file, offset, data@, outcome),
            outcome matches Ok(written) ==> written == data@.len(),
    {
        let range = match WriteLogicalRange::checked(offset, data.len()) {
            Ok(Some(range)) => range,
            Ok(None) => {
                return Ok(0);
            },
            Err(error) => {
                return Err(error);
            },
        };
        if !file.inode.is_file() {
            return Err(Ext4Error::new(ErrCode::EISDIR));
        }
        let blocks = self.map_blocks(file, &range);
        let ghost mapped = *self;
        assert(old(self).blocks_mapped(
            &mapped,
            *file,
            range.first_lblock as int,
            range.block_count as nat,
            None,
            Seq::empty(),
            crate::balloc::blocks_in(blocks),
        ));
        let homes = match blocks {
            Ok(homes) => homes,
            Err(error) => {
                return Err(error);
            },
        };
        let bytes = self.merge_blocks(&homes, offset, data);
        let ghost made = *self;
        assert(mapped.blocks_merged(
            &made,
            homes@,
            0,
            offset,
            data@,
            Seq::empty(),
            bytes_in(bytes),
        ));
        let images = match bytes {
            Ok(images) => images,
            Err(error) => {
                return Err(error);
            },
        };
        let reply = self.write_stretches(&homes, &images);
        assert(made.stretches_written(self, homes@, 0, images@, reply));
        let outcome: Result<usize> = match reply {
            Ok(_) => Ok(data.len()),
            Err(error) => Err(error),
        };
        assert(made.images_written(self, homes@, images@, data@.len() as usize, outcome));
        assert(mapped.homes_written(self, homes@, offset, data@, outcome));
        outcome
    }
}

/// Adds bytes at the end.
pub(crate) fn append(bytes: &mut Vec<u8>, more: &[u8])
    ensures
        final(bytes)@ == old(bytes)@ + more@,
{
    bytes.extend_from_slice(more);
    assert(bytes@ =~= old(bytes)@ + more@);
}

impl<D: BlockDevice, V: Volume<D>> Ext4<D, V> {
    /// What writing data alone calls and returns, inside the barrier.
    pub open spec fn data_written(
        &self,
        after: &Self,
        file: InodeId,
        offset: usize,
        data: Seq<u8>,
        outcome: Result<usize>,
    ) -> bool {
        exists|read: Self, found: Result<InodeRef>|
            {
                &&& #[trigger] self.inode_read(&read, file, found)
                &&& match found {
                    Err(error) => read.idle(after) && outcome == Err::<usize, Ext4Error>(error),
                    Ok(inode) => read.mapped_written(after, inode, offset, data, outcome),
                }
            }
    }

    /// Writes data to blocks that are already mapped, without changing the inode.
    ///
    /// Every block is found before data is read or written. Blocks that are neighbours on the
    /// device are written together.
    pub fn write_data_only(&mut self, file: InodeId, offset: usize, data: &[u8]) -> (outcome: Result<
        usize,
    >)
        requires
            old(self).inv(),
        ensures
            final(self).inv(),
            final(self).state().gate == old(self).state().gate,
            old(self).changed_directly(
                final(self),
                |inside: Self, left: Self, outcome: Result<usize>|
                    inside.data_written(&left, file, offset, data@, outcome),
                outcome,
            ),
    {
        match self.ensure_mutable() {
            Ok(_) => {},
            Err(error) => {
                return Err(error);
            },
        }
        let lock = self.lock_direct_metadata_mutation();
        let ghost inside = *self;
        assert(old(self).direct_entered(&inside, lock));
        match lock {
            Ok(_) => {},
            Err(error) => {
                return Err(error);
            },
        }
        let outcome = self.write_data_locked(file, offset, data);
        self.unlock_direct_metadata_mutation();
        outcome
    }

    /// Writes data inside the barrier.
    fn write_data_locked(&mut self, file: InodeId, offset: usize, data: &[u8]) -> (outcome: Result<
        usize,
    >)
        requires
            old(self).inv(),
        ensures
            final(self).state() == old(self).state(),
            old(self).data_written(final(self), file, offset, data@, outcome),
    {
        let found = self.read_inode(file);
        let ghost read = *self;
        assert(old(self).inode_read(&read, file, found));
        match found {
            Ok(inode) => self.write_mapped_data(&inode, offset, data),
            Err(error) => Err(error),
        }
    }
}

} // verus!
