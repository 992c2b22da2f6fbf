//! Allocating and releasing single blocks.
//!
//! An allocation changes the block bitmap, the descriptor of its group and the superblock, in that
//! order. When one of the writes fails, those before it are undone.

use vstd::prelude::*;
use crate::bytes::zeros;
use crate::device::{Block, BlockDevice, Event};
use crate::error::{failed, ErrCode, Ext4Error, Result};
use crate::fs::{Ext4, FsState};
use crate::inode::{halves32, halves64, with_halves32, with_halves64, InodeRef};
use crate::superblock::{
    lemma_free_reads_back, lemma_group_free_reads_back, sealed_desc, sealed_superblock,
    with_bitmap_sum, BlockGroupId, BlockGroupRef, SuperBlock, SB_GOOD_DESC_SIZE,
};
use crate::volume::Volume;
use crate::{InodeId, PBlockId, BLOCK_SIZE};

verus! {

/// Blocks that one bitmap can describe.
pub const BITMAP_BITS: usize = 32768;

/// Whether a block is marked as used.
pub open spec fn bit_set(bitmap: Seq<u8>, bit: int) -> bool {
    bitmap[bit / 8] & (1u8 << ((bit % 8) as u8)) != 0
}

/// A bitmap with one more block marked as used.
pub open spec fn with_bit(bitmap: Seq<u8>, bit: int) -> Seq<u8> {
    bitmap.update(bit / 8, bitmap[bit / 8] | (1u8 << ((bit % 8) as u8)))
}

/// A bitmap with one block less marked as used.
pub open spec fn without_bit(bitmap: Seq<u8>, bit: int) -> Seq<u8> {
    bitmap.update(bit / 8, bitmap[bit / 8] & !(1u8 << ((bit % 8) as u8)))
}

/// Whether `bit` is the first of `limit` blocks that is free.
pub open spec fn first_clear(bitmap: Seq<u8>, limit: int, bit: int) -> bool {
    &&& 0 <= bit < limit
    &&& !bit_set(bitmap, bit)
    &&& forall|i: int| 0 <= i < bit ==> bit_set(bitmap, i)
}

/// The first of `limit` blocks that is free.
pub open spec fn clear_bit(bitmap: Seq<u8>, limit: int) -> Option<int> {
    if exists|bit: int| first_clear(bitmap, limit, bit) {
        Some(choose|bit: int| first_clear(bitmap, limit, bit))
    } else {
        None
    }
}

/// Marking a block as used or free changes the mark of that block alone.
pub proof fn lemma_marks_are_independent(bitmap: Seq<u8>, bit: int, other: int)
    requires
        bitmap.len() == BLOCK_SIZE,
        0 <= bit < BITMAP_BITS,
        0 <= other < BITMAP_BITS,
    ensures
        bit_set(with_bit(bitmap, bit), other) == (bit == other || bit_set(bitmap, other)),
        bit_set(without_bit(bitmap, bit), other) == (bit != other && bit_set(bitmap, other)),
{
    let byte = bitmap[bit / 8];
    let a = (bit % 8) as u8;
    let b = (other % 8) as u8;
    assert((byte | (1u8 << a)) & (1u8 << b) != 0 <==> (a == b || byte & (1u8 << b) != 0))
        by (bit_vector)
        requires
            a < 8,
            b < 8,
    ;
    assert((byte & !(1u8 << a)) & (1u8 << b) != 0 <==> (a != b && byte & (1u8 << b) != 0))
        by (bit_vector)
        requires
            a < 8,
            b < 8,
    ;
}

/// The first free block of `limit` blocks.
fn find_clear(bitmap: &[u8; BLOCK_SIZE], limit: usize) -> (bit: Option<usize>)
    requires
        limit <= BITMAP_BITS,
    ensures
        match bit {
            Some(found) => clear_bit(bitmap@, limit as int) == Some(found as int) && found < limit,
            None => clear_bit(bitmap@, limit as int) is None,
        },
{
    let mut at: usize = 0;
    while at < limit
        invariant
            at <= limit,
            limit <= BITMAP_BITS,
            forall|i: int| 0 <= i < at ==> #[trigger] bit_set(bitmap@, i),
        decreases limit - at,
    {
        if bitmap[at / 8] & (1u8 << ((at % 8) as u8)) == 0 {
            assert(first_clear(bitmap@, limit as int, at as int));
            proof {
                let other = choose|bit: int| first_clear(bitmap@, limit as int, bit);
                assert(first_clear(bitmap@, limit as int, other));
                if other < at {
                    assert(bit_set(bitmap@, other));
                } else if other > at {
                    assert(bit_set(bitmap@, at as int));
                }
            }
            return Some(at);
        }
        at = at + 1;
    }
    None
}

impl FsState {
    /// The blocks of a group that exist.
    pub open spec fn group_size(&self, group: int) -> int {
        let first = crate::bytes::le32_at(self.superblock, 20);
        let per_group = crate::bytes::le32_at(self.superblock, 32);
        let blocks = halves64(self.superblock, 4, 336);
        let left = blocks - first - group * per_group;
        let size = if left < per_group {
            left
        } else {
            per_group as int
        };
        if size < 0 {
            0
        } else if size > BITMAP_BITS {
            BITMAP_BITS as int
        } else {
            size
        }
    }

    /// The block that a bit of a group's bitmap stands for.
    pub open spec fn block_of_bit(&self, group: int, bit: int) -> int {
        crate::bytes::le32_at(self.superblock, 20) + group * crate::bytes::le32_at(
            self.superblock,
            32,
        ) + bit
    }

    /// The group of an inode; the first one for an inode without a group.
    pub open spec fn home_group(&self, inode: InodeId) -> int {
        let per_group = crate::bytes::le32_at(self.superblock, 40) as int;
        if inode == 0 || per_group == 0 || (inode - 1) / per_group >= self.groups.len() {
            0
        } else {
            (inode - 1) / per_group
        }
    }

    /// The descriptor of a group after its bitmap became `bitmap` and its free blocks `free`.
    pub open spec fn changed_desc(&self, group: int, bitmap: Seq<u8>, free: u64) -> Seq<u8> {
        sealed_desc(
            with_bitmap_sum(
                with_halves32(self.groups[group], 12, 44, free as u32),
                bitmap,
                self.superblock,
            ),
            group as u32,
            self.superblock,
        )
    }

    /// The superblock after its free blocks became `free`.
    pub open spec fn changed_superblock(&self, free: u64) -> Seq<u8> {
        sealed_superblock(with_halves64(self.superblock, 12, 344, free))
    }
}

/// A search result with its numbers as integers.
pub open spec fn found_in(found: Result<Option<(usize, usize, Block)>>) -> Result<
    Option<(int, int, Block)>,
> {
    match found {
        Ok(Some((group, bit, bitmap))) => Ok(Some((group as int, bit as int, bitmap))),
        Ok(None) => Ok(None),
        Err(error) => Err(error),
    }
}

impl<D: BlockDevice, V: Volume<D>> Ext4<D, V> {
    /// The bitmap was written back; where that failed, nothing may change any more.
    pub open spec fn bitmap_undone(
        &self,
        after: &Self,
        bitmap: Block,
        error: Ext4Error,
        outcome: Result<()>,
    ) -> bool {
        exists|written: Self, reply: Result<()>|
            {
                &&& #[trigger] self.did(
                    &written,
                    Event::WriteBlock { id: bitmap.id, data: bitmap.data@, reply },
                )
                &&& match reply {
                    Ok(_) => written.idle(after) && outcome == Err::<(), Ext4Error>(error),
                    Err(fault) => {
                        &&& written.gave_out(after)
                        &&& outcome == Err::<(), Ext4Error>(fault)
                    },
                }
            }
    }

    /// Descriptor and bitmap were written back; where that failed, nothing may change any more.
    pub open spec fn group_undone(
        &self,
        after: &Self,
        group: BlockGroupId,
        desc: Seq<u8>,
        bitmap: Block,
        error: Ext4Error,
        outcome: Result<()>,
    ) -> bool {
        exists|written: Self, reply: Result<()>|
            {
                &&& #[trigger] self.group_written(&written, group, desc, reply)
                &&& match reply {
                    Ok(_) => written.bitmap_undone(after, bitmap, error, outcome),
                    Err(fault) => {
                        &&& written.gave_out(after)
                        &&& outcome == Err::<(), Ext4Error>(fault)
                    },
                }
            }
    }

    /// What changing a bitmap and the counts of free blocks calls, changes and returns.
    pub open spec fn allocation_changed(
        &self,
        after: &Self,
        group: BlockGroupId,
        bitmap: Block,
        changed: Seq<u8>,
        group_free: u64,
        total_free: u64,
        outcome: Result<()>,
    ) -> bool {
        exists|marked: Self, mark: Result<()>|
            {
                &&& #[trigger] self.did(
                    &marked,
                    Event::WriteBlock { id: bitmap.id, data: changed, reply: mark },
                )
                &&& match mark {
                    Err(error) => marked.idle(after) && outcome == Err::<(), Ext4Error>(error),
                    Ok(_) => exists|counted: Self, count: Result<()>|
                        {
                            &&& #[trigger] marked.group_written(
                                &counted,
                                group,
                                self.state().changed_desc(group as int, changed, group_free),
                                count,
                            )
                            &&& self.count_followed(
                                &counted,
                                after,
                                group,
                                bitmap,
                                total_free,
                                count,
                                outcome,
                            )
                        },
                }
            }
    }

    /// What follows once a group has counted its free blocks.
    pub open spec fn count_followed(
        &self,
        counted: &Self,
        after: &Self,
        group: BlockGroupId,
        bitmap: Block,
        total_free: u64,
        count: Result<()>,
        outcome: Result<()>,
    ) -> bool {
        match count {
            Err(error) => counted.bitmap_undone(after, bitmap, error, outcome),
            Ok(_) => exists|totalled: Self, total: Result<()>|
                {
                    &&& #[trigger] counted.superblock_written(
                        &totalled,
                        self.state().changed_superblock(total_free),
                        total,
                    )
                    &&& self.total_followed(&totalled, after, group, bitmap, total, outcome)
                },
        }
    }

    /// What follows once all free blocks are counted.
    pub open spec fn total_followed(
        &self,
        totalled: &Self,
        after: &Self,
        group: BlockGroupId,
        bitmap: Block,
        total: Result<()>,
        outcome: Result<()>,
    ) -> bool {
        match total {
            Err(error) => totalled.group_undone(
                after,
                group,
                sealed_desc(
                    self.state().groups[group as int],
                    group,
                    self.state().superblock,
                ),
                bitmap,
                error,
                outcome,
            ),
            Ok(_) => totalled.idle(after) && outcome == Ok::<(), Ext4Error>(()),
        }
    }
    /// Writes the bitmap back after `error`.
    fn undo_bitmap(&mut self, bitmap: &Block, error: Ext4Error) -> (outcome: Result<()>)
        requires
            old(self).inv(),
        ensures
            final(self).inv(),
            old(self).frame_kept(final(self)),
            old(self).bitmap_undone(final(self), *bitmap, error, outcome),
            outcome is Err,
    {
        let reply = self.write_block(bitmap);
        let ghost written = *self;
        assert(old(self).did(
            &written,
            Event::WriteBlock { id: bitmap.id, data: bitmap.data@, reply },
        ));
        match reply {
            Ok(_) => Err(error),
            Err(fault) => {
                self.poison();
                Err(fault)
            },
        }
    }

    /// Writes descriptor and bitmap back after `error`.
    fn undo_group(&mut self, group: BlockGroupRef, bitmap: &Block, error: Ext4Error) -> (outcome:
        Result<()>)
        requires
            old(self).inv(),
        ensures
            final(self).inv(),
            old(self).frame_kept(final(self)),
            old(self).group_undone(
                final(self),
                group.id,
                sealed_desc(group.desc@, group.id, old(self).state().superblock),
                *bitmap,
                error,
                outcome,
            ),
            outcome is Err,
    {
        let mut earlier = group;
        let reply = self.write_block_group_with_csum(&mut earlier);
        let ghost written = *self;
        assert(old(self).group_written(
            &written,
            group.id,
            sealed_desc(group.desc@, group.id, old(self).state().superblock),
            reply,
        ));
        match reply {
            Ok(_) => self.undo_bitmap(bitmap, error),
            Err(fault) => {
                self.poison();
                Err(fault)
            },
        }
    }

    /// Changes a bitmap and the counts of free blocks.
    fn change_allocation(
        &mut self,
        group: BlockGroupRef,
        bitmap: &Block,
        changed: [u8; BLOCK_SIZE],
        group_free: u64,
        total_free: u64,
    ) -> (outcome: Result<()>)
        requires
            old(self).inv(),
            group.id < old(self).state().groups.len(),
            group.desc@ == old(self).state().groups[group.id as int],
        ensures
            final(self).inv(),
            old(self).frame_kept(final(self)),
            old(self).allocation_changed(
                final(self),
                group.id,
                *bitmap,
                changed@,
                group_free,
                total_free,
                outcome,
            ),
    {
        let ghost before = *self;
        let mark = self.write_block(&Block::new(bitmap.id, Box::new(changed)));
        let ghost marked = *self;
        assert(before.did(
            &marked,
            Event::WriteBlock { id: bitmap.id, data: changed@, reply: mark },
        ));
        match mark {
            Ok(_) => {},
            Err(error) => {
                return Err(error);
            },
        }
        let superblock: SuperBlock = self.read_super_block_cached();
        let mut counted_group = group;
        counted_group.desc.set_free_blocks_count(group_free);
        superblock.seal_bitmap(&mut counted_group.desc, &changed);
        let count = self.write_block_group_with_csum(&mut counted_group);
        let ghost counted = *self;
        assert(marked.group_written(
            &counted,
            group.id,
            before.state().changed_desc(group.id as int, changed@, group_free),
            count,
        ));
        match count {
            Ok(_) => {},
            Err(error) => {
                return self.undo_bitmap(bitmap, error);
            },
        }
        let mut total_block = superblock;
        total_block.set_free_blocks_count(total_free);
        let total = self.write_super_block(total_block);
        let ghost totalled = *self;
        assert(counted.superblock_written(
            &totalled,
            before.state().changed_superblock(total_free),
            total,
        ));
        match total {
            Ok(done) => {
                assert(done == ());
                Ok(())
            },
            Err(error) => {
                assert(totalled.state().superblock == before.state().superblock);
                self.undo_group(group, bitmap, error)
            },
        }
    }

    /// What looking for a free block calls and returns: groups are tried in turn from `group` on.
    pub open spec fn searched(
        &self,
        after: &Self,
        group: int,
        left: nat,
        found: Result<Option<(int, int, Block)>>,
    ) -> bool
        decreases left,
    {
        let state = self.state();
        if left == 0 || state.groups.len() == 0 {
            self.idle(after) && found == Ok::<Option<(int, int, Block)>, Ext4Error>(None)
        } else {
            let here = group % (state.groups.len() as int);
            if halves32(state.groups[here], 12, 44) == 0 {
                self.searched(after, here + 1, (left - 1) as nat, found)
            } else {
                exists|read: Self, reply: Result<Block>|
                    {
                        &&& #[trigger] self.block_read(
                            &read,
                            halves64(state.groups[here], 0, 32),
                            reply,
                        )
                        &&& match reply {
                            Err(error) => read.idle(after) && found == Err::<
                                Option<(int, int, Block)>,
                                Ext4Error,
                            >(error),
                            Ok(bitmap) => match clear_bit(bitmap.data@, state.group_size(here)) {
                                Some(bit) => {
                                    &&& read.idle(after)
                                    &&& found == Ok::<Option<(int, int, Block)>, Ext4Error>(
                                        Some((here, bit, bitmap)),
                                    )
                                },
                                None => read.searched(
                                    after,
                                    here + 1,
                                    (left - 1) as nat,
                                    found,
                                ),
                            },
                        }
                    }
            }
        }
    }

    /// The blocks of a group that exist.
    fn blocks_in_group(&self, group: usize) -> (size: usize)
        requires
            self.inv(),
        ensures
            size == self.state().group_size(group as int),
            size <= BITMAP_BITS,
    {
        let superblock: SuperBlock = self.read_super_block_cached();
        let first: u64 = superblock.first_data_block() as u64;
        let per_group: u64 = superblock.blocks_per_group() as u64;
        let blocks: u64 = superblock.block_count();
        let start: u64 = match (group as u64).checked_mul(per_group) {
            Some(offset) => match offset.checked_add(first) {
                Some(start) => start,
                None => {
                    return 0;
                },
            },
            None => {
                return 0;
            },
        };
        if blocks <= start {
            return 0;
        }
        let left: u64 = blocks - start;
        let size: u64 = if left < per_group {
            left
        } else {
            per_group
        };
        if size > BITMAP_BITS as u64 {
            BITMAP_BITS
        } else {
            size as usize
        }
    }

    /// Looks for a free block from group `start` on.
    fn search_groups(&mut self, start: usize) -> (found: Result<Option<(usize, usize, Block)>>)
        requires
            old(self).inv(),
            start < old(self).state().groups.len(),
        ensures
            final(self).state() == old(self).state(),
            old(self).searched(
                final(self),
                start as int,
                old(self).state().groups.len(),
                found_in(found),
            ),
            found matches Ok(Some((group, bit, _))) ==> group < old(self).state().groups.len()
                && bit < old(self).state().group_size(group as int) <= BITMAP_BITS,
    {
        let count: usize = self.block_group_count();
        let mut left: usize = count;
        let mut group: usize = start;
        while left > 0
            invariant
                self.inv(),
                self.state() == old(self).state(),
                count == self.state().groups.len(),
                left <= count,
                count > 0,
                group < count || (group == count),
                forall|end: Self, found: Result<Option<(int, int, Block)>>|
                    #[trigger] self.searched(&end, group as int, left as nat, found)
                        ==> old(self).searched(&end, start as int, count as nat, found),
            decreases left,
        {
            let ghost before = *self;
            let here: usize = if group == count {
                0
            } else {
                group
            };
            assert(here == group as int % count as int) by {
                if group == count {
                    vstd::arithmetic::div_mod::lemma_mod_self_0(count as int);
                } else {
                    vstd::arithmetic::div_mod::lemma_small_mod(group as nat, count as nat);
                }
            }
            let desc = match self.read_block_group(here as u32) {
                Ok(group) => group.desc,
                Err(error) => {
                    return Err(error);
                },
            };
            if desc.get_free_blocks_count() != 0 {
                let home: PBlockId = desc.block_bitmap_block();
                let reply = self.read_block(home);
                let ghost read = *self;
                assert(before.block_read(&read, home, reply));
                match reply {
                    Ok(bitmap) => {
                        let size: usize = self.blocks_in_group(here);
                        match find_clear(&bitmap.data, size) {
                            Some(bit) => {
                                let found: Result<Option<(usize, usize, Block)>> = Ok(
                                    Some((here, bit, bitmap)),
                                );
                                assert(before.searched(
                                    self,
                                    group as int,
                                    left as nat,
                                    found_in(found),
                                ));
                                return found;
                            },
                            None => {
                                assert forall|end: Self, found: Result<Option<(int, int, Block)>>|
                                    #[trigger] self.searched(
                                        &end,
                                        here + 1,
                                        (left - 1) as nat,
                                        found,
                                    ) implies before.searched(
                                    &end,
                                    group as int,
                                    left as nat,
                                    found,
                                ) by {
                                    assert(before.block_read(&read, home, reply));
                                }
                            },
                        }
                    },
                    Err(error) => {
                        assert(before.searched(self, group as int, left as nat, Err(error)));
                        return Err(error);
                    },
                }
            } else {
                assert forall|end: Self, found: Result<Option<(int, int, Block)>>|
                    #[trigger] self.searched(
                        &end,
                        here + 1,
                        (left - 1) as nat,
                        found,
                    ) implies before.searched(&end, group as int, left as nat, found) by {}
            }
            let ghost tried_group = group;
            let ghost tried_left = left;
            left = left - 1;
            group = here + 1;
            assert forall|end: Self, found: Result<Option<(int, int, Block)>>|
                #[trigger] self.searched(&end, group as int, left as nat, found) implies old(
                self,
            ).searched(&end, start as int, count as nat, found) by {
                assert(before.searched(&end, tried_group as int, tried_left as nat, found));
            }
        }
        assert(self.searched(self, group as int, 0, Ok(None)));
        Ok(None)
    }
}

impl<D: BlockDevice, V: Volume<D>> Ext4<D, V> {
    /// What allocating a block for a file calls, changes and returns.
    pub open spec fn block_allocated(
        &self,
        after: &Self,
        inode: InodeId,
        outcome: Result<PBlockId>,
    ) -> bool {
        let state = self.state();
        exists|ended: Self, found: Result<Option<(int, int, Block)>>|
            {
                &&& #[trigger] self.searched(
                    &ended,
                    state.home_group(inode),
                    state.groups.len(),
                    found,
                )
                &&& match found {
                    Err(error) => ended.idle(after) && outcome == Err::<PBlockId, Ext4Error>(
                        error,
                    ),
                    Ok(None) => ended.idle(after) && outcome == failed::<PBlockId>(
                        ErrCode::ENOSPC,
                    ),
                    Ok(Some((group, bit, bitmap))) => ended.bit_taken(
                        after,
                        group,
                        bit,
                        bitmap,
                        outcome,
                    ),
                }
            }
    }

    /// What marking a free block as used calls, changes and returns.
    pub open spec fn bit_taken(
        &self,
        after: &Self,
        group: int,
        bit: int,
        bitmap: Block,
        outcome: Result<PBlockId>,
    ) -> bool {
        let state = self.state();
        exists|reply: Result<()>|
            {
                &&& #[trigger] self.allocation_changed(
                    after,
                    group as u32,
                    bitmap,
                    with_bit(bitmap.data@, bit),
                    (halves32(state.groups[group], 12, 44) - 1) as u64,
                    halves64(state.superblock, 12, 344).saturating_sub(1),
                    reply,
                )
                &&& outcome == match reply {
                    Ok(_) => Ok::<PBlockId, Ext4Error>(state.block_of_bit(group, bit) as u64),
                    Err(error) => Err(error),
                }
            }
    }

    /// Allocates a block for a file, near the group of its inode.
    pub fn alloc_block(&mut self, inode: &InodeRef) -> (outcome: Result<PBlockId>)
        requires
            old(self).inv(),
        ensures
            final(self).inv(),
            old(self).frame_kept(final(self)),
            old(self).block_allocated(final(self), inode.id, outcome),
    {
        let ghost before = *self;
        let superblock: SuperBlock = self.read_super_block_cached();
        let per_group: u32 = superblock.inodes_per_group();
        let count: usize = self.block_group_count();
        let start: usize = if inode.id == 0 || per_group == 0 || ((inode.id - 1) / per_group)
            as usize >= count {
            0
        } else {
            ((inode.id - 1) / per_group) as usize
        };
        if count == 0 {
            assert(before.searched(
                self,
                before.state().home_group(inode.id),
                before.state().groups.len(),
                Ok(None),
            ));
            return Err(Ext4Error::new(ErrCode::ENOSPC));
        }
        let found = self.search_groups(start);
        let ghost ended = *self;
        assert(before.searched(
            &ended,
            before.state().home_group(inode.id),
            before.state().groups.len(),
            found_in(found),
        ));
        let (group, bit, bitmap) = match found {
            Ok(Some(found)) => found,
            Ok(None) => {
                return Err(Ext4Error::new(ErrCode::ENOSPC));
            },
            Err(error) => {
                return Err(error);
            },
        };
        let group_ref = match self.read_block_group(group as u32) {
            Ok(group_ref) => group_ref,
            Err(error) => {
                return Err(error);
            },
        };
        let mut changed: [u8; BLOCK_SIZE] = *bitmap.data;
        changed[bit / 8] = changed[bit / 8] | (1u8 << ((bit % 8) as u8));
        assert(changed@ =~= with_bit(bitmap.data@, bit as int));
        let group_free: u64 = group_ref.desc.get_free_blocks_count();
        if group_free == 0 {
            proof {
                before.lemma_found_is_free(
                    &ended,
                    before.state().home_group(inode.id),
                    before.state().groups.len(),
                    found_in(found),
                );
            }
            return Err(Ext4Error::new(ErrCode::ENOSPC));
        }
        let total_free: u64 = superblock.free_blocks_count();
        let reply = self.change_allocation(
            group_ref,
            &bitmap,
            changed,
            group_free - 1,
            total_free.saturating_sub(1),
        );
        assert(ended.allocation_changed(
            self,
            group as u32,
            bitmap,
            with_bit(bitmap.data@, bit as int),
            (halves32(before.state().groups[group as int], 12, 44) - 1) as u64,
            halves64(before.state().superblock, 12, 344).saturating_sub(1),
            reply,
        ));
        let outcome: Result<PBlockId> = match reply {
            Ok(_) => {
                let first: u64 = superblock.first_data_block() as u64;
                let per_group: u64 = superblock.blocks_per_group() as u64;
                proof {
                    before.state().lemma_block_exists(group as int, bit as int);
                }
                let pblock: PBlockId = first + group as u64 * per_group + bit as u64;
                assert(pblock == before.state().block_of_bit(group as int, bit as int));
                Ok(pblock)
            },
            Err(error) => Err(error),
        };
        assert(ended.bit_taken(self, group as int, bit as int, bitmap, outcome));
        outcome
    }

    /// A search names a group that counts free blocks.
    proof fn lemma_found_is_free(
        &self,
        after: &Self,
        group: int,
        left: nat,
        found: Result<Option<(int, int, Block)>>,
    )
        requires
            self.searched(after, group, left, found),
            found matches Ok(Some(_)),
        ensures
            halves32(self.state().groups[found->Ok_0->Some_0.0], 12, 44) != 0,
        decreases left,
    {
        let state = self.state();
        if left > 0 && state.groups.len() > 0 {
            let here = group % (state.groups.len() as int);
            if halves32(state.groups[here], 12, 44) == 0 {
                self.lemma_found_is_free(after, here + 1, (left - 1) as nat, found);
            } else {
                let (read, reply) = choose|read: Self, reply: Result<Block>|
                    {
                        &&& #[trigger] self.block_read(
                            &read,
                            halves64(state.groups[here], 0, 32),
                            reply,
                        )
                        &&& match reply {
                            Err(error) => read.idle(after) && found == Err::<
                                Option<(int, int, Block)>,
                                Ext4Error,
                            >(error),
                            Ok(bitmap) => match clear_bit(bitmap.data@, state.group_size(here)) {
                                Some(bit) => {
                                    &&& read.idle(after)
                                    &&& found == Ok::<Option<(int, int, Block)>, Ext4Error>(
                                        Some((here, bit, bitmap)),
                                    )
                                },
                                None => read.searched(
                                    after,
                                    here + 1,
                                    (left - 1) as nat,
                                    found,
                                ),
                            },
                        }
                    };
                match reply {
                    Ok(bitmap) => {
                        if clear_bit(bitmap.data@, state.group_size(here)) is None {
                            read.lemma_found_is_free(after, here + 1, (left - 1) as nat, found);
                        }
                    },
                    Err(_) => {},
                }
            }
        }
    }

    /// What releasing a block calls, changes and returns.
    pub open spec fn block_released(
        &self,
        after: &Self,
        pblock: PBlockId,
        outcome: Result<()>,
    ) -> bool {
        let state = self.state();
        match state.place_of(pblock) {
            None => self.idle(after) && outcome == failed::<()>(ErrCode::EINVAL),
            Some((group, bit)) => exists|read: Self, reply: Result<Block>|
                {
                    &&& #[trigger] self.block_read(
                        &read,
                        halves64(state.groups[group], 0, 32),
                        reply,
                    )
                    &&& match reply {
                        Err(error) => read.idle(after) && outcome == Err::<(), Ext4Error>(error),
                        Ok(bitmap) => if !bit_set(bitmap.data@, bit) {
                            read.idle(after) && outcome == failed::<()>(ErrCode::EIO)
                        } else {
                            read.allocation_changed(
                                after,
                                group as u32,
                                bitmap,
                                without_bit(bitmap.data@, bit),
                                (halves32(state.groups[group], 12, 44) + 1) as u64,
                                halves64(state.superblock, 12, 344).saturating_add(1),
                                outcome,
                            )
                        },
                    }
                },
        }
    }

    /// Releases a block.
    pub fn dealloc_block(&mut self, pblock: PBlockId) -> (outcome: Result<()>)
        requires
            old(self).inv(),
        ensures
            final(self).inv(),
            old(self).frame_kept(final(self)),
            old(self).block_released(final(self), pblock, outcome),
    {
        let ghost before = *self;
        let superblock: SuperBlock = self.read_super_block_cached();
        let first: u64 = superblock.first_data_block() as u64;
        let per_group: u64 = superblock.blocks_per_group() as u64;
        if pblock < first || per_group == 0 {
            return Err(Ext4Error::new(ErrCode::EINVAL));
        }
        let group: u64 = (pblock - first) / per_group;
        let bit: u64 = (pblock - first) % per_group;
        if group >= self.block_group_count() as u64 {
            return Err(Ext4Error::new(ErrCode::EINVAL));
        }
        let size: usize = self.blocks_in_group(group as usize);
        if bit >= size as u64 {
            return Err(Ext4Error::new(ErrCode::EINVAL));
        }
        let group_ref = match self.read_block_group(group as u32) {
            Ok(group_ref) => group_ref,
            Err(error) => {
                return Err(error);
            },
        };
        let home: PBlockId = group_ref.desc.block_bitmap_block();
        let ghost place = before.state().place_of(pblock)->0;
        assert(place == (group as int, bit as int));
        let reply = self.read_block(home);
        let ghost read = *self;
        assert(before.block_read(
            &read,
            halves64(before.state().groups[place.0], 0, 32),
            reply,
        ));
        let bitmap = match reply {
            Ok(bitmap) => bitmap,
            Err(error) => {
                return Err(error);
            },
        };
        let at: usize = bit as usize / 8;
        let mask: u8 = 1u8 << ((bit as usize % 8) as u8);
        if bitmap.data[at] & mask == 0 {
            return Err(Ext4Error::new(ErrCode::EIO));
        }
        let mut changed: [u8; BLOCK_SIZE] = *bitmap.data;
        changed[at] = changed[at] & !mask;
        assert(changed@ =~= without_bit(bitmap.data@, bit as int));
        let group_free: u64 = group_ref.desc.get_free_blocks_count();
        let total_free: u64 = superblock.free_blocks_count();
        self.change_allocation(
            group_ref,
            &bitmap,
            changed,
            group_free + 1,
            total_free.saturating_add(1),
        )
    }

    /// What allocating a block of zero bytes calls, changes and returns.
    pub open spec fn zeroed_allocated(
        &self,
        after: &Self,
        inode: InodeId,
        skip_zero: bool,
        outcome: Result<PBlockId>,
    ) -> bool {
        exists|taken: Self, reply: Result<PBlockId>|
            {
                &&& #[trigger] self.block_allocated(&taken, inode, reply)
                &&& match reply {
                    Err(error) => taken.idle(after) && outcome == reply,
                    Ok(pblock) => if skip_zero {
                        taken.idle(after) && outcome == reply
                    } else {
                        taken.block_zeroed(after, pblock, outcome)
                    },
                }
            }
    }

    /// What clearing a new block calls, changes and returns: a block that cannot be cleared is
    /// released.
    pub open spec fn block_zeroed(
        &self,
        after: &Self,
        pblock: PBlockId,
        outcome: Result<PBlockId>,
    ) -> bool {
        exists|cleared: Self, reply: Result<()>|
            {
                &&& #[trigger] self.did(
                    &cleared,
                    Event::WriteBlock { id: pblock, data: zeros(BLOCK_SIZE as nat), reply },
                )
                &&& match reply {
                    Ok(_) => cleared.idle(after) && outcome == Ok::<PBlockId, Ext4Error>(pblock),
                    Err(error) => exists|undone: Result<()>|
                        {
                            &&& #[trigger] cleared.block_released(after, pblock, undone)
                            &&& outcome == match undone {
                                Ok(_) => Err::<PBlockId, Ext4Error>(error),
                                Err(fault) => Err(fault),
                            }
                        },
                }
            }
    }

    /// Allocates a block, and clears it unless told otherwise.
    pub(crate) fn alloc_data_block(&mut self, inode: &InodeRef, skip_zero: bool) -> (outcome: Result<
        PBlockId,
    >)
        requires
            old(self).inv(),
        ensures
            final(self).inv(),
            old(self).frame_kept(final(self)),
            old(self).zeroed_allocated(final(self), inode.id, skip_zero, outcome),
    {
        let ghost before = *self;
        let reply = self.alloc_block(inode);
        let ghost taken = *self;
        assert(before.block_allocated(&taken, inode.id, reply));
        let pblock: PBlockId = match reply {
            Ok(pblock) => pblock,
            Err(error) => {
                return Err(error);
            },
        };
        if skip_zero {
            return Ok(pblock);
        }
        let zero: [u8; BLOCK_SIZE] = [0u8;BLOCK_SIZE];
        assert(zero@ =~= zeros(BLOCK_SIZE as nat));
        let reply = self.write_block(&Block::new(pblock, Box::new(zero)));
        let ghost cleared = *self;
        assert(taken.did(
            &cleared,
            Event::WriteBlock { id: pblock, data: zeros(BLOCK_SIZE as nat), reply },
        ));
        match reply {
            Ok(_) => Ok(pblock),
            Err(error) => {
                let undone = self.dealloc_block(pblock);
                assert(cleared.block_released(self, pblock, undone));
                match undone {
                    Ok(_) => Err(error),
                    Err(fault) => Err(fault),
                }
            },
        }
    }

    /// Allocates a block of zero bytes.
    pub fn alloc_zeroed_data_block(&mut self, inode: &InodeRef) -> (outcome: Result<PBlockId>)
        requires
            old(self).inv(),
        ensures
            final(self).inv(),
            old(self).frame_kept(final(self)),
            old(self).zeroed_allocated(final(self), inode.id, false, outcome),
    {
        self.alloc_data_block(inode, false)
    }

    /// What releasing the first `left` of several blocks, last block first, calls and returns.
    pub open spec fn blocks_released(
        &self,
        after: &Self,
        blocks: Seq<PBlockId>,
        left: nat,
        outcome: Result<()>,
    ) -> bool
        decreases left,
    {
        if left == 0 {
            self.idle(after) && outcome == Ok::<(), Ext4Error>(())
        } else {
            exists|released: Self, reply: Result<()>|
                {
                    &&& #[trigger] self.block_released(&released, blocks[left - 1], reply)
                    &&& match reply {
                        Ok(_) => released.blocks_released(
                            after,
                            blocks,
                            (left - 1) as nat,
                            outcome,
                        ),
                        Err(error) => released.idle(after) && outcome == Err::<(), Ext4Error>(
                            error,
                        ),
                    }
                }
        }
    }

    /// Releases several blocks, last block first.
    fn release_blocks(&mut self, blocks: &Vec<PBlockId>) -> (outcome: Result<()>)
        requires
            old(self).inv(),
        ensures
            final(self).inv(),
            old(self).frame_kept(final(self)),
            old(self).blocks_released(final(self), blocks@, blocks@.len(), outcome),
    {
        let mut left: usize = blocks.len();
        while left > 0
            invariant
                self.inv(),
                old(self).frame_kept(self),
                left <= blocks@.len(),
                forall|end: Self, outcome: Result<()>|
                    #[trigger] self.blocks_released(&end, blocks@, left as nat, outcome)
                        ==> old(self).blocks_released(
                        &end,
                        blocks@,
                        blocks@.len(),
                        outcome,
                    ),
            decreases left,
        {
            let ghost before = *self;
            let ghost tried = left;
            let reply = self.dealloc_block(blocks[left - 1]);
            let ghost released = *self;
            assert(before.block_released(&released, blocks@[left - 1], reply));
            match reply {
                Ok(_) => {},
                Err(error) => {
                    assert(before.blocks_released(self, blocks@, left as nat, Err(error)));
                    return Err(error);
                },
            }
            left = left - 1;
            assert forall|end: Self, outcome: Result<()>|
                #[trigger] self.blocks_released(&end, blocks@, left as nat, outcome) implies old(
                self,
            ).blocks_released(&end, blocks@, blocks@.len(), outcome) by {
                assert(before.block_released(&released, blocks@[tried - 1], reply));
                assert(before.blocks_released(&end, blocks@, tried as nat, outcome));
            }
        }
        assert(self.blocks_released(self, blocks@, 0, Ok(())));
        Ok(())
    }

    /// What allocating several blocks calls, changes and returns, once `done` are allocated: when
    /// one allocation fails, all are released.
    pub open spec fn blocks_allocated(
        &self,
        after: &Self,
        inode: InodeId,
        done: Seq<PBlockId>,
        count: nat,
        skip_zero: bool,
        outcome: Result<Seq<PBlockId>>,
    ) -> bool
        decreases count - done.len(),
    {
        if done.len() >= count {
            self.idle(after) && outcome == Ok::<Seq<PBlockId>, Ext4Error>(done)
        } else {
            exists|taken: Self, reply: Result<PBlockId>|
                {
                    &&& #[trigger] self.zeroed_allocated(&taken, inode, skip_zero, reply)
                    &&& match reply {
                        Ok(pblock) => taken.blocks_allocated(
                            after,
                            inode,
                            done.push(pblock),
                            count,
                            skip_zero,
                            outcome,
                        ),
                        Err(error) => exists|undone: Result<()>|
                            {
                                &&& #[trigger] taken.blocks_released(
                                    after,
                                    done,
                                    done.len(),
                                    undone,
                                )
                                &&& outcome == match undone {
                                    Ok(_) => Err::<Seq<PBlockId>, Ext4Error>(error),
                                    Err(fault) => Err(fault),
                                }
                            },
                    }
                }
        }
    }

    /// Allocates `count` blocks of zero bytes.
    pub(crate) fn alloc_zeroed_data_blocks(
        &mut self,
        inode: &InodeRef,
        count: usize,
        skip_zero: bool,
    ) -> (outcome: Result<Vec<PBlockId>>)
        requires
            old(self).inv(),
        ensures
            final(self).inv(),
            old(self).frame_kept(final(self)),
            old(self).blocks_allocated(
                final(self),
                inode.id,
                Seq::empty(),
                count as nat,
                skip_zero,
                blocks_in(outcome),
            ),
            outcome matches Ok(blocks) ==> blocks@.len() == count,
    {
        let mut blocks: Vec<PBlockId> = Vec::new();
        assert(blocks@ =~= Seq::<PBlockId>::empty());
        while blocks.len() < count
            invariant
                self.inv(),
                old(self).frame_kept(self),
                blocks@.len() <= count,
                forall|end: Self, outcome: Result<Seq<PBlockId>>|
                    #[trigger] self.blocks_allocated(
                        &end,
                        inode.id,
                        blocks@,
                        count as nat,
                        skip_zero,
                        outcome,
                    ) ==> old(self).blocks_allocated(
                        &end,
                        inode.id,
                        Seq::empty(),
                        count as nat,
                        skip_zero,
                        outcome,
                    ),
            decreases count - blocks@.len(),
        {
            let ghost before = *self;
            let ghost done = blocks@;
            let reply = self.alloc_data_block(inode, skip_zero);
            let ghost taken = *self;
            assert(before.zeroed_allocated(&taken, inode.id, skip_zero, reply));
            match reply {
                Ok(pblock) => {
                    blocks.push(pblock);
                },
                Err(error) => {
                    let undone = self.release_blocks(&blocks);
                    assert(taken.blocks_released(self, done, done.len(), undone));
                    let outcome: Result<Vec<PBlockId>> = match undone {
                        Ok(_) => Err(error),
                        Err(fault) => Err(fault),
                    };
                    assert(before.blocks_allocated(
                        self,
                        inode.id,
                        done,
                        count as nat,
                        skip_zero,
                        blocks_in(outcome),
                    ));
                    return outcome;
                },
            }
            assert forall|end: Self, outcome: Result<Seq<PBlockId>>|
                #[trigger] self.blocks_allocated(
                    &end,
                    inode.id,
                    blocks@,
                    count as nat,
                    skip_zero,
                    outcome,
                ) implies old(self).blocks_allocated(
                &end,
                inode.id,
                Seq::empty(),
                count as nat,
                skip_zero,
                outcome,
            ) by {
                assert(before.zeroed_allocated(&taken, inode.id, skip_zero, reply));
                assert(before.blocks_allocated(
                    &end,
                    inode.id,
                    done,
                    count as nat,
                    skip_zero,
                    outcome,
                ));
            }
        }
        assert(self.blocks_allocated(
            self,
            inode.id,
            blocks@,
            count as nat,
            skip_zero,
            Ok(blocks@),
        ));
        Ok(blocks)
    }
}

/// The blocks of an outcome.
pub open spec fn blocks_in(outcome: Result<Vec<PBlockId>>) -> Result<Seq<PBlockId>> {
    match outcome {
        Ok(blocks) => Ok(blocks@),
        Err(error) => Err(error),
    }
}

impl FsState {
    /// The group and the bit of a block.
    pub open spec fn place_of(&self, pblock: PBlockId) -> Option<(int, int)> {
        let first = crate::bytes::le32_at(self.superblock, 20) as int;
        let per_group = crate::bytes::le32_at(self.superblock, 32) as int;
        if pblock < first || per_group == 0 {
            None
        } else {
            let group = (pblock - first) / per_group;
            let bit = (pblock - first) % per_group;
            if group >= self.groups.len() || bit >= self.group_size(group) {
                None
            } else {
                Some((group, bit))
            }
        }
    }

    /// A bit of a group stands for a block that exists.
    pub proof fn lemma_block_exists(&self, group: int, bit: int)
        requires
            0 <= group,
            0 <= bit < self.group_size(group),
        ensures
            0 <= group * crate::bytes::le32_at(self.superblock, 32),
            self.block_of_bit(group, bit) < halves64(self.superblock, 4, 336),
    {
        let per_group = crate::bytes::le32_at(self.superblock, 32) as int;
        assert(0 <= group * per_group) by (nonlinear_arith)
            requires
                0 <= group,
                0 <= per_group,
        ;
    }

    /// The block of a bit has that group and that bit.
    pub proof fn lemma_place_of_block(&self, group: int, bit: int)
        requires
            0 <= group < self.groups.len(),
            0 <= bit < self.group_size(group),
        ensures
            self.place_of(self.block_of_bit(group, bit) as u64) == Some((group, bit)),
    {
        self.lemma_block_exists(group, bit);
        let first = crate::bytes::le32_at(self.superblock, 20) as int;
        let per_group = crate::bytes::le32_at(self.superblock, 32) as int;
        let pblock = self.block_of_bit(group, bit);
        assert(pblock - first == per_group * group + bit) by (nonlinear_arith)
            requires
                pblock == first + group * per_group + bit,
        ;
        vstd::arithmetic::div_mod::lemma_fundamental_div_mod_converse(
            pblock - first,
            per_group,
            group,
            bit,
        );
    }
}

/// Releasing a block that was marked as used makes the bitmap what it was before.
pub proof fn lemma_release_undoes_allocation(bitmap: Seq<u8>, bit: int)
    requires
        bitmap.len() == BLOCK_SIZE,
        0 <= bit < BITMAP_BITS,
        !bit_set(bitmap, bit),
    ensures
        bit_set(with_bit(bitmap, bit), bit),
        without_bit(with_bit(bitmap, bit), bit) == bitmap,
{
    let byte = bitmap[bit / 8];
    let a = (bit % 8) as u8;
    lemma_marks_are_independent(bitmap, bit, bit);
    assert((byte | (1u8 << a)) & !(1u8 << a) == byte) by (bit_vector)
        requires
            a < 8,
            byte & (1u8 << a) == 0,
    ;
    assert(without_bit(with_bit(bitmap, bit), bit) =~= bitmap);
}

/// The checksum of a descriptor leaves its number of free blocks.
proof fn lemma_sealed_desc_keeps_free(raw: Seq<u8>, group: BlockGroupId, super_raw: Seq<u8>)
    requires
        raw.len() == SB_GOOD_DESC_SIZE,
    ensures
        sealed_desc(raw, group, super_raw).len() == SB_GOOD_DESC_SIZE,
        halves32(sealed_desc(raw, group, super_raw), 12, 44) == halves32(raw, 12, 44),
{
}

impl<D: BlockDevice, V: Volume<D>> Ext4<D, V> {
    /// Whether the free blocks are counted as before.
    pub open spec fn counts_kept(&self, after: &Self) -> bool {
        &&& after.state().superblock == self.state().superblock
        &&& after.state().groups.len() == self.state().groups.len()
        &&& forall|i: int|
            0 <= i < self.state().groups.len() ==> halves32(
                #[trigger] after.state().groups[i],
                12,
                44,
            ) == halves32(self.state().groups[i], 12, 44)
    }

    /// A change of the allocation that fails leaves the counts of free blocks, and writes the
    /// bitmap back where it was written; where that is not possible, nothing may change any more.
    pub proof fn lemma_failed_change_is_undone(
        &self,
        after: &Self,
        group: BlockGroupId,
        bitmap: Block,
        changed: Seq<u8>,
        group_free: u64,
        total_free: u64,
        error: Ext4Error,
    )
        requires
            self.inv(),
            group < self.state().groups.len(),
            self.allocation_changed(
                after,
                group,
                bitmap,
                changed,
                group_free,
                total_free,
                Err(error),
            ),
            !after.state().poisoned,
        ensures
            self.counts_kept(after),
            ({
                ||| after.log() == self.log().push(
                    Event::WriteBlock { id: bitmap.id, data: changed, reply: Err(error) },
                )
                ||| after.log().last() == (Event::WriteBlock {
                    id: bitmap.id,
                    data: bitmap.data@,
                    reply: Ok(()),
                })
            }),
    {
        let (marked, mark) = choose|marked: Self, mark: Result<()>|
            {
                &&& #[trigger] self.did(
                    &marked,
                    Event::WriteBlock { id: bitmap.id, data: changed, reply: mark },
                )
                &&& match mark {
                    Err(error_) => marked.idle(after) && Err::<(), Ext4Error>(error) == Err::<
                        (),
                        Ext4Error,
                    >(error_),
                    Ok(_) => exists|counted: Self, count: Result<()>|
                        {
                            &&& #[trigger] marked.group_written(
                                &counted,
                                group,
                                self.state().changed_desc(group as int, changed, group_free),
                                count,
                            )
                            &&& self.count_followed(
                                &counted,
                                after,
                                group,
                                bitmap,
                                total_free,
                                count,
                                Err(error),
                            )
                        },
                }
            };
        if mark is Ok {
            let (counted, count) = choose|counted: Self, count: Result<()>|
                {
                    &&& #[trigger] marked.group_written(
                        &counted,
                        group,
                        self.state().changed_desc(group as int, changed, group_free),
                        count,
                    )
                    &&& self.count_followed(
                        &counted,
                        after,
                        group,
                        bitmap,
                        total_free,
                        count,
                        Err(error),
                    )
                };
            match count {
                Err(fault) => {
                    counted.lemma_bitmap_undone(after, bitmap, fault, error);
                },
                Ok(_) => {
                    let (totalled, total) = choose|totalled: Self, total: Result<()>|
                        {
                            &&& #[trigger] counted.superblock_written(
                                &totalled,
                                self.state().changed_superblock(total_free),
                                total,
                            )
                            &&& self.total_followed(
                                &totalled,
                                after,
                                group,
                                bitmap,
                                total,
                                Err(error),
                            )
                        };
                    let fault = total->Err_0;
                    let desc = sealed_desc(
                        self.state().groups[group as int],
                        group,
                        self.state().superblock,
                    );
                    let (written, reply) = choose|written: Self, reply: Result<()>|
                        {
                            &&& #[trigger] totalled.group_written(&written, group, desc, reply)
                            &&& match reply {
                                Ok(_) => written.bitmap_undone(after, bitmap, fault, Err(error)),
                                Err(late) => {
                                    &&& written.gave_out(after)
                                    &&& Err::<(), Ext4Error>(error) == Err::<(), Ext4Error>(late)
                                },
                            }
                        };
                    assert(reply is Ok);
                    written.lemma_bitmap_undone(after, bitmap, fault, error);
                    lemma_sealed_desc_keeps_free(
                        self.state().groups[group as int],
                        group,
                        self.state().superblock,
                    );
                    assert(after.state().groups == self.state().groups.update(
                        group as int,
                        self.state().changed_desc(group as int, changed, group_free),
                    ).update(group as int, desc));
                },
            }
        }
    }

    /// A bitmap that was written back is the last block that was written.
    proof fn lemma_bitmap_undone(
        &self,
        after: &Self,
        bitmap: Block,
        fault: Ext4Error,
        error: Ext4Error,
    )
        requires
            self.bitmap_undone(after, bitmap, fault, Err(error)),
            !after.state().poisoned,
        ensures
            after.state() == self.state(),
            after.log().last() == (Event::WriteBlock {
                id: bitmap.id,
                data: bitmap.data@,
                reply: Ok(()),
            }),
    {
        let (written, reply) = choose|written: Self, reply: Result<()>|
            {
                &&& #[trigger] self.did(
                    &written,
                    Event::WriteBlock { id: bitmap.id, data: bitmap.data@, reply },
                )
                &&& match reply {
                    Ok(_) => written.idle(after) && Err::<(), Ext4Error>(error) == Err::<
                        (),
                        Ext4Error,
                    >(fault),
                    Err(late) => {
                        &&& written.gave_out(after)
                        &&& Err::<(), Ext4Error>(error) == Err::<(), Ext4Error>(late)
                    },
                }
            };
        match reply {
            Ok(done) => {
                assert(done == ());
            },
            Err(_) => {},
        }
    }
}

/// A descriptor with changed checksums counts the free blocks that were stored.
proof fn lemma_changed_desc_counts(state: FsState, group: int, bitmap: Seq<u8>, free: u64)
    requires
        state.inv(),
        0 <= group < state.groups.len(),
    ensures
        halves32(state.changed_desc(group, bitmap, free), 12, 44) == free as u32,
{
    let raw = state.groups[group];
    let counted = with_halves32(raw, 12, 44, free as u32);
    lemma_group_free_reads_back(raw, free as u32);
    assert(counted.len() == SB_GOOD_DESC_SIZE);
    let summed = with_bitmap_sum(counted, bitmap, state.superblock);
    assert(halves32(summed, 12, 44) == halves32(counted, 12, 44));
    lemma_sealed_desc_keeps_free(summed, group as u32, state.superblock);
}

impl<D: BlockDevice, V: Volume<D>> Ext4<D, V> {
    /// A change of the allocation that succeeds is counted in the descriptor of the group and in
    /// the superblock, and in no other group.
    pub proof fn lemma_change_is_counted(
        &self,
        after: &Self,
        group: BlockGroupId,
        bitmap: Block,
        changed: Seq<u8>,
        group_free: u64,
        total_free: u64,
    )
        requires
            self.inv(),
            group < self.state().groups.len(),
            self.allocation_changed(
                after,
                group,
                bitmap,
                changed,
                group_free,
                total_free,
                Ok(()),
            ),
        ensures
            halves64(after.state().superblock, 12, 344) == total_free,
            after.state().groups.len() == self.state().groups.len(),
            halves32(after.state().groups[group as int], 12, 44) == group_free as u32,
            forall|i: int|
                0 <= i < self.state().groups.len() && i != group ==> #[trigger] after.state().groups[i]
                    == self.state().groups[i],
    {
        let (marked, mark) = choose|marked: Self, mark: Result<()>|
            {
                &&& #[trigger] self.did(
                    &marked,
                    Event::WriteBlock { id: bitmap.id, data: changed, reply: mark },
                )
                &&& match mark {
                    Err(error) => marked.idle(after) && Ok::<(), Ext4Error>(()) == Err::<
                        (),
                        Ext4Error,
                    >(error),
                    Ok(_) => exists|counted: Self, count: Result<()>|
                        {
                            &&& #[trigger] marked.group_written(
                                &counted,
                                group,
                                self.state().changed_desc(group as int, changed, group_free),
                                count,
                            )
                            &&& self.count_followed(
                                &counted,
                                after,
                                group,
                                bitmap,
                                total_free,
                                count,
                                Ok(()),
                            )
                        },
                }
            };
        let desc = self.state().changed_desc(group as int, changed, group_free);
        let (counted, count) = choose|counted: Self, count: Result<()>|
            {
                &&& #[trigger] marked.group_written(&counted, group, desc, count)
                &&& self.count_followed(
                    &counted,
                    after,
                    group,
                    bitmap,
                    total_free,
                    count,
                    Ok(()),
                )
            };
        assert(count is Ok);
        let (totalled, total) = choose|totalled: Self, total: Result<()>|
            {
                &&& #[trigger] counted.superblock_written(
                    &totalled,
                    self.state().changed_superblock(total_free),
                    total,
                )
                &&& self.total_followed(&totalled, after, group, bitmap, total, Ok(()))
            };
        assert(total is Ok);
        lemma_changed_desc_counts(self.state(), group as int, changed, group_free);
        let raw = self.state().superblock;
        lemma_free_reads_back(raw, total_free);
        let free = with_halves64(raw, 12, 344, total_free);
        assert(halves64(sealed_superblock(free), 12, 344) == halves64(free, 12, 344));
        assert(after.state().groups == self.state().groups.update(group as int, desc));
    }
}

} // verus!
