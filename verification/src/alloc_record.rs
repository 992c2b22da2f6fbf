//! Which blocks allocating and releasing blocks writes to, and which it spares.

use vstd::prelude::*;
use crate::balloc::{bit_set, clear_bit, first_clear, with_bit, without_bit};
use crate::bytes::{le32_at, splice, zeros};
use crate::content::{held, lemma_extends, told, told_all, writes, Disk};
use crate::device::{extends, since, Block, BlockDevice, Event};
use crate::durability::honest_reads;
use crate::error::{failed, ErrCode, Ext4Error, Result};
use crate::fs::{Ext4, FsState};
use crate::inode::{halves32, halves64, with_halves64};
use crate::sight::{lemma_faithful_reads, lemma_told_before_writing};
use crate::staged::StagedBlock;
use crate::superblock::{
    checksummed, sealed_desc, seed_in, BlockGroupId, BASE_OFFSET, SB_GOOD_DESC_SIZE,
    SUPER_BLOCK_BYTES,
};
use crate::volume::Volume;
use crate::xattr_readback::{lemma_missed_block_is_held, misses};
use crate::{InodeId, PBlockId, BLOCK_SIZE};

verus! {

/// Reads that are answered with the blocks that were asked for, in parts of a record.
proof fn lemma_honest_parts(first: Seq<Event>, second: Seq<Event>)
    requires
        honest_reads(first + second),
    ensures
        honest_reads(first),
        honest_reads(second),
{
    let all = first + second;
    assert forall|n: int| 0 <= n < first.len() implies (#[trigger] first[n] matches
        Event::ReadBlock { id, reply: Ok(block) } ==> block.id == id) by {
        assert(all[n] == first[n]);
    }
    assert forall|n: int| 0 <= n < second.len() implies (#[trigger] second[n] matches
        Event::ReadBlock { id, reply: Ok(block) } ==> block.id == id) by {
        assert(all[n + first.len()] == second[n]);
    }
}

impl FsState {
    /// Whether a block holds a record of which blocks are in use: the superblock, a block group
    /// descriptor or a bitmap.
    pub open spec fn records_blocks(&self, block: PBlockId) -> bool {
        ||| block == 0
        ||| exists|i: int|
            0 <= i < self.groups.len() && ((#[trigger] self.group_position(i)).0 == block
                || halves64(self.groups[i], 0, 32) == block)
    }
}

impl<D: BlockDevice, V: Volume<D>> Ext4<D, V> {
    /// Whether the record went on without a write to a block, as long as reads are answered with
    /// the blocks that were asked for.
    pub open spec fn spares(&self, after: &Self, block: PBlockId) -> bool {
        &&& extends(self.log(), after.log())
        &&& honest_reads(since(self.log(), after.log())) ==> forall|k: int|
            self.log().len() <= k < after.log().len() ==> misses(#[trigger] after.log()[k], block)
    }

    /// A block that is spared twice is spared.
    pub(crate) proof fn lemma_spared_on(&self, middle: &Self, after: &Self, block: PBlockId)
        requires
            self.spares(middle, block),
            middle.spares(after, block),
        ensures
            self.spares(after, block),
    {
        lemma_extends(self.log(), middle.log(), after.log());
        let first = since(self.log(), middle.log());
        let second = since(middle.log(), after.log());
        assert(since(self.log(), after.log()) =~= first + second) by {
            assert(after.log().take(middle.log().len() as int) == middle.log());
        }
        if honest_reads(since(self.log(), after.log())) {
            lemma_honest_parts(first, second);
            assert forall|k: int| self.log().len() <= k < after.log().len() implies misses(
                #[trigger] after.log()[k],
                block,
            ) by {
                if k < middle.log().len() {
                    assert(after.log().take(middle.log().len() as int)[k] == after.log()[k]);
                    assert(misses(middle.log()[k], block));
                }
            }
        }
    }

    /// A block that is spared is held as it was.
    pub(crate) proof fn lemma_spared_is_held(&self, after: &Self, block: PBlockId, disk: Disk)
        requires
            self.spares(after, block),
            honest_reads(since(self.log(), after.log())),
        ensures
            self.left_on(after, disk)[block] == disk[block],
    {
        let calls = since(self.log(), after.log());
        assert forall|k: int| 0 <= k < calls.len() implies misses(#[trigger] calls[k], block) by {
            assert(calls[k] == after.log()[self.log().len() + k]);
        }
        lemma_missed_block_is_held(disk, calls, block);
    }

    /// Where nothing is called, every block is spared.
    pub(crate) proof fn lemma_still_spares(&self, after: &Self, block: PBlockId)
        requires
            after.log() == self.log(),
        ensures
            self.spares(after, block),
    {
        assert(after.log().take(self.log().len() as int) =~= self.log());
    }

    /// One call spares the blocks that it does not write to.
    pub(crate) proof fn lemma_call_spares(&self, after: &Self, call: Event, block: PBlockId)
        requires
            after.log() == self.log().push(call),
            misses(call, block),
        ensures
            self.spares(after, block),
    {
        assert(after.log().take(self.log().len() as int) =~= self.log());
    }

    /// Reading a block spares every block.
    pub(crate) proof fn lemma_read_spares(
        &self,
        after: &Self,
        id: PBlockId,
        reply: Result<Block>,
        block: PBlockId,
    )
        requires
            self.block_read(after, id, reply),
        ensures
            self.spares(after, block),
            honest_reads(since(self.log(), after.log())) ==> (reply matches Ok(found) ==> found.id
                == id),
    {
        assert(after.log().take(self.log().len() as int) =~= self.log());
        if after.log() != self.log() {
            let calls = since(self.log(), after.log());
            assert(calls[0] == Event::ReadBlock { id, reply });
        }
    }

    /// Reading a block and writing it spares the others.
    pub(crate) proof fn lemma_rewrite_spares(
        &self,
        read: &Self,
        after: &Self,
        home: PBlockId,
        found: Block,
        data: Seq<u8>,
        reply: Result<()>,
        block: PBlockId,
    )
        requires
            self.block_read(read, home, Ok(found)),
            after.log() == read.log().push(Event::WriteBlock { id: found.id, data, reply }),
        ensures
            extends(self.log(), after.log()),
            home != block ==> self.spares(after, block),
    {
        self.lemma_read_spares(read, home, Ok(found), block);
        assert(after.log().take(read.log().len() as int) =~= read.log());
        lemma_extends(self.log(), read.log(), after.log());
        let write = Event::WriteBlock { id: found.id, data, reply };
        if honest_reads(since(self.log(), after.log())) && home != block {
            let first = since(self.log(), read.log());
            assert(since(self.log(), after.log()) =~= first + seq![write]);
            lemma_honest_parts(first, seq![write]);
            read.lemma_call_spares(after, write, block);
            self.lemma_spared_on(read, after, block);
        }
    }

    /// Writing a block group descriptor spares the blocks without it.
    pub(crate) proof fn lemma_group_spares(
        &self,
        after: &Self,
        group: BlockGroupId,
        sealed: Seq<u8>,
        outcome: Result<()>,
        block: PBlockId,
    )
        requires
            self.group_written(after, group, sealed, outcome),
        ensures
            extends(self.log(), after.log()),
            self.state().group_position(group as int).0 != block ==> self.spares(after, block),
    {
        let (home, at) = self.state().group_position(group as int);
        if group >= self.state().groups.len() {
            self.lemma_still_spares(after, block);
        } else {
            let (read, reply) = choose|read: Self, reply: Result<Block>|
                {
                    &&& #[trigger] self.block_read(&read, home, reply)
                    &&& match reply {
                        Ok(found) => read.called(
                            after,
                            Event::WriteBlock {
                                id: found.id,
                                data: splice(found.data@, at, sealed),
                                reply: outcome,
                            },
                        ),
                        Err(error) => read.idle(after) && outcome == Err::<(), Ext4Error>(error),
                    }
                };
            match reply {
                Ok(found) => {
                    self.lemma_rewrite_spares(
                        &read,
                        after,
                        home,
                        found,
                        splice(found.data@, at, sealed),
                        outcome,
                        block,
                    );
                },
                Err(_) => {
                    self.lemma_read_spares(&read, home, reply, block);
                },
            }
        }
    }

    /// Writing the superblock spares the other blocks.
    pub(crate) proof fn lemma_superblock_spares(
        &self,
        after: &Self,
        sealed: Seq<u8>,
        outcome: Result<()>,
        block: PBlockId,
    )
        requires
            self.superblock_written(after, sealed, outcome),
        ensures
            extends(self.log(), after.log()),
            block != 0 ==> self.spares(after, block),
    {
        let (read, reply) = choose|read: Self, reply: Result<Block>|
            {
                &&& #[trigger] self.block_read(&read, 0, reply)
                &&& match reply {
                    Ok(found) => read.called(
                        after,
                        Event::WriteBlock {
                            id: found.id,
                            data: splice(found.data@, BASE_OFFSET as int, sealed),
                            reply: outcome,
                        },
                    ),
                    Err(error) => read.idle(after) && outcome == Err::<(), Ext4Error>(error),
                }
            };
        match reply {
            Ok(found) => {
                self.lemma_rewrite_spares(
                    &read,
                    after,
                    0,
                    found,
                    splice(found.data@, BASE_OFFSET as int, sealed),
                    outcome,
                    block,
                );
            },
            Err(_) => {
                self.lemma_read_spares(&read, 0, reply, block);
            },
        }
    }

    /// Writing a bitmap back spares the other blocks.
    proof fn lemma_bitmap_undone_spares(
        &self,
        after: &Self,
        bitmap: Block,
        error: Ext4Error,
        outcome: Result<()>,
        block: PBlockId,
    )
        requires
            self.bitmap_undone(after, bitmap, error, outcome),
        ensures
            extends(self.log(), after.log()),
            block != bitmap.id ==> self.spares(after, block),
    {
        let (written, reply) = choose|written: Self, reply: Result<()>|
            {
                &&& #[trigger] self.did(
                    &written,
                    Event::WriteBlock { id: bitmap.id, data: bitmap.data@, reply },
                )
                &&& match reply {
                    Ok(_) => written.idle(after) && outcome == Err::<(), Ext4Error>(error),
                    Err(fault) => {
                        &&& written.gave_out(after)
                        &&& outcome == Err::<(), Ext4Error>(fault)
                    },
                }
            };
        assert(after.log().take(self.log().len() as int) =~= self.log());
        if block != bitmap.id {
            self.lemma_call_spares(
                after,
                Event::WriteBlock { id: bitmap.id, data: bitmap.data@, reply },
                block,
            );
        }
    }

    /// Changing a bitmap and the counts of free blocks, or undoing it, spares the blocks that hold
    /// no such record.
    pub(crate) proof fn lemma_change_spares(
        &self,
        after: &Self,
        group: BlockGroupId,
        bitmap: Block,
        changed: Seq<u8>,
        group_free: u64,
        total_free: u64,
        outcome: Result<()>,
        block: PBlockId,
    )
        requires
            self.allocation_changed(
                after,
                group,
                bitmap,
                changed,
                group_free,
                total_free,
                outcome,
            ),
        ensures
            extends(self.log(), after.log()),
            block != 0 && block != bitmap.id && block != self.state().group_position(
                group as int,
            ).0 ==> self.spares(after, block),
    {
        let apart = block != 0 && block != bitmap.id && block != self.state().group_position(
            group as int,
        ).0;
        let desc = self.state().changed_desc(group as int, changed, group_free);
        let (marked, mark) = choose|marked: Self, mark: Result<()>|
            {
                &&& #[trigger] self.did(
                    &marked,
                    Event::WriteBlock { id: bitmap.id, data: changed, reply: mark },
                )
                &&& match mark {
                    Err(error) => marked.idle(after) && outcome == Err::<(), Ext4Error>(error),
                    Ok(_) => exists|counted: Self, count: Result<()>|
                        {
                            &&& #[trigger] marked.group_written(&counted, group, desc, count)
                            &&& self.count_followed(
                                &counted,
                                after,
                                group,
                                bitmap,
                                total_free,
                                count,
                                outcome,
                            )
                        },
                }
            };
        assert(marked.log().take(self.log().len() as int) =~= self.log());
        if apart {
            self.lemma_call_spares(
                &marked,
                Event::WriteBlock { id: bitmap.id, data: changed, reply: mark },
                block,
            );
        }
        if mark is Ok {
            let (counted, count) = choose|counted: Self, count: Result<()>|
                {
                    &&& #[trigger] marked.group_written(&counted, group, desc, count)
                    &&& self.count_followed(
                        &counted,
                        after,
                        group,
                        bitmap,
                        total_free,
                        count,
                        outcome,
                    )
                };
            marked.lemma_group_spares(&counted, group, desc, count, block);
            lemma_extends(self.log(), marked.log(), counted.log());
            if apart {
                self.lemma_spared_on(&marked, &counted, block);
            }
            self.lemma_count_spares(
                &counted,
                after,
                group,
                bitmap,
                total_free,
                count,
                outcome,
                block,
            );
            lemma_extends(self.log(), counted.log(), after.log());
            if apart {
                self.lemma_spared_on(&counted, after, block);
            }
        }
    }

    /// What follows once a group has counted its free blocks spares the blocks that hold no such
    /// record.
    pub(crate) proof fn lemma_count_spares(
        &self,
        counted: &Self,
        after: &Self,
        group: BlockGroupId,
        bitmap: Block,
        total_free: u64,
        count: Result<()>,
        outcome: Result<()>,
        block: PBlockId,
    )
        requires
            self.count_followed(counted, after, group, bitmap, total_free, count, outcome),
            counted.state().superblock == self.state().superblock,
        ensures
            extends(counted.log(), after.log()),
            block != 0 && block != bitmap.id && block != self.state().group_position(
                group as int,
            ).0 ==> counted.spares(after, block),
    {
        let apart = block != 0 && block != bitmap.id && block != self.state().group_position(
            group as int,
        ).0;
        match count {
            Err(error) => {
                counted.lemma_bitmap_undone_spares(after, bitmap, error, outcome, block);
            },
            Ok(_) => {
                let sealed = self.state().changed_superblock(total_free);
                let (totalled, total) = choose|totalled: Self, total: Result<()>|
                    {
                        &&& #[trigger] counted.superblock_written(&totalled, sealed, total)
                        &&& self.total_followed(&totalled, after, group, bitmap, total, outcome)
                    };
                counted.lemma_superblock_spares(&totalled, sealed, total, block);
                self.lemma_total_spares(&totalled, after, group, bitmap, total, outcome, block);
                lemma_extends(counted.log(), totalled.log(), after.log());
                if apart {
                    counted.lemma_spared_on(&totalled, after, block);
                }
            },
        }
    }

    /// What follows once all free blocks are counted spares the blocks that hold no such record.
    pub(crate) proof fn lemma_total_spares(
        &self,
        totalled: &Self,
        after: &Self,
        group: BlockGroupId,
        bitmap: Block,
        total: Result<()>,
        outcome: Result<()>,
        block: PBlockId,
    )
        requires
            self.total_followed(totalled, after, group, bitmap, total, outcome),
            total is Err ==> totalled.state().superblock == self.state().superblock,
        ensures
            extends(totalled.log(), after.log()),
            block != 0 && block != bitmap.id && block != self.state().group_position(
                group as int,
            ).0 ==> totalled.spares(after, block),
    {
        let apart = block != 0 && block != bitmap.id && block != self.state().group_position(
            group as int,
        ).0;
        match total {
            Ok(_) => {
                totalled.lemma_still_spares(after, block);
            },
            Err(error) => {
                let desc = sealed_desc(
                    self.state().groups[group as int],
                    group,
                    self.state().superblock,
                );
                let (written, reply) = choose|written: Self, reply: Result<()>|
                    {
                        &&& #[trigger] totalled.group_written(&written, group, desc, reply)
                        &&& match reply {
                            Ok(_) => written.bitmap_undone(after, bitmap, error, outcome),
                            Err(fault) => {
                                &&& written.gave_out(after)
                                &&& outcome == Err::<(), Ext4Error>(fault)
                            },
                        }
                    };
                totalled.lemma_group_spares(&written, group, desc, reply, block);
                if reply is Ok {
                    written.lemma_bitmap_undone_spares(after, bitmap, error, outcome, block);
                    lemma_extends(totalled.log(), written.log(), after.log());
                    if apart {
                        totalled.lemma_spared_on(&written, after, block);
                    }
                }
            },
        }
    }

    /// A search for a free block only reads, and names the bitmap of the group that it names.
    pub(crate) proof fn lemma_search_spares(
        &self,
        after: &Self,
        group: int,
        left: nat,
        found: Result<Option<(int, int, Block)>>,
        block: PBlockId,
    )
        requires
            self.searched(after, group, left, found),
        ensures
            self.spares(after, block),
            after.state() == self.state(),
            found matches Ok(Some((here, bit, bitmap))) ==> {
                &&& 0 <= here < self.state().groups.len()
                &&& honest_reads(since(self.log(), after.log())) ==> bitmap.id == halves64(
                    self.state().groups[here],
                    0,
                    32,
                )
            },
        decreases left,
    {
        let state = self.state();
        if left == 0 || state.groups.len() == 0 {
            self.lemma_still_spares(after, block);
        } else {
            let here = group % (state.groups.len() as int);
            if halves32(state.groups[here], 12, 44) == 0 {
                self.lemma_search_spares(after, here + 1, (left - 1) as nat, found, block);
            } else {
                let home = halves64(state.groups[here], 0, 32);
                let (read, reply) = choose|read: Self, reply: Result<Block>|
                    {
                        &&& #[trigger] self.block_read(&read, home, reply)
                        &&& match reply {
                            Err(error) => read.idle(after) && found == Err::<
                                Option<(int, int, Block)>,
                                Ext4Error,
                            >(error),
                            Ok(bitmap) => match clear_bit(bitmap.data@, state.group_size(here)) {
                                Some(bit) => {
                                    &&& read.idle(after)
                                    &&& found == Ok::<Option<(int, int, Block)>, Ext4Error>(
                                        Some((here, bit, bitmap)),
                                    )
                                },
                                None => read.searched(after, here + 1, (left - 1) as nat, found),
                            },
                        }
                    };
                self.lemma_read_spares(&read, home, reply, block);
                if reply matches Ok(bitmap) && clear_bit(
                    bitmap.data@,
                    state.group_size(here),
                ) is None {
                    read.lemma_search_spares(after, here + 1, (left - 1) as nat, found, block);
                    self.lemma_spared_on(&read, after, block);
                    if honest_reads(since(self.log(), after.log())) {
                        let first = since(self.log(), read.log());
                        let second = since(read.log(), after.log());
                        assert(since(self.log(), after.log()) =~= first + second) by {
                            assert(after.log().take(read.log().len() as int) == read.log());
                        }
                        lemma_honest_parts(first, second);
                    }
                }
            }
        }
    }

    /// Allocating a block spares the blocks that hold no record of which blocks are in use.
    pub(crate) proof fn lemma_allocation_spares(
        &self,
        after: &Self,
        inode: InodeId,
        outcome: Result<PBlockId>,
        block: PBlockId,
    )
        requires
            self.block_allocated(after, inode, outcome),
        ensures
            extends(self.log(), after.log()),
            !self.state().records_blocks(block) ==> self.spares(after, block),
    {
        let state = self.state();
        let (ended, found) = choose|ended: Self, found: Result<Option<(int, int, Block)>>|
            {
                &&& #[trigger] self.searched(
                    &ended,
                    state.home_group(inode),
                    state.groups.len(),
                    found,
                )
                &&& match found {
                    Err(error) => ended.idle(after) && outcome == Err::<PBlockId, Ext4Error>(error),
                    Ok(None) => ended.idle(after) && outcome == failed::<PBlockId>(ErrCode::ENOSPC),
                    Ok(Some((group, bit, bitmap))) => ended.bit_taken(
                        after,
                        group,
                        bit,
                        bitmap,
                        outcome,
                    ),
                }
            };
        self.lemma_search_spares(
            &ended,
            state.home_group(inode),
            state.groups.len(),
            found,
            block,
        );
        if let Ok(Some((group, bit, bitmap))) = found {
            let reply = choose|reply: Result<()>|
                {
                    &&& #[trigger] ended.allocation_changed(
                        after,
                        group as u32,
                        bitmap,
                        with_bit(bitmap.data@, bit),
                        (halves32(state.groups[group], 12, 44) - 1) as u64,
                        halves64(state.superblock, 12, 344).saturating_sub(1),
                        reply,
                    )
                    &&& outcome == match reply {
                        Ok(_) => Ok::<PBlockId, Ext4Error>(state.block_of_bit(group, bit) as u64),
                        Err(error) => Err(error),
                    }
                };
            ended.lemma_change_spares(
                after,
                group as u32,
                bitmap,
                with_bit(bitmap.data@, bit),
                (halves32(state.groups[group], 12, 44) - 1) as u64,
                halves64(state.superblock, 12, 344).saturating_sub(1),
                reply,
                block,
            );
            lemma_extends(self.log(), ended.log(), after.log());
            if !state.records_blocks(block) && honest_reads(since(self.log(), after.log())) {
                let first = since(self.log(), ended.log());
                let second = since(ended.log(), after.log());
                assert(since(self.log(), after.log()) =~= first + second) by {
                    assert(after.log().take(ended.log().len() as int) == ended.log());
                }
                lemma_honest_parts(first, second);
                assert(state.group_position(group).0 != block);
                assert(bitmap.id != block);
                self.lemma_spared_on(&ended, after, block);
            }
        }
    }

    /// Releasing a block goes on with the record.
    pub(crate) proof fn lemma_release_goes_on(
        &self,
        after: &Self,
        pblock: PBlockId,
        outcome: Result<()>,
    )
        requires
            self.block_released(after, pblock, outcome),
        ensures
            extends(self.log(), after.log()),
    {
        let state = self.state();
        match state.place_of(pblock) {
            None => {
                self.lemma_still_spares(after, 0);
            },
            Some((group, bit)) => {
                let home = halves64(state.groups[group], 0, 32);
                let (read, reply) = choose|read: Self, reply: Result<Block>|
                    {
                        &&& #[trigger] self.block_read(&read, home, reply)
                        &&& match reply {
                            Err(error) => read.idle(after) && outcome == Err::<(), Ext4Error>(
                                error,
                            ),
                            Ok(bitmap) => if !bit_set(bitmap.data@, bit) {
                                read.idle(after) && outcome == failed::<()>(ErrCode::EIO)
                            } else {
                                read.allocation_changed(
                                    after,
                                    group as u32,
                                    bitmap,
                                    without_bit(bitmap.data@, bit),
                                    (halves32(state.groups[group], 12, 44) + 1) as u64,
                                    halves64(state.superblock, 12, 344).saturating_add(1),
                                    outcome,
                                )
                            },
                        }
                    };
                self.lemma_read_spares(&read, home, reply, 0);
                if reply is Ok && bit_set(reply->Ok_0.data@, bit) {
                    read.lemma_change_spares(
                        after,
                        group as u32,
                        reply->Ok_0,
                        without_bit(reply->Ok_0.data@, bit),
                        (halves32(state.groups[group], 12, 44) + 1) as u64,
                        halves64(state.superblock, 12, 344).saturating_add(1),
                        outcome,
                        0,
                    );
                    lemma_extends(self.log(), read.log(), after.log());
                }
            },
        }
    }

    /// Allocating a block leaves inodes where they stand, and how metadata is checked.
    pub(crate) proof fn lemma_allocation_keeps_positions(
        &self,
        after: &Self,
        inode: InodeId,
        block: PBlockId,
    )
        requires
            self.block_allocated(after, inode, Ok(block)),
            self.state().superblock.len() == SUPER_BLOCK_BYTES,
            forall|i: int|
                0 <= i < self.state().groups.len() ==> (#[trigger] self.state().groups[i]).len()
                    == SB_GOOD_DESC_SIZE,
            self.state().groups.len() <= u32::MAX,
        ensures
            forall|id: InodeId| #[trigger]
                after.state().inode_position(id) == self.state().inode_position(id),
            checksummed(after.state().superblock) == checksummed(self.state().superblock),
            seed_in(after.state().superblock) == seed_in(self.state().superblock),
            after.state().mode == self.state().mode,
            after.state().gate == self.state().gate,
    {
        let state = self.state();
        let (ended, found) = choose|ended: Self, found: Result<Option<(int, int, Block)>>|
            {
                &&& #[trigger] self.searched(
                    &ended,
                    state.home_group(inode),
                    state.groups.len(),
                    found,
                )
                &&& match found {
                    Err(error) => false,
                    Ok(None) => false,
                    Ok(Some((group, bit, bitmap))) => ended.bit_taken(
                        after,
                        group,
                        bit,
                        bitmap,
                        Ok(block),
                    ),
                }
            };
        self.lemma_search_spares(
            &ended,
            state.home_group(inode),
            state.groups.len(),
            found,
            0,
        );
        let (group, bit, bitmap) = found->Ok_0->0;
        let changed = with_bit(bitmap.data@, bit);
        let free = (halves32(state.groups[group], 12, 44) - 1) as u64;
        let total_free = halves64(state.superblock, 12, 344).saturating_sub(1);
        let reply = choose|reply: Result<()>|
            {
                &&& #[trigger] ended.allocation_changed(
                    after,
                    group as u32,
                    bitmap,
                    changed,
                    free,
                    total_free,
                    reply,
                )
                &&& Ok::<PBlockId, Ext4Error>(block) == match reply {
                    Ok(_) => Ok::<PBlockId, Ext4Error>(state.block_of_bit(group, bit) as u64),
                    Err(error) => Err(error),
                }
            };
        let desc = state.changed_desc(group, changed, free);
        let sealed = state.changed_superblock(total_free);
        let (marked, mark) = choose|marked: Self, mark: Result<()>|
            {
                &&& #[trigger] ended.did(
                    &marked,
                    Event::WriteBlock { id: bitmap.id, data: changed, reply: mark },
                )
                &&& match mark {
                    Err(error) => marked.idle(after) && reply == Err::<(), Ext4Error>(error),
                    Ok(_) => exists|counted: Self, count: Result<()>|
                        {
                            &&& #[trigger] marked.group_written(
                                &counted,
                                group as u32,
                                desc,
                                count,
                            )
                            &&& ended.count_followed(
                                &counted,
                                after,
                                group as u32,
                                bitmap,
                                total_free,
                                count,
                                reply,
                            )
                        },
                }
            };
        let (counted, count) = choose|counted: Self, count: Result<()>|
            {
                &&& #[trigger] marked.group_written(&counted, group as u32, desc, count)
                &&& ended.count_followed(
                    &counted,
                    after,
                    group as u32,
                    bitmap,
                    total_free,
                    count,
                    reply,
                )
            };
        assert(count is Ok);
        let (totalled, total) = choose|totalled: Self, total: Result<()>|
            {
                &&& #[trigger] counted.superblock_written(&totalled, sealed, total)
                &&& ended.total_followed(
                    &totalled,
                    after,
                    group as u32,
                    bitmap,
                    total,
                    reply,
                )
            };
        assert(total is Ok);
        assert(after.state().superblock == sealed);
        assert(after.state().groups == state.groups.update(group, desc));
        let raw = state.superblock;
        let counted_raw = with_halves64(raw, 12, 344, total_free);
        assert(le32_at(sealed, 40) == le32_at(raw, 40));
        assert(checksummed(sealed) == checksummed(raw));
        assert(sealed.subrange(104, 120) =~= raw.subrange(104, 120));
        assert(seed_in(sealed) == seed_in(raw));
        assert(halves64(desc, 8, 40) == halves64(state.groups[group], 8, 40));
        assert forall|id: InodeId| #[trigger]
            after.state().inode_position(id) == state.inode_position(id) by {
            let per_group = le32_at(raw, 40) as int;
            if id != 0 && per_group != 0 {
                let place = (id - 1) / per_group;
                if place < state.groups.len() {
                    assert(halves64(after.state().groups[place], 8, 40) == halves64(
                        state.groups[place],
                        8,
                        40,
                    ));
                }
            }
        }
    }

    /// A search for a free block reads the bitmap of a group, and finds its first free block.
    proof fn lemma_search_finds(
        &self,
        after: &Self,
        group: int,
        left: nat,
        found: Result<Option<(int, int, Block)>>,
        disk: Disk,
    )
        requires
            self.searched(after, group, left, found),
            self.state().batch() == Seq::<StagedBlock>::empty(),
        ensures
            self.only_asked(after),
            told_all(since(self.log(), after.log()), disk) ==> (found matches Ok(
                Some((here, bit, bitmap)),
            ) ==> {
                let home = halves64(self.state().groups[here], 0, 32);
                &&& 0 <= here < self.state().groups.len()
                &&& bitmap.id == home
                &&& bitmap.data@ == disk[home]
                &&& first_clear(disk[home], self.state().group_size(here), bit)
            }),
        decreases left,
    {
        let state = self.state();
        if left == 0 || state.groups.len() == 0 {
            self.lemma_idle_only_asks(after);
        } else {
            let here = group % (state.groups.len() as int);
            if halves32(state.groups[here], 12, 44) == 0 {
                self.lemma_search_finds(after, here + 1, (left - 1) as nat, found, disk);
            } else {
                let home = halves64(state.groups[here], 0, 32);
                let (read, reply) = choose|read: Self, reply: Result<Block>|
                    {
                        &&& #[trigger] self.block_read(&read, home, reply)
                        &&& match reply {
                            Err(error) => read.idle(after) && found == Err::<
                                Option<(int, int, Block)>,
                                Ext4Error,
                            >(error),
                            Ok(bitmap) => match clear_bit(bitmap.data@, state.group_size(here)) {
                                Some(bit) => {
                                    &&& read.idle(after)
                                    &&& found == Ok::<Option<(int, int, Block)>, Ext4Error>(
                                        Some((here, bit, bitmap)),
                                    )
                                },
                                None => read.searched(after, here + 1, (left - 1) as nat, found),
                            },
                        }
                    };
                let call = Event::ReadBlock { id: home, reply };
                self.lemma_call_only_asks(&read, call);
                let calls = since(self.log(), after.log());
                if reply matches Ok(bitmap) && clear_bit(
                    bitmap.data@,
                    state.group_size(here),
                ) is None {
                    read.lemma_search_finds(after, here + 1, (left - 1) as nat, found, disk);
                    self.lemma_calls_join(&read, after);
                    let rest = since(read.log(), after.log());
                    if told_all(calls, disk) {
                        assert forall|k: int| 0 <= k < rest.len() implies told(
                            #[trigger] rest[k],
                            disk,
                        ) by {
                            assert(calls[k + 1] == rest[k]);
                        }
                    }
                } else {
                    assert(calls[0] == call);
                }
            }
        }
    }

    /// A change of a bitmap that succeeds leaves the bitmap on the device.
    proof fn lemma_change_marks(
        &self,
        after: &Self,
        group: BlockGroupId,
        bitmap: Block,
        changed: Seq<u8>,
        group_free: u64,
        total_free: u64,
        disk: Disk,
    )
        requires
            self.allocation_changed(
                after,
                group,
                bitmap,
                changed,
                group_free,
                total_free,
                Ok(()),
            ),
            bitmap.id != 0,
            bitmap.id != self.state().group_position(group as int).0,
            honest_reads(since(self.log(), after.log())),
        ensures
            self.left_on(after, disk)[bitmap.id] == changed,
    {
        let block = bitmap.id;
        let outcome = Ok::<(), Ext4Error>(());
        let desc = self.state().changed_desc(group as int, changed, group_free);
        let (marked, mark) = choose|marked: Self, mark: Result<()>|
            {
                &&& #[trigger] self.did(
                    &marked,
                    Event::WriteBlock { id: bitmap.id, data: changed, reply: mark },
                )
                &&& match mark {
                    Err(error) => marked.idle(after) && outcome == Err::<(), Ext4Error>(error),
                    Ok(_) => exists|counted: Self, count: Result<()>|
                        {
                            &&& #[trigger] marked.group_written(&counted, group, desc, count)
                            &&& self.count_followed(
                                &counted,
                                after,
                                group,
                                bitmap,
                                total_free,
                                count,
                                outcome,
                            )
                        },
                }
            };
        let (counted, count) = choose|counted: Self, count: Result<()>|
            {
                &&& #[trigger] marked.group_written(&counted, group, desc, count)
                &&& self.count_followed(
                    &counted,
                    after,
                    group,
                    bitmap,
                    total_free,
                    count,
                    outcome,
                )
            };
        assert(count is Ok);
        let sealed = self.state().changed_superblock(total_free);
        let (totalled, total) = choose|totalled: Self, total: Result<()>|
            {
                &&& #[trigger] counted.superblock_written(&totalled, sealed, total)
                &&& self.total_followed(&totalled, after, group, bitmap, total, outcome)
            };
        assert(total is Ok);
        let write = Event::WriteBlock { id: bitmap.id, data: changed, reply: mark };
        assert(marked.log().take(self.log().len() as int) =~= self.log());
        marked.lemma_group_spares(&counted, group, desc, count, block);
        counted.lemma_superblock_spares(&totalled, sealed, total, block);
        totalled.lemma_still_spares(after, block);
        counted.lemma_spared_on(&totalled, after, block);
        marked.lemma_spared_on(&counted, after, block);
        self.lemma_device_joins(&marked, after, disk);
        let calls = since(self.log(), marked.log());
        let rest = since(marked.log(), after.log());
        assert(since(self.log(), after.log()) =~= calls + rest) by {
            assert(after.log().take(marked.log().len() as int) == marked.log());
        }
        lemma_honest_parts(calls, rest);
        assert(calls =~= seq![write]);
        assert(calls.skip(1) =~= Seq::<Event>::empty());
        reveal_with_fuel(held, 2);
        assert(self.left_on(&marked, disk) == disk.insert(bitmap.id, changed));
        marked.lemma_spared_is_held(after, block, self.left_on(&marked, disk));
    }

    /// A block that is allocated was free: its group and its bit are those of a mark that was not
    /// set. Then the mark is set, and no other mark of that group changes.
    pub proof fn lemma_allocated_block_was_free(
        &self,
        after: &Self,
        inode: InodeId,
        block: PBlockId,
        disk: Disk,
    )
        requires
            self.block_allocated(after, inode, Ok(block)),
            self.state().batch() == Seq::<StagedBlock>::empty(),
            self.state().groups.len() <= u32::MAX,
            self.answered_by(after, disk),
        ensures
            block < halves64(self.state().superblock, 4, 336),
            self.state().place_of(block) matches Some((group, bit)) && {
                let home = halves64(self.state().groups[group], 0, 32);
                &&& !bit_set(disk[home], bit)
                &&& home != 0 && home != self.state().group_position(group).0 ==> self.left_on(
                    after,
                    disk,
                )[home] == with_bit(disk[home], bit)
            },
    {
        let state = self.state();
        let outcome = Ok::<PBlockId, Ext4Error>(block);
        let (ended, found) = choose|ended: Self, found: Result<Option<(int, int, Block)>>|
            {
                &&& #[trigger] self.searched(
                    &ended,
                    state.home_group(inode),
                    state.groups.len(),
                    found,
                )
                &&& match found {
                    Err(error) => ended.idle(after) && outcome == Err::<PBlockId, Ext4Error>(error),
                    Ok(None) => ended.idle(after) && outcome == failed::<PBlockId>(ErrCode::ENOSPC),
                    Ok(Some((group, bit, bitmap))) => ended.bit_taken(
                        after,
                        group,
                        bit,
                        bitmap,
                        outcome,
                    ),
                }
            };
        let (group, bit, bitmap) = found->Ok_0->0;
        self.lemma_search_finds(&ended, state.home_group(inode), state.groups.len(), found, disk);
        let changed = with_bit(bitmap.data@, bit);
        let free = (halves32(state.groups[group], 12, 44) - 1) as u64;
        let total = halves64(state.superblock, 12, 344).saturating_sub(1);
        let reply = choose|reply: Result<()>|
            {
                &&& #[trigger] ended.allocation_changed(
                    after,
                    group as u32,
                    bitmap,
                    changed,
                    free,
                    total,
                    reply,
                )
                &&& outcome == match reply {
                    Ok(_) => Ok::<PBlockId, Ext4Error>(state.block_of_bit(group, bit) as u64),
                    Err(error) => Err(error),
                }
            };
        match reply {
            Ok(done) => {
                assert(done == ());
            },
            Err(_) => {},
        }
        ended.lemma_change_spares(after, group as u32, bitmap, changed, free, total, reply, 0);
        self.lemma_answers_split(&ended, after, disk);
        self.lemma_device_joins(&ended, after, disk);
        self.lemma_asking_leaves_device(&ended, disk);
        let calls = since(self.log(), ended.log());
        assert forall|k: int| 0 <= k < calls.len() - 1 implies !writes(#[trigger] calls[k]) by {
            assert(calls[k] == ended.log()[self.log().len() + k]);
        }
        lemma_told_before_writing(disk, calls);
        state.lemma_place_of_block(group, bit);
        state.lemma_block_exists(group, bit);
        lemma_faithful_reads(disk, since(ended.log(), after.log()));
        if bitmap.id != 0 && bitmap.id != state.group_position(group).0 {
            ended.lemma_change_marks(
                after,
                group as u32,
                bitmap,
                changed,
                free,
                total,
                disk,
            );
        }
    }

    /// A block that is allocated is counted: its group and the whole have one free block less, and
    /// no other group changes.
    pub proof fn lemma_allocated_block_is_counted(
        &self,
        after: &Self,
        inode: InodeId,
        block: PBlockId,
        disk: Disk,
    )
        requires
            self.inv(),
            self.block_allocated(after, inode, Ok(block)),
            self.state().batch() == Seq::<StagedBlock>::empty(),
            self.answered_by(after, disk),
        ensures
            self.state().place_of(block) matches Some((group, _)) && {
                let free = halves32(self.state().groups[group], 12, 44);
                let total = halves64(self.state().superblock, 12, 344);
                &&& free > 0 ==> halves32(after.state().groups[group], 12, 44) == free - 1
                &&& total > 0 ==> halves64(after.state().superblock, 12, 344) == total - 1
                &&& forall|i: int|
                    0 <= i < self.state().groups.len() && i != group ==> #[trigger] after.state().groups[i]
                        == self.state().groups[i]
            },
    {
        let state = self.state();
        let outcome = Ok::<PBlockId, Ext4Error>(block);
        let (ended, found) = choose|ended: Self, found: Result<Option<(int, int, Block)>>|
            {
                &&& #[trigger] self.searched(
                    &ended,
                    state.home_group(inode),
                    state.groups.len(),
                    found,
                )
                &&& match found {
                    Err(error) => ended.idle(after) && outcome == Err::<PBlockId, Ext4Error>(error),
                    Ok(None) => ended.idle(after) && outcome == failed::<PBlockId>(ErrCode::ENOSPC),
                    Ok(Some((group, bit, bitmap))) => ended.bit_taken(
                        after,
                        group,
                        bit,
                        bitmap,
                        outcome,
                    ),
                }
            };
        let (group, bit, bitmap) = found->Ok_0->0;
        self.lemma_search_finds(&ended, state.home_group(inode), state.groups.len(), found, disk);
        let changed = with_bit(bitmap.data@, bit);
        let free = (halves32(state.groups[group], 12, 44) - 1) as u64;
        let total = halves64(state.superblock, 12, 344).saturating_sub(1);
        let reply = choose|reply: Result<()>|
            {
                &&& #[trigger] ended.allocation_changed(
                    after,
                    group as u32,
                    bitmap,
                    changed,
                    free,
                    total,
                    reply,
                )
                &&& outcome == match reply {
                    Ok(_) => Ok::<PBlockId, Ext4Error>(state.block_of_bit(group, bit) as u64),
                    Err(error) => Err(error),
                }
            };
        match reply {
            Ok(done) => {
                assert(done == ());
            },
            Err(_) => {},
        }
        ended.lemma_change_spares(after, group as u32, bitmap, changed, free, total, reply, 0);
        self.lemma_answers_split(&ended, after, disk);
        let calls = since(self.log(), ended.log());
        assert forall|k: int| 0 <= k < calls.len() - 1 implies !writes(#[trigger] calls[k]) by {
            assert(calls[k] == ended.log()[self.log().len() + k]);
        }
        lemma_told_before_writing(disk, calls);
        state.lemma_place_of_block(group, bit);
        ended.lemma_change_is_counted(after, group as u32, bitmap, changed, free, total);
    }

    /// A block that is released was in use: its mark was set. Then the mark is cleared, no other
    /// mark of its group changes, and the group and the whole have one free block more.
    pub proof fn lemma_released_block_is_free(
        &self,
        after: &Self,
        block: PBlockId,
        disk: Disk,
    )
        requires
            self.inv(),
            self.block_released(after, block, Ok(())),
            self.state().batch() == Seq::<StagedBlock>::empty(),
            self.answered_by(after, disk),
        ensures
            self.state().place_of(block) matches Some((group, bit)) && {
                let home = halves64(self.state().groups[group], 0, 32);
                let free = halves32(self.state().groups[group], 12, 44);
                let total = halves64(self.state().superblock, 12, 344);
                &&& bit_set(disk[home], bit)
                &&& home != 0 && home != self.state().group_position(group).0 ==> self.left_on(
                    after,
                    disk,
                )[home] == without_bit(disk[home], bit)
                &&& free < u32::MAX ==> halves32(after.state().groups[group], 12, 44) == free + 1
                &&& total < u64::MAX ==> halves64(after.state().superblock, 12, 344) == total + 1
                &&& forall|i: int|
                    0 <= i < self.state().groups.len() && i != group ==> #[trigger] after.state().groups[i]
                        == self.state().groups[i]
            },
    {
        let state = self.state();
        let outcome = Ok::<(), Ext4Error>(());
        let (group, bit) = state.place_of(block)->0;
        let home = halves64(state.groups[group], 0, 32);
        let free = (halves32(state.groups[group], 12, 44) + 1) as u64;
        let total = halves64(state.superblock, 12, 344).saturating_add(1);
        let (read, reply) = choose|read: Self, reply: Result<Block>|
            {
                &&& #[trigger] self.block_read(&read, home, reply)
                &&& match reply {
                    Err(error) => read.idle(after) && outcome == Err::<(), Ext4Error>(error),
                    Ok(bitmap) => if !bit_set(bitmap.data@, bit) {
                        read.idle(after) && outcome == failed::<()>(ErrCode::EIO)
                    } else {
                        read.allocation_changed(
                            after,
                            group as u32,
                            bitmap,
                            without_bit(bitmap.data@, bit),
                            free,
                            total,
                            outcome,
                        )
                    },
                }
            };
        let bitmap = reply->Ok_0;
        let changed = without_bit(bitmap.data@, bit);
        let call = Event::ReadBlock { id: home, reply };
        self.lemma_call_only_asks(&read, call);
        read.lemma_change_spares(after, group as u32, bitmap, changed, free, total, outcome, 0);
        lemma_extends(self.log(), read.log(), after.log());
        self.lemma_answers_split(&read, after, disk);
        self.lemma_device_joins(&read, after, disk);
        self.lemma_asking_leaves_device(&read, disk);
        assert(since(self.log(), read.log()) =~= seq![call]);
        lemma_told_before_writing(disk, since(self.log(), read.log()));
        assert(since(self.log(), read.log())[0] == call);
        lemma_faithful_reads(disk, since(read.log(), after.log()));
        read.lemma_change_is_counted(after, group as u32, bitmap, changed, free, total);
        if home != 0 && home != state.group_position(group).0 {
            read.lemma_change_marks(after, group as u32, bitmap, changed, free, total, disk);
        }
    }

    /// A block that is allocated to be cleared holds zeros.
    pub proof fn lemma_new_block_is_clear(
        &self,
        after: &Self,
        inode: InodeId,
        block: PBlockId,
        disk: Disk,
    )
        requires
            self.zeroed_allocated(after, inode, false, Ok(block)),
        ensures
            self.left_on(after, disk)[block] == zeros(BLOCK_SIZE as nat),
    {
        let outcome = Ok::<PBlockId, Ext4Error>(block);
        let (taken, reply) = choose|taken: Self, reply: Result<PBlockId>|
            {
                &&& #[trigger] self.block_allocated(&taken, inode, reply)
                &&& match reply {
                    Err(error) => taken.idle(after) && outcome == reply,
                    Ok(pblock) => taken.block_zeroed(after, pblock, outcome),
                }
            };
        let (cleared, write) = choose|cleared: Self, write: Result<()>|
            {
                &&& #[trigger] taken.did(
                    &cleared,
                    Event::WriteBlock { id: block, data: zeros(BLOCK_SIZE as nat), reply: write },
                )
                &&& write is Ok
                &&& cleared.idle(after)
            };
        let call = Event::WriteBlock { id: block, data: zeros(BLOCK_SIZE as nat), reply: write };
        self.lemma_allocation_spares(&taken, inode, reply, 0);
        assert(after.log().take(taken.log().len() as int) =~= taken.log());
        self.lemma_device_joins(&taken, after, disk);
        let calls = since(taken.log(), after.log());
        assert(calls =~= seq![call]);
        assert(calls.skip(1) =~= Seq::<Event>::empty());
        reveal_with_fuel(held, 2);
    }
}

} // verus!
