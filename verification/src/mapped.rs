//! A range that was given blocks is mapped.

use vstd::prelude::*;
use crate::balloc::with_bit;
use crate::content::lemma_extends;
use crate::device::{extends, Block, BlockDevice, Event};
use crate::error::{failed, ErrCode, Ext4Error, Result};
use crate::fs::Ext4;
use crate::grow::{flat, is_free, joint_end};
use crate::inode::{halves32, halves64, InodeRef};
use crate::prepared_extent::PreparedExtentProbe;
use crate::range::WriteLogicalRange;
use crate::volume::{LayerCall, Volume};
use crate::{InodeId, LBlockId, PBlockId};

verus! {

broadcast use Ext4::lemma_with_counts;

/// Allocating blocks goes on with the record.
impl<D: BlockDevice, V: Volume<D>> Ext4<D, V> {
    /// Reading a block, or nothing, goes on with the record.
    proof fn lemma_block_read_goes_on(&self, after: &Self, id: PBlockId, reply: Result<Block>)
        requires
            self.block_read(after, id, reply),
        ensures
            extends(self.log(), after.log()),
    {
        assert(after.log().take(self.log().len() as int) =~= self.log());
    }

    /// Searching for a free block goes on with the record.
    proof fn lemma_search_goes_on(
        &self,
        after: &Self,
        group: int,
        left: nat,
        found: Result<Option<(int, int, Block)>>,
    )
        requires
            self.searched(after, group, left, found),
        ensures
            extends(self.log(), after.log()),
        decreases left,
    {
        let state = self.state();
        if left == 0 || state.groups.len() == 0 {
            assert(after.log().take(self.log().len() as int) =~= self.log());
        } else {
            let here = group % (state.groups.len() as int);
            if halves32(state.groups[here], 12, 44) == 0 {
                self.lemma_search_goes_on(after, here + 1, (left - 1) as nat, found);
            } else {
                let home = halves64(state.groups[here], 0, 32);
                let (read, reply) = choose|read: Self, reply: Result<Block>|
                    {
                        &&& #[trigger] self.block_read(&read, home, reply)
                        &&& match reply {
                            Err(error) => read.idle(after) && found == Err::<
                                Option<(int, int, Block)>,
                                Ext4Error,
                            >(error),
                            Ok(bitmap) => match crate::balloc::clear_bit(
                                bitmap.data@,
                                state.group_size(here),
                            ) {
                                Some(bit) => {
                                    &&& read.idle(after)
                                    &&& found == Ok::<Option<(int, int, Block)>, Ext4Error>(
                                        Some((here, bit, bitmap)),
                                    )
                                },
                                None => read.searched(after, here + 1, (left - 1) as nat, found),
                            },
                        }
                    };
                self.lemma_block_read_goes_on(&read, home, reply);
                if reply matches Ok(bitmap) && crate::balloc::clear_bit(
                    bitmap.data@,
                    state.group_size(here),
                ) is None {
                    read.lemma_search_goes_on(after, here + 1, (left - 1) as nat, found);
                } else {
                    assert(after.log().take(read.log().len() as int) =~= read.log());
                }
                lemma_extends(self.log(), read.log(), after.log());
            }
        }
    }

    /// Marking a block as used goes on with the record.
    proof fn lemma_marking_goes_on(
        &self,
        after: &Self,
        group: u32,
        bitmap: Block,
        changed: Seq<u8>,
        group_free: u64,
        total_free: u64,
    )
        requires
            self.allocation_changed(
                after,
                group,
                bitmap,
                changed,
                group_free,
                total_free,
                Ok(()),
            ),
        ensures
            extends(self.log(), after.log()),
    {
        let outcome = Ok::<(), Ext4Error>(());
        let desc = self.state().changed_desc(group as int, changed, group_free);
        let (marked, mark) = choose|marked: Self, mark: Result<()>|
            {
                &&& #[trigger] self.did(
                    &marked,
                    Event::WriteBlock { id: bitmap.id, data: changed, reply: mark },
                )
                &&& match mark {
                    Err(error) => marked.idle(after) && outcome == Err::<(), Ext4Error>(error),
                    Ok(_) => exists|counted: Self, count: Result<()>|
                        {
                            &&& #[trigger] marked.group_written(&counted, group, desc, count)
                            &&& self.count_followed(
                                &counted,
                                after,
                                group,
                                bitmap,
                                total_free,
                                count,
                                outcome,
                            )
                        },
                }
            };
        assert(extends(self.log(), marked.log())) by {
            assert(marked.log().take(self.log().len() as int) =~= self.log());
        }
        let (counted, count) = choose|counted: Self, count: Result<()>|
            {
                &&& #[trigger] marked.group_written(&counted, group, desc, count)
                &&& self.count_followed(
                    &counted,
                    after,
                    group,
                    bitmap,
                    total_free,
                    count,
                    outcome,
                )
            };
        assert(extends(marked.log(), counted.log())) by {
            assert(counted.log().take(marked.log().len() as int) =~= marked.log());
        }
        let sealed = self.state().changed_superblock(total_free);
        match count {
            Ok(_) => {
                let (totalled, total) = choose|totalled: Self, total: Result<()>|
                    {
                        &&& #[trigger] counted.superblock_written(&totalled, sealed, total)
                        &&& self.total_followed(&totalled, after, group, bitmap, total, outcome)
                    };
                assert(extends(counted.log(), totalled.log())) by {
                    assert(totalled.log().take(counted.log().len() as int) =~= counted.log());
                }
                assert(total is Ok) by {
                    if let Err(error) = total {
                        totalled.lemma_undoing_fails(
                            after,
                            group,
                            crate::superblock::sealed_desc(
                                self.state().groups[group as int],
                                group,
                                self.state().superblock,
                            ),
                            bitmap,
                            error,
                            outcome,
                        );
                    }
                }
                assert(after.log() == totalled.log());
                lemma_extends(marked.log(), counted.log(), totalled.log());
            },
            Err(_) => {},
        }
        lemma_extends(self.log(), marked.log(), after.log());
    }

    /// Undoing an allocation gives an error back.
    proof fn lemma_undoing_fails(
        &self,
        after: &Self,
        group: u32,
        desc: Seq<u8>,
        bitmap: Block,
        error: Ext4Error,
        outcome: Result<()>,
    )
        requires
            self.group_undone(after, group, desc, bitmap, error, outcome),
        ensures
            outcome is Err,
    {
    }

    /// Allocating a block goes on with the record.
    proof fn lemma_allocation_goes_on(&self, after: &Self, inode: InodeId, block: PBlockId)
        requires
            self.block_allocated(after, inode, Ok(block)),
        ensures
            extends(self.log(), after.log()),
    {
        let state = self.state();
        let outcome = Ok::<PBlockId, Ext4Error>(block);
        let (ended, found) = choose|ended: Self, found: Result<Option<(int, int, Block)>>|
            {
                &&& #[trigger] self.searched(
                    &ended,
                    state.home_group(inode),
                    state.groups.len(),
                    found,
                )
                &&& match found {
                    Err(error) => ended.idle(after) && outcome == Err::<PBlockId, Ext4Error>(error),
                    Ok(None) => ended.idle(after) && outcome == failed::<PBlockId>(ErrCode::ENOSPC),
                    Ok(Some((group, bit, bitmap))) => ended.bit_taken(
                        after,
                        group,
                        bit,
                        bitmap,
                        outcome,
                    ),
                }
            };
        self.lemma_search_goes_on(&ended, state.home_group(inode), state.groups.len(), found);
        let (group, bit, bitmap) = found->Ok_0->0;
        let there = ended.state();
        let reply = choose|reply: Result<()>|
            {
                &&& #[trigger] ended.allocation_changed(
                    after,
                    group as u32,
                    bitmap,
                    with_bit(bitmap.data@, bit),
                    (halves32(there.groups[group], 12, 44) - 1) as u64,
                    halves64(there.superblock, 12, 344).saturating_sub(1),
                    reply,
                )
                &&& outcome == match reply {
                    Ok(_) => Ok::<PBlockId, Ext4Error>(there.block_of_bit(group, bit) as u64),
                    Err(error) => Err(error),
                }
            };
        match reply {
            Ok(done) => {
                assert(done == ());
            },
            Err(_) => {},
        }
        ended.lemma_marking_goes_on(
            after,
            group as u32,
            bitmap,
            with_bit(bitmap.data@, bit),
            (halves32(there.groups[group], 12, 44) - 1) as u64,
            halves64(there.superblock, 12, 344).saturating_sub(1),
        );
        lemma_extends(self.log(), ended.log(), after.log());
    }

    /// Allocating and clearing a block goes on with the record.
    proof fn lemma_zeroing_goes_on(
        &self,
        after: &Self,
        inode: InodeId,
        skip_zero: bool,
        block: PBlockId,
    )
        requires
            self.zeroed_allocated(after, inode, skip_zero, Ok(block)),
        ensures
            extends(self.log(), after.log()),
    {
        let outcome = Ok::<PBlockId, Ext4Error>(block);
        let (taken, reply) = choose|taken: Self, reply: Result<PBlockId>|
            {
                &&& #[trigger] self.block_allocated(&taken, inode, reply)
                &&& match reply {
                    Err(error) => taken.idle(after) && outcome == reply,
                    Ok(pblock) => if skip_zero {
                        taken.idle(after) && outcome == reply
                    } else {
                        taken.block_zeroed(after, pblock, outcome)
                    },
                }
            };
        self.lemma_allocation_goes_on(&taken, inode, reply->Ok_0);
        assert(extends(taken.log(), after.log())) by {
            assert(after.log().take(taken.log().len() as int) =~= taken.log());
        }
        lemma_extends(self.log(), taken.log(), after.log());
    }

    /// Allocating blocks goes on with the record.
    proof fn lemma_allocations_go_on(
        &self,
        after: &Self,
        inode: InodeId,
        done: Seq<PBlockId>,
        count: nat,
        skip_zero: bool,
        homes: Seq<PBlockId>,
    )
        requires
            self.blocks_allocated(after, inode, done, count, skip_zero, Ok(homes)),
        ensures
            extends(self.log(), after.log()),
        decreases count - done.len(),
    {
        let outcome = Ok::<Seq<PBlockId>, Ext4Error>(homes);
        if done.len() >= count {
            assert(after.log().take(self.log().len() as int) =~= self.log());
        } else {
            let (taken, reply) = choose|taken: Self, reply: Result<PBlockId>|
                {
                    &&& #[trigger] self.zeroed_allocated(&taken, inode, skip_zero, reply)
                    &&& match reply {
                        Ok(pblock) => taken.blocks_allocated(
                            after,
                            inode,
                            done.push(pblock),
                            count,
                            skip_zero,
                            outcome,
                        ),
                        Err(error) => exists|undone: Result<()>|
                            {
                                &&& #[trigger] taken.blocks_released(
                                    after,
                                    done,
                                    done.len(),
                                    undone,
                                )
                                &&& outcome == match undone {
                                    Ok(_) => Err::<Seq<PBlockId>, Ext4Error>(error),
                                    Err(fault) => Err(fault),
                                }
                            },
                    }
                };
            match reply {
                Ok(block) => {
                    self.lemma_zeroing_goes_on(&taken, inode, skip_zero, block);
                    taken.lemma_allocations_go_on(
                        after,
                        inode,
                        done.push(block),
                        count,
                        skip_zero,
                        homes,
                    );
                    lemma_extends(self.log(), taken.log(), after.log());
                },
                Err(_) => {},
            }
        }
    }
}

/// Finding and adding the blocks of a range.
impl<D: BlockDevice, V: Volume<D>> Ext4<D, V> {
    /// Whether a block of a file was found to stand somewhere on the way to a later state.
    pub open spec fn finds_block(&self, after: &Self, block: LBlockId) -> bool {
        exists|before: Self, queried: Self, file: InodeRef, home: PBlockId|
            {
                &&& #[trigger] before.block_located(&queried, file, block, Ok(home))
                &&& extends(self.log(), before.log())
                &&& extends(queried.log(), after.log())
            }
    }

    /// A block that was found on a part of the way was found on the way.
    proof fn lemma_found_on_the_way(
        &self,
        first: &Self,
        second: &Self,
        after: &Self,
        block: LBlockId,
    )
        requires
            first.finds_block(second, block),
            extends(self.log(), first.log()),
            extends(second.log(), after.log()),
        ensures
            self.finds_block(after, block),
    {
        let (before, queried, file, home) = choose|
            before: Self,
            queried: Self,
            file: InodeRef,
            home: PBlockId,
        |
            {
                &&& #[trigger] before.block_located(&queried, file, block, Ok(home))
                &&& extends(first.log(), before.log())
                &&& extends(queried.log(), second.log())
            };
        lemma_extends(self.log(), first.log(), before.log());
        lemma_extends(queried.log(), second.log(), after.log());
        assert(before.block_located(&queried, file, block, Ok(home)));
    }

    /// Asking where a block stands goes on with the record.
    proof fn lemma_location_goes_on(
        &self,
        after: &Self,
        file: InodeRef,
        block: LBlockId,
        reply: Result<PBlockId>,
    )
        requires
            self.block_located(after, file, block, reply),
        ensures
            extends(self.log(), after.log()),
            reply is Ok ==> self.finds_block(after, block),
    {
        self.lemma_located_served(after, file, block, reply, Map::empty(), Map::empty());
        assert(self.log().take(self.log().len() as int) =~= self.log());
        assert(after.log().take(after.log().len() as int) =~= after.log());
        if let Ok(home) = reply {
            assert(self.block_located(after, file, block, Ok(home)));
        }
    }

    /// Each block of a range is found, or is among the missing ones.
    proof fn lemma_blocks_are_found_or_missing(
        &self,
        after: &Self,
        inode: InodeRef,
        iblock: int,
        last: int,
        done: Seq<LBlockId>,
        missing: Seq<LBlockId>,
        block: LBlockId,
    )
        requires
            self.missing_found(after, inode, iblock, last, done, (missing, Ok(()))),
            0 <= iblock,
            last <= u32::MAX,
        ensures
            extends(self.log(), after.log()),
            forall|k: int| 0 <= k < done.len() ==> missing.contains(#[trigger] done[k]),
            iblock <= block <= last ==> self.finds_block(after, block) || missing.contains(block),
        decreases last + 1 - iblock,
    {
        let found = (missing, Ok::<(), Ext4Error>(()));
        if iblock > last {
            assert(after.log().take(self.log().len() as int) =~= self.log());
            assert forall|k: int| 0 <= k < done.len() implies missing.contains(
                #[trigger] done[k],
            ) by {
                assert(missing[k] == done[k]);
            }
        } else {
            let (queried, reply) = choose|queried: Self, reply: Result<PBlockId>|
                {
                    &&& #[trigger] self.block_located(&queried, inode, iblock as u32, reply)
                    &&& match reply {
                        Ok(_) => queried.with_counts(
                            queried.counts().with_mapped(),
                        ).missing_found(after, inode, iblock + 1, last, done, found),
                        Err(error) => if error.code == ErrCode::ENOENT {
                            queried.with_counts(queried.counts().with_missing(1)).missing_found(
                                after,
                                inode,
                                iblock + 1,
                                last,
                                done.push(iblock as u32),
                                found,
                            )
                        } else {
                            queried.idle(after) && found == (done, Err::<(), Ext4Error>(error))
                        },
                    }
                };
            self.lemma_location_goes_on(&queried, inode, iblock as u32, reply);
            let next = if reply is Ok {
                done
            } else {
                done.push(iblock as u32)
            };
            let noted = if reply is Ok {
                queried.with_counts(queried.counts().with_mapped())
            } else {
                queried.with_counts(queried.counts().with_missing(1))
            };
            noted.lemma_blocks_are_found_or_missing(
                after,
                inode,
                iblock + 1,
                last,
                next,
                missing,
                block,
            );
            lemma_extends(self.log(), queried.log(), after.log());
            assert forall|k: int| 0 <= k < done.len() implies missing.contains(
                #[trigger] done[k],
            ) by {
                assert(next[k] == done[k]);
            }
            assert(self.log().take(self.log().len() as int) =~= self.log());
            assert(after.log().take(after.log().len() as int) =~= after.log());
            if block == iblock {
                if reply is Ok {
                    self.lemma_found_on_the_way(self, &queried, after, block);
                } else {
                    assert(next[done.len() as int] == block);
                }
            } else if iblock < block <= last && queried.finds_block(after, block) {
                self.lemma_found_on_the_way(&queried, after, after, block);
            }
        }
    }

    /// Checking the places of new blocks finds each of them.
    proof fn lemma_checked_blocks_are_found(
        &self,
        after: &Self,
        inode: InodeRef,
        lblock: int,
        home: int,
        left: nat,
        block: LBlockId,
    )
        requires
            self.places_checked(after, inode, lblock, home, left, Ok(())),
            0 <= lblock,
        ensures
            extends(self.log(), after.log()),
            lblock <= block < lblock + left ==> self.finds_block(after, block),
        decreases left,
    {
        let outcome = Ok::<(), Ext4Error>(());
        if left == 0 {
            assert(after.log().take(self.log().len() as int) =~= self.log());
        } else {
            let (queried, reply) = choose|queried: Self, reply: Result<PBlockId>|
                {
                    &&& #[trigger] self.block_located(&queried, inode, lblock as u32, reply)
                    &&& match reply {
                        Ok(found) => if found == home {
                            queried.places_checked(
                                after,
                                inode,
                                lblock + 1,
                                home + 1,
                                (left - 1) as nat,
                                outcome,
                            )
                        } else {
                            queried.idle(after) && outcome == failed::<()>(ErrCode::EIO)
                        },
                        Err(error) => queried.idle(after) && outcome == Err::<(), Ext4Error>(
                            error,
                        ),
                    }
                };
            self.lemma_location_goes_on(&queried, inode, lblock as u32, reply);
            queried.lemma_checked_blocks_are_found(
                after,
                inode,
                lblock + 1,
                home + 1,
                (left - 1) as nat,
                block,
            );
            lemma_extends(self.log(), queried.log(), after.log());
            assert(self.log().take(self.log().len() as int) =~= self.log());
            assert(after.log().take(after.log().len() as int) =~= after.log());
            if block == lblock {
                self.lemma_found_on_the_way(self, &queried, after, block);
            } else if lblock < block < lblock + left {
                self.lemma_found_on_the_way(&queried, after, after, block);
            }
        }
    }

    /// Adding the extents of missing blocks finds each of the blocks.
    proof fn lemma_added_blocks_are_found(
        &self,
        after: &Self,
        inode: InodeRef,
        created: InodeRef,
        missing: Seq<LBlockId>,
        homes: Seq<PBlockId>,
        at: int,
        i: int,
    )
        requires
            self.extents_created(after, inode, created, missing, homes, at, Ok(())),
            0 <= at,
        ensures
            extends(self.log(), after.log()),
            at <= i < missing.len() ==> self.finds_block(after, missing[i]),
        decreases missing.len() - at,
    {
        let outcome = Ok::<(), Ext4Error>(());
        let end = joint_end(missing, homes, at, at + 1);
        lemma_joint_blocks(missing, homes, at, at + 1);
        if !(0 <= at < end <= missing.len()) {
            assert(after.log().take(self.log().len() as int) =~= self.log());
        } else {
            let (added, grown, reply) = choose|added: Self, grown: InodeRef, reply: Result<()>|
                {
                    &&& #[trigger] self.extent_created(
                        &added,
                        inode,
                        grown,
                        missing[at],
                        homes[at],
                        (end - at) as nat,
                        reply,
                    )
                    &&& match reply {
                        Ok(_) => added.extents_created(
                            after,
                            grown,
                            created,
                            missing,
                            homes,
                            end,
                            outcome,
                        ),
                        Err(error) => {
                            &&& added.idle(after)
                            &&& created == grown
                            &&& outcome == Err::<(), Ext4Error>(error)
                        },
                    }
                };
            let count = (end - at) as nat;
            let (asked, told) = choose|asked: Self, told: Result<()>|
                {
                    &&& #[trigger] self.asked(
                        &asked,
                        LayerCall::CreateExtent {
                            inode,
                            start: missing[at],
                            count: count as u32,
                            first: homes[at],
                            after: grown,
                            reply: told,
                        },
                    )
                    &&& match told {
                        Ok(_) => asked.places_checked(
                            &added,
                            grown,
                            missing[at] as int,
                            homes[at] as int,
                            count,
                            reply,
                        ),
                        Err(error) => asked.idle(&added) && reply == Err::<(), Ext4Error>(error),
                    }
                };
            match reply {
                Ok(done) => {
                    assert(done == ());
                },
                Err(_) => {},
            }
            assert(extends(self.log(), asked.log())) by {
                assert(asked.log().take(self.log().len() as int) =~= self.log());
            }
            asked.lemma_checked_blocks_are_found(
                &added,
                grown,
                missing[at] as int,
                homes[at] as int,
                count,
                missing[i],
            );
            added.lemma_added_blocks_are_found(after, grown, created, missing, homes, end, i);
            lemma_extends(self.log(), asked.log(), added.log());
            lemma_extends(self.log(), added.log(), after.log());
            assert(after.log().take(after.log().len() as int) =~= after.log());
            if at <= i < end {
                assert(missing[i] == missing[at] + (i - at));
                self.lemma_found_on_the_way(&asked, &added, after, missing[i]);
            } else if end <= i < missing.len() {
                self.lemma_found_on_the_way(&added, after, after, missing[i]);
            }
        }
    }

    /// Recording new blocks goes on with the record.
    proof fn lemma_recording_goes_on(
        &self,
        after: &Self,
        inode: InodeRef,
        recorded: InodeRef,
        added: nat,
        was_flat: bool,
    )
        requires
            self.growth_recorded(after, inode, recorded, added, was_flat, Ok(())),
        ensures
            extends(self.log(), after.log()),
    {
        let outcome = Ok::<(), Ext4Error>(());
        let (counted, counted_inode, reply) = choose|
            counted: Self,
            counted_inode: InodeRef,
            reply: Result<()>,
        |
            {
                &&& #[trigger] self.range_counted(
                    &counted,
                    inode,
                    counted_inode,
                    added,
                    was_flat,
                    reply,
                )
                &&& match reply {
                    Ok(_) => counted.inode_written(after, counted_inode, recorded, outcome),
                    Err(error) => {
                        &&& counted.idle(after)
                        &&& recorded == counted_inode
                        &&& outcome == Err::<(), Ext4Error>(error)
                    },
                }
            };
        assert(extends(self.log(), counted.log())) by {
            assert(counted.log().take(self.log().len() as int) =~= self.log());
        }
        assert(extends(counted.log(), after.log())) by {
            assert(after.log().take(counted.log().len() as int) =~= counted.log());
        }
        lemma_extends(self.log(), counted.log(), after.log());
    }

    /// Adding missing blocks to a file finds each of them.
    proof fn lemma_filled_gaps_are_found(
        &self,
        after: &Self,
        inode: InodeRef,
        filled: InodeRef,
        missing: Seq<LBlockId>,
        skip_zero: bool,
        i: int,
    )
        requires
            self.gaps_filled(after, inode, filled, missing, skip_zero, Ok(())),
            0 <= i,
        ensures
            extends(self.log(), after.log()),
            i < missing.len() ==> self.finds_block(after, missing[i]),
    {
        let outcome = Ok::<(), Ext4Error>(());
        let (tried, installed, reply) = choose|
            tried: Self,
            installed: InodeRef,
            reply: Result<()>,
        |
            {
                &&& #[trigger] self.blocks_installed(
                    &tried,
                    inode,
                    installed,
                    missing,
                    skip_zero,
                    reply,
                )
                &&& match reply {
                    Ok(_) => {
                        &&& tried.idle(after)
                        &&& filled == installed
                        &&& outcome == Ok::<(), Ext4Error>(())
                    },
                    Err(error) => tried.with_counts(tried.counts().with_failure()).growth_given_up(
                        after,
                        installed,
                        filled,
                        error,
                        outcome,
                    ),
                }
            };
        if let Err(error) = reply {
            tried.lemma_giving_up_fails(after, installed, filled, error, outcome);
        }
        match reply {
            Ok(done) => {
                assert(done == ());
            },
            Err(_) => {},
        }
        let (taken, homes) = choose|taken: Self, homes: Result<Seq<PBlockId>>|
            {
                &&& #[trigger] self.blocks_allocated(
                    &taken,
                    inode.id,
                    Seq::empty(),
                    missing.len(),
                    skip_zero,
                    homes,
                )
                &&& match homes {
                    Ok(blocks) => taken.homes_installed(
                        &tried,
                        inode,
                        installed,
                        missing,
                        blocks,
                        reply,
                    ),
                    Err(error) => {
                        &&& taken.idle(&tried)
                        &&& installed == inode
                        &&& reply == Err::<(), Ext4Error>(error)
                    },
                }
            };
        let blocks = homes->Ok_0;
        self.lemma_allocations_go_on(
            &taken,
            inode.id,
            Seq::empty(),
            missing.len(),
            skip_zero,
            blocks,
        );
        let (made, grown, said) = choose|made: Self, grown: InodeRef, said: Result<()>|
            {
                &&& #[trigger] taken.extents_created(
                    &made,
                    inode,
                    grown,
                    missing,
                    blocks,
                    0,
                    said,
                )
                &&& match said {
                    Ok(_) => made.growth_recorded(
                        &tried,
                        grown,
                        installed,
                        missing.len(),
                        flat(inode.inode),
                        reply,
                    ),
                    Err(error) => {
                        &&& made.idle(&tried)
                        &&& installed == grown
                        &&& reply == Err::<(), Ext4Error>(error)
                    },
                }
            };
        match said {
            Ok(done) => {
                assert(done == ());
            },
            Err(_) => {},
        }
        taken.lemma_added_blocks_are_found(&made, inode, grown, missing, blocks, 0, i);
        made.lemma_recording_goes_on(
            &tried,
            grown,
            installed,
            missing.len(),
            flat(inode.inode),
        );
        lemma_extends(taken.log(), made.log(), tried.log());
        lemma_extends(self.log(), taken.log(), tried.log());
        assert(after.log() == tried.log());
        if i < missing.len() {
            self.lemma_found_on_the_way(&taken, &made, after, missing[i]);
        }
    }

    /// Giving an allocation up gives an error back.
    proof fn lemma_giving_up_fails(
        &self,
        after: &Self,
        inode: InodeRef,
        repaired: InodeRef,
        error: Ext4Error,
        outcome: Result<()>,
    )
        requires
            self.growth_given_up(after, inode, repaired, error, outcome),
        ensures
            outcome is Err,
    {
    }

    /// Giving blocks to a range of a file finds every block of the range: where it stood before, or
    /// where it was put.
    pub proof fn lemma_filled_range_is_mapped(
        &self,
        after: &Self,
        inode: InodeRef,
        filled: InodeRef,
        range: WriteLogicalRange,
        skip_zero: bool,
        block: LBlockId,
    )
        requires
            self.range_filled(after, inode, filled, range, skip_zero, Ok(())),
            range.first_lblock <= block <= range.last_lblock,
        ensures
            extends(self.log(), after.log()),
            self.finds_block(after, block),
    {
        let outcome = Ok::<(), Ext4Error>(());
        let (looked, found) = choose|looked: Self, found: (Seq<LBlockId>, Result<()>)|
            {
                &&& #[trigger] self.with_counts(
                    self.counts().with_call(range.block_count as u64),
                ).missing_found(
                    &looked,
                    inode,
                    range.first_lblock as int,
                    range.last_lblock as int,
                    Seq::empty(),
                    found,
                )
                &&& match found.1 {
                    Err(error) => {
                        let failed = looked.with_counts(looked.counts().with_failure());
                        if found.0.len() > 0 {
                            failed.growth_given_up(after, inode, filled, error, outcome)
                        } else {
                            &&& failed.idle(after)
                            &&& filled == inode
                            &&& outcome == Err::<(), Ext4Error>(error)
                        }
                    },
                    Ok(_) => if found.0.len() > 0 {
                        looked.gaps_filled(after, inode, filled, found.0, skip_zero, outcome)
                    } else {
                        &&& looked.idle(after)
                        &&& filled == inode
                        &&& outcome == Ok::<(), Ext4Error>(())
                    },
                }
            };
        let missing = found.0;
        if let Err(error) = found.1 {
            if missing.len() > 0 {
                looked.with_counts(looked.counts().with_failure()).lemma_giving_up_fails(
                    after,
                    inode,
                    filled,
                    error,
                    outcome,
                );
            }
        }
        match found.1 {
            Ok(done) => {
                assert(done == ());
                assert(found == (missing, Ok::<(), Ext4Error>(())));
            },
            Err(_) => {},
        }
        self.with_counts(
            self.counts().with_call(range.block_count as u64),
        ).lemma_blocks_are_found_or_missing(
            &looked,
            inode,
            range.first_lblock as int,
            range.last_lblock as int,
            Seq::empty(),
            missing,
            block,
        );
        assert(self.log().take(self.log().len() as int) =~= self.log());
        if missing.len() > 0 {
            let i = if missing.contains(block) {
                choose|i: int| 0 <= i < missing.len() && missing[i] == block
            } else {
                0
            };
            looked.lemma_filled_gaps_are_found(after, inode, filled, missing, skip_zero, i);
            lemma_extends(self.log(), looked.log(), after.log());
            assert(after.log().take(after.log().len() as int) =~= after.log());
            if missing.contains(block) {
                self.lemma_found_on_the_way(&looked, after, after, block);
            } else {
                self.lemma_found_on_the_way(self, &looked, after, block);
            }
        } else {
            assert(after.log() == looked.log());
            assert(after.log().take(looked.log().len() as int) =~= looked.log());
            self.lemma_found_on_the_way(self, &looked, after, block);
        }
    }

    /// A range that is prepared block by block was known to be mapped, or every block of it is
    /// found: where it stood before, or where it was put.
    pub proof fn lemma_secured_range_is_mapped(
        &self,
        after: &Self,
        id: InodeId,
        range: WriteLogicalRange,
        stored: bool,
        block: LBlockId,
    )
        requires
            self.range_secured(after, id, range, Ok(stored)),
            range.first_lblock <= block <= range.last_lblock,
        ensures
            !stored,
            self.state().prepared.knows(id, range) || self.finds_block(after, block),
    {
        let outcome = Ok::<bool, Ext4Error>(stored);
        let (looked, probe) = choose|looked: Self, probe: PreparedExtentProbe|
            {
                &&& #[trigger] self.probed(&looked, id, range, probe)
                &&& if self.state().prepared.knows(id, range) {
                    looked.idle(after) && outcome == Ok::<bool, Ext4Error>(false)
                } else {
                    looked.range_settled(after, id, range, outcome)
                }
            };
        if !self.state().prepared.knows(id, range) {
            let (given, reply) = choose|given: Self, reply: Result<()>|
                {
                    &&& #[trigger] looked.range_given(&given, id, range, reply)
                    &&& match reply {
                        Ok(_) => {
                            &&& given.range_published(after, id, range)
                            &&& outcome == Ok::<bool, Ext4Error>(false)
                        },
                        Err(error) => given.idle(after) && outcome == Err::<bool, Ext4Error>(error),
                    }
                };
            match reply {
                Ok(done) => {
                    assert(done == ());
                },
                Err(_) => {},
            }
            let (read, found) = choose|read: Self, found: Result<InodeRef>|
                {
                    &&& #[trigger] looked.inode_read(&read, id, found)
                    &&& match found {
                        Err(error) => read.idle(&given) && reply == Err::<(), Ext4Error>(error),
                        Ok(inode) => if is_free(inode.inode) {
                            read.idle(&given) && reply == failed::<()>(ErrCode::EINVAL)
                        } else {
                            exists|filled: InodeRef| #[trigger]
                                read.range_filled(&given, inode, filled, range, false, reply)
                        },
                    }
                };
            let inode = found->Ok_0;
            let filled = choose|filled: InodeRef| #[trigger]
                read.range_filled(&given, inode, filled, range, false, reply);
            read.lemma_filled_range_is_mapped(&given, inode, filled, range, false, block);
            assert(extends(self.log(), read.log())) by {
                assert(read.log().take(self.log().len() as int) =~= self.log());
            }
            assert(extends(given.log(), after.log())) by {
                assert(after.log().take(given.log().len() as int) =~= given.log());
            }
            self.lemma_found_on_the_way(&read, &given, after, block);
        }
    }
}

/// The blocks of one extent follow on each other.
proof fn lemma_joint_blocks(missing: Seq<LBlockId>, homes: Seq<PBlockId>, start: int, end: int)
    requires
        0 <= start < end,
        forall|j: int|
            start <= j < end && j < missing.len() ==> #[trigger] missing[j] == missing[start] + (j
                - start),
    ensures
        joint_end(missing, homes, start, end) >= end,
        end <= missing.len() ==> joint_end(missing, homes, start, end) <= missing.len(),
        forall|j: int|
            start <= j < joint_end(missing, homes, start, end) && j < missing.len()
                ==> #[trigger] missing[j] == missing[start] + (j - start),
    decreases missing.len() - end,
{
    if start < end < missing.len() && end < homes.len() && end - start
        < crate::grow::MAX_NEW_EXTENT_BLOCKS && missing[end] == missing[start] + (end - start)
        && homes[end] == homes[start] + (end - start) {
        lemma_joint_blocks(missing, homes, start, end + 1);
    }
}

} // verus!
