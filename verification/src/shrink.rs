//! What a file holds after it was cut and grew again.

use vstd::prelude::*;
use crate::content::{
    apart, byte_of, held, lemma_extends, lemma_held_joins, lemma_held_without_writes, stored, Disk,
    Places,
};
use crate::device::{extends, since, Block, BlockDevice, Event};
use crate::error::{failed, ErrCode, Ext4Error, Result};
use crate::fs::Ext4;
use crate::inode::{has_extents, InodeRef, SECTORS_PER_BLOCK};
use crate::journal_transaction::{CommitError, Transaction};
use crate::prepared_extent::lemma_new_epoch_knows_nothing;
use crate::range::WriteLogicalRange;
use crate::staged::{
    holds_home, lemma_slot_exists, lemma_slot_of_inserted, ordered, slot, with_block, with_image,
    StagedBlock,
};
use crate::truncate::{Cut, TRUNCATE_CREDITS};
use crate::volume::{BlockImage, ExtentTail, LayerCall, RemovedTail, Volume};
use crate::{InodeId, PBlockId, BLOCK_SIZE};

verus! {

/// The steps of a truncation go on with the record.
impl<D: BlockDevice, V: Volume<D>> Ext4<D, V> {
    /// One call goes on with the record.
    proof fn lemma_pushed(&self, after: &Self, call: Event)
        requires
            after.log() == self.log().push(call),
        ensures
            extends(self.log(), after.log()),
    {
        assert(after.log().take(self.log().len() as int) =~= self.log());
    }

    /// Nothing goes on with the record.
    proof fn lemma_unmoved(&self, after: &Self)
        requires
            after.log() == self.log(),
        ensures
            extends(self.log(), after.log()),
    {
        assert(after.log().take(self.log().len() as int) =~= self.log());
    }

    /// Staging the inode of a step and committing it goes on with the record.
    pub(crate) proof fn lemma_cut_staged_goes_on(
        &self,
        after: &Self,
        inode: InodeRef,
        transaction: Transaction,
        finished: bool,
        outcome: Result<bool>,
    )
        requires
            self.cut_staged(after, inode, transaction, finished, outcome),
        ensures
            extends(self.log(), after.log()),
    {
        let (staged, grown, sealed, reply) = choose|
            staged: Self,
            grown: Transaction,
            sealed: InodeRef,
            reply: Result<()>,
        |
            {
                &&& #[trigger] self.inode_staged(
                    &staged,
                    transaction,
                    grown,
                    inode,
                    sealed,
                    reply,
                )
                &&& match reply {
                    Ok(_) => staged.cut_committed(after, grown, finished, outcome),
                    Err(error) => staged.given_up(after, grown) && outcome == Err::<
                        bool,
                        Ext4Error,
                    >(error),
                }
            };
        self.lemma_followed_is_recorded(&staged);
        match reply {
            Ok(_) => {
                let (done, said) = choose|done: Self, said: core::result::Result<(), CommitError>|
                    {
                        &&& #[trigger] staged.committed(&done, grown, said)
                        &&& match said {
                            Ok(_) => done.idle(after) && outcome == Ok::<bool, Ext4Error>(finished),
                            Err(stop) => done.gave_out(after) && outcome == Err::<bool, Ext4Error>(
                                stop.error,
                            ),
                        }
                    };
                if staged.state().mode is ReadOnly {
                    staged.lemma_unmoved(&done);
                } else {
                    staged.lemma_followed_is_recorded(&done);
                }
                assert(after.log() == done.log());
            },
            Err(_) => {
                staged.lemma_unmoved(after);
            },
        }
        lemma_extends(self.log(), staged.log(), after.log());
    }

    /// Releasing blocks goes on with the record.
    proof fn lemma_range_released_goes_on(
        &self,
        after: &Self,
        before: Transaction,
        transaction: Transaction,
        first: PBlockId,
        count: u32,
        outcome: Result<()>,
    )
        requires
            self.range_released(after, before, transaction, first, count, outcome),
        ensures
            extends(self.log(), after.log()),
    {
        let (asked, reply) = choose|asked: Self, reply: Result<Vec<BlockImage>>|
            {
                &&& #[trigger] self.asked(&asked, LayerCall::ReleaseRange { first, count, reply })
                &&& match reply {
                    Ok(images) => asked.images_staged(
                        after,
                        before,
                        transaction,
                        images@,
                        0,
                        outcome,
                    ),
                    Err(error) => {
                        &&& asked.idle(after)
                        &&& transaction == before
                        &&& outcome == Err::<(), Ext4Error>(error)
                    },
                }
            };
        let call = LayerCall::ReleaseRange { first, count, reply };
        self.lemma_pushed(&asked, Event::Layer { call });
        match reply {
            Ok(images) => {
                asked.lemma_images_keep_names(after, before, transaction, images@, 0, outcome);
            },
            Err(_) => {
                asked.lemma_unmoved(after);
            },
        }
        lemma_extends(self.log(), asked.log(), after.log());
    }

    /// Releasing single blocks goes on with the record.
    proof fn lemma_singles_released_goes_on(
        &self,
        after: &Self,
        before: Transaction,
        transaction: Transaction,
        homes: Seq<PBlockId>,
        at: int,
        outcome: Result<()>,
    )
        requires
            self.singles_released(after, before, transaction, homes, at, outcome),
        ensures
            extends(self.log(), after.log()),
        decreases homes.len() - at,
    {
        if at >= homes.len() {
            self.lemma_unmoved(after);
        } else {
            let (released, grown, reply) = choose|
                released: Self,
                grown: Transaction,
                reply: Result<()>,
            |
                {
                    &&& #[trigger] self.range_released(
                        &released,
                        before,
                        grown,
                        homes[at],
                        1,
                        reply,
                    )
                    &&& match reply {
                        Ok(_) => released.singles_released(
                            after,
                            grown,
                            transaction,
                            homes,
                            at + 1,
                            outcome,
                        ),
                        Err(error) => {
                            &&& released.idle(after)
                            &&& transaction == grown
                            &&& outcome == Err::<(), Ext4Error>(error)
                        },
                    }
                };
            self.lemma_range_released_goes_on(&released, before, grown, homes[at], 1, reply);
            match reply {
                Ok(_) => {
                    released.lemma_singles_released_goes_on(
                        after,
                        grown,
                        transaction,
                        homes,
                        at + 1,
                        outcome,
                    );
                },
                Err(_) => {
                    released.lemma_unmoved(after);
                },
            }
            lemma_extends(self.log(), released.log(), after.log());
        }
    }

    /// Releasing the blocks of a tree, and what follows, goes on with the record.
    proof fn lemma_tree_released_goes_on(
        &self,
        after: &Self,
        inode: InodeRef,
        transaction: Transaction,
        removed: RemovedTail,
        outcome: Result<bool>,
    )
        requires
            self.cut_tree_released(after, inode, transaction, removed, outcome),
        ensures
            extends(self.log(), after.log()),
    {
        let count = removed.block_count + removed.metadata_blocks@.len();
        let (released, grown, reply) = choose|
            released: Self,
            grown: Transaction,
            reply: Result<()>,
        |
            {
                &&& #[trigger] self.singles_released(
                    &released,
                    transaction,
                    grown,
                    removed.metadata_blocks@,
                    0,
                    reply,
                )
                &&& match reply {
                    Ok(_) => released.cut_counted(after, inode, grown, count, outcome),
                    Err(error) => released.given_up(after, grown) && outcome == Err::<
                        bool,
                        Ext4Error,
                    >(error),
                }
            };
        self.lemma_singles_released_goes_on(
            &released,
            transaction,
            grown,
            removed.metadata_blocks@,
            0,
            reply,
        );
        let left = inode.inode.sectors() / SECTORS_PER_BLOCK - count;
        if reply is Ok && left >= 0 {
            let counted = choose|counted: InodeRef|
                {
                    &&& counted.id == inode.id
                    &&& counted.inode@ == crate::inode::with_wide48(
                        inode.inode@,
                        28,
                        116,
                        (left as u64).wrapping_mul(SECTORS_PER_BLOCK),
                    )
                    &&& #[trigger] released.cut_staged(after, counted, grown, false, outcome)
                };
            released.lemma_cut_staged_goes_on(after, counted, grown, false, outcome);
        } else {
            released.lemma_unmoved(after);
        }
        lemma_extends(self.log(), released.log(), after.log());
    }

    /// Cutting blocks from a file goes on with the record.
    proof fn lemma_cut_removed_goes_on(
        &self,
        after: &Self,
        inode: InodeRef,
        transaction: Transaction,
        limit: u32,
        outcome: Result<bool>,
    )
        requires
            self.cut_removed(after, inode, transaction, limit, outcome),
        ensures
            extends(self.log(), after.log()),
    {
        let (asked, shorter, reply) = choose|
            asked: Self,
            shorter: InodeRef,
            reply: Result<Option<RemovedTail>>,
        |
            {
                &&& #[trigger] self.asked(
                    &asked,
                    LayerCall::RemoveTail { inode, limit, after: shorter, reply },
                )
                &&& match reply {
                    Ok(Some(removed)) => asked.cut_imaged(
                        after,
                        shorter,
                        transaction,
                        removed,
                        outcome,
                    ),
                    Ok(None) => asked.given_up(after, transaction) && outcome == failed::<bool>(
                        ErrCode::EIO,
                    ),
                    Err(error) => asked.given_up(after, transaction) && outcome == Err::<
                        bool,
                        Ext4Error,
                    >(error),
                }
            };
        let call = LayerCall::RemoveTail { inode, limit, after: shorter, reply };
        self.lemma_pushed(&asked, Event::Layer { call });
        match reply {
            Ok(Some(removed)) => {
                let (imaged, first, told) = choose|
                    imaged: Self,
                    first: Transaction,
                    told: Result<()>,
                |
                    {
                        &&& #[trigger] asked.images_staged(
                            &imaged,
                            transaction,
                            first,
                            removed.images@,
                            0,
                            told,
                        )
                        &&& match told {
                            Ok(_) => imaged.cut_data_released(
                                after,
                                shorter,
                                first,
                                removed,
                                outcome,
                            ),
                            Err(error) => imaged.given_up(after, first) && outcome == Err::<
                                bool,
                                Ext4Error,
                            >(error),
                        }
                    };
                asked.lemma_images_keep_names(
                    &imaged,
                    transaction,
                    first,
                    removed.images@,
                    0,
                    told,
                );
                if told is Ok {
                    imaged.lemma_data_released_goes_on(after, shorter, first, removed, outcome);
                } else {
                    imaged.lemma_unmoved(after);
                }
                lemma_extends(asked.log(), imaged.log(), after.log());
            },
            _ => {
                asked.lemma_unmoved(after);
            },
        }
        lemma_extends(self.log(), asked.log(), after.log());
    }

    /// Releasing the blocks that were cut, and what follows, goes on with the record.
    proof fn lemma_data_released_goes_on(
        &self,
        after: &Self,
        inode: InodeRef,
        transaction: Transaction,
        removed: RemovedTail,
        outcome: Result<bool>,
    )
        requires
            self.cut_data_released(after, inode, transaction, removed, outcome),
        ensures
            extends(self.log(), after.log()),
    {
        let (released, grown, reply) = choose|
            released: Self,
            grown: Transaction,
            reply: Result<()>,
        |
            {
                &&& #[trigger] self.range_released(
                    &released,
                    transaction,
                    grown,
                    removed.start_pblock,
                    removed.block_count,
                    reply,
                )
                &&& match reply {
                    Ok(_) => released.cut_tree_released(after, inode, grown, removed, outcome),
                    Err(error) => released.given_up(after, grown) && outcome == Err::<
                        bool,
                        Ext4Error,
                    >(error),
                }
            };
        self.lemma_range_released_goes_on(
            &released,
            transaction,
            grown,
            removed.start_pblock,
            removed.block_count,
            reply,
        );
        if reply is Ok {
            released.lemma_tree_released_goes_on(after, inode, grown, removed, outcome);
        } else {
            released.lemma_unmoved(after);
        }
        lemma_extends(self.log(), released.log(), after.log());
    }

    /// What a step decides goes on with the record.
    pub(crate) proof fn lemma_cut_decided_goes_on(
        &self,
        after: &Self,
        inode: InodeRef,
        tail: Option<ExtentTail>,
        transaction: Transaction,
        cut: Cut,
        outcome: Result<bool>,
    )
        requires
            self.cut_decided(after, inode, tail, transaction, cut, outcome),
        ensures
            extends(self.log(), after.log()),
    {
        let decision: Result<Option<u32>> = match tail {
            None => Ok(None),
            Some(last) => self.removal(last, cut.kept()),
        };
        match decision {
            Err(_) => {
                self.lemma_unmoved(after);
            },
            Ok(None) => {
                let sized = choose|sized: InodeRef|
                    #[trigger] self.cut_staged(after, sized, transaction, true, outcome);
                self.lemma_cut_staged_goes_on(after, sized, transaction, true, outcome);
            },
            Ok(Some(limit)) => {
                self.lemma_cut_removed_goes_on(after, inode, transaction, limit, outcome);
            },
        }
    }
}

impl<D: BlockDevice, V: Volume<D>> Ext4<D, V> {
    /// Clearing the last block goes on with the record.
    pub(crate) proof fn lemma_end_cleared_goes_on(
        &self,
        after: &Self,
        inode: InodeRef,
        cut: Cut,
        outcome: Result<()>,
    )
        requires
            self.end_cleared(after, inode, cut, outcome),
        ensures
            extends(self.log(), after.log()),
    {
        let last = cut.new_size as int / BLOCK_SIZE as int;
        if last > u32::MAX {
            self.lemma_unmoved(after);
        } else {
            let (queried, found) = choose|queried: Self, found: Result<PBlockId>|
                {
                    &&& #[trigger] self.block_located(&queried, inode, last as u32, found)
                    &&& match found {
                        Ok(home) => queried.rest_cleared(after, home, cut.rest(), outcome),
                        Err(error) => {
                            &&& queried.idle(after)
                            &&& outcome == if error.code == ErrCode::ENOENT {
                                Ok::<(), Ext4Error>(())
                            } else {
                                Err(error)
                            }
                        },
                    }
                };
            self.lemma_located_served(
                &queried,
                inode,
                last as u32,
                found,
                Map::empty(),
                Map::empty(),
            );
            match found {
                Ok(home) => {
                    let (read, reply) = choose|read: Self, reply: Result<Block>|
                        {
                            &&& #[trigger] queried.block_read(&read, home, reply)
                            &&& match reply {
                                Ok(block) => read.did(
                                    after,
                                    Event::WriteBlock {
                                        id: block.id,
                                        data: crate::bytes::splice(
                                            block.data@,
                                            cut.rest(),
                                            crate::bytes::zeros((BLOCK_SIZE - cut.rest()) as nat),
                                        ),
                                        reply: outcome,
                                    },
                                ),
                                Err(error) => read.idle(after) && outcome == Err::<(), Ext4Error>(
                                    error,
                                ),
                            }
                        };
                    assert(extends(queried.log(), after.log())) by {
                        assert(after.log().take(queried.log().len() as int) =~= queried.log());
                    }
                },
                Err(_) => {
                    queried.lemma_unmoved(after);
                },
            }
            lemma_extends(self.log(), queried.log(), after.log());
        }
    }

    /// Whether the layers gave the last extent of a file.
    pub open spec fn tail_given(&self, after: &Self, inode: InodeRef) -> bool {
        exists|tail: Option<ExtentTail>|
            #[trigger] self.asked(after, LayerCall::Tail { inode, reply: Ok(tail) })
    }

    /// Whether the first step of a truncation cleared the last block behind the end of the file,
    /// and the states between which it did.
    pub open spec fn end_clearing(
        &self,
        start: &Self,
        cleared: &Self,
        id: InodeId,
        file: InodeRef,
        cut: Cut,
    ) -> bool {
        exists|begun: Self, transaction: Transaction, read: Self|
            {
                &&& self.begun(&begun, TRUNCATE_CREDITS, Ok(transaction))
                &&& #[trigger] begun.staged_inode_read(&read, transaction, id, Ok(file))
                &&& if has_extents(file.inode@) {
                    read.tail_given(start, file)
                } else {
                    read.idle(start)
                }
                &&& start.end_cleared(cleared, file, cut, Ok(()))
            }
    }

    /// What comes before the last block is cleared only asks.
    pub(crate) proof fn lemma_clearing_starts_quietly(
        &self,
        start: &Self,
        cleared: &Self,
        id: InodeId,
        file: InodeRef,
        cut: Cut,
        disk: Disk,
    )
        requires
            self.end_clearing(start, cleared, id, file, cut),
        ensures
            extends(self.log(), start.log()),
            held(disk, since(self.log(), start.log())) == disk,
    {
        let (begun, transaction, read) = choose|begun: Self, transaction: Transaction, read: Self|
            {
                &&& self.begun(&begun, TRUNCATE_CREDITS, Ok(transaction))
                &&& #[trigger] begun.staged_inode_read(&read, transaction, id, Ok(file))
                &&& if has_extents(file.inode@) {
                    read.tail_given(start, file)
                } else {
                    read.idle(start)
                }
                &&& start.end_cleared(cleared, file, cut, Ok(()))
            };
        assert(start.log().take(self.log().len() as int) =~= self.log());
        let calls = since(self.log(), start.log());
        assert forall|k: int| 0 <= k < calls.len() implies !crate::content::writes(
            #[trigger] calls[k],
        ) by {
            assert(calls[k] == start.log()[self.log().len() + k]);
        }
        lemma_held_without_writes(disk, calls);
    }

    /// A step of a truncation goes on with the record; the first one of a file that shrinks clears
    /// the last block, where the file does not end with a block.
    pub(crate) proof fn lemma_step_goes_on(
        &self,
        after: &Self,
        id: InodeId,
        cut: Cut,
        first: bool,
        outcome: Result<bool>,
    )
        requires
            self.step_cut(after, id, cut, first, outcome),
        ensures
            extends(self.log(), after.log()),
            first && cut.shrinks() && cut.rest() != 0 && outcome is Ok ==> exists|
                start: Self,
                cleared: Self,
                file: InodeRef,
            |
                {
                    &&& #[trigger] self.end_clearing(&start, &cleared, id, file, cut)
                    &&& extends(start.log(), cleared.log())
                    &&& extends(cleared.log(), after.log())
                },
    {
        let (begun, reply) = choose|begun: Self, reply: Result<Transaction>|
            {
                &&& #[trigger] self.begun(&begun, TRUNCATE_CREDITS, reply)
                &&& match reply {
                    Ok(transaction) => begun.cut_opened(
                        after,
                        id,
                        transaction,
                        cut,
                        first,
                        outcome,
                    ),
                    Err(error) => begun.idle(after) && outcome == Err::<bool, Ext4Error>(error),
                }
            };
        self.lemma_unmoved(&begun);
        match reply {
            Err(_) => {
                begun.lemma_unmoved(after);
            },
            Ok(transaction) => {
                let (read, found) = choose|read: Self, found: Result<InodeRef>|
                    {
                        &&& #[trigger] begun.staged_inode_read(&read, transaction, id, found)
                        &&& match found {
                            Ok(inode) => read.cut_looked_up(
                                after,
                                inode,
                                transaction,
                                cut,
                                first,
                                outcome,
                            ),
                            Err(error) => read.given_up(after, transaction) && outcome == Err::<
                                bool,
                                Ext4Error,
                            >(error),
                        }
                    };
                assert(extends(begun.log(), read.log())) by {
                    assert(read.log().take(begun.log().len() as int) =~= begun.log());
                }
                match found {
                    Err(_) => {
                        read.lemma_unmoved(after);
                    },
                    Ok(inode) => {
                        let (start, cleared) = read.lemma_looked_up_goes_on(
                            after,
                            inode,
                            transaction,
                            cut,
                            first,
                            outcome,
                        );
                        if first && cut.shrinks() && cut.rest() != 0 && outcome is Ok {
                            assert(self.end_clearing(&start, &cleared, id, inode, cut));
                        }
                    },
                }
                lemma_extends(begun.log(), read.log(), after.log());
            },
        }
        lemma_extends(self.log(), begun.log(), after.log());
    }

    /// What a step does to a file that was read goes on with the record. Given are the states
    /// between which the last block was cleared, where it was.
    pub(crate) proof fn lemma_looked_up_goes_on(
        &self,
        after: &Self,
        inode: InodeRef,
        transaction: Transaction,
        cut: Cut,
        first: bool,
        outcome: Result<bool>,
    ) -> (stages: (Self, Self))
        requires
            self.cut_looked_up(after, inode, transaction, cut, first, outcome),
        ensures
            extends(self.log(), after.log()),
            first && cut.shrinks() && cut.rest() != 0 && outcome is Ok ==> {
                &&& if has_extents(inode.inode@) {
                    self.tail_given(&stages.0, inode)
                } else {
                    self.idle(&stages.0)
                }
                &&& stages.0.end_cleared(&stages.1, inode, cut, Ok(()))
                &&& extends(stages.0.log(), stages.1.log())
                &&& extends(stages.1.log(), after.log())
            },
    {
        if !cut.shrinks() || !has_extents(inode.inode@) {
            let cleared = self.lemma_cleared_goes_on(
                after,
                inode,
                None,
                transaction,
                cut,
                first,
                outcome,
            );
            assert(self.idle(self));
            (*self, cleared)
        } else {
            let (asked, reply) = choose|asked: Self, reply: Result<Option<ExtentTail>>|
                {
                    &&& #[trigger] self.asked(&asked, LayerCall::Tail { inode, reply })
                    &&& match reply {
                        Ok(tail) => asked.cut_cleared(
                            after,
                            inode,
                            tail,
                            transaction,
                            cut,
                            first,
                            outcome,
                        ),
                        Err(error) => asked.given_up(after, transaction) && outcome == Err::<
                            bool,
                            Ext4Error,
                        >(error),
                    }
                };
            self.lemma_pushed(&asked, Event::Layer { call: LayerCall::Tail { inode, reply } });
            match reply {
                Ok(tail) => {
                    assert(self.asked(&asked, LayerCall::Tail { inode, reply: Ok(tail) }));
                    assert(self.tail_given(&asked, inode));
                    let cleared = asked.lemma_cleared_goes_on(
                        after,
                        inode,
                        tail,
                        transaction,
                        cut,
                        first,
                        outcome,
                    );
                    lemma_extends(self.log(), asked.log(), after.log());
                    (asked, cleared)
                },
                Err(_) => {
                    asked.lemma_unmoved(after);
                    lemma_extends(self.log(), asked.log(), after.log());
                    (asked, asked)
                },
            }
        }
    }

    /// Clearing the last block, where that is due, and what follows goes on with the record. Given
    /// is the state once it was cleared.
    pub(crate) proof fn lemma_cleared_goes_on(
        &self,
        after: &Self,
        inode: InodeRef,
        tail: Option<ExtentTail>,
        transaction: Transaction,
        cut: Cut,
        first: bool,
        outcome: Result<bool>,
    ) -> (cleared: Self)
        requires
            self.cut_cleared(after, inode, tail, transaction, cut, first, outcome),
        ensures
            extends(self.log(), after.log()),
            first && cut.shrinks() && cut.rest() != 0 && outcome is Ok ==> {
                &&& self.end_cleared(&cleared, inode, cut, Ok(()))
                &&& extends(self.log(), cleared.log())
                &&& extends(cleared.log(), after.log())
            },
    {
        if !first || !cut.shrinks() || cut.rest() == 0 {
            self.lemma_cut_decided_goes_on(after, inode, tail, transaction, cut, outcome);
            *self
        } else {
            let (cleared, reply) = choose|cleared: Self, reply: Result<()>|
                {
                    &&& #[trigger] self.end_cleared(&cleared, inode, cut, reply)
                    &&& match reply {
                        Ok(_) => cleared.cut_decided(
                            after,
                            inode,
                            tail,
                            transaction,
                            cut,
                            outcome,
                        ),
                        Err(error) => cleared.given_up(after, transaction) && outcome == Err::<
                            bool,
                            Ext4Error,
                        >(error),
                    }
                };
            self.lemma_end_cleared_goes_on(&cleared, inode, cut, reply);
            match reply {
                Ok(done) => {
                    assert(done == ());
                    cleared.lemma_cut_decided_goes_on(
                        after,
                        inode,
                        tail,
                        transaction,
                        cut,
                        outcome,
                    );
                },
                Err(_) => {
                    cleared.lemma_unmoved(after);
                },
            }
            lemma_extends(self.log(), cleared.log(), after.log());
            cleared
        }
    }

    /// The steps of a truncation go on with the record, and the first one clears the last block.
    pub(crate) proof fn lemma_steps_go_on(
        &self,
        after: &Self,
        id: InodeId,
        cut: Cut,
        left: nat,
        first: bool,
        outcome: Result<()>,
    )
        requires
            self.steps_cut(after, id, cut, left, first, outcome),
        ensures
            extends(self.log(), after.log()),
            first && cut.shrinks() && cut.rest() != 0 && outcome is Ok ==> exists|
                start: Self,
                cleared: Self,
                file: InodeRef,
            |
                {
                    &&& #[trigger] self.end_clearing(&start, &cleared, id, file, cut)
                    &&& extends(start.log(), cleared.log())
                    &&& extends(cleared.log(), after.log())
                },
        decreases left,
    {
        if left == 0 {
            self.lemma_unmoved(after);
        } else {
            let (stepped, reply) = choose|stepped: Self, reply: Result<bool>|
                {
                    &&& #[trigger] self.step_cut(&stepped, id, cut, first, reply)
                    &&& match reply {
                        Ok(finished) => if finished {
                            stepped.idle(after) && outcome == Ok::<(), Ext4Error>(())
                        } else {
                            stepped.steps_cut(
                                after,
                                id,
                                cut,
                                (left - 1) as nat,
                                false,
                                outcome,
                            )
                        },
                        Err(error) => stepped.idle(after) && outcome == Err::<(), Ext4Error>(
                            error,
                        ),
                    }
                };
            self.lemma_step_goes_on(&stepped, id, cut, first, reply);
            if reply == Ok::<bool, Ext4Error>(false) {
                stepped.lemma_steps_go_on(after, id, cut, (left - 1) as nat, false, outcome);
            } else {
                stepped.lemma_unmoved(after);
            }
            lemma_extends(self.log(), stepped.log(), after.log());
            if first && cut.shrinks() && cut.rest() != 0 && outcome is Ok {
                let (start, cleared, file) = choose|start: Self, cleared: Self, file: InodeRef|
                    {
                        &&& #[trigger] self.end_clearing(&start, &cleared, id, file, cut)
                        &&& extends(start.log(), cleared.log())
                        &&& extends(cleared.log(), stepped.log())
                    };
                lemma_extends(cleared.log(), stepped.log(), after.log());
                assert(self.end_clearing(&start, &cleared, id, file, cut));
            }
        }
    }
}

/// Whether a call writes to a block.
pub open spec fn hits(call: Event, home: PBlockId) -> bool {
    match call {
        Event::WriteBlock { id, data, reply } => id == home,
        Event::WriteBlocks { start, data, reply } => start <= home < start + data.len()
            / BLOCK_SIZE as nat,
        _ => false,
    }
}

/// Whether calls leave the blocks of a file alone.
pub open spec fn spares(calls: Seq<Event>, places: Places) -> bool {
    forall|k: int, block: int|
        0 <= k < calls.len() && places.contains_key(block) ==> !hits(
            #[trigger] calls[k],
            #[trigger] places[block],
        )
}

/// The blocks of a file that it keeps when it is cut.
pub open spec fn kept_places(places: Places, cut: Cut) -> Places {
    Map::new(
        |block: int| places.contains_key(block) && block < cut.kept(),
        |block: int| places[block],
    )
}

/// Blocks that calls leave alone hold what they held.
pub(crate) proof fn lemma_spared_blocks_hold(disk: Disk, calls: Seq<Event>, places: Places, block: int)
    requires
        spares(calls, places),
        places.contains_key(block),
    ensures
        held(disk, calls)[places[block]] == disk[places[block]],
    decreases calls.len(),
{
    if calls.len() > 0 {
        assert(!hits(calls[0], places[block]));
        assert forall|k: int, other: int|
            0 <= k < calls.skip(1).len() && places.contains_key(other) implies !hits(
            #[trigger] calls.skip(1)[k],
            #[trigger] places[other],
        ) by {
            assert(calls.skip(1)[k] == calls[k + 1]);
        }
        lemma_spared_blocks_hold(stored(disk, calls[0]), calls.skip(1), places, block);
    }
}

/// A file whose kept blocks hold what they did, but for zero bytes behind the end, holds what it
/// held up to there and zero bytes from there on.
pub(crate) proof fn lemma_kept_bytes(
    disk: Disk,
    middle: Disk,
    calls: Seq<Event>,
    places: Places,
    cut: Cut,
    at: int,
)
    requires
        0 <= at,
        spares(calls, kept_places(places, cut)),
        byte_of(middle, places, at) == if cut.new_size <= at < cut.kept() * BLOCK_SIZE {
            0
        } else {
            byte_of(disk, places, at)
        },
    ensures
        byte_of(held(middle, calls), kept_places(places, cut), at) == if at < cut.new_size {
            byte_of(disk, places, at)
        } else {
            0
        },
{
    let kept = kept_places(places, cut);
    let block = at / BLOCK_SIZE as int;
    let edge = cut.new_size as int / BLOCK_SIZE as int;
    assert(cut.new_size == edge * BLOCK_SIZE + cut.rest());
    assert(cut.kept() == if cut.rest() == 0 {
        edge
    } else {
        edge + 1
    });
    if kept.contains_key(block) {
        lemma_spared_blocks_hold(middle, calls, kept, block);
    }
}

impl<D: BlockDevice, V: Volume<D>> Ext4<D, V> {
    /// What a device holds once the last block was cleared and the rest was done.
    proof fn lemma_held_after_clearing(
        &self,
        start: &Self,
        cleared: &Self,
        after: &Self,
        id: InodeId,
        file: InodeRef,
        cut: Cut,
        disk: Disk,
    )
        requires
            self.end_clearing(start, cleared, id, file, cut),
            extends(start.log(), cleared.log()),
            extends(cleared.log(), after.log()),
        ensures
            held(disk, since(self.log(), after.log())) == held(
                held(disk, since(start.log(), cleared.log())),
                since(cleared.log(), after.log()),
            ),
    {
        self.lemma_clearing_starts_quietly(start, cleared, id, file, cut, disk);
        let first = since(self.log(), start.log());
        let second = since(start.log(), cleared.log());
        let third = since(cleared.log(), after.log());
        lemma_extends(self.log(), start.log(), cleared.log());
        assert(since(self.log(), cleared.log()) =~= first + second) by {
            assert(cleared.log().take(start.log().len() as int) == start.log());
        }
        assert(since(self.log(), after.log()) =~= (first + second) + third) by {
            assert(after.log().take(cleared.log().len() as int) == cleared.log());
        }
        lemma_held_joins(disk, first, second);
        lemma_held_joins(disk, first + second, third);
    }

    /// Growing that succeeds sets the size and does nothing else.
    proof fn lemma_growth_sets_the_size(&self, grown: &Self, id: InodeId, growth: Cut, more: nat)
        requires
            self.steps_cut(grown, id, growth, more, true, Ok(())),
            more > 0,
            growth.new_size > growth.old_size,
        ensures
            exists|set: Self, finished: bool| #[trigger]
                self.size_set(&set, id, growth.new_size, Ok(finished)) && set.idle(grown),
    {
        self.lemma_growing_sets_the_size_alone(grown, id, growth, more, Ok(()));
        let (set, reply) = choose|set: Self, reply: Result<bool>|
            {
                &&& #[trigger] self.size_set(&set, id, growth.new_size, reply)
                &&& set.idle(grown)
                &&& Ok::<(), Ext4Error>(()) == match reply {
                    Ok(_) => Ok::<(), Ext4Error>(()),
                    Err(error) => Err(error),
                }
            };
        assert(self.size_set(&set, id, growth.new_size, Ok(reply->Ok_0)));
    }

    /// A file that was cut and then grew holds what it held up to where it was cut, and zero bytes
    /// from there on; growing sets the size and does nothing else. `places` is where the blocks of
    /// the file stood; those that the file keeps stand where they did, and what is written besides
    /// is written elsewhere.
    #[verifier::spinoff_prover]
    #[verifier::rlimit(40)]
    pub proof fn lemma_cut_file_grows_with_zeros(
        &self,
        shrunk: &Self,
        later: &Self,
        grown: &Self,
        id: InodeId,
        cut: Cut,
        left: nat,
        size: u64,
        more: nat,
        disk: Disk,
        places: Places,
    )
        requires
            self.steps_cut(shrunk, id, cut, left, true, Ok(())),
            cut.shrinks(),
            extends(shrunk.log(), later.log()),
            later.steps_cut(
                grown,
                id,
                (Cut { old_size: cut.new_size, new_size: size }),
                more,
                true,
                Ok(()),
            ),
            more > 0,
            size > cut.new_size,
            apart(places),
            cut.rest() == 0 ==> spares(
                since(self.log(), grown.log()),
                kept_places(places, cut),
            ),
            cut.rest() != 0 ==> forall|start: Self, cleared: Self, file: InodeRef| #[trigger]
                self.end_clearing(&start, &cleared, id, file, cut) ==> {
                    &&& start.sees_batch(disk)
                    &&& start.served(&cleared, disk, file, places)
                    &&& spares(since(cleared.log(), grown.log()), kept_places(places, cut))
                },
        ensures
            exists|set: Self, finished: bool| #[trigger]
                later.size_set(&set, id, size, Ok(finished)) && set.idle(grown),
            forall|at: int|
                0 <= at < size ==> #[trigger] byte_of(
                    held(disk, since(self.log(), grown.log())),
                    kept_places(places, cut),
                    at,
                ) == if at < cut.new_size {
                    byte_of(disk, places, at)
                } else {
                    0
                },
    {
        let growth = Cut { old_size: cut.new_size, new_size: size };
        later.lemma_growth_sets_the_size(grown, id, growth, more);
        self.lemma_steps_go_on(shrunk, id, cut, left, true, Ok(()));
        later.lemma_steps_go_on(grown, id, growth, more, true, Ok(()));
        lemma_extends(self.log(), shrunk.log(), later.log());
        lemma_extends(self.log(), later.log(), grown.log());
        let kept = kept_places(places, cut);
        if cut.rest() == 0 {
            let calls = since(self.log(), grown.log());
            assert forall|at: int| 0 <= at < size implies #[trigger] byte_of(
                held(disk, calls),
                kept,
                at,
            ) == if at < cut.new_size {
                byte_of(disk, places, at)
            } else {
                0
            } by {
                lemma_kept_bytes(disk, disk, calls, places, cut, at);
            }
        } else {
            let (start, cleared, file) = choose|start: Self, cleared: Self, file: InodeRef|
                {
                    &&& #[trigger] self.end_clearing(&start, &cleared, id, file, cut)
                    &&& extends(start.log(), cleared.log())
                    &&& extends(cleared.log(), shrunk.log())
                };
            lemma_extends(cleared.log(), shrunk.log(), later.log());
            lemma_extends(cleared.log(), later.log(), grown.log());
            self.lemma_held_after_clearing(&start, &cleared, grown, id, file, cut, disk);
            start.lemma_end_reads_as_zero(&cleared, file, cut, disk, places);
            let middle = held(disk, since(start.log(), cleared.log()));
            let calls = since(cleared.log(), grown.log());
            assert forall|at: int| 0 <= at < size implies #[trigger] byte_of(
                held(middle, calls),
                kept,
                at,
            ) == if at < cut.new_size {
                byte_of(disk, places, at)
            } else {
                0
            } by {
                assert(byte_of(middle, places, at) == if cut.new_size <= at < cut.kept()
                    * BLOCK_SIZE {
                    0
                } else {
                    byte_of(disk, places, at)
                });
                lemma_kept_bytes(disk, middle, calls, places, cut, at);
            }
        }
    }
}

/// What is known of mapped ranges after blocks were cut.
impl<D: BlockDevice, V: Volume<D>> Ext4<D, V> {
    /// Nothing is known to be mapped.
    pub open spec fn knows_nothing(&self) -> bool {
        forall|inode: InodeId, range: WriteLogicalRange|
            !(#[trigger] self.state().prepared.knows(inode, range))
    }

    /// A step that was committed leaves nothing known to be mapped.
    proof fn lemma_staged_cut_forgets(
        &self,
        after: &Self,
        inode: InodeRef,
        transaction: Transaction,
        finished: bool,
        last: bool,
    )
        requires
            self.state().prepared.inv(),
            transaction.inv(),
            self.cut_staged(after, inode, transaction, finished, Ok(last)),
        ensures
            after.knows_nothing(),
    {
        let (staged, grown, sealed, reply) = choose|
            staged: Self,
            grown: Transaction,
            sealed: InodeRef,
            reply: Result<()>,
        |
            {
                &&& #[trigger] self.inode_staged(
                    &staged,
                    transaction,
                    grown,
                    inode,
                    sealed,
                    reply,
                )
                &&& match reply {
                    Ok(_) => staged.cut_committed(after, grown, finished, Ok(last)),
                    Err(error) => staged.given_up(after, grown) && Ok::<bool, Ext4Error>(last)
                        == Err::<bool, Ext4Error>(error),
                }
            };
        let (home, at) = self.state().inode_position(inode.id)->0;
        let (images, image) = choose|images: Seq<StagedBlock>, image: [u8; BLOCK_SIZE]|
            {
                &&& #[trigger] transaction.accessed(images, self.log(), staged.log(), home)
                &&& grown.restaged(&transaction, #[trigger] with_image(images, home, image))
            };
        lemma_accessed_home_is_held(transaction, images, self.log(), staged.log(), home);
        assert(grown.staged().len() > 0);
        let (done, said) = choose|done: Self, said: core::result::Result<(), CommitError>|
            {
                &&& #[trigger] staged.committed(&done, grown, said)
                &&& match said {
                    Ok(_) => done.idle(after) && Ok::<bool, Ext4Error>(last) == Ok::<
                        bool,
                        Ext4Error,
                    >(finished),
                    Err(stop) => done.gave_out(after) && Ok::<bool, Ext4Error>(last) == Err::<
                        bool,
                        Ext4Error,
                    >(stop.error),
                }
            };
        assert forall|other: InodeId, range: WriteLogicalRange| !(
        #[trigger] after.state().prepared.knows(other, range)) by {
            lemma_new_epoch_knows_nothing(
                staged.state().prepared,
                done.state().prepared,
                other,
                range,
            );
        }
    }

    /// The last step of a truncation leaves nothing known to be mapped.
    pub proof fn lemma_truncation_forgets(
        &self,
        after: &Self,
        id: InodeId,
        cut: Cut,
        first: bool,
    )
        requires
            self.inv(),
            self.step_cut(after, id, cut, first, Ok(true)),
        ensures
            after.knows_nothing(),
    {
        let outcome = Ok::<bool, Ext4Error>(true);
        let (begun, reply) = choose|begun: Self, reply: Result<Transaction>|
            {
                &&& #[trigger] self.begun(&begun, TRUNCATE_CREDITS, reply)
                &&& match reply {
                    Ok(transaction) => begun.cut_opened(
                        after,
                        id,
                        transaction,
                        cut,
                        first,
                        outcome,
                    ),
                    Err(error) => begun.idle(after) && outcome == Err::<bool, Ext4Error>(error),
                }
            };
        let transaction = reply->Ok_0;
        assert(transaction.inv());
        let (read, found) = choose|read: Self, found: Result<InodeRef>|
            {
                &&& #[trigger] begun.staged_inode_read(&read, transaction, id, found)
                &&& match found {
                    Ok(inode) => read.cut_looked_up(
                        after,
                        inode,
                        transaction,
                        cut,
                        first,
                        outcome,
                    ),
                    Err(error) => read.given_up(after, transaction) && outcome == Err::<
                        bool,
                        Ext4Error,
                    >(error),
                }
            };
        let inode = found->Ok_0;
        assert(read.state().prepared == self.state().prepared);
        if !cut.shrinks() || !has_extents(inode.inode@) {
            read.lemma_cleared_cut_forgets(after, inode, None, transaction, cut, first);
        } else {
            let (asked, tail) = choose|asked: Self, tail: Result<Option<ExtentTail>>|
                {
                    &&& #[trigger] read.asked(&asked, LayerCall::Tail { inode, reply: tail })
                    &&& match tail {
                        Ok(tail) => asked.cut_cleared(
                            after,
                            inode,
                            tail,
                            transaction,
                            cut,
                            first,
                            outcome,
                        ),
                        Err(error) => asked.given_up(after, transaction) && outcome == Err::<
                            bool,
                            Ext4Error,
                        >(error),
                    }
                };
            asked.lemma_cleared_cut_forgets(after, inode, tail->Ok_0, transaction, cut, first);
        }
    }

    /// What follows on looking at the last extent leaves nothing known, where it was the last step.
    proof fn lemma_cleared_cut_forgets(
        &self,
        after: &Self,
        inode: InodeRef,
        tail: Option<ExtentTail>,
        transaction: Transaction,
        cut: Cut,
        first: bool,
    )
        requires
            self.state().prepared.inv(),
            transaction.inv(),
            self.cut_cleared(after, inode, tail, transaction, cut, first, Ok(true)),
        ensures
            after.knows_nothing(),
    {
        let outcome = Ok::<bool, Ext4Error>(true);
        let cleared = if !first || !cut.shrinks() || cut.rest() == 0 {
            *self
        } else {
            let (cleared, reply) = choose|cleared: Self, reply: Result<()>|
                {
                    &&& #[trigger] self.end_cleared(&cleared, inode, cut, reply)
                    &&& match reply {
                        Ok(_) => cleared.cut_decided(
                            after,
                            inode,
                            tail,
                            transaction,
                            cut,
                            outcome,
                        ),
                        Err(error) => cleared.given_up(after, transaction) && outcome == Err::<
                            bool,
                            Ext4Error,
                        >(error),
                    }
                };
            self.lemma_end_cleared_keeps_state(&cleared, inode, cut, reply);
            cleared
        };
        let decision: Result<Option<u32>> = match tail {
            None => Ok(None),
            Some(last) => cleared.removal(last, cut.kept()),
        };
        match decision {
            Err(_) => {},
            Ok(None) => {
                let sized = choose|sized: InodeRef|
                    #[trigger] cleared.cut_staged(after, sized, transaction, true, outcome);
                cleared.lemma_staged_cut_forgets(after, sized, transaction, true, true);
            },
            Ok(Some(limit)) => {
                cleared.lemma_cut_is_not_the_last(after, inode, transaction, limit, outcome);
            },
        }
    }

    /// Clearing the last block changes nothing but the block.
    pub(crate) proof fn lemma_end_cleared_keeps_state(
        &self,
        after: &Self,
        inode: InodeRef,
        cut: Cut,
        outcome: Result<()>,
    )
        requires
            self.end_cleared(after, inode, cut, outcome),
        ensures
            after.state() == self.state(),
    {
        let last = cut.new_size as int / BLOCK_SIZE as int;
        if last <= u32::MAX {
            let (queried, found) = choose|queried: Self, found: Result<PBlockId>|
                {
                    &&& #[trigger] self.block_located(&queried, inode, last as u32, found)
                    &&& match found {
                        Ok(home) => queried.rest_cleared(after, home, cut.rest(), outcome),
                        Err(error) => {
                            &&& queried.idle(after)
                            &&& outcome == if error.code == ErrCode::ENOENT {
                                Ok::<(), Ext4Error>(())
                            } else {
                                Err(error)
                            }
                        },
                    }
                };
            self.lemma_located_served(
                &queried,
                inode,
                last as u32,
                found,
                Map::empty(),
                Map::empty(),
            );
        }
    }
}

/// A home whose image a transaction takes is among the images.
proof fn lemma_accessed_home_is_held(
    before: Transaction,
    staged: Seq<StagedBlock>,
    log: Seq<Event>,
    log_after: Seq<Event>,
    home: PBlockId,
)
    requires
        before.inv(),
        before.accessed(staged, log, log_after, home),
    ensures
        staged.len() > 0,
        forall|image: [u8; BLOCK_SIZE]| (#[trigger] with_image(staged, home, image)).len() > 0,
{
    assert(ordered(staged) && holds_home(staged, home)) by {
        if !holds_home(before.staged(), home) {
            if holds_home(before.batch(), home) {
                let block = choose|block: StagedBlock|
                    {
                        &&& #[trigger] before.first_image(home, Seq::empty(), block)
                        &&& staged == with_block(before.staged(), block)
                    };
                lemma_slot_of_inserted(before.staged(), block);
            } else {
                let (read, block) = choose|read: Block, block: StagedBlock|
                    {
                        &&& log_after == log.push(Event::ReadBlock { id: home, reply: Ok(read) })
                        &&& #[trigger] before.first_image(home, read.data@, block)
                        &&& staged == with_block(before.staged(), block)
                    };
                lemma_slot_of_inserted(before.staged(), block);
            }
        }
    }
    lemma_slot_exists(staged, home);
    let i = choose|i: int| 0 <= i < staged.len() && staged[i].home == home;
    assert(slot(staged, home) <= i);
}

} // verus!
