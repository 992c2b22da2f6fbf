//! What a file holds once blocks were added to it without a journal, with their data.

use vstd::prelude::*;
use crate::append_range::{
    prepared_with, usable, DirectRangePlan, DirectRangePrepare, RANGE_CREDITS,
};
use crate::appended_content::{adds_run, lemma_run_bytes};
use crate::content::{elsewhere, lemma_extends, lemma_held_without_writes, Disk, Places};
use crate::device::{extends, since, BlockDevice, Event};
use crate::direct_range::{range_outcome, range_plan};
use crate::durability::{honest_reads, writes_to};
use crate::error::{failed, ErrCode, Ext4Error, Result};
use crate::fs::Ext4;
use crate::grow::is_free;
use crate::inode::InodeRef;
use crate::journal_transaction::{CommitError, Transaction};
use crate::range::WriteLogicalRange;
use crate::sight::{lemma_faithful_reads, lemma_plan_is_held};
use crate::staged::ordered;
use crate::stored_content::takes_free_blocks;
use crate::trace::Step;
use crate::volume::{LayerCall, Volume};
use crate::{InodeId, PBlockId, BLOCK_SIZE};

verus! {

impl<D: BlockDevice, V: Volume<D>> Ext4<D, V> {
    /// Committing a range writes to the blocks that the transaction staged, and to no others.
    proof fn lemma_range_done_leaves(
        &self,
        after: &Self,
        transaction: Transaction,
        homes: Seq<PBlockId>,
        inode_home: PBlockId,
        disk: Disk,
        block: PBlockId,
    )
        requires
            self.range_done(after, transaction, homes, inode_home, Ok(())),
            self.state().mode is Direct,
            self.answered_by(after, disk),
            !transaction.covers(block),
        ensures
            extends(self.log(), after.log()),
            self.left_on(after, disk)[block] == disk[block],
    {
        self.lemma_followed_is_recorded(after);
        let blocks = transaction.staged();
        let base = self.log().push(Event::ReliableFlush { reply: true });
        let poisons = choose|poisons: bool|
            #[trigger] range_outcome(
                blocks,
                homes,
                inode_home,
                base,
                after.log(),
                Ok(()),
                poisons,
            );
        let plan = range_plan(blocks, homes, inode_home);
        assert(plan.take(plan.len() as int) =~= plan);
        let calls = since(self.log(), after.log());
        let first = seq![Event::ReliableFlush { reply: true }];
        let rest = since(base, after.log());
        assert(calls =~= first + rest) by {
            assert(after.log().take(base.len() as int) == base);
            assert(after.log()[self.log().len() as int] == base[self.log().len() as int]);
        }
        lemma_faithful_reads(disk, calls);
        assert(honest_reads(rest)) by {
            assert forall|n: int| 0 <= n < rest.len() implies (#[trigger] rest[n] matches
                Event::ReadBlock { id, reply: Ok(block) } ==> block.id == id) by {
                assert(calls[n + 1] == rest[n]);
            }
        }
        crate::content::lemma_held_joins(disk, first, rest);
        lemma_held_without_writes(disk, first);
        assert forall|i: int| 0 <= i < plan.len() implies !writes_to(#[trigger] plan[i], block) by {
            if i < homes.len() {
                assert(crate::direct_range::reversible(
                    self.state().mode->Direct_0.target(),
                    blocks,
                    homes[i],
                ));
                assert(homes[i] != block);
            } else if i == homes.len() {
                assert(plan[i] == Step::Flush);
            } else if i == homes.len() + 1 {
                assert(inode_home != block);
            } else {
                assert(plan[i] is Publish);
            }
        }
        lemma_plan_is_held(plan, false, rest, disk, block);
    }

    /// Committing a prepared range goes on with the record, and leaves the blocks that the
    /// transaction did not stage.
    proof fn lemma_direct_finished_leaves(
        &self,
        after: &Self,
        transaction: Transaction,
        homes: Seq<PBlockId>,
        inode_home: PBlockId,
        prepared: DirectRangePrepare,
        outcome: DirectRangePrepare,
        disk: Disk,
    )
        requires
            self.direct_finished(after, transaction, homes, inode_home, prepared, Ok(outcome)),
            self.state().mode is Direct,
        ensures
            outcome == prepared,
            extends(self.log(), after.log()),
            self.answered_by(after, disk) ==> forall|block: PBlockId|
                !transaction.covers(block) ==> #[trigger] self.left_on(after, disk)[block]
                    == disk[block],
    {
        broadcast use Ext4::lemma_with_counts;

        let (done, reply, result) = choose|
            done: Self,
            reply: core::result::Result<(), CommitError>,
            result: Result<()>,
        |
            {
                &&& #[trigger] self.range_done(&done, transaction, homes, inode_home, reply)
                &&& #[trigger] done.with_counts(
                    done.counts().with_ending(reply is Ok),
                ).settled(after, reply, result)
                &&& Ok::<DirectRangePrepare, Ext4Error>(outcome) == match result {
                    Ok(_) => Ok::<DirectRangePrepare, Ext4Error>(prepared),
                    Err(error) => Err(error),
                }
            };
        match reply {
            Ok(done) => {
                assert(done == ());
            },
            Err(_) => {},
        }
        self.lemma_followed_is_recorded(&done);
        assert(after.log() == done.log());
        if self.answered_by(after, disk) {
            assert forall|block: PBlockId| !transaction.covers(block) implies
            #[trigger] self.left_on(after, disk)[block] == disk[block] by {
                self.lemma_range_done_leaves(
                    &done,
                    transaction,
                    homes,
                    inode_home,
                    disk,
                    block,
                );
            }
        }
    }

    /// Adding the extent of a prepared range without a journal, and what follows, adds the blocks to
    /// the file, and leaves the blocks that the transaction leaves alone.
    proof fn lemma_direct_appended_leaves(
        &self,
        after: &Self,
        inode: InodeRef,
        sealed: InodeRef,
        plan: DirectRangePlan,
        transaction: Transaction,
        taken: (PBlockId, Seq<PBlockId>),
        prepared: DirectRangePrepare,
        outcome: DirectRangePrepare,
        disk: Disk,
        places: Places,
        busy: spec_fn(PBlockId) -> bool,
    )
        requires
            self.direct_appended(
                after,
                inode,
                sealed,
                plan,
                transaction,
                taken,
                prepared,
                Ok(outcome),
            ),
            self.state().mode is Direct,
            ordered(transaction.staged()),
        ensures
            outcome == prepared,
            extends(self.log(), after.log()),
            exists|k: int|
                {
                    &&& self.log().len() <= k < after.log().len()
                    &&& adds_run(
                        #[trigger] after.log()[k],
                        inode.id,
                        plan.start_lblock as int,
                        taken.0,
                        plan.count as int,
                    )
                },
            self.answered_by(after, disk) && self.allots(after, places, busy) ==> forall|
                block: PBlockId,
            |
                self.spare(inode.id, transaction, block) ==> #[trigger] self.left_on(
                    after,
                    disk,
                )[block] == disk[block],
    {
        broadcast use Ext4::lemma_with_counts;

        let result = Ok::<DirectRangePrepare, Ext4Error>(outcome);
        let (asked, grown, reply) = choose|asked: Self, grown: InodeRef, reply: Result<()>|
            {
                &&& #[trigger] self.asked(
                    &asked,
                    LayerCall::StageAppend {
                        inode,
                        start: plan.start_lblock,
                        first: taken.0,
                        count: plan.count,
                        after: grown,
                        reply,
                    },
                )
                &&& match reply {
                    Ok(_) => asked.direct_staged(
                        after,
                        grown,
                        sealed,
                        transaction,
                        taken.1,
                        prepared,
                        result,
                    ),
                    Err(error) => {
                        &&& asked.with_counts(asked.counts().with_failure()).given_up(
                            after,
                            transaction,
                        )
                        &&& sealed == grown
                        &&& result == Err::<DirectRangePrepare, Ext4Error>(error)
                    },
                }
            };
        let call = Event::Layer {
            call: LayerCall::StageAppend {
                inode,
                start: plan.start_lblock,
                first: taken.0,
                count: plan.count,
                after: grown,
                reply,
            },
        };
        self.lemma_call_only_asks(&asked, call);
        let (home, at) = asked.state().inode_position(grown.id)->0;
        let (staged, more, said) = choose|staged: Self, more: Transaction, said: Result<()>|
            {
                &&& #[trigger] asked.inode_staged(
                    &staged,
                    transaction,
                    more,
                    grown,
                    sealed,
                    said,
                )
                &&& match said {
                    Ok(_) => staged.with_counts(staged.counts().with_inode_io()).direct_finished(
                        after,
                        more,
                        taken.1,
                        home,
                        prepared,
                        result,
                    ),
                    Err(error) => {
                        &&& staged.with_counts(staged.counts().with_failure()).given_up(
                            after,
                            more,
                        )
                        &&& result == Err::<DirectRangePrepare, Ext4Error>(error)
                    },
                }
            };
        asked.lemma_block_staged_asks(
            &staged,
            transaction,
            more,
            home,
            at,
            sealed.inode@,
            said,
        );
        let counted = staged.with_counts(staged.counts().with_inode_io());
        counted.lemma_direct_finished_leaves(
            after,
            more,
            taken.1,
            home,
            prepared,
            outcome,
            disk,
        );
        asked.lemma_after_asking(&staged, after, disk);
        self.lemma_after_asking(&asked, after, disk);
        let k = self.log().len() as int;
        assert(after.log().take(asked.log().len() as int)[k] == after.log()[k]);
        assert(after.log()[k] == call);
        assert(adds_run(
            after.log()[k],
            inode.id,
            plan.start_lblock as int,
            taken.0,
            plan.count as int,
        ));
        if self.answered_by(after, disk) && self.allots(after, places, busy) {
            assert(takes_free_blocks(after.log()[k], places, busy));
            assert(counted.answered_by(after, disk));
            assert forall|block: PBlockId| self.spare(inode.id, transaction, block) implies
            #[trigger] self.left_on(after, disk)[block] == disk[block] by {
                assert(!more.covers(block));
                assert(counted.left_on(after, disk)[block] == disk[block]);
            }
        }
    }

    /// Storing data in a new range without a journal, and what follows, adds the blocks to the file
    /// with their data.
    proof fn lemma_direct_initialized_appends(
        &self,
        after: &Self,
        inode: InodeRef,
        sealed: InodeRef,
        plan: DirectRangePlan,
        data: Option<Seq<u8>>,
        transaction: Transaction,
        taken: (PBlockId, Seq<PBlockId>),
        disk: Disk,
        places: Places,
        busy: spec_fn(PBlockId) -> bool,
    )
        requires
            self.direct_initialized(
                after,
                inode,
                sealed,
                plan,
                data,
                transaction,
                taken,
                Ok(DirectRangePrepare::DataWritten),
            ),
            data matches Some(bytes) ==> bytes.len() == plan.count * BLOCK_SIZE,
            self.state().mode is Direct,
            ordered(transaction.staged()),
        ensures
            data is Some,
            extends(self.log(), after.log()),
            self.answered_by(after, disk) && self.allots(after, places, busy) && self.may_append(
                inode.id,
                plan,
                transaction,
                taken.0,
                places,
            ) ==> self.appended(
                after,
                inode.id,
                plan.start_lblock as int,
                plan.count as int,
                data->0,
                disk,
                places,
            ),
    {
        broadcast use Ext4::lemma_with_counts;

        let outcome = Ok::<DirectRangePrepare, Ext4Error>(DirectRangePrepare::DataWritten);
        let counted = self.with_counts(
            self.counts().with_call(plan.count as u64).with_missing(plan.count as u64),
        );
        let first = taken.0;
        let (stored, reply) = choose|stored: Self, reply: Result<()>|
            {
                &&& #[trigger] self.with_counts(
                    self.counts().with_call(plan.count as u64).with_missing(plan.count as u64),
                ).range_stored(&stored, first, plan.count, data, reply)
                &&& match reply {
                    Ok(_) => stored.direct_appended(
                        after,
                        inode,
                        sealed,
                        plan,
                        transaction,
                        taken,
                        prepared_with(data),
                        outcome,
                    ),
                    Err(error) => {
                        &&& stored.with_counts(stored.counts().with_failure()).given_up(
                            after,
                            transaction,
                        )
                        &&& sealed == inode
                        &&& outcome == crate::append_range::not_stored(error)
                    },
                }
            };
        match reply {
            Ok(done) => {
                assert(done == ());
            },
            Err(_) => {},
        }
        counted.lemma_stored_range_holds_data(&stored, first, plan.count, data, disk);
        counted.lemma_range_stored_keeps_state(&stored, first, plan.count, data, reply);
        let middle = self.left_on(&stored, disk);
        stored.lemma_direct_appended_leaves(
            after,
            inode,
            sealed,
            plan,
            transaction,
            taken,
            prepared_with(data),
            DirectRangePrepare::DataWritten,
            middle,
            places,
            busy,
        );
        lemma_extends(self.log(), stored.log(), after.log());
        self.lemma_device_joins(&stored, after, disk);
        if self.answered_by(after, disk) && self.allots(after, places, busy) && self.may_append(
            inode.id,
            plan,
            transaction,
            first,
            places,
        ) {
            let bytes = data->0;
            self.lemma_answers_split(&stored, after, disk);
            let last = self.left_on(after, disk);
            let start = plan.start_lblock as int;
            let count = plan.count as int;
            assert forall|i: int| 0 <= i < count implies #[trigger] last[(first + i) as u64]
                == bytes.subrange(i * BLOCK_SIZE, (i + 1) * BLOCK_SIZE) by {
                let home = (first + i) as u64;
                assert(self.spare(inode.id, transaction, home));
                assert(stored.spare(inode.id, transaction, home));
                assert(last[home] == middle[home]);
            }
            assert forall|block: int| #[trigger] places.contains_key(block) implies
            last[places[block]] == disk[places[block]] by {
                let home = places[block];
                assert(self.spare(inode.id, transaction, home));
                assert(stored.spare(inode.id, transaction, home));
                assert(last[home] == middle[home]);
                assert(!(first <= home < first + count)) by {
                    if first <= home < first + count {
                        assert(elsewhere(places, home));
                    }
                }
            }
            lemma_run_bytes(disk, last, places, start, first, count, bytes);
            let k = choose|k: int|
                {
                    &&& stored.log().len() <= k < after.log().len()
                    &&& adds_run(#[trigger] after.log()[k], inode.id, start, first, count)
                };
            assert(adds_run(after.log()[k], inode.id, start, first, count));
        }
    }

    /// Storing data, or zero bytes, in new blocks changes nothing but the device.
    pub(crate) proof fn lemma_range_stored_keeps_state(
        &self,
        after: &Self,
        first: PBlockId,
        count: u32,
        data: Option<Seq<u8>>,
        outcome: Result<()>,
    )
        requires
            self.range_stored(after, first, count, data, outcome),
        ensures
            after.state() == self.state(),
    {
        if data is None {
            self.lemma_cleared_keeps_state(
                after,
                first,
                0,
                count as int,
                crate::bytes::zeros(
                    (crate::append_range::DIRECT_RANGE_ZERO_CHUNK_BLOCKS * BLOCK_SIZE) as nat,
                ),
                outcome,
            );
        }
    }

    /// Clearing blocks changes nothing but the device.
    pub(crate) proof fn lemma_cleared_keeps_state(
        &self,
        after: &Self,
        first: PBlockId,
        done: int,
        count: int,
        source: Seq<u8>,
        outcome: Result<()>,
    )
        requires
            self.range_cleared(after, first, done, count, source, outcome),
        ensures
            after.state() == self.state(),
            extends(self.log(), after.log()),
            outcome matches Err(error) ==> error.code == ErrCode::EFBIG || (after.log().len()
                > self.log().len() && after.log().last() == (Event::WriteBlocks {
                start: after.log().last()->WriteBlocks_start,
                data: after.log().last()->WriteBlocks_data,
                reply: Err(error),
            })),
        decreases count - done,
    {
        let blocks = crate::data_read::least(
            crate::append_range::DIRECT_RANGE_ZERO_CHUNK_BLOCKS as int,
            count - done,
        );
        assert(self.log().take(self.log().len() as int) =~= self.log());
        if done < count && first + done <= u64::MAX {
            let (written, reply) = choose|written: Self, reply: Result<()>|
                {
                    &&& #[trigger] self.did(
                        &written,
                        Event::WriteBlocks {
                            start: (first + done) as u64,
                            data: source.take(blocks * BLOCK_SIZE),
                            reply,
                        },
                    )
                    &&& match reply {
                        Ok(_) => written.range_cleared(
                            after,
                            first,
                            done + blocks,
                            count,
                            source,
                            outcome,
                        ),
                        Err(error) => written.idle(after) && outcome == Err::<(), Ext4Error>(
                            error,
                        ),
                    }
                };
            assert(written.log().take(self.log().len() as int) =~= self.log());
            if reply is Ok {
                written.lemma_cleared_keeps_state(
                    after,
                    first,
                    done + blocks,
                    count,
                    source,
                    outcome,
                );
                lemma_extends(self.log(), written.log(), after.log());
            }
        }
    }

    /// Preparing a range as a whole without a journal adds the blocks to the file with their data.
    pub(crate) proof fn lemma_whole_appends(
        &self,
        after: &Self,
        id: InodeId,
        range: WriteLogicalRange,
        data: Option<Seq<u8>>,
        disk: Disk,
        places: Places,
        busy: spec_fn(PBlockId) -> bool,
    )
        requires
            self.whole_prepared(
                after,
                id,
                range,
                data,
                Ok(DirectRangePrepare::DataWritten),
            ),
            self.state().mode is Direct,
        ensures
            extends(self.log(), after.log()),
            data matches Some(bytes) && bytes.len() >= range.block_count * BLOCK_SIZE,
            self.answered_by(after, disk) && self.allots(after, places, busy) && self.fenced(
                id,
                Seq::empty(),
                places,
                busy,
            ) ==> self.appended(
                after,
                id,
                range.first_lblock as int,
                range.block_count as int,
                data->0.take(range.block_count * BLOCK_SIZE),
                disk,
                places,
            ),
    {
        let outcome = Ok::<DirectRangePrepare, Ext4Error>(DirectRangePrepare::DataWritten);
        let (read, found) = choose|read: Self, found: Result<InodeRef>|
            {
                &&& #[trigger] self.inode_read(&read, id, found)
                &&& match found {
                    Ok(inode) => if is_free(inode.inode) {
                        read.idle(after) && outcome == failed::<DirectRangePrepare>(
                            ErrCode::EINVAL,
                        )
                    } else {
                        exists|sealed: InodeRef| #[trigger]
                            read.direct_range_prepared(after, inode, sealed, range, data, outcome)
                    },
                    Err(error) => read.idle(after) && outcome == Err::<
                        DirectRangePrepare,
                        Ext4Error,
                    >(error),
                }
            };
        let inode = found->Ok_0;
        self.lemma_reading_inode_asks(&read, id, found);
        let sealed = choose|sealed: InodeRef| #[trigger]
            read.direct_range_prepared(after, inode, sealed, range, data, outcome);
        read.lemma_direct_range_appends(
            after,
            inode,
            sealed,
            range,
            data,
            disk,
            places,
            busy,
        );
        self.lemma_after_asking(&read, after, disk);
        if self.answered_by(after, disk) && self.allots(after, places, busy) && self.fenced(
            id,
            Seq::empty(),
            places,
            busy,
        ) {
            assert(read.fenced(id, Seq::empty(), places, busy)) by {
                assert forall|block: PBlockId| #[trigger] read.logs_to(block) implies busy(
                    block,
                ) by {
                    assert(self.logs_to(block));
                }
            }
            self.lemma_appended_later(
                &read,
                after,
                id,
                range.first_lblock as int,
                range.block_count as int,
                data->0.take(range.block_count * BLOCK_SIZE),
                disk,
                places,
            );
        }
    }

    /// Planning a range without a journal, and what follows, adds the blocks to the file with their
    /// data.
    proof fn lemma_direct_range_appends(
        &self,
        after: &Self,
        inode: InodeRef,
        sealed: InodeRef,
        range: WriteLogicalRange,
        data: Option<Seq<u8>>,
        disk: Disk,
        places: Places,
        busy: spec_fn(PBlockId) -> bool,
    )
        requires
            self.direct_range_prepared(
                after,
                inode,
                sealed,
                range,
                data,
                Ok(DirectRangePrepare::DataWritten),
            ),
            self.state().mode is Direct,
        ensures
            extends(self.log(), after.log()),
            data matches Some(bytes) && bytes.len() >= range.block_count * BLOCK_SIZE,
            self.answered_by(after, disk) && self.allots(after, places, busy) && self.fenced(
                inode.id,
                Seq::empty(),
                places,
                busy,
            ) ==> self.appended(
                after,
                inode.id,
                range.first_lblock as int,
                range.block_count as int,
                data->0.take(range.block_count * BLOCK_SIZE),
                disk,
                places,
            ),
    {
        let outcome = Ok::<DirectRangePrepare, Ext4Error>(DirectRangePrepare::DataWritten);
        let (planned, reply) = choose|planned: Self, reply: Result<Option<DirectRangePlan>>|
            {
                &&& #[trigger] self.range_planned(&planned, inode, range, reply)
                &&& match reply {
                    Ok(Some(plan)) => planned.direct_started(
                        after,
                        inode,
                        sealed,
                        plan,
                        usable(data, (plan.count * BLOCK_SIZE) as nat),
                        outcome,
                    ),
                    Ok(None) => {
                        &&& planned.idle(after)
                        &&& sealed == inode
                        &&& outcome == Ok::<DirectRangePrepare, Ext4Error>(
                            DirectRangePrepare::Unsupported,
                        )
                    },
                    Err(error) => {
                        &&& planned.idle(after)
                        &&& sealed == inode
                        &&& outcome == Err::<DirectRangePrepare, Ext4Error>(error)
                    },
                }
            };
        self.lemma_planning_asks(&planned, inode, range, reply);
        let plan = reply->Ok_0->0;
        let bytes = usable(data, (plan.count * BLOCK_SIZE) as nat);
        let (begun, answer) = choose|begun: Self, answer: Result<Transaction>|
            {
                &&& #[trigger] planned.begun_range(&begun, RANGE_CREDITS, answer)
                &&& match answer {
                    Ok(transaction) => begun.direct_allocated(
                        after,
                        inode,
                        sealed,
                        plan,
                        bytes,
                        transaction,
                        outcome,
                    ),
                    Err(error) => {
                        &&& begun.idle(after)
                        &&& sealed == inode
                        &&& outcome == Err::<DirectRangePrepare, Ext4Error>(error)
                    },
                }
            };
        let transaction = answer->Ok_0;
        let (taken, grown, given) = choose|
            taken: Self,
            grown: Transaction,
            given: Result<(PBlockId, Seq<PBlockId>)>,
        |
            {
                &&& #[trigger] begun.range_taken(
                    &taken,
                    transaction,
                    grown,
                    inode.id,
                    plan,
                    given,
                )
                &&& match given {
                    Ok(allocation) => taken.direct_initialized(
                        after,
                        inode,
                        sealed,
                        plan,
                        bytes,
                        grown,
                        allocation,
                        outcome,
                    ),
                    Err(error) => {
                        &&& taken.given_up(after, grown)
                        &&& sealed == inode
                        &&& outcome == crate::append_range::not_taken(error)
                    },
                }
            };
        let allocation = given->Ok_0;
        begun.lemma_range_taken_asks(&taken, transaction, grown, inode.id, plan, given);
        taken.lemma_direct_initialized_appends(
            after,
            inode,
            sealed,
            plan,
            bytes,
            grown,
            allocation,
            disk,
            places,
            busy,
        );
        begun.lemma_after_asking(&taken, after, disk);
        assert(self.asks(&begun));
        self.lemma_after_asking(&begun, after, disk);
        if self.answered_by(after, disk) && self.allots(after, places, busy) && self.fenced(
            inode.id,
            Seq::empty(),
            places,
            busy,
        ) {
            assert(begun.fenced(inode.id, transaction.batch(), places, busy)) by {
                assert forall|block: PBlockId| #[trigger] begun.logs_to(block) implies busy(
                    block,
                ) by {
                    assert(self.logs_to(block));
                }
                assert(transaction.batch() =~= Seq::empty());
            }
            assert(begun.allots(&taken, places, busy)) by {
                assert forall|k: int| begun.log().len() <= k < taken.log().len() implies
                takes_free_blocks(#[trigger] taken.log()[k], places, busy) by {
                    assert(after.log().take(taken.log().len() as int)[k] == after.log()[k]);
                    assert(takes_free_blocks(after.log()[k], places, busy));
                }
            }
            lemma_extends(planned.log(), taken.log(), after.log());
            assert(extends(planned.log(), after.log()));
            self.lemma_allots_earlier(&planned, after, places, busy);
            begun.lemma_taken_may_append(
                &taken,
                inode.id,
                plan,
                transaction,
                grown,
                allocation,
                places,
                busy,
            );
            assert(bytes->0 == data->0.take(range.block_count * BLOCK_SIZE));
            begun.lemma_appended_later(
                &taken,
                after,
                inode.id,
                range.first_lblock as int,
                range.block_count as int,
                bytes->0,
                disk,
                places,
            );
            self.lemma_appended_later(
                &begun,
                after,
                inode.id,
                range.first_lblock as int,
                range.block_count as int,
                bytes->0,
                disk,
                places,
            );
        }
    }
}

} // verus!
