//! A buffered write that was prepared with its data, and says so, has stored the data.

use vstd::prelude::*;
use crate::append_range::{
    not_stored, not_taken, usable, DirectRangePlan, DirectRangePrepare, RANGE_CREDITS,
};
use crate::appended_content::adds_run;
use crate::content::{
    apart, byte_of, lemma_extends, lemma_held_without_writes, writes, Disk, Places,
};
use crate::device::{extends, since, BlockDevice, Event};
use crate::error::{failed, ErrCode, Ext4Error, Result};
use crate::fs::Ext4;
use crate::grow::is_free;
use crate::inode::InodeRef;
use crate::journal_transaction::Transaction;
use crate::prepare::decided;
use crate::prepare_journal::{cycles_between, Stopwatch, MAPPED_CREDITS};
use crate::prepared_extent::PreparedExtentProbe;
use crate::range::{addressable, range_of, WriteLogicalRange};
use crate::staged::{holds_home, StagedBlock};
use crate::stored_content::{with_run, writes_are_told};
use crate::volume::{LayerCall, Volume};
use crate::{InodeId, PBlockId, BLOCK_SIZE};

verus! {

impl<D: BlockDevice, V: Volume<D>> Ext4<D, V> {
    /// What follows on allocating a new range, where the device tells its failures, does not say
    /// that the range cannot be prepared.
    proof fn lemma_initialized_is_supported(
        &self,
        after: &Self,
        inode: InodeRef,
        plan: DirectRangePlan,
        data: Option<Seq<u8>>,
        transaction: Transaction,
        first: PBlockId,
        watch: Stopwatch,
        outcome: Result<DirectRangePrepare>,
    )
        requires
            self.journal_initialized(
                after,
                inode,
                plan,
                data,
                transaction,
                first,
                watch,
                outcome,
            ),
            extends(self.log(), after.log()) ==> writes_are_told(since(self.log(), after.log())),
        ensures
            outcome != Ok::<DirectRangePrepare, Ext4Error>(DirectRangePrepare::Unsupported),
    {
        broadcast use Ext4::lemma_with_counts;

        let counted = self.with_counts(
            self.counts().with_call(plan.count as u64).with_missing(plan.count as u64),
        );
        let (ready, data_start) = choose|ready: Self, data_start: usize|
            {
                &&& #[trigger] self.with_counts(
                    self.counts().with_call(plan.count as u64).with_missing(plan.count as u64),
                ).timed(&ready, watch.diagnostic, data_start)
                &&& ready.journal_stored(
                    after,
                    inode,
                    plan,
                    data,
                    transaction,
                    first,
                    watch,
                    data_start,
                    outcome,
                )
            };
        let (stored, reply) = choose|stored: Self, reply: Result<()>|
            {
                &&& #[trigger] ready.range_stored(&stored, first, plan.count, data, reply)
                &&& stored.journal_measured(
                    after,
                    inode,
                    plan,
                    data,
                    transaction,
                    first,
                    watch,
                    data_start,
                    reply,
                    outcome,
                )
            };
        counted.lemma_timing_asks(&ready, watch.diagnostic, data_start);
        if outcome is Ok {
            match reply {
                Ok(_) => {
                    stored.lemma_measured_says(
                        after,
                        inode,
                        plan,
                        data,
                        transaction,
                        first,
                        watch,
                        data_start,
                        reply,
                        outcome,
                    );
                },
                Err(error) => {
                    ready.lemma_range_not_stored(&stored, first, plan.count, data, error);
                    let (clocked, now) = choose|clocked: Self, now: usize|
                        {
                            &&& #[trigger] stored.timed(&clocked, watch.diagnostic, now)
                            &&& clocked.with_counts(clocked.counts().with_failure()).given_up(
                                after,
                                transaction,
                            )
                            &&& outcome == not_stored(error)
                        };
                    stored.lemma_timing_asks(&clocked, watch.diagnostic, now);
                    assert(after.log() == clocked.log());
                    lemma_extends(ready.log(), stored.log(), clocked.log());
                    lemma_extends(self.log(), ready.log(), clocked.log());
                    if stored.log().len() > ready.log().len() {
                        let n = stored.log().len() - 1;
                        assert(clocked.log().take(stored.log().len() as int)[n]
                            == clocked.log()[n]);
                        let calls = since(self.log(), after.log());
                        assert(calls[n - self.log().len()] == stored.log().last());
                    }
                },
            }
        }
    }

    /// Data that could not be stored in new blocks: the device failed to write, or the blocks do not
    /// exist.
    proof fn lemma_range_not_stored(
        &self,
        after: &Self,
        first: PBlockId,
        count: u32,
        data: Option<Seq<u8>>,
        error: Ext4Error,
    )
        requires
            self.range_stored(after, first, count, data, Err(error)),
        ensures
            extends(self.log(), after.log()),
            error.code == ErrCode::EFBIG || (after.log().len() > self.log().len()
                && after.log().last() == (Event::WriteBlocks {
                start: after.log().last()->WriteBlocks_start,
                data: after.log().last()->WriteBlocks_data,
                reply: Err(error),
            })),
    {
        match data {
            Some(bytes) => {
                assert(after.log().take(self.log().len() as int) =~= self.log());
            },
            None => {
                self.lemma_cleared_keeps_state(
                    after,
                    first,
                    0,
                    count as int,
                    crate::bytes::zeros(
                        (crate::append_range::DIRECT_RANGE_ZERO_CHUNK_BLOCKS * BLOCK_SIZE) as nat,
                    ),
                    Err(error),
                );
            },
        }
    }

    /// A range that cannot be prepared through the journal is only asked about.
    proof fn lemma_unsupported_asks(
        &self,
        after: &Self,
        id: InodeId,
        range: WriteLogicalRange,
        data: Option<Seq<u8>>,
    )
        requires
            self.journal_range_prepared(
                after,
                id,
                range,
                data,
                Ok(DirectRangePrepare::Unsupported),
            ),
            self.state().mode is Journal,
            extends(self.log(), after.log()) ==> writes_are_told(since(self.log(), after.log())),
        ensures
            self.asks(after),
            self.same_ground(after),
            after.state().groups == self.state().groups,
            after.state().mode is Journal,
            after.state().batch() == self.state().batch(),
    {
        let outcome = Ok::<DirectRangePrepare, Ext4Error>(DirectRangePrepare::Unsupported);
        let (ready, watch) = choose|ready: Self, watch: Stopwatch|
            {
                &&& #[trigger] self.watch_started(&ready, watch)
                &&& ready.journal_begun(after, id, range, data, watch, outcome)
            };
        assert(ready.log().take(self.log().len() as int) =~= self.log());
        let (begun, reply) = choose|begun: Self, reply: Result<Transaction>|
            {
                &&& #[trigger] ready.begun(&begun, RANGE_CREDITS, reply)
                &&& match reply {
                    Ok(transaction) => begun.journal_opened(
                        after,
                        id,
                        range,
                        data,
                        transaction,
                        watch,
                        outcome,
                    ),
                    Err(error) => begun.idle(after) && outcome == Err::<
                        DirectRangePrepare,
                        Ext4Error,
                    >(error),
                }
            };
        let transaction = reply->Ok_0;
        let (read, found) = choose|read: Self, found: Result<InodeRef>|
            {
                &&& #[trigger] begun.staged_inode_read(&read, transaction, id, found)
                &&& match found {
                    Ok(inode) => if is_free(inode.inode) {
                        &&& read.given_up(after, transaction)
                        &&& outcome == failed::<DirectRangePrepare>(ErrCode::EINVAL)
                    } else {
                        read.journal_planned(
                            after,
                            inode,
                            range,
                            data,
                            transaction,
                            watch,
                            outcome,
                        )
                    },
                    Err(error) => {
                        &&& read.given_up(after, transaction)
                        &&& outcome == Err::<DirectRangePrepare, Ext4Error>(error)
                    },
                }
            };
        let inode = found->Ok_0;
        begun.lemma_shown_inode_is_read(&read, transaction, id, inode, Map::empty());
        assert(self.asks(&begun));
        lemma_extends(self.log(), begun.log(), read.log());
        let (last, ended) = read.lemma_unsupported_stops(
            after,
            inode,
            range,
            data,
            transaction,
            watch,
            self.log(),
        );
        lemma_extends(self.log(), read.log(), last.log());
        assert forall|k: int| self.log().len() <= k < after.log().len() implies !writes(
            #[trigger] after.log()[k],
        ) by {
            if k < read.log().len() {
                assert(last.log().take(read.log().len() as int)[k] == last.log()[k]);
                if k < begun.log().len() {
                    assert(read.log().take(begun.log().len() as int)[k] == read.log()[k]);
                }
            }
        }
        let before = self.state().mode->Journal_0;
        let now = after.state().mode->Journal_0;
        assert(now.context() == before.context());
        assert forall|block: PBlockId| #[trigger] after.logs_to(block) == self.logs_to(block) by {}
    }

    /// Where a range cannot be prepared through the journal, the transaction is given up after what
    /// was asked.
    proof fn lemma_unsupported_stops(
        &self,
        after: &Self,
        inode: InodeRef,
        range: WriteLogicalRange,
        data: Option<Seq<u8>>,
        transaction: Transaction,
        watch: Stopwatch,
        start: Seq<Event>,
    ) -> (stop: (Self, Transaction))
        requires
            self.journal_planned(
                after,
                inode,
                range,
                data,
                transaction,
                watch,
                Ok(DirectRangePrepare::Unsupported),
            ),
            transaction.staged().len() == 0,
            extends(start, self.log()),
            extends(start, after.log()) ==> writes_are_told(since(start, after.log())),
        ensures
            self.only_asked(&stop.0),
            stop.0.given_up(after, stop.1),
            stop.1.deferred() == transaction.deferred(),
    {
        let outcome = Ok::<DirectRangePrepare, Ext4Error>(DirectRangePrepare::Unsupported);
        let (planned, reply) = choose|planned: Self, reply: Result<Option<DirectRangePlan>>|
            {
                &&& #[trigger] self.range_planned(&planned, inode, range, reply)
                &&& match reply {
                    Ok(Some(plan)) => planned.journal_allocated(
                        after,
                        inode,
                        plan,
                        usable(data, (plan.count * BLOCK_SIZE) as nat),
                        transaction,
                        watch,
                        outcome,
                    ),
                    Ok(None) => {
                        &&& planned.given_up(after, transaction)
                        &&& outcome == Ok::<DirectRangePrepare, Ext4Error>(
                            DirectRangePrepare::Unsupported,
                        )
                    },
                    Err(error) => {
                        &&& planned.given_up(after, transaction)
                        &&& outcome == Err::<DirectRangePrepare, Ext4Error>(error)
                    },
                }
            };
        self.lemma_planning_asks(&planned, inode, range, reply);
        match reply {
            Ok(Some(plan)) => {
                let bytes = usable(data, (plan.count * BLOCK_SIZE) as nat);
                let (taken, grown, given) = choose|
                    taken: Self,
                    grown: Transaction,
                    given: Result<(PBlockId, Seq<PBlockId>)>,
                |
                    {
                        &&& #[trigger] planned.range_taken(
                            &taken,
                            transaction,
                            grown,
                            inode.id,
                            plan,
                            given,
                        )
                        &&& match given {
                            Ok(allocation) => taken.journal_initialized(
                                after,
                                inode,
                                plan,
                                bytes,
                                grown,
                                allocation.0,
                                watch,
                                outcome,
                            ),
                            Err(error) => {
                                &&& taken.given_up(after, grown)
                                &&& outcome == not_taken(error)
                            },
                        }
                    };
                planned.lemma_range_taken_asks(
                    &taken,
                    transaction,
                    grown,
                    inode.id,
                    plan,
                    given,
                );
                self.lemma_calls_join(&planned, &taken);
                if let Ok(allocation) = given {
                    let all = since(start, after.log());
                    let part = since(taken.log(), after.log());
                    lemma_extends(start, self.log(), taken.log());
                    if extends(taken.log(), after.log()) {
                        lemma_extends(start, taken.log(), after.log());
                        assert forall|k: int| 0 <= k < part.len() implies match #[trigger] part[k] {
                            Event::WriteBlock { id, data, reply: Err(error) } => error.code
                                != ErrCode::ENOENT && error.code != ErrCode::ENOMEM,
                            Event::WriteBlocks { start, data, reply: Err(error) } => error.code
                                != ErrCode::ENOENT && error.code != ErrCode::ENOMEM,
                            _ => true,
                        } by {
                            assert(all[k + (taken.log().len() - start.len())] == part[k]);
                        }
                    }
                    taken.lemma_initialized_is_supported(
                        after,
                        inode,
                        plan,
                        bytes,
                        grown,
                        allocation.0,
                        watch,
                        outcome,
                    );
                }
                (taken, grown)
            },
            _ => (planned, transaction),
        }
    }

    /// What follows on allocating a new range keeps the journal.
    proof fn lemma_initialized_keeps_journal(
        &self,
        after: &Self,
        inode: InodeRef,
        plan: DirectRangePlan,
        data: Option<Seq<u8>>,
        transaction: Transaction,
        first: PBlockId,
        watch: Stopwatch,
        outcome: Result<DirectRangePrepare>,
    )
        requires
            self.journal_initialized(
                after,
                inode,
                plan,
                data,
                transaction,
                first,
                watch,
                outcome,
            ),
            self.state().mode is Journal,
            outcome == Ok::<DirectRangePrepare, Ext4Error>(DirectRangePrepare::Unsupported),
        ensures
            after.state().mode is Journal,
    {
        broadcast use Ext4::lemma_with_counts;

        let counted = self.with_counts(
            self.counts().with_call(plan.count as u64).with_missing(plan.count as u64),
        );
        let (ready, data_start) = choose|ready: Self, data_start: usize|
            {
                &&& #[trigger] self.with_counts(
                    self.counts().with_call(plan.count as u64).with_missing(plan.count as u64),
                ).timed(&ready, watch.diagnostic, data_start)
                &&& ready.journal_stored(
                    after,
                    inode,
                    plan,
                    data,
                    transaction,
                    first,
                    watch,
                    data_start,
                    outcome,
                )
            };
        let (stored, reply) = choose|stored: Self, reply: Result<()>|
            {
                &&& #[trigger] ready.range_stored(&stored, first, plan.count, data, reply)
                &&& stored.journal_measured(
                    after,
                    inode,
                    plan,
                    data,
                    transaction,
                    first,
                    watch,
                    data_start,
                    reply,
                    outcome,
                )
            };
        counted.lemma_timing_asks(&ready, watch.diagnostic, data_start);
        if outcome is Ok {
            match reply {
                Ok(_) => {
                    stored.lemma_measured_says(
                        after,
                        inode,
                        plan,
                        data,
                        transaction,
                        first,
                        watch,
                        data_start,
                        reply,
                        outcome,
                    );
                },
                Err(error) => {
                    let (clocked, now) = choose|clocked: Self, now: usize|
                        {
                            &&& #[trigger] stored.timed(&clocked, watch.diagnostic, now)
                            &&& clocked.with_counts(clocked.counts().with_failure()).given_up(
                                after,
                                transaction,
                            )
                            &&& outcome == not_stored(error)
                        };
                    stored.lemma_timing_asks(&clocked, watch.diagnostic, now);
                    ready.lemma_range_stored_keeps_state(
                        &stored,
                        first,
                        plan.count,
                        data,
                        reply,
                    );
                },
            }
        }
    }

    /// What follows on planning a range keeps the journal.
    proof fn lemma_planned_keeps_journal(
        &self,
        after: &Self,
        inode: InodeRef,
        range: WriteLogicalRange,
        data: Option<Seq<u8>>,
        transaction: Transaction,
        watch: Stopwatch,
    )
        requires
            self.journal_planned(
                after,
                inode,
                range,
                data,
                transaction,
                watch,
                Ok(DirectRangePrepare::Unsupported),
            ),
            transaction.staged().len() == 0,
            self.state().mode is Journal,
        ensures
            after.state().mode is Journal,
    {
        let outcome = Ok::<DirectRangePrepare, Ext4Error>(DirectRangePrepare::Unsupported);
        let (planned, reply) = choose|planned: Self, reply: Result<Option<DirectRangePlan>>|
            {
                &&& #[trigger] self.range_planned(&planned, inode, range, reply)
                &&& match reply {
                    Ok(Some(plan)) => planned.journal_allocated(
                        after,
                        inode,
                        plan,
                        usable(data, (plan.count * BLOCK_SIZE) as nat),
                        transaction,
                        watch,
                        outcome,
                    ),
                    Ok(None) => {
                        &&& planned.given_up(after, transaction)
                        &&& outcome == Ok::<DirectRangePrepare, Ext4Error>(
                            DirectRangePrepare::Unsupported,
                        )
                    },
                    Err(error) => {
                        &&& planned.given_up(after, transaction)
                        &&& outcome == Err::<DirectRangePrepare, Ext4Error>(error)
                    },
                }
            };
        self.lemma_planning_asks(&planned, inode, range, reply);
        match reply {
            Ok(Some(plan)) => {
                let bytes = usable(data, (plan.count * BLOCK_SIZE) as nat);
                let (taken, grown, given) = choose|
                    taken: Self,
                    grown: Transaction,
                    given: Result<(PBlockId, Seq<PBlockId>)>,
                |
                    {
                        &&& #[trigger] planned.range_taken(
                            &taken,
                            transaction,
                            grown,
                            inode.id,
                            plan,
                            given,
                        )
                        &&& match given {
                            Ok(allocation) => taken.journal_initialized(
                                after,
                                inode,
                                plan,
                                bytes,
                                grown,
                                allocation.0,
                                watch,
                                outcome,
                            ),
                            Err(error) => {
                                &&& taken.given_up(after, grown)
                                &&& outcome == not_taken(error)
                            },
                        }
                    };
                planned.lemma_range_taken_asks(
                    &taken,
                    transaction,
                    grown,
                    inode.id,
                    plan,
                    given,
                );
                self.lemma_calls_join(&planned, &taken);
                if let Ok(allocation) = given {
                    taken.lemma_initialized_keeps_journal(
                        after,
                        inode,
                        plan,
                        bytes,
                        grown,
                        allocation.0,
                        watch,
                        outcome,
                    );
                }
            },
            _ => {},
        }
    }

    /// A range that cannot be prepared through the journal keeps the journal.
    proof fn lemma_unsupported_keeps_journal(
        &self,
        after: &Self,
        id: InodeId,
        range: WriteLogicalRange,
        data: Option<Seq<u8>>,
    )
        requires
            self.journal_range_prepared(
                after,
                id,
                range,
                data,
                Ok(DirectRangePrepare::Unsupported),
            ),
            self.state().mode is Journal,
        ensures
            after.state().mode is Journal,
    {
        let outcome = Ok::<DirectRangePrepare, Ext4Error>(DirectRangePrepare::Unsupported);
        let (ready, watch) = choose|ready: Self, watch: Stopwatch|
            {
                &&& #[trigger] self.watch_started(&ready, watch)
                &&& ready.journal_begun(after, id, range, data, watch, outcome)
            };
        let (begun, reply) = choose|begun: Self, reply: Result<Transaction>|
            {
                &&& #[trigger] ready.begun(&begun, RANGE_CREDITS, reply)
                &&& match reply {
                    Ok(transaction) => begun.journal_opened(
                        after,
                        id,
                        range,
                        data,
                        transaction,
                        watch,
                        outcome,
                    ),
                    Err(error) => begun.idle(after) && outcome == Err::<
                        DirectRangePrepare,
                        Ext4Error,
                    >(error),
                }
            };
        let transaction = reply->Ok_0;
        let (read, found) = choose|read: Self, found: Result<InodeRef>|
            {
                &&& #[trigger] begun.staged_inode_read(&read, transaction, id, found)
                &&& match found {
                    Ok(inode) => if is_free(inode.inode) {
                        &&& read.given_up(after, transaction)
                        &&& outcome == failed::<DirectRangePrepare>(ErrCode::EINVAL)
                    } else {
                        read.journal_planned(
                            after,
                            inode,
                            range,
                            data,
                            transaction,
                            watch,
                            outcome,
                        )
                    },
                    Err(error) => {
                        &&& read.given_up(after, transaction)
                        &&& outcome == Err::<DirectRangePrepare, Ext4Error>(error)
                    },
                }
            };
        let inode = found->Ok_0;
        begun.lemma_shown_inode_is_read(&read, transaction, id, inode, Map::empty());
        read.lemma_planned_keeps_journal(after, inode, range, data, transaction, watch);
    }

    /// Securing a range never says that data was stored.
    proof fn lemma_guarded_stores_nothing(
        &self,
        after: &Self,
        id: InodeId,
        range: WriteLogicalRange,
        outcome: Result<bool>,
    )
        requires
            self.range_guarded(after, id, range, outcome),
        ensures
            outcome != Ok::<bool, Ext4Error>(true),
    {
        let work = |inside: Self, left: Self, outcome: Result<bool>|
            inside.range_secured(&left, id, range, outcome);
        let stages = self.lemma_direct_work(after, work, outcome);
        if let Some((inside, left)) = stages {
            let (looked, probe) = choose|looked: Self, probe: PreparedExtentProbe|
                {
                    &&& #[trigger] inside.probed(&looked, id, range, probe)
                    &&& if inside.state().prepared.knows(id, range) {
                        looked.idle(&left) && outcome == Ok::<bool, Ext4Error>(false)
                    } else {
                        looked.range_settled(&left, id, range, outcome)
                    }
                };
        }
    }
}

/// Whether a block is busy with something else than the data of a file.
impl<D: BlockDevice, V: Volume<D>> Ext4<D, V> {
    /// Whether a block belongs to the journal, has an image that waits for a commit, or is the one
    /// in which an inode stands.
    pub open spec fn is_busy(&self, id: InodeId, block: PBlockId) -> bool {
        ||| self.logs_to(block)
        ||| holds_home(self.state().batch(), block)
        ||| self.state().inode_position(id) matches Some((home, _)) && home == block
    }

    /// Whether the layers and the device answer for a file: reads are answered with what the device
    /// holds, searches lead to where the blocks of the file stand, which are not busy and do not
    /// share a place, and blocks that are allocated are free.
    pub open spec fn answers_for(
        &self,
        after: &Self,
        id: InodeId,
        disk: Disk,
        places: Places,
    ) -> bool {
        &&& apart(places)
        &&& self.guided(after, disk, id, places)
        &&& self.allots(after, places, |block: PBlockId| self.is_busy(id, block))
        &&& forall|block: int| #[trigger]
            places.contains_key(block) ==> !self.is_busy(id, places[block])
    }

    /// Whether the blocks of a file stand where they stood, or where they stood and where those of a
    /// range were added.
    pub open spec fn stand_after(
        &self,
        after: &Self,
        id: InodeId,
        range: WriteLogicalRange,
        places: Places,
        now: Places,
    ) -> bool {
        ||| now == places
        ||| exists|k: int, first: PBlockId|
            {
                &&& self.log().len() <= k < after.log().len()
                &&& #[trigger] adds_run(
                    after.log()[k],
                    id,
                    range.first_lblock as int,
                    first,
                    range.block_count as int,
                )
                &&& now == with_run(
                    places,
                    range.first_lblock as int,
                    first,
                    range.block_count as int,
                )
            }
    }

    /// Whether a file holds data where it was to be written, and elsewhere what it held; the rest of
    /// blocks that were added may hold more of the data.
    pub open spec fn holds_written(
        &self,
        after: &Self,
        id: InodeId,
        offset: usize,
        len: usize,
        data: Seq<u8>,
        disk: Disk,
        places: Places,
    ) -> bool {
        let range = range_of(offset, len);
        let last = self.left_on(after, disk);
        exists|now: Places|
            {
                &&& #[trigger] self.stand_after(after, id, range, places, now)
                &&& forall|at: int|
                    offset <= at < offset + len ==> #[trigger] byte_of(last, now, at) == data[at
                        - offset]
                &&& forall|at: int|
                    0 <= at && !(offset <= at < offset + len) && (data.len() == len || !(
                    range.first_lblock * BLOCK_SIZE <= at < (range.first_lblock
                        + range.block_count) * BLOCK_SIZE)) ==> #[trigger] byte_of(last, now, at)
                        == byte_of(disk, places, at)
            }
    }

    /// Data that went over what a file held is where it was to be written.
    proof fn lemma_overwritten_holds(
        &self,
        after: &Self,
        id: InodeId,
        offset: usize,
        len: usize,
        data: Seq<u8>,
        disk: Disk,
        places: Places,
    )
        requires
            self.overwritten(after, offset, data.take(len as int), disk, places),
            len <= data.len(),
        ensures
            self.holds_written(after, id, offset, len, data, disk, places),
    {
        assert(self.stand_after(after, id, range_of(offset, len), places, places));
    }

    /// Data in blocks that were added is where it was to be written.
    proof fn lemma_appended_holds(
        &self,
        after: &Self,
        id: InodeId,
        offset: usize,
        len: usize,
        data: Seq<u8>,
        disk: Disk,
        places: Places,
    )
        requires
            len > 0,
            addressable(offset, len),
            data.len() >= range_of(offset, len).block_count * BLOCK_SIZE,
            offset as int % BLOCK_SIZE as int == 0 || data.len() == len,
            self.appended(
                after,
                id,
                range_of(offset, len).first_lblock as int,
                range_of(offset, len).block_count as int,
                data.take(range_of(offset, len).block_count * BLOCK_SIZE),
                disk,
                places,
            ),
        ensures
            self.holds_written(after, id, offset, len, data, disk, places),
    {
        let range = range_of(offset, len);
        let start = range.first_lblock as int;
        let count = range.block_count as int;
        let bytes = data.take(count * BLOCK_SIZE);
        let last = self.left_on(after, disk);
        let (k, first) = choose|k: int, first: PBlockId|
            {
                &&& self.log().len() <= k < after.log().len()
                &&& #[trigger] adds_run(after.log()[k], id, start, first, count)
                &&& crate::appended_content::holds_run(
                    disk,
                    last,
                    places,
                    start,
                    first,
                    count,
                    bytes,
                )
            };
        let now = with_run(places, start, first, count);
        assert(self.stand_after(after, id, range, places, now));
        let block = offset as int / BLOCK_SIZE as int;
        let end = (offset + len - 1) / BLOCK_SIZE as int;
        assert(start == block);
        assert(count == end - block + 1);
        assert(offset == block * BLOCK_SIZE + offset as int % BLOCK_SIZE as int);
        assert(offset + len - 1 == end * BLOCK_SIZE + (offset + len - 1) % BLOCK_SIZE as int);
        assert(offset as int % BLOCK_SIZE as int == 0);
        assert(start * BLOCK_SIZE == offset);
        assert forall|at: int| offset <= at < offset + len implies #[trigger] byte_of(last, now, at)
            == data[at - offset] by {
            assert(at < (start + count) * BLOCK_SIZE);
        }
    }
}

/// What a buffered write that was prepared with its data leaves.
impl<D: BlockDevice, V: Volume<D>> Ext4<D, V> {
    /// What is kept in mind of busy blocks fences off the blocks of a file.
    proof fn lemma_busy_fences(&self, inside: &Self, id: InodeId, places: Places)
        requires
            self.same_ground(inside),
            inside.state().groups == self.state().groups,
            inside.state().batch() == self.state().batch(),
            forall|block: int| #[trigger]
                places.contains_key(block) ==> !self.is_busy(id, places[block]),
        ensures
            inside.fenced(
                id,
                inside.state().batch(),
                places,
                |block: PBlockId| self.is_busy(id, block),
            ),
    {
        assert forall|block: PBlockId| #[trigger] inside.logs_to(block) implies self.is_busy(
            id,
            block,
        ) by {
            assert(self.logs_to(block));
        }
    }

    /// Leaving the barrier leaves what was added to a file.
    proof fn lemma_appended_on_leaving(
        &self,
        inside: &Self,
        left: &Self,
        after: &Self,
        id: InodeId,
        start: int,
        count: int,
        data: Seq<u8>,
        disk: Disk,
        places: Places,
    )
        requires
            inside.log() == self.log(),
            after.log() == left.log().push(Event::Layer { call: LayerCall::Released }),
            inside.appended(left, id, start, count, data, disk, places),
        ensures
            self.appended(after, id, start, count, data, disk, places),
    {
        self.lemma_left_as_before(inside, left, after, disk);
        let (k, first) = choose|k: int, first: PBlockId|
            {
                &&& inside.log().len() <= k < left.log().len()
                &&& #[trigger] adds_run(left.log()[k], id, start, first, count)
                &&& crate::appended_content::holds_run(
                    disk,
                    inside.left_on(left, disk),
                    places,
                    start,
                    first,
                    count,
                    data,
                )
            };
        assert(after.log()[k] == left.log()[k]);
        assert(adds_run(after.log()[k], id, start, first, count));
    }

    /// Leaving the barrier leaves the device.
    proof fn lemma_left_as_before(&self, inside: &Self, left: &Self, after: &Self, disk: Disk)
        requires
            inside.log() == self.log(),
            extends(inside.log(), left.log()),
            after.log() == left.log().push(Event::Layer { call: LayerCall::Released }),
        ensures
            extends(left.log(), after.log()),
            extends(self.log(), after.log()),
            self.left_on(after, disk) == inside.left_on(left, disk),
    {
        assert(after.log().take(left.log().len() as int) =~= left.log());
        self.lemma_device_joins(left, after, disk);
        let last = since(left.log(), after.log());
        assert(last =~= seq![Event::Layer { call: LayerCall::Released }]);
        lemma_held_without_writes(self.left_on(left, disk), last);
    }

    /// A new range that was prepared through the journal with data holds it.
    proof fn lemma_logged_range_holds(
        &self,
        after: &Self,
        id: InodeId,
        offset: usize,
        len: usize,
        data: Option<Seq<u8>>,
        disk: Disk,
        places: Places,
    )
        requires
            self.state().mode is Journal,
            len > 0,
            addressable(offset, len),
            self.range_logged(
                after,
                id,
                range_of(offset, len),
                data,
                Ok(DirectRangePrepare::DataWritten),
            ),
            self.answers_for(after, id, disk, places),
            data matches Some(bytes) ==> offset as int % BLOCK_SIZE as int == 0 || bytes.len()
                == len,
        ensures
            data matches Some(bytes) && bytes.len() >= len && self.holds_written(
                after,
                id,
                offset,
                len,
                bytes,
                disk,
                places,
            ),
    {
        let range = range_of(offset, len);
        let outcome = Ok::<DirectRangePrepare, Ext4Error>(DirectRangePrepare::DataWritten);
        let busy = |block: PBlockId| self.is_busy(id, block);
        let (inside, lock) = choose|inside: Self, lock: Result<()>|
            {
                &&& #[trigger] self.exclusive_entered(&inside, lock)
                &&& match lock {
                    Err(error) => inside.idle(after) && outcome == Err::<
                        DirectRangePrepare,
                        Ext4Error,
                    >(error),
                    Ok(_) => exists|left: Self|
                        {
                            &&& inside.journal_range_prepared(&left, id, range, data, outcome)
                            &&& #[trigger] left.exclusive_left(after)
                        },
                }
            };
        let left = choose|left: Self|
            {
                &&& inside.journal_range_prepared(&left, id, range, data, outcome)
                &&& #[trigger] left.exclusive_left(after)
            };
        inside.lemma_journal_range_appends(&left, id, range, data, disk, places, busy);
        self.lemma_left_as_before(&inside, &left, after, disk);
        assert(self.same_ground(&inside)) by {
            assert forall|block: PBlockId| #[trigger] inside.logs_to(block) == self.logs_to(
                block,
            ) by {}
        }
        self.lemma_busy_fences(&inside, id, places);
        self.lemma_answers_split(&left, after, disk);
        assert(inside.answered_by(&left, disk));
        inside.lemma_allots_earlier(&left, after, places, busy);
        let bytes = data->0;
        self.lemma_appended_on_leaving(
            &inside,
            &left,
            after,
            id,
            range.first_lblock as int,
            range.block_count as int,
            bytes.take(range.block_count * BLOCK_SIZE),
            disk,
            places,
        );
        lemma_range_covers(offset, len);
        self.lemma_appended_holds(after, id, offset, len, bytes, disk, places);
    }

    /// Mapped blocks that were written through the journal hold the data.
    proof fn lemma_logged_blocks_hold(
        &self,
        tried: &Self,
        after: &Self,
        id: InodeId,
        offset: usize,
        len: usize,
        data: Seq<u8>,
        disk: Disk,
        places: Places,
    )
        requires
            self.state().mode is Journal,
            len > 0,
            len <= data.len(),
            self.range_logged(
                tried,
                id,
                range_of(offset, len),
                Some(data),
                Ok(DirectRangePrepare::Unsupported),
            ),
            tried.mapped_logged(
                after,
                id,
                range_of(offset, len),
                offset,
                data.take(len as int),
                Ok(DirectRangePrepare::DataWritten),
            ),
            self.answers_for(after, id, disk, places),
        ensures
            self.holds_written(after, id, offset, len, data, disk, places),
    {
        let range = range_of(offset, len);
        let bytes = data.take(len as int);
        let unsupported = Ok::<DirectRangePrepare, Ext4Error>(DirectRangePrepare::Unsupported);
        let written = Ok::<DirectRangePrepare, Ext4Error>(DirectRangePrepare::DataWritten);
        let (inside, lock) = choose|inside: Self, lock: Result<()>|
            {
                &&& #[trigger] self.exclusive_entered(&inside, lock)
                &&& match lock {
                    Err(error) => inside.idle(tried) && unsupported == Err::<
                        DirectRangePrepare,
                        Ext4Error,
                    >(error),
                    Ok(_) => exists|left: Self|
                        {
                            &&& inside.journal_range_prepared(
                                &left,
                                id,
                                range,
                                Some(data),
                                unsupported,
                            )
                            &&& #[trigger] left.exclusive_left(tried)
                        },
                }
            };
        let left = choose|left: Self|
            {
                &&& inside.journal_range_prepared(&left, id, range, Some(data), unsupported)
                &&& #[trigger] left.exclusive_left(tried)
            };
        let (entered, hold) = choose|entered: Self, hold: Result<()>|
            {
                &&& #[trigger] tried.exclusive_entered(&entered, hold)
                &&& match hold {
                    Err(error) => entered.idle(after) && written == Err::<
                        DirectRangePrepare,
                        Ext4Error,
                    >(error),
                    Ok(_) => exists|done: Self|
                        {
                            &&& entered.journal_mapped_written(
                                &done,
                                id,
                                range,
                                offset,
                                bytes,
                                written,
                            )
                            &&& #[trigger] done.exclusive_left(after)
                        },
                }
            };
        let done = choose|done: Self|
            {
                &&& entered.journal_mapped_written(&done, id, range, offset, bytes, written)
                &&& #[trigger] done.exclusive_left(after)
            };
        self.lemma_mapped_after_unsupported(
            &inside,
            &left,
            tried,
            &entered,
            &done,
            after,
            id,
            offset,
            len,
            data,
            disk,
            places,
        );
        self.lemma_overwritten_holds(after, id, offset, len, data, disk, places);
    }

    /// The same, once the states in between are known.
    proof fn lemma_mapped_after_unsupported(
        &self,
        inside: &Self,
        left: &Self,
        tried: &Self,
        entered: &Self,
        done: &Self,
        after: &Self,
        id: InodeId,
        offset: usize,
        len: usize,
        data: Seq<u8>,
        disk: Disk,
        places: Places,
    )
        requires
            self.state().mode is Journal,
            len <= data.len(),
            self.exclusive_entered(inside, Ok(())),
            inside.journal_range_prepared(
                left,
                id,
                range_of(offset, len),
                Some(data),
                Ok(DirectRangePrepare::Unsupported),
            ),
            left.exclusive_left(tried),
            tried.exclusive_entered(entered, Ok(())),
            entered.journal_mapped_written(
                done,
                id,
                range_of(offset, len),
                offset,
                data.take(len as int),
                Ok(DirectRangePrepare::DataWritten),
            ),
            done.exclusive_left(after),
            self.answers_for(after, id, disk, places),
        ensures
            self.overwritten(after, offset, data.take(len as int), disk, places),
    {
        let range = range_of(offset, len);
        let bytes = data.take(len as int);
        inside.lemma_unsupported_keeps_journal(left, id, range, Some(data));
        assert(extends(entered.log(), done.log())) by {
            entered.lemma_mapped_goes_on(done, id, range, offset, bytes);
        }
        assert(after.log().take(done.log().len() as int) =~= done.log());
        assert(tried.log().take(left.log().len() as int) =~= left.log());
        lemma_extends(left.log(), tried.log(), done.log());
        lemma_extends(left.log(), done.log(), after.log());
        if extends(inside.log(), left.log()) {
            let all = since(self.log(), after.log());
            let part = since(inside.log(), left.log());
            assert forall|k: int| 0 <= k < part.len() implies match #[trigger] part[k] {
                Event::WriteBlock { id, data, reply: Err(error) } => error.code != ErrCode::ENOENT
                    && error.code != ErrCode::ENOMEM,
                Event::WriteBlocks { start, data, reply: Err(error) } => error.code
                    != ErrCode::ENOENT && error.code != ErrCode::ENOMEM,
                _ => true,
            } by {
                assert(after.log().take(left.log().len() as int)[self.log().len() + k]
                    == after.log()[self.log().len() + k]);
                assert(all[k] == part[k]);
            }
        }
        inside.lemma_unsupported_asks(left, id, range, Some(data));
        assert forall|block: PBlockId| #[trigger] inside.logs_to(block) == self.logs_to(block) by {}
        assert forall|block: PBlockId| #[trigger] tried.logs_to(block) == left.logs_to(block) by {}
        assert(self.same_ground(tried)) by {
            assert forall|block: PBlockId| #[trigger] tried.logs_to(block) == self.logs_to(
                block,
            ) by {
                assert(left.logs_to(block) == inside.logs_to(block));
                assert(tried.logs_to(block) == left.logs_to(block));
            }
        }
        assert(self.asks(tried)) by {
            lemma_extends(self.log(), left.log(), tried.log());
            assert forall|k: int| self.log().len() <= k < tried.log().len() implies !writes(
                #[trigger] tried.log()[k],
            ) by {
                if k < left.log().len() {
                    assert(tried.log().take(left.log().len() as int)[k] == tried.log()[k]);
                }
            }
        }
        assert(self.same_ground(entered)) by {
            assert forall|block: PBlockId| #[trigger] entered.logs_to(block) == self.logs_to(
                block,
            ) by {
                assert(tried.logs_to(block) == self.logs_to(block));
            }
        }
        assert forall|block: int| #[trigger] places.contains_key(block) implies {
            &&& !entered.logs_to(places[block])
            &&& !holds_home(entered.state().batch(), places[block])
            &&& entered.state().inode_position(id) matches Some((home, _)) ==> home
                != places[block]
        } by {
            assert(!self.is_busy(id, places[block]));
            assert(entered.logs_to(places[block]) == self.logs_to(places[block]));
        }
        entered.lemma_journal_mapped_content(done, id, range, offset, bytes, disk, places);
        lemma_extends(entered.log(), done.log(), after.log());
        lemma_extends(self.log(), tried.log(), done.log());
        self.lemma_guided_first(done, after, disk, id, places);
        self.lemma_guided_parts(entered, done, disk, id, places);
        self.lemma_after_asking(tried, done, disk);
        assert(entered.guided(done, disk, id, places));
        let last = since(done.log(), after.log());
        assert(last =~= seq![Event::Layer { call: LayerCall::Released }]);
        self.lemma_device_joins(done, after, disk);
        lemma_held_without_writes(self.left_on(done, disk), last);
        assert(self.left_on(after, disk) == entered.left_on(done, disk));
        assert(entered.overwritten(done, offset, bytes, disk, places));
    }

    /// Writing to mapped blocks through the journal goes on with the record.
    proof fn lemma_mapped_goes_on(
        &self,
        after: &Self,
        id: InodeId,
        range: WriteLogicalRange,
        offset: usize,
        data: Seq<u8>,
    )
        requires
            self.journal_mapped_written(
                after,
                id,
                range,
                offset,
                data,
                Ok(DirectRangePrepare::DataWritten),
            ),
            self.state().mode is Journal,
            data.len() <= usize::MAX,
        ensures
            extends(self.log(), after.log()),
    {
        let none: Places = Map::empty();
        self.lemma_journal_mapped_content(
            after,
            id,
            range,
            offset,
            data,
            Map::empty(),
            none,
        );
    }
}

/// Without a journal.
impl<D: BlockDevice, V: Volume<D>> Ext4<D, V> {
    /// Asking whether a range can be allocated as a whole, without a journal, only asks.
    proof fn lemma_plan_gated_asks(
        &self,
        after: &Self,
        id: InodeId,
        range: WriteLogicalRange,
        possible: bool,
    )
        requires
            self.plan_gated(after, id, range, Ok(possible)),
            self.state().mode is Direct,
        ensures
            self.asks(after),
            self.same_ground(after),
            after.state().mode == self.state().mode,
            after.state().groups == self.state().groups,
    {
        let outcome = Ok::<bool, Ext4Error>(possible);
        let (inside, lock) = choose|inside: Self, lock: Result<()>|
            {
                &&& #[trigger] self.direct_entered(&inside, lock)
                &&& match lock {
                    Err(error) => inside.idle(after) && outcome == Err::<bool, Ext4Error>(error),
                    Ok(_) => exists|left: Self|
                        {
                            &&& inside.plan_tried(&left, id, range, outcome)
                            &&& #[trigger] left.direct_left(after)
                        },
                }
            };
        let left = choose|left: Self|
            {
                &&& inside.plan_tried(&left, id, range, outcome)
                &&& #[trigger] left.direct_left(after)
            };
        assert(inside.log() == self.log());
        let (read, found) = choose|read: Self, found: Result<InodeRef>|
            {
                &&& #[trigger] inside.inode_read(&read, id, found)
                &&& match found {
                    Ok(inode) => if is_free(inode.inode) {
                        read.idle(&left) && outcome == failed::<bool>(ErrCode::EINVAL)
                    } else {
                        read.plan_asked(&left, inode, range, outcome)
                    },
                    Err(error) => read.idle(&left) && outcome == Err::<bool, Ext4Error>(error),
                }
            };
        let inode = found->Ok_0;
        let reply = choose|reply: Result<Option<DirectRangePlan>>|
            #[trigger] read.range_planned(&left, inode, range, reply);
        inside.lemma_reading_inode_asks(&read, id, found);
        read.lemma_planning_asks(&left, inode, range, reply);
        inside.lemma_calls_join(&read, &left);
        assert(after.log().take(left.log().len() as int) =~= left.log());
        lemma_extends(self.log(), left.log(), after.log());
        assert forall|k: int| self.log().len() <= k < after.log().len() implies !writes(
            #[trigger] after.log()[k],
        ) by {
            if k < left.log().len() {
                assert(after.log()[k] == left.log()[k]);
            }
        }
    }

    /// A range that was prepared as a whole without a journal with data holds it.
    proof fn lemma_whole_range_holds(
        &self,
        tried: &Self,
        after: &Self,
        id: InodeId,
        offset: usize,
        len: usize,
        data: Option<Seq<u8>>,
        disk: Disk,
        places: Places,
    )
        requires
            self.state().mode is Direct,
            len > 0,
            addressable(offset, len),
            self.same_ground(tried),
            tried.state().groups == self.state().groups,
            tried.state().mode == self.state().mode,
            extends(self.log(), tried.log()),
            self.left_on(tried, disk) == disk,
            tried.whole_gated(
                after,
                id,
                range_of(offset, len),
                data,
                Ok(DirectRangePrepare::DataWritten),
            ),
            self.answers_for(after, id, disk, places),
            data matches Some(bytes) ==> offset as int % BLOCK_SIZE as int == 0 || bytes.len()
                == len,
        ensures
            data matches Some(bytes) && bytes.len() >= len && self.holds_written(
                after,
                id,
                offset,
                len,
                bytes,
                disk,
                places,
            ),
    {
        let range = range_of(offset, len);
        let outcome = Ok::<DirectRangePrepare, Ext4Error>(DirectRangePrepare::DataWritten);
        let busy = |block: PBlockId| self.is_busy(id, block);
        let (inside, lock) = choose|inside: Self, lock: Result<()>|
            {
                &&& #[trigger] tried.exclusive_entered(&inside, lock)
                &&& match lock {
                    Err(error) => inside.idle(after) && outcome == Err::<
                        DirectRangePrepare,
                        Ext4Error,
                    >(error),
                    Ok(_) => exists|left: Self|
                        {
                            &&& inside.whole_prepared(&left, id, range, data, outcome)
                            &&& #[trigger] left.exclusive_left(after)
                        },
                }
            };
        let left = choose|left: Self|
            {
                &&& inside.whole_prepared(&left, id, range, data, outcome)
                &&& #[trigger] left.exclusive_left(after)
            };
        inside.lemma_whole_appends(&left, id, range, data, disk, places, busy);
        tried.lemma_left_as_before(&inside, &left, after, disk);
        assert(self.same_ground(&inside)) by {
            assert forall|block: PBlockId| #[trigger] inside.logs_to(block) == self.logs_to(
                block,
            ) by {
                assert(tried.logs_to(block) == self.logs_to(block));
            }
        }
        assert(inside.state().batch() =~= Seq::<StagedBlock>::empty());
        self.lemma_busy_fences(&inside, id, places);
        lemma_extends(tried.log(), left.log(), after.log());
        self.lemma_answers_split(tried, after, disk);
        tried.lemma_answers_split(&left, after, disk);
        assert(inside.answered_by(&left, disk));
        assert(inside.allots(after, places, busy));
        inside.lemma_allots_earlier(&left, after, places, busy);
        let bytes = data->0;
        let run = bytes.take(range.block_count * BLOCK_SIZE);
        tried.lemma_appended_on_leaving(
            &inside,
            &left,
            after,
            id,
            range.first_lblock as int,
            range.block_count as int,
            run,
            disk,
            places,
        );
        self.lemma_appended_on(
            tried,
            after,
            id,
            range.first_lblock as int,
            range.block_count as int,
            run,
            disk,
            places,
        );
        lemma_range_covers(offset, len);
        self.lemma_appended_holds(after, id, offset, len, bytes, disk, places);
    }

    /// Blocks that were added after what left the device as it was were added.
    proof fn lemma_appended_on(
        &self,
        tried: &Self,
        after: &Self,
        id: InodeId,
        start: int,
        count: int,
        data: Seq<u8>,
        disk: Disk,
        places: Places,
    )
        requires
            extends(self.log(), tried.log()),
            self.left_on(tried, disk) == disk,
            tried.appended(after, id, start, count, data, disk, places),
        ensures
            self.appended(after, id, start, count, data, disk, places),
    {
        self.lemma_device_joins(tried, after, disk);
        let (k, first) = choose|k: int, first: PBlockId|
            {
                &&& tried.log().len() <= k < after.log().len()
                &&& #[trigger] adds_run(after.log()[k], id, start, first, count)
                &&& crate::appended_content::holds_run(
                    disk,
                    tried.left_on(after, disk),
                    places,
                    start,
                    first,
                    count,
                    data,
                )
            };
        assert(adds_run(after.log()[k], id, start, first, count));
    }

    /// What was prepared after an attempt that left everything as it was, without a journal.
    proof fn lemma_unlogged_holds(
        &self,
        tried: &Self,
        after: &Self,
        id: InodeId,
        offset: usize,
        len: usize,
        data: Option<Seq<u8>>,
        disk: Disk,
        places: Places,
    )
        requires
            self.state().mode is Direct,
            len > 0,
            addressable(offset, len),
            self.same_ground(tried),
            tried.state().groups == self.state().groups,
            tried.state().mode == self.state().mode,
            extends(self.log(), tried.log()),
            extends(tried.log(), after.log()) ==> self.left_on(tried, disk) == disk,
            tried.unlogged_prepared(after, id, range_of(offset, len), data, Ok(true)),
            self.answers_for(after, id, disk, places),
            data matches Some(bytes) ==> offset as int % BLOCK_SIZE as int == 0 || bytes.len()
                == len,
        ensures
            data matches Some(bytes) && bytes.len() >= len && self.holds_written(
                after,
                id,
                offset,
                len,
                bytes,
                disk,
                places,
            ),
    {
        let range = range_of(offset, len);
        let (last, decision) = choose|last: Self, decision: Option<Result<bool>>|
            {
                &&& #[trigger] tried.direct_attempted(&last, id, range, data, decision)
                &&& match decision {
                    Some(result) => last.idle(after) && Ok::<bool, Ext4Error>(true) == result,
                    None => last.range_guarded(after, id, range, Ok(true)),
                }
            };
        if decision is None {
            last.lemma_guarded_stores_nothing(after, id, range, Ok(true));
        }
        let (asked, supported) = choose|asked: Self, supported: bool|
            {
                &&& #[trigger] tried.asked_for_ranges(&asked, supported)
                &&& if !supported {
                    asked.idle(&last) && decision is None
                } else {
                    asked.direct_tried(&last, id, range, data, decision)
                }
            };
        let (planned, reply) = choose|planned: Self, reply: Result<bool>|
            {
                &&& #[trigger] asked.plan_gated(&planned, id, range, reply)
                &&& planned.plan_followed(&last, id, range, data, reply, decision)
            };
        let outcome = choose|outcome: Result<DirectRangePrepare>|
            {
                &&& #[trigger] planned.whole_gated(&last, id, range, data, outcome)
                &&& decision == decided(outcome)
            };
        assert(outcome == Ok::<DirectRangePrepare, Ext4Error>(DirectRangePrepare::DataWritten));
        asked.lemma_plan_gated_asks(&planned, id, range, reply->Ok_0);
        assert(asked.log().take(tried.log().len() as int) =~= tried.log());
        assert(tried.asks(&planned)) by {
            lemma_extends(tried.log(), asked.log(), planned.log());
            assert forall|k: int| tried.log().len() <= k < planned.log().len() implies !writes(
                #[trigger] planned.log()[k],
            ) by {
                if k < asked.log().len() {
                    assert(planned.log().take(asked.log().len() as int)[k] == planned.log()[k]);
                }
            }
        }
        assert(extends(planned.log(), last.log())) by {
            planned.lemma_whole_goes_on(&last, id, range, data);
        }
        lemma_extends(tried.log(), planned.log(), last.log());
        assert(after.log() == last.log());
        tried.lemma_after_asking(&planned, after, disk);
        lemma_extends(self.log(), tried.log(), planned.log());
        self.lemma_device_joins(tried, &planned, disk);
        assert(self.same_ground(&planned)) by {
            assert forall|block: PBlockId| #[trigger] planned.logs_to(block) == self.logs_to(
                block,
            ) by {
                assert(asked.logs_to(block) == tried.logs_to(block));
                assert(tried.logs_to(block) == self.logs_to(block));
            }
        }
        assert(self.answers_for(&last, id, disk, places));
        self.lemma_whole_range_holds(
            &planned,
            &last,
            id,
            offset,
            len,
            data,
            disk,
            places,
        );
        let bytes = data->0;
        assert(self.holds_written(after, id, offset, len, bytes, disk, places)) by {
            let now = choose|now: Places|
                {
                    &&& #[trigger] self.stand_after(&last, id, range, places, now)
                    &&& forall|at: int|
                        offset <= at < offset + len ==> #[trigger] byte_of(
                            self.left_on(&last, disk),
                            now,
                            at,
                        ) == bytes[at - offset]
                    &&& forall|at: int|
                        0 <= at && !(offset <= at < offset + len) && (bytes.len() == len || !(
                        range.first_lblock * BLOCK_SIZE <= at < (range.first_lblock
                            + range.block_count) * BLOCK_SIZE)) ==> #[trigger] byte_of(
                            self.left_on(&last, disk),
                            now,
                            at,
                        ) == byte_of(disk, places, at)
                };
            assert(self.stand_after(after, id, range, places, now));
        }
    }

    /// Preparing a range as a whole without a journal goes on with the record.
    proof fn lemma_whole_goes_on(
        &self,
        after: &Self,
        id: InodeId,
        range: WriteLogicalRange,
        data: Option<Seq<u8>>,
    )
        requires
            self.whole_gated(after, id, range, data, Ok(DirectRangePrepare::DataWritten)),
            self.state().mode is Direct,
        ensures
            extends(self.log(), after.log()),
    {
        let outcome = Ok::<DirectRangePrepare, Ext4Error>(DirectRangePrepare::DataWritten);
        let (inside, lock) = choose|inside: Self, lock: Result<()>|
            {
                &&& #[trigger] self.exclusive_entered(&inside, lock)
                &&& match lock {
                    Err(error) => inside.idle(after) && outcome == Err::<
                        DirectRangePrepare,
                        Ext4Error,
                    >(error),
                    Ok(_) => exists|left: Self|
                        {
                            &&& inside.whole_prepared(&left, id, range, data, outcome)
                            &&& #[trigger] left.exclusive_left(after)
                        },
                }
            };
        let left = choose|left: Self|
            {
                &&& inside.whole_prepared(&left, id, range, data, outcome)
                &&& #[trigger] left.exclusive_left(after)
            };
        inside.lemma_whole_appends(
            &left,
            id,
            range,
            data,
            Map::empty(),
            Map::empty(),
            |block: PBlockId| true,
        );
        self.lemma_left_as_before(&inside, &left, after, Map::empty());
    }

    /// A range that cannot be prepared through the journal keeps the journal, with the barrier.
    proof fn lemma_unlogged_keeps_journal(
        &self,
        after: &Self,
        id: InodeId,
        range: WriteLogicalRange,
        data: Option<Seq<u8>>,
    )
        requires
            self.state().mode is Journal,
            self.range_logged(after, id, range, data, Ok(DirectRangePrepare::Unsupported)),
        ensures
            after.state().mode is Journal,
    {
        let outcome = Ok::<DirectRangePrepare, Ext4Error>(DirectRangePrepare::Unsupported);
        let (inside, lock) = choose|inside: Self, lock: Result<()>|
            {
                &&& #[trigger] self.exclusive_entered(&inside, lock)
                &&& match lock {
                    Err(error) => inside.idle(after) && outcome == Err::<
                        DirectRangePrepare,
                        Ext4Error,
                    >(error),
                    Ok(_) => exists|left: Self|
                        {
                            &&& inside.journal_range_prepared(&left, id, range, data, outcome)
                            &&& #[trigger] left.exclusive_left(after)
                        },
                }
            };
        let left = choose|left: Self|
            {
                &&& inside.journal_range_prepared(&left, id, range, data, outcome)
                &&& #[trigger] left.exclusive_left(after)
            };
        inside.lemma_unsupported_keeps_journal(&left, id, range, data);
    }

    /// An attempt to write to mapped blocks that decides nothing keeps the journal.
    proof fn lemma_undecided_keeps_journal(
        &self,
        after: &Self,
        id: InodeId,
        range: WriteLogicalRange,
        offset: usize,
        data: Option<Seq<u8>>,
    )
        requires
            self.state().mode is Journal,
            self.mapped_attempted(after, id, range, offset, data, None),
        ensures
            after.state().mode is Journal,
    {
        if let Some(bytes) = data {
            let none: Option<Result<bool>> = None;
            let outcome = choose|outcome: Result<DirectRangePrepare>|
                {
                    &&& #[trigger] self.mapped_logged(after, id, range, offset, bytes, outcome)
                    &&& none == match outcome {
                        Ok(prepared) => if prepared == DirectRangePrepare::DataWritten {
                            Some(Ok::<bool, Ext4Error>(true))
                        } else {
                            None
                        },
                        Err(error) => Some(Err(error)),
                    }
                };
            let (inside, lock) = choose|inside: Self, lock: Result<()>|
                {
                    &&& #[trigger] self.exclusive_entered(&inside, lock)
                    &&& match lock {
                        Err(error) => inside.idle(after) && outcome == Err::<
                            DirectRangePrepare,
                            Ext4Error,
                        >(error),
                        Ok(_) => exists|left: Self|
                            {
                                &&& inside.journal_mapped_written(
                                    &left,
                                    id,
                                    range,
                                    offset,
                                    bytes,
                                    outcome,
                                )
                                &&& #[trigger] left.exclusive_left(after)
                            },
                    }
                };
            let left = choose|left: Self|
                {
                    &&& inside.journal_mapped_written(&left, id, range, offset, bytes, outcome)
                    &&& #[trigger] left.exclusive_left(after)
                };
            inside.lemma_missing_keeps_journal(&left, id, range, offset, bytes, outcome);
        }
    }

    /// Mapped blocks that could not be written through the journal because some are missing: the
    /// transaction is given up, and the journal kept.
    proof fn lemma_missing_keeps_journal(
        &self,
        after: &Self,
        id: InodeId,
        range: WriteLogicalRange,
        offset: usize,
        data: Seq<u8>,
        outcome: Result<DirectRangePrepare>,
    )
        requires
            self.state().mode is Journal,
            self.journal_mapped_written(after, id, range, offset, data, outcome),
            outcome is Ok,
            outcome->Ok_0 != DirectRangePrepare::DataWritten,
        ensures
            after.state().mode is Journal,
    {
        let (ready, watch) = choose|ready: Self, watch: Stopwatch|
            {
                &&& #[trigger] self.watch_started(&ready, watch)
                &&& ready.mapped_begun(after, id, range, offset, data, watch, outcome)
            };
        let (begun, reply) = choose|begun: Self, reply: Result<Transaction>|
            {
                &&& #[trigger] ready.begun(&begun, MAPPED_CREDITS, reply)
                &&& match reply {
                    Ok(transaction) => begun.mapped_opened(
                        after,
                        id,
                        range,
                        offset,
                        data,
                        transaction,
                        watch,
                        outcome,
                    ),
                    Err(error) => begun.idle(after) && outcome == Err::<
                        DirectRangePrepare,
                        Ext4Error,
                    >(error),
                }
            };
        let transaction = reply->Ok_0;
        let (read, found) = choose|read: Self, found: Result<InodeRef>|
            {
                &&& #[trigger] begun.staged_inode_read(&read, transaction, id, found)
                &&& match found {
                    Ok(inode) => if is_free(inode.inode) {
                        &&& read.given_up(after, transaction)
                        &&& outcome == failed::<DirectRangePrepare>(ErrCode::EINVAL)
                    } else {
                        read.mapped_checked(
                            after,
                            inode,
                            range,
                            offset,
                            data,
                            transaction,
                            watch,
                            outcome,
                        )
                    },
                    Err(error) => {
                        &&& read.given_up(after, transaction)
                        &&& outcome == Err::<DirectRangePrepare, Ext4Error>(error)
                    },
                }
            };
        let inode = found->Ok_0;
        begun.lemma_shown_inode_is_read(&read, transaction, id, inode, Map::empty());
        let (looked, seen) = choose|looked: Self, seen: Result<()>|
            {
                &&& #[trigger] read.range_looked_up(
                    &looked,
                    inode,
                    range.first_lblock as int,
                    range.last_lblock as int,
                    seen,
                )
                &&& match seen {
                    Ok(_) => looked.mapped_ready(
                        after,
                        inode,
                        range,
                        offset,
                        data,
                        transaction,
                        watch,
                        outcome,
                    ),
                    Err(error) => {
                        &&& looked.given_up(after, transaction)
                        &&& outcome == if error.code == ErrCode::ENOENT {
                            Ok::<DirectRangePrepare, Ext4Error>(DirectRangePrepare::Unsupported)
                        } else {
                            Err(error)
                        }
                    },
                }
            };
        read.lemma_looking_up_asks(
            &looked,
            inode,
            range.first_lblock as int,
            range.last_lblock as int,
            seen,
        );
        if seen is Ok {
            looked.lemma_ready_says(
                after,
                inode,
                range,
                offset,
                data,
                transaction,
                watch,
                outcome,
            );
        }
    }

    /// Mapped blocks that were written through the journal are said to hold the data.
    proof fn lemma_ready_says(
        &self,
        after: &Self,
        inode: InodeRef,
        range: WriteLogicalRange,
        offset: usize,
        data: Seq<u8>,
        transaction: Transaction,
        watch: Stopwatch,
        outcome: Result<DirectRangePrepare>,
    )
        requires
            self.mapped_ready(
                after,
                inode,
                range,
                offset,
                data,
                transaction,
                watch,
                outcome,
            ),
        ensures
            outcome matches Ok(prepared) ==> prepared == DirectRangePrepare::DataWritten,
    {
        let (clocked, data_start) = choose|clocked: Self, data_start: usize|
            {
                &&& #[trigger] self.timed(&clocked, watch.diagnostic, data_start)
                &&& clocked.mapped_stored(
                    after,
                    inode,
                    range,
                    offset,
                    data,
                    transaction,
                    watch,
                    data_start,
                    outcome,
                )
            };
        let (stored, reply) = choose|stored: Self, reply: Result<usize>|
            {
                &&& #[trigger] clocked.mapped_written(&stored, inode, offset, data, reply)
                &&& match reply {
                    Ok(written) => stored.mapped_measured(
                        after,
                        inode,
                        range,
                        offset,
                        written,
                        transaction,
                        watch,
                        data_start,
                        outcome,
                    ),
                    Err(error) => {
                        &&& stored.given_up(after, transaction)
                        &&& outcome == Err::<DirectRangePrepare, Ext4Error>(error)
                    },
                }
            };
        if let Ok(written) = reply {
            let (again, now) = choose|again: Self, now: usize|
                {
                    &&& #[trigger] stored.timed(&again, watch.diagnostic, now)
                    &&& again.mapped_staged(
                        after,
                        inode,
                        transaction,
                        watch,
                        offset + written,
                        written,
                        cycles_between(watch.diagnostic, data_start, now),
                        range.block_count,
                        outcome,
                    )
                };
            if outcome is Ok {
                let (staged, grown, said) = choose|
                    staged: Self,
                    grown: Transaction,
                    said: Result<()>,
                |
                    {
                        &&& #[trigger] again.end_staged(
                            &staged,
                            inode,
                            transaction,
                            grown,
                            offset + written,
                            said,
                        )
                        &&& match said {
                            Ok(_) => staged.journal_finished(
                                after,
                                grown,
                                watch,
                                written,
                                cycles_between(watch.diagnostic, data_start, now),
                                range.block_count,
                                DirectRangePrepare::DataWritten,
                                outcome,
                            ),
                            Err(error) => {
                                &&& staged.given_up(after, grown)
                                &&& outcome == Err::<DirectRangePrepare, Ext4Error>(error)
                            },
                        }
                    };
                assert(said is Ok);
            }
        }
    }

    /// With a journal, what is left where nothing was prepared through it stores no data.
    proof fn lemma_unlogged_stores_nothing(
        &self,
        after: &Self,
        id: InodeId,
        range: WriteLogicalRange,
        data: Option<Seq<u8>>,
        outcome: Result<bool>,
    )
        requires
            self.state().mode is Journal,
            self.unlogged_prepared(after, id, range, data, outcome),
        ensures
            outcome != Ok::<bool, Ext4Error>(true),
    {
        let (last, decision) = choose|last: Self, decision: Option<Result<bool>>|
            {
                &&& #[trigger] self.direct_attempted(&last, id, range, data, decision)
                &&& match decision {
                    Some(result) => last.idle(after) && outcome == result,
                    None => last.range_guarded(after, id, range, outcome),
                }
            };
        if decision is None {
            last.lemma_guarded_stores_nothing(after, id, range, outcome);
        }
    }

    /// What was prepared through the journal, or fails to be.
    proof fn lemma_journal_case(
        &self,
        after: &Self,
        id: InodeId,
        offset: usize,
        len: usize,
        data: Option<Seq<u8>>,
        disk: Disk,
        places: Places,
    )
        requires
            self.state().mode is Journal,
            len > 0,
            addressable(offset, len),
            self.range_prepared(after, id, range_of(offset, len), offset, len, data, Ok(true)),
            self.answers_for(after, id, disk, places),
            data matches Some(bytes) ==> offset as int % BLOCK_SIZE as int == 0 || bytes.len()
                == len,
        ensures
            data matches Some(bytes) && bytes.len() >= len && self.holds_written(
                after,
                id,
                offset,
                len,
                bytes,
                disk,
                places,
            ),
    {
        let range = range_of(offset, len);
        let (tried, decision) = choose|tried: Self, decision: Option<Result<bool>>|
            {
                &&& #[trigger] self.journal_attempted(
                    &tried,
                    id,
                    range,
                    offset,
                    len,
                    data,
                    decision,
                )
                &&& match decision {
                    Some(result) => tried.idle(after) && Ok::<bool, Ext4Error>(true) == result,
                    None => tried.unlogged_prepared(after, id, range, data, Ok(true)),
                }
            };
        let (logged, outcome) = choose|logged: Self, outcome: Result<DirectRangePrepare>|
            {
                &&& #[trigger] self.range_logged(&logged, id, range, data, outcome)
                &&& match decided(outcome) {
                    Some(result) => logged.idle(&tried) && decision == Some(result),
                    None => logged.mapped_attempted(
                        &tried,
                        id,
                        range,
                        offset,
                        usable(data, len as nat),
                        decision,
                    ),
                }
            };
        if decision is None {
            self.lemma_unlogged_keeps_journal(&logged, id, range, data);
            logged.lemma_undecided_keeps_journal(
                &tried,
                id,
                range,
                offset,
                usable(data, len as nat),
            );
            tried.lemma_unlogged_stores_nothing(after, id, range, data, Ok(true));
        } else {
            assert(tried.log() == after.log());
            match decided(outcome) {
                Some(_) => {
                    assert(logged.log() == after.log());
                    self.lemma_same_answers(&logged, after, id, disk, places);
                    self.lemma_logged_range_holds(
                        &logged,
                        id,
                        offset,
                        len,
                        data,
                        disk,
                        places,
                    );
                    self.lemma_same_holding(&logged, after, id, offset, len, data->0, disk, places);
                },
                None => {
                    let bytes = data->0;
                    let second = choose|second: Result<DirectRangePrepare>|
                        {
                            &&& #[trigger] logged.mapped_logged(
                                &tried,
                                id,
                                range,
                                offset,
                                usable(data, len as nat)->0,
                                second,
                            )
                            &&& decision == match second {
                                Ok(prepared) => if prepared == DirectRangePrepare::DataWritten {
                                    Some(Ok::<bool, Ext4Error>(true))
                                } else {
                                    None
                                },
                                Err(error) => Some(Err(error)),
                            }
                        };
                    self.lemma_same_answers(&tried, after, id, disk, places);
                    self.lemma_logged_blocks_hold(
                        &logged,
                        &tried,
                        id,
                        offset,
                        len,
                        bytes,
                        disk,
                        places,
                    );
                    self.lemma_same_holding(&tried, after, id, offset, len, bytes, disk, places);
                },
            }
        }
    }

    /// What is answered on the way to a state is so on the way to one with the same record.
    proof fn lemma_same_answers(
        &self,
        same: &Self,
        after: &Self,
        id: InodeId,
        disk: Disk,
        places: Places,
    )
        requires
            same.log() == after.log(),
            self.answers_for(after, id, disk, places),
        ensures
            self.answers_for(same, id, disk, places),
    {
    }

    /// What a file holds depends on the record alone.
    proof fn lemma_same_holding(
        &self,
        same: &Self,
        after: &Self,
        id: InodeId,
        offset: usize,
        len: usize,
        data: Seq<u8>,
        disk: Disk,
        places: Places,
    )
        requires
            same.log() == after.log(),
            self.holds_written(same, id, offset, len, data, disk, places),
        ensures
            self.holds_written(after, id, offset, len, data, disk, places),
    {
        let range = range_of(offset, len);
        let last = self.left_on(same, disk);
        let now = choose|now: Places|
            {
                &&& #[trigger] self.stand_after(same, id, range, places, now)
                &&& forall|at: int|
                    offset <= at < offset + len ==> #[trigger] byte_of(last, now, at) == data[at
                        - offset]
                &&& forall|at: int|
                    0 <= at && !(offset <= at < offset + len) && (data.len() == len || !(
                    range.first_lblock * BLOCK_SIZE <= at < (range.first_lblock
                        + range.block_count) * BLOCK_SIZE)) ==> #[trigger] byte_of(last, now, at)
                        == byte_of(disk, places, at)
            };
        assert(self.stand_after(after, id, range, places, now));
    }
}

/// The law.
impl<D: BlockDevice, V: Volume<D>> Ext4<D, V> {
    /// Without a journal, what was prepared.
    proof fn lemma_plain_case(
        &self,
        tried: &Self,
        after: &Self,
        id: InodeId,
        offset: usize,
        len: usize,
        data: Seq<u8>,
        decision: Option<Result<bool>>,
        disk: Disk,
        places: Places,
    )
        requires
            self.state().mode is Direct,
            self.state().mutable(),
            len > 0,
            addressable(offset, len),
            self.plain_attempted(tried, id, offset, len, Some(data), decision),
            match decision {
                Some(result) => tried.idle(after) && result == Ok::<bool, Ext4Error>(true),
                None => tried.range_prepared(
                    after,
                    id,
                    range_of(offset, len),
                    offset,
                    len,
                    Some(data),
                    Ok(true),
                ),
            },
            self.answers_for(after, id, disk, places),
            offset as int % BLOCK_SIZE as int == 0 || data.len() == len,
        ensures
            data.len() >= len,
            self.holds_written(after, id, offset, len, data, disk, places),
    {
        let range = range_of(offset, len);
        let bytes = usable(Some(data), len as nat);
        assert(self.log().take(self.log().len() as int) =~= self.log());
        if let Some(part) = bytes {
            let outcome = choose|outcome: Result<usize>|
                {
                    &&& #[trigger] self.data_only_written(tried, id, offset, part, outcome)
                    &&& decision == match outcome {
                        Ok(written) => if written == len {
                            Some(Ok::<bool, Ext4Error>(true))
                        } else {
                            Some(failed(ErrCode::EIO))
                        },
                        Err(error) => if error.code == ErrCode::ENOENT {
                            None
                        } else {
                            Some(Err(error))
                        },
                    }
                };
            self.lemma_plain_goes_on(tried, id, offset, part, outcome);
            match decision {
                Some(_) => {
                    assert(tried.log() == after.log());
                    self.lemma_same_answers(tried, after, id, disk, places);
                    self.lemma_plain_content(tried, id, offset, part, outcome, disk, places);
                    assert(self.overwritten(tried, offset, part, disk, places));
                    self.lemma_overwritten_holds(tried, id, offset, len, data, disk, places);
                    self.lemma_same_holding(tried, after, id, offset, len, data, disk, places);
                },
                None => {
                    if extends(tried.log(), after.log()) {
                        self.lemma_guided_first(tried, after, disk, id, places);
                        self.lemma_plain_content(tried, id, offset, part, outcome, disk, places);
                    }
                    tried.lemma_journal_is_not_tried(after, id, offset, len, Some(data));
                    self.lemma_unlogged_holds(
                        tried,
                        after,
                        id,
                        offset,
                        len,
                        Some(data),
                        disk,
                        places,
                    );
                },
            }
        } else {
            assert(since(self.log(), tried.log()) =~= Seq::<Event>::empty());
            tried.lemma_journal_is_not_tried(after, id, offset, len, Some(data));
            self.lemma_unlogged_holds(
                tried,
                after,
                id,
                offset,
                len,
                Some(data),
                disk,
                places,
            );
        }
    }

    /// Without a journal, nothing is tried through one.
    proof fn lemma_journal_is_not_tried(
        &self,
        after: &Self,
        id: InodeId,
        offset: usize,
        len: usize,
        data: Option<Seq<u8>>,
    )
        requires
            !(self.state().mode is Journal),
            self.range_prepared(after, id, range_of(offset, len), offset, len, data, Ok(true)),
        ensures
            self.unlogged_prepared(after, id, range_of(offset, len), data, Ok(true)),
    {
        let range = range_of(offset, len);
        let (tried, decision) = choose|tried: Self, decision: Option<Result<bool>>|
            {
                &&& #[trigger] self.journal_attempted(
                    &tried,
                    id,
                    range,
                    offset,
                    len,
                    data,
                    decision,
                )
                &&& match decision {
                    Some(result) => tried.idle(after) && Ok::<bool, Ext4Error>(true) == result,
                    None => tried.unlogged_prepared(after, id, range, data, Ok(true)),
                }
            };
        assert(self.idle(&tried));
        let (last, found) = choose|last: Self, found: Option<Result<bool>>|
            {
                &&& #[trigger] tried.direct_attempted(&last, id, range, data, found)
                &&& match found {
                    Some(result) => last.idle(after) && Ok::<bool, Ext4Error>(true) == result,
                    None => last.range_guarded(after, id, range, Ok(true)),
                }
            };
        let (asked, supported) = choose|asked: Self, supported: bool|
            {
                &&& #[trigger] tried.asked_for_ranges(&asked, supported)
                &&& if !supported {
                    asked.idle(&last) && found is None
                } else {
                    asked.direct_tried(&last, id, range, data, found)
                }
            };
        assert(self.asked_for_ranges(&asked, supported));
        assert(self.direct_attempted(&last, id, range, data, found));
    }

    /// Writing data alone without a journal goes on with the record.
    proof fn lemma_plain_goes_on(
        &self,
        after: &Self,
        id: InodeId,
        offset: usize,
        data: Seq<u8>,
        outcome: Result<usize>,
    )
        requires
            self.state().mode is Direct,
            self.state().mutable(),
            self.data_only_written(after, id, offset, data, outcome),
        ensures
            extends(self.log(), after.log()),
            self.same_ground(after),
            after.state().mode == self.state().mode,
            after.state().groups == self.state().groups,
    {
        let (inside, lock) = choose|inside: Self, lock: Result<()>|
            {
                &&& #[trigger] self.direct_entered(&inside, lock)
                &&& match lock {
                    Err(error) => inside.idle(after) && outcome == Err::<usize, Ext4Error>(error),
                    Ok(_) => exists|left: Self|
                        {
                            &&& inside.data_written(&left, id, offset, data, outcome)
                            &&& #[trigger] left.direct_left(after)
                        },
                }
            };
        assert(self.log().take(self.log().len() as int) =~= self.log());
        if lock is Ok {
            let left = choose|left: Self|
                {
                    &&& inside.data_written(&left, id, offset, data, outcome)
                    &&& #[trigger] left.direct_left(after)
                };
            assert(inside.log() == self.log());
            inside.lemma_data_written_goes_on(&left, id, offset, data, outcome);
            assert(after.log().take(left.log().len() as int) =~= left.log());
            lemma_extends(self.log(), left.log(), after.log());
        }
    }

    /// A buffered write that was prepared with its data and says so has stored the data: the file
    /// holds it where it was to be written, in blocks that the file had or in blocks that were added
    /// to it, and elsewhere what it held, with and without a journal. Data that is longer than what
    /// is to be written begins with a block.
    pub proof fn lemma_prepared_write_is_stored(
        &self,
        after: &Self,
        id: InodeId,
        offset: usize,
        len: usize,
        data: Seq<u8>,
        disk: Disk,
        places: Places,
    )
        requires
            self.buffered_write_prepared(after, id, offset, len, Some(data), Ok(true)),
            self.answers_for(after, id, disk, places),
            offset as int % BLOCK_SIZE as int == 0 || data.len() == len,
        ensures
            data.len() >= len,
            exists|now: Places|
                {
                    &&& #[trigger] self.stand_after(after, id, range_of(offset, len), places, now)
                    &&& forall|at: int|
                        offset <= at < offset + len ==> #[trigger] byte_of(
                            self.left_on(after, disk),
                            now,
                            at,
                        ) == data[at - offset]
                    &&& forall|at: int|
                        0 <= at && !(offset <= at < offset + len) && (data.len() == len || !(
                        range_of(offset, len).first_lblock * BLOCK_SIZE <= at < (range_of(
                            offset,
                            len,
                        ).first_lblock + range_of(offset, len).block_count) * BLOCK_SIZE))
                            ==> #[trigger] byte_of(self.left_on(after, disk), now, at) == byte_of(
                            disk,
                            places,
                            at,
                        )
                },
    {
        let range = range_of(offset, len);
        let (tried, decision) = choose|tried: Self, decision: Option<Result<bool>>|
            {
                &&& #[trigger] self.plain_attempted(
                    &tried,
                    id,
                    offset,
                    len,
                    Some(data),
                    decision,
                )
                &&& match decision {
                    Some(result) => tried.idle(after) && Ok::<bool, Ext4Error>(true) == result,
                    None => tried.range_prepared(
                        after,
                        id,
                        range,
                        offset,
                        len,
                        Some(data),
                        Ok(true),
                    ),
                }
            };
        if self.state().mode is Journal {
            assert(self.idle(&tried));
            self.lemma_tried_answers(&tried, after, id, disk, places);
            tried.lemma_journal_case(after, id, offset, len, Some(data), disk, places);
            self.lemma_held_from_same(&tried, after, id, offset, len, data, disk, places);
        } else {
            self.lemma_plain_case(
                &tried,
                after,
                id,
                offset,
                len,
                data,
                decision,
                disk,
                places,
            );
        }
        assert(self.holds_written(after, id, offset, len, data, disk, places));
    }

    /// What is answered from a state on is so from one that nothing tells from it.
    proof fn lemma_tried_answers(
        &self,
        tried: &Self,
        after: &Self,
        id: InodeId,
        disk: Disk,
        places: Places,
    )
        requires
            self.idle(tried),
            self.answers_for(after, id, disk, places),
        ensures
            tried.answers_for(after, id, disk, places),
    {
        assert forall|block: PBlockId| #[trigger] tried.is_busy(id, block) == self.is_busy(
            id,
            block,
        ) by {
            assert(tried.logs_to(block) == self.logs_to(block));
        }
        let mine = |block: PBlockId| self.is_busy(id, block);
        let other = |block: PBlockId| tried.is_busy(id, block);
        assert(mine =~= other);
        assert(self.same_ground(tried)) by {
            assert forall|block: PBlockId| #[trigger] tried.logs_to(block) == self.logs_to(
                block,
            ) by {}
        }
        let calls = since(self.log(), after.log());
        assert forall|k: int| 0 <= k < calls.len() implies tried.leads(
            #[trigger] calls[k],
            crate::content::held(disk, calls.take(k)),
            id,
            places,
        ) by {
            self.lemma_same_leads(
                tried,
                calls[k],
                crate::content::held(disk, calls.take(k)),
                id,
                places,
            );
        }
    }

    /// What a file holds depends on the record from a state on.
    proof fn lemma_held_from_same(
        &self,
        tried: &Self,
        after: &Self,
        id: InodeId,
        offset: usize,
        len: usize,
        data: Seq<u8>,
        disk: Disk,
        places: Places,
    )
        requires
            tried.log() == self.log(),
            tried.holds_written(after, id, offset, len, data, disk, places),
        ensures
            self.holds_written(after, id, offset, len, data, disk, places),
    {
        let range = range_of(offset, len);
        let last = tried.left_on(after, disk);
        let now = choose|now: Places|
            {
                &&& #[trigger] tried.stand_after(after, id, range, places, now)
                &&& forall|at: int|
                    offset <= at < offset + len ==> #[trigger] byte_of(last, now, at) == data[at
                        - offset]
                &&& forall|at: int|
                    0 <= at && !(offset <= at < offset + len) && (data.len() == len || !(
                    range.first_lblock * BLOCK_SIZE <= at < (range.first_lblock
                        + range.block_count) * BLOCK_SIZE)) ==> #[trigger] byte_of(last, now, at)
                        == byte_of(disk, places, at)
            };
        assert(self.stand_after(after, id, range, places, now));
    }
}

/// The blocks of a range take at least the bytes of the range.
proof fn lemma_range_covers(offset: usize, len: usize)
    requires
        len > 0,
        addressable(offset, len),
    ensures
        range_of(offset, len).block_count * BLOCK_SIZE >= len,
{
    let first = offset as int / BLOCK_SIZE as int;
    let last = (offset + len - 1) / BLOCK_SIZE as int;
    assert(offset == first * BLOCK_SIZE + offset as int % BLOCK_SIZE as int);
    assert(offset + len - 1 == last * BLOCK_SIZE + (offset + len - 1) % BLOCK_SIZE as int);
    assert((last - first + 1) * BLOCK_SIZE >= len);
}

} // verus!
