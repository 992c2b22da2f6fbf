//! Preparing writes through the journal: new blocks behind the end of a file, and blocks that are
//! mapped already.

use vstd::prelude::*;
use crate::append_range::{
    data_in, not_stored, not_taken, prepared_with, taken_in, usable, usable_data, DirectRangePlan,
    DirectRangePrepare, DIRECT_RANGE_MAX_BLOCKS, RANGE_CREDITS,
};
use crate::data::Mapping;
use crate::device::{BlockDevice, Event};
use crate::error::{failed, ErrCode, Ext4Error, Result};
use crate::fs::Ext4;
use crate::grow::is_free;
use crate::inode::{with_halves64, InodeRef};
use crate::journal_transaction::{CommitError, Transaction};
use crate::range::WriteLogicalRange;
use crate::volume::{LayerCall, Volume};
use crate::{InodeId, PBlockId, BLOCK_SIZE};

verus! {

broadcast use Ext4::lemma_with_counts;

/// The blocks that may wait for a commit before one is made.
pub const MAX_DEFERRED_JOURNAL_BLOCKS: usize = 256;

/// The blocks that writing to mapped blocks may change.
pub const MAPPED_CREDITS: usize = 2;

/// When diagnostics are on, and since when.
#[derive(Clone, Copy)]
pub struct Stopwatch {
    pub diagnostic: bool,
    pub started: usize,
}

/// The cycles between two readings of the counter.
pub open spec fn cycles_between(diagnostic: bool, start: usize, end: usize) -> usize {
    if diagnostic {
        end.wrapping_sub(start)
    } else {
        0
    }
}

/// The cycles between two readings of the counter.
fn elapsed(diagnostic: bool, start: usize, end: usize) -> (cycles: usize)
    ensures
        cycles == cycles_between(diagnostic, start, end),
{
    if diagnostic {
        end.wrapping_sub(start)
    } else {
        0
    }
}

impl<D: BlockDevice, V: Volume<D>> Ext4<D, V> {
    /// What starting to measure calls and returns.
    pub open spec fn watch_started(&self, after: &Self, watch: Stopwatch) -> bool {
        exists|known: Self|
            {
                &&& #[trigger] self.did(&known, Event::Diagnostics { reply: watch.diagnostic })
                &&& known.timed(after, watch.diagnostic, watch.started)
            }
    }

    /// Starts to measure.
    fn start_watch(&mut self) -> (watch: Stopwatch)
        requires
            old(self).inv(),
        ensures
            final(self).state() == old(self).state(),
            old(self).watch_started(final(self), watch),
    {
        let diagnostic: bool = self.diagnostic_enabled();
        let ghost known = *self;
        let started: usize = self.cycles_if(diagnostic);
        let watch = Stopwatch { diagnostic, started };
        assert(old(self).did(&known, Event::Diagnostics { reply: watch.diagnostic }));
        watch
    }

    /// What reporting a prepared write calls.
    pub open spec fn write_reported(
        &self,
        after: &Self,
        watch: Stopwatch,
        bytes: usize,
        data_cycles: usize,
        blocks: usize,
    ) -> bool {
        if !watch.diagnostic {
            self.idle(after)
        } else {
            exists|clocked: Self, told: Self, now: usize|
                {
                    &&& #[trigger] self.timed(&clocked, true, now)
                    &&& #[trigger] clocked.did(
                        &told,
                        Event::RecordDataWrite { bytes, cycles: data_cycles },
                    )
                    &&& told.did(
                        after,
                        Event::RecordAllocExtent {
                            blocks,
                            cycles: now.wrapping_sub(watch.started).saturating_sub(data_cycles),
                        },
                    )
                }
        }
    }

    /// Reports a prepared write.
    fn report_write(&mut self, watch: Stopwatch, bytes: usize, data_cycles: usize, blocks: usize)
        requires
            old(self).inv(),
        ensures
            final(self).state() == old(self).state(),
            old(self).write_reported(final(self), watch, bytes, data_cycles, blocks),
    {
        if watch.diagnostic {
            let now: usize = self.cycles_if(true);
            let ghost clocked = *self;
            assert(old(self).timed(&clocked, true, now));
            self.record_writeback_data_write(bytes, data_cycles);
            let ghost told = *self;
            assert(clocked.did(
                &told,
                Event::RecordDataWrite { bytes, cycles: data_cycles },
            ));
            self.record_writeback_alloc_extent(
                blocks,
                now.wrapping_sub(watch.started).saturating_sub(data_cycles),
            );
        }
    }

    /// What letting a prepared write wait for a commit, or committing it, calls, changes and
    /// returns.
    pub open spec fn journal_finished(
        &self,
        after: &Self,
        transaction: Transaction,
        watch: Stopwatch,
        bytes: usize,
        data_cycles: usize,
        blocks: usize,
        prepared: DirectRangePrepare,
        outcome: Result<DirectRangePrepare>,
    ) -> bool {
        exists|done: Self, reply: core::result::Result<(), CommitError>, settled: Self, result: Result<()>|
            {
                &&& #[trigger] self.deferred(
                    &done,
                    transaction,
                    MAX_DEFERRED_JOURNAL_BLOCKS,
                    reply,
                )
                &&& #[trigger] done.with_counts(
                    done.counts().with_ending(reply is Ok),
                ).settled(&settled, reply, result)
                &&& match result {
                    Ok(_) => {
                        &&& settled.write_reported(after, watch, bytes, data_cycles, blocks)
                        &&& outcome == Ok::<DirectRangePrepare, Ext4Error>(prepared)
                    },
                    Err(error) => {
                        &&& settled.idle(after)
                        &&& outcome == Err::<DirectRangePrepare, Ext4Error>(error)
                    },
                }
            }
    }

    /// Lets a prepared write wait for a commit, or commits it.
    fn finish_journal(
        &mut self,
        transaction: Transaction,
        watch: Stopwatch,
        bytes: usize,
        data_cycles: usize,
        blocks: usize,
        prepared: DirectRangePrepare,
    ) -> (outcome: Result<DirectRangePrepare>)
        requires
            old(self).inv(),
            transaction.inv(),
        ensures
            final(self).inv(),
            final(self).state().gate == old(self).state().gate,
            old(self).journal_finished(
                final(self),
                transaction,
                watch,
                bytes,
                data_cycles,
                blocks,
                prepared,
                outcome,
            ),
    {
        let reply = self.transaction_defer_or_commit(transaction, MAX_DEFERRED_JOURNAL_BLOCKS);
        let ghost done = *self;
        assert(old(self).deferred(&done, transaction, MAX_DEFERRED_JOURNAL_BLOCKS, reply));
        self.record_ending(reply.is_ok());
        let result = self.settle(reply);
        let ghost settled = *self;
        assert(done.with_counts(done.counts().with_ending(reply is Ok)).settled(
            &settled,
            reply,
            result,
        ));
        match result {
            Ok(_) => {
                self.report_write(watch, bytes, data_cycles, blocks);
                Ok(prepared)
            },
            Err(error) => Err(error),
        }
    }

    /// What staging the inode of a new range, and what follows, calls, changes and returns.
    pub open spec fn journal_staged(
        &self,
        after: &Self,
        inode: InodeRef,
        transaction: Transaction,
        watch: Stopwatch,
        data_cycles: usize,
        count: u32,
        prepared: DirectRangePrepare,
        outcome: Result<DirectRangePrepare>,
    ) -> bool {
        exists|staged: Self, grown: Transaction, sealed: InodeRef, reply: Result<()>|
            {
                &&& #[trigger] self.inode_staged(
                    &staged,
                    transaction,
                    grown,
                    inode,
                    sealed,
                    reply,
                )
                &&& match reply {
                    Ok(_) => staged.with_counts(staged.counts().with_inode_io()).journal_finished(
                        after,
                        grown,
                        watch,
                        (count * BLOCK_SIZE) as usize,
                        data_cycles,
                        count as usize,
                        prepared,
                        outcome,
                    ),
                    Err(error) => {
                        &&& staged.with_counts(staged.counts().with_failure()).given_up(
                            after,
                            grown,
                        )
                        &&& outcome == Err::<DirectRangePrepare, Ext4Error>(error)
                    },
                }
            }
    }

    /// What adding the extent of a new range, and what follows, calls, changes and returns.
    pub open spec fn journal_appended(
        &self,
        after: &Self,
        inode: InodeRef,
        plan: DirectRangePlan,
        transaction: Transaction,
        first: PBlockId,
        watch: Stopwatch,
        data_cycles: usize,
        prepared: DirectRangePrepare,
        outcome: Result<DirectRangePrepare>,
    ) -> bool {
        exists|asked: Self, grown: InodeRef, reply: Result<()>|
            {
                &&& #[trigger] self.asked(
                    &asked,
                    LayerCall::StageAppend {
                        inode,
                        start: plan.start_lblock,
                        first,
                        count: plan.count,
                        after: grown,
                        reply,
                    },
                )
                &&& match reply {
                    Ok(_) => asked.journal_staged(
                        after,
                        grown,
                        transaction,
                        watch,
                        data_cycles,
                        plan.count,
                        prepared,
                        outcome,
                    ),
                    Err(error) => {
                        &&& asked.with_counts(asked.counts().with_failure()).given_up(
                            after,
                            transaction,
                        )
                        &&& outcome == Err::<DirectRangePrepare, Ext4Error>(error)
                    },
                }
            }
    }

    /// Adds the extent of a new range, stages the inode, and lets both wait for a commit.
    fn append_journal(
        &mut self,
        inode: InodeRef,
        plan: &DirectRangePlan,
        transaction: Transaction,
        first: PBlockId,
        watch: Stopwatch,
        data_cycles: usize,
        prepared: DirectRangePrepare,
    ) -> (outcome: Result<DirectRangePrepare>)
        requires
            old(self).inv(),
            transaction.inv(),
            plan.count <= DIRECT_RANGE_MAX_BLOCKS,
        ensures
            final(self).inv(),
            final(self).state().gate == old(self).state().gate,
            old(self).journal_appended(
                final(self),
                inode,
                *plan,
                transaction,
                first,
                watch,
                data_cycles,
                prepared,
                outcome,
            ),
    {
        let ghost begun = transaction;
        let mut transaction = transaction;
        let mut grown = inode;
        let reply = self.stage_direct_append_extent(
            &mut grown,
            plan.start_lblock,
            first,
            plan.count,
        );
        let ghost asked = *self;
        let ghost appended = grown;
        assert(old(self).asked(
            &asked,
            LayerCall::StageAppend {
                inode,
                start: plan.start_lblock,
                first,
                count: plan.count,
                after: appended,
                reply,
            },
        ));
        match reply {
            Ok(_) => {},
            Err(error) => {
                self.record_failure();
                self.transaction_abort(transaction);
                return Err(error);
            },
        }
        let reply = self.transaction_stage_inode_with_csum(&mut transaction, &mut grown);
        let ghost staged = *self;
        assert(asked.inode_staged(&staged, begun, transaction, appended, grown, reply));
        let outcome: Result<DirectRangePrepare> = match reply {
            Ok(_) => {
                self.record_inode_io();
                self.finish_journal(
                    transaction,
                    watch,
                    plan.count as usize * BLOCK_SIZE,
                    data_cycles,
                    plan.count as usize,
                    prepared,
                )
            },
            Err(error) => {
                self.record_failure();
                self.transaction_abort(transaction);
                Err(error)
            },
        };
        assert(asked.journal_staged(
            self,
            appended,
            begun,
            watch,
            data_cycles,
            plan.count,
            prepared,
            outcome,
        ));
        outcome
    }

    /// What follows on storing the data of a new range, once the time it took is known.
    pub open spec fn journal_measured(
        &self,
        after: &Self,
        inode: InodeRef,
        plan: DirectRangePlan,
        data: Option<Seq<u8>>,
        transaction: Transaction,
        first: PBlockId,
        watch: Stopwatch,
        data_start: usize,
        reply: Result<()>,
        outcome: Result<DirectRangePrepare>,
    ) -> bool {
        exists|clocked: Self, now: usize|
            {
                &&& #[trigger] self.timed(&clocked, watch.diagnostic, now)
                &&& match reply {
                    Ok(_) => clocked.journal_appended(
                        after,
                        inode,
                        plan,
                        transaction,
                        first,
                        watch,
                        cycles_between(watch.diagnostic, data_start, now),
                        prepared_with(data),
                        outcome,
                    ),
                    Err(error) => {
                        &&& clocked.with_counts(clocked.counts().with_failure()).given_up(
                            after,
                            transaction,
                        )
                        &&& outcome == not_stored(error)
                    },
                }
            }
    }

    /// What storing the data of a new range, and what follows, calls, changes and returns.
    pub open spec fn journal_stored(
        &self,
        after: &Self,
        inode: InodeRef,
        plan: DirectRangePlan,
        data: Option<Seq<u8>>,
        transaction: Transaction,
        first: PBlockId,
        watch: Stopwatch,
        data_start: usize,
        outcome: Result<DirectRangePrepare>,
    ) -> bool {
        exists|stored: Self, reply: Result<()>|
            {
                &&& #[trigger] self.range_stored(&stored, first, plan.count, data, reply)
                &&& stored.journal_measured(
                    after,
                    inode,
                    plan,
                    data,
                    transaction,
                    first,
                    watch,
                    data_start,
                    reply,
                    outcome,
                )
            }
    }

    /// What follows on allocating a new range.
    pub open spec fn journal_initialized(
        &self,
        after: &Self,
        inode: InodeRef,
        plan: DirectRangePlan,
        data: Option<Seq<u8>>,
        transaction: Transaction,
        first: PBlockId,
        watch: Stopwatch,
        outcome: Result<DirectRangePrepare>,
    ) -> bool {
        exists|clocked: Self, data_start: usize|
            {
                &&& #[trigger] self.with_counts(
                    self.counts().with_call(plan.count as u64).with_missing(plan.count as u64),
                ).timed(&clocked, watch.diagnostic, data_start)
                &&& clocked.journal_stored(
                    after,
                    inode,
                    plan,
                    data,
                    transaction,
                    first,
                    watch,
                    data_start,
                    outcome,
                )
            }
    }

    /// Stores the data of a new range, and finishes it.
    fn initialize_journal_range(
        &mut self,
        inode: InodeRef,
        plan: &DirectRangePlan,
        data: Option<&[u8]>,
        transaction: Transaction,
        first: PBlockId,
        watch: Stopwatch,
    ) -> (outcome: Result<DirectRangePrepare>)
        requires
            old(self).inv(),
            transaction.inv(),
            plan.count <= DIRECT_RANGE_MAX_BLOCKS,
            data_in(data) matches Some(bytes) ==> bytes.len() == plan.count * BLOCK_SIZE,
        ensures
            final(self).inv(),
            final(self).state().gate == old(self).state().gate,
            old(self).journal_initialized(
                final(self),
                inode,
                *plan,
                data_in(data),
                transaction,
                first,
                watch,
                outcome,
            ),
    {
        let ghost begun = transaction;
        self.record_missing_range(plan.count as u64);
        let data_start: usize = self.cycles_if(watch.diagnostic);
        let ghost clocked = *self;
        assert(old(self).with_counts(
            old(self).counts().with_call(plan.count as u64).with_missing(plan.count as u64),
        ).timed(&clocked, watch.diagnostic, data_start));
        let reply = self.store_range(first, plan.count, data);
        let ghost stored = *self;
        assert(clocked.range_stored(&stored, first, plan.count, data_in(data), reply));
        let now: usize = self.cycles_if(watch.diagnostic);
        let ghost measured = *self;
        assert(stored.timed(&measured, watch.diagnostic, now));
        let data_cycles: usize = elapsed(watch.diagnostic, data_start, now);
        let outcome: Result<DirectRangePrepare> = match reply {
            Ok(_) => {
                let prepared: DirectRangePrepare = if data.is_some() {
                    DirectRangePrepare::DataWritten
                } else {
                    DirectRangePrepare::Initialized
                };
                self.append_journal(
                    inode,
                    plan,
                    transaction,
                    first,
                    watch,
                    data_cycles,
                    prepared,
                )
            },
            Err(error) => {
                self.record_failure();
                self.transaction_abort(transaction);
                if error.code() == ErrCode::ENOMEM {
                    Ok(DirectRangePrepare::Unsupported)
                } else {
                    Err(error)
                }
            },
        };
        assert(stored.journal_measured(
            self,
            inode,
            *plan,
            data_in(data),
            begun,
            first,
            watch,
            data_start,
            reply,
            outcome,
        ));
        assert(clocked.journal_stored(
            self,
            inode,
            *plan,
            data_in(data),
            begun,
            first,
            watch,
            data_start,
            outcome,
        ));
        outcome
    }

    /// What allocating a planned range, and what follows, calls, changes and returns.
    pub open spec fn journal_allocated(
        &self,
        after: &Self,
        inode: InodeRef,
        plan: DirectRangePlan,
        data: Option<Seq<u8>>,
        transaction: Transaction,
        watch: Stopwatch,
        outcome: Result<DirectRangePrepare>,
    ) -> bool {
        exists|taken: Self, grown: Transaction, reply: Result<(PBlockId, Seq<PBlockId>)>|
            {
                &&& #[trigger] self.range_taken(
                    &taken,
                    transaction,
                    grown,
                    inode.id,
                    plan,
                    reply,
                )
                &&& match reply {
                    Ok(allocation) => taken.journal_initialized(
                        after,
                        inode,
                        plan,
                        data,
                        grown,
                        allocation.0,
                        watch,
                        outcome,
                    ),
                    Err(error) => {
                        &&& taken.given_up(after, grown)
                        &&& outcome == not_taken(error)
                    },
                }
            }
    }

    /// What planning a range for an inode, and what follows, calls, changes and returns.
    pub open spec fn journal_planned(
        &self,
        after: &Self,
        inode: InodeRef,
        range: WriteLogicalRange,
        data: Option<Seq<u8>>,
        transaction: Transaction,
        watch: Stopwatch,
        outcome: Result<DirectRangePrepare>,
    ) -> bool {
        exists|planned: Self, reply: Result<Option<DirectRangePlan>>|
            {
                &&& #[trigger] self.range_planned(&planned, inode, range, reply)
                &&& match reply {
                    Ok(Some(plan)) => planned.journal_allocated(
                        after,
                        inode,
                        plan,
                        usable(data, (plan.count * BLOCK_SIZE) as nat),
                        transaction,
                        watch,
                        outcome,
                    ),
                    Ok(None) => {
                        &&& planned.given_up(after, transaction)
                        &&& outcome == Ok::<DirectRangePrepare, Ext4Error>(
                            DirectRangePrepare::Unsupported,
                        )
                    },
                    Err(error) => {
                        &&& planned.given_up(after, transaction)
                        &&& outcome == Err::<DirectRangePrepare, Ext4Error>(error)
                    },
                }
            }
    }

    /// Plans a range for an inode, allocates it, and finishes it.
    fn plan_journal_range(
        &mut self,
        inode: InodeRef,
        range: &WriteLogicalRange,
        real_data: Option<&[u8]>,
        transaction: Transaction,
        watch: Stopwatch,
    ) -> (outcome: Result<DirectRangePrepare>)
        requires
            old(self).inv(),
            transaction.inv(),
        ensures
            final(self).inv(),
            final(self).state().gate == old(self).state().gate,
            old(self).journal_planned(
                final(self),
                inode,
                *range,
                data_in(real_data),
                transaction,
                watch,
                outcome,
            ),
    {
        let ghost begun = transaction;
        let mut transaction = transaction;
        let reply = self.direct_range_plan(&inode, range);
        let ghost planned = *self;
        assert(old(self).range_planned(&planned, inode, *range, reply));
        let plan = match reply {
            Ok(Some(plan)) => plan,
            Ok(None) => {
                self.transaction_abort(transaction);
                return Ok(DirectRangePrepare::Unsupported);
            },
            Err(error) => {
                self.transaction_abort(transaction);
                return Err(error);
            },
        };
        let data = usable_data(real_data, plan.count as usize * BLOCK_SIZE);
        let reply = self.transaction_alloc_direct_range(&mut transaction, inode.id, &plan);
        let ghost taken = *self;
        let ghost answer = taken_in(reply);
        assert(planned.range_taken(&taken, begun, transaction, inode.id, plan, answer));
        let outcome: Result<DirectRangePrepare> = match reply {
            Ok(allocation) => self.initialize_journal_range(
                inode,
                &plan,
                data,
                transaction,
                allocation.0,
                watch,
            ),
            Err(error) => {
                self.transaction_abort(transaction);
                if error.code() == ErrCode::ENOSPC {
                    Ok(DirectRangePrepare::Unsupported)
                } else {
                    Err(error)
                }
            },
        };
        assert(planned.journal_allocated(
            self,
            inode,
            plan,
            usable(data_in(real_data), (plan.count * BLOCK_SIZE) as nat),
            begun,
            watch,
            outcome,
        ));
        outcome
    }

    /// What reading an inode inside a transaction, and what follows, calls, changes and returns.
    pub open spec fn journal_opened(
        &self,
        after: &Self,
        id: InodeId,
        range: WriteLogicalRange,
        data: Option<Seq<u8>>,
        transaction: Transaction,
        watch: Stopwatch,
        outcome: Result<DirectRangePrepare>,
    ) -> bool {
        exists|read: Self, found: Result<InodeRef>|
            {
                &&& #[trigger] self.staged_inode_read(&read, transaction, id, found)
                &&& match found {
                    Ok(inode) => if is_free(inode.inode) {
                        &&& read.given_up(after, transaction)
                        &&& outcome == failed::<DirectRangePrepare>(ErrCode::EINVAL)
                    } else {
                        read.journal_planned(
                            after,
                            inode,
                            range,
                            data,
                            transaction,
                            watch,
                            outcome,
                        )
                    },
                    Err(error) => {
                        &&& read.given_up(after, transaction)
                        &&& outcome == Err::<DirectRangePrepare, Ext4Error>(error)
                    },
                }
            }
    }

    /// What starting a transaction for a new range, and what follows, calls, changes and returns.
    pub open spec fn journal_begun(
        &self,
        after: &Self,
        id: InodeId,
        range: WriteLogicalRange,
        data: Option<Seq<u8>>,
        watch: Stopwatch,
        outcome: Result<DirectRangePrepare>,
    ) -> bool {
        exists|begun: Self, reply: Result<Transaction>|
            {
                &&& #[trigger] self.begun(&begun, RANGE_CREDITS, reply)
                &&& match reply {
                    Ok(transaction) => begun.journal_opened(
                        after,
                        id,
                        range,
                        data,
                        transaction,
                        watch,
                        outcome,
                    ),
                    Err(error) => begun.idle(after) && outcome == Err::<
                        DirectRangePrepare,
                        Ext4Error,
                    >(error),
                }
            }
    }

    /// What preparing a range through the journal calls, changes and returns.
    pub open spec fn journal_range_prepared(
        &self,
        after: &Self,
        id: InodeId,
        range: WriteLogicalRange,
        data: Option<Seq<u8>>,
        outcome: Result<DirectRangePrepare>,
    ) -> bool {
        exists|ready: Self, watch: Stopwatch|
            {
                &&& #[trigger] self.watch_started(&ready, watch)
                &&& ready.journal_begun(after, id, range, data, watch, outcome)
            }
    }

    /// Prepares a range through the journal.
    ///
    /// The blocks are written before the transaction that refers to them is logged, so that neither
    /// old contents nor an extent of free blocks can be seen after a crash.
    pub(crate) fn try_prepare_journal_range(
        &mut self,
        id: InodeId,
        range: &WriteLogicalRange,
        real_data: Option<&[u8]>,
    ) -> (outcome: Result<DirectRangePrepare>)
        requires
            old(self).inv(),
        ensures
            final(self).inv(),
            final(self).state().gate == old(self).state().gate,
            old(self).journal_range_prepared(
                final(self),
                id,
                *range,
                data_in(real_data),
                outcome,
            ),
    {
        let watch = self.start_watch();
        let ghost ready = *self;
        assert(old(self).watch_started(&ready, watch));
        let reply = self.transaction_start(RANGE_CREDITS);
        let ghost begun = *self;
        let ghost answer = reply;
        assert(ready.begun(&begun, RANGE_CREDITS, answer));
        let transaction = match reply {
            Ok(transaction) => transaction,
            Err(error) => {
                assert(ready.journal_begun(
                    self,
                    id,
                    *range,
                    data_in(real_data),
                    watch,
                    Err(error),
                ));
                return Err(error);
            },
        };
        let ghost started = transaction;
        let found = self.transaction_read_inode(&transaction, id);
        let ghost read = *self;
        assert(begun.staged_inode_read(&read, started, id, found));
        let outcome: Result<DirectRangePrepare> = match found {
            Ok(inode) => {
                if inode.inode.mode().bits() == 0 {
                    self.transaction_abort(transaction);
                    Err(Ext4Error::new(ErrCode::EINVAL))
                } else {
                    self.plan_journal_range(inode, range, real_data, transaction, watch)
                }
            },
            Err(error) => {
                self.transaction_abort(transaction);
                Err(error)
            },
        };
        assert(begun.journal_opened(
            self,
            id,
            *range,
            data_in(real_data),
            started,
            watch,
            outcome,
        ));
        assert(ready.journal_begun(
            self,
            id,
            *range,
            data_in(real_data),
            watch,
            outcome,
        ));
        outcome
    }
}

impl<D: BlockDevice, V: Volume<D>> Ext4<D, V> {
    /// What looking whether the blocks of a range are mapped calls and returns.
    pub open spec fn range_looked_up(
        &self,
        after: &Self,
        inode: InodeRef,
        iblock: int,
        last: int,
        outcome: Result<()>,
    ) -> bool
        decreases last + 1 - iblock,
    {
        if iblock > last {
            self.idle(after) && outcome == Ok::<(), Ext4Error>(())
        } else {
            exists|queried: Self, reply: Result<Mapping>|
                {
                    &&& #[trigger] self.extent_found(&queried, inode, iblock as u32, reply)
                    &&& match reply {
                        Ok(_) => queried.range_looked_up(after, inode, iblock + 1, last, outcome),
                        Err(error) => queried.idle(after) && outcome == Err::<(), Ext4Error>(
                            error,
                        ),
                    }
                }
        }
    }

    /// Looks whether the blocks of a range are mapped.
    fn look_up_range(&mut self, inode: &InodeRef, range: &WriteLogicalRange) -> (outcome: Result<()>)
        requires
            old(self).inv(),
        ensures
            final(self).state() == old(self).state(),
            old(self).range_looked_up(
                final(self),
                *inode,
                range.first_lblock as int,
                range.last_lblock as int,
                outcome,
            ),
    {
        let mut iblock: u64 = range.first_lblock as u64;
        while iblock <= range.last_lblock as u64
            invariant
                self.inv(),
                self.state() == old(self).state(),
                iblock <= u32::MAX + 1,
                forall|end: Self, outcome: Result<()>|
                    #[trigger] self.range_looked_up(
                        &end,
                        *inode,
                        iblock as int,
                        range.last_lblock as int,
                        outcome,
                    ) ==> old(self).range_looked_up(
                        &end,
                        *inode,
                        range.first_lblock as int,
                        range.last_lblock as int,
                        outcome,
                    ),
            decreases range.last_lblock + 1 - iblock,
        {
            let ghost before = *self;
            let ghost tried = iblock;
            let reply = self.extent_query_with_range(inode, iblock as u32);
            let ghost queried = *self;
            assert(before.extent_found(&queried, *inode, tried as int as u32, reply));
            match reply {
                Ok(_) => {},
                Err(error) => {
                    assert(before.range_looked_up(
                        self,
                        *inode,
                        tried as int,
                        range.last_lblock as int,
                        Err(error),
                    ));
                    return Err(error);
                },
            }
            iblock = iblock + 1;
            assert forall|end: Self, outcome: Result<()>|
                #[trigger] self.range_looked_up(
                    &end,
                    *inode,
                    iblock as int,
                    range.last_lblock as int,
                    outcome,
                ) implies old(self).range_looked_up(
                &end,
                *inode,
                range.first_lblock as int,
                range.last_lblock as int,
                outcome,
            ) by {
                assert(before.extent_found(&queried, *inode, tried as int as u32, reply));
                assert(before.range_looked_up(
                    &end,
                    *inode,
                    tried as int,
                    range.last_lblock as int,
                    outcome,
                ));
            }
        }
        assert(self.range_looked_up(
            self,
            *inode,
            iblock as int,
            range.last_lblock as int,
            Ok(()),
        ));
        Ok(())
    }

    /// What recording the end of a write in a transaction calls, changes and returns.
    pub open spec fn end_staged(
        &self,
        after: &Self,
        inode: InodeRef,
        before: Transaction,
        transaction: Transaction,
        end: int,
        outcome: Result<()>,
    ) -> bool {
        if end > inode.inode.byte_size() {
            exists|grown: InodeRef, sealed: InodeRef|
                {
                    &&& #[trigger] self.inode_staged(
                        after,
                        before,
                        transaction,
                        grown,
                        sealed,
                        outcome,
                    )
                    &&& grown.id == inode.id
                    &&& grown.inode@ == with_halves64(inode.inode@, 4, 108, end as u64)
                }
        } else {
            &&& self.idle(after)
            &&& transaction == before
            &&& outcome == Ok::<(), Ext4Error>(())
        }
    }

    /// What follows on writing to mapped blocks.
    pub open spec fn mapped_staged(
        &self,
        after: &Self,
        inode: InodeRef,
        transaction: Transaction,
        watch: Stopwatch,
        end: int,
        written: usize,
        data_cycles: usize,
        blocks: usize,
        outcome: Result<DirectRangePrepare>,
    ) -> bool {
        if end > usize::MAX {
            &&& self.given_up(after, transaction)
            &&& outcome == failed::<DirectRangePrepare>(ErrCode::EFBIG)
        } else {
            exists|staged: Self, grown: Transaction, reply: Result<()>|
                {
                    &&& #[trigger] self.end_staged(
                        &staged,
                        inode,
                        transaction,
                        grown,
                        end,
                        reply,
                    )
                    &&& match reply {
                        Ok(_) => staged.journal_finished(
                            after,
                            grown,
                            watch,
                            written,
                            data_cycles,
                            blocks,
                            DirectRangePrepare::DataWritten,
                            outcome,
                        ),
                        Err(error) => {
                            &&& staged.given_up(after, grown)
                            &&& outcome == Err::<DirectRangePrepare, Ext4Error>(error)
                        },
                    }
                }
        }
    }

    /// Records the end of a write, and lets the transaction wait for a commit.
    fn stage_mapped(
        &mut self,
        inode: InodeRef,
        transaction: Transaction,
        watch: Stopwatch,
        offset: usize,
        written: usize,
        data_cycles: usize,
        blocks: usize,
    ) -> (outcome: Result<DirectRangePrepare>)
        requires
            old(self).inv(),
            transaction.inv(),
        ensures
            final(self).inv(),
            final(self).state().gate == old(self).state().gate,
            old(self).mapped_staged(
                final(self),
                inode,
                transaction,
                watch,
                offset + written,
                written,
                data_cycles,
                blocks,
                outcome,
            ),
    {
        let ghost begun = transaction;
        let mut transaction = transaction;
        let end: usize = match offset.checked_add(written) {
            Some(end) => end,
            None => {
                self.transaction_abort(transaction);
                return Err(Ext4Error::new(ErrCode::EFBIG));
            },
        };
        if end as u64 > inode.inode.size() {
            let mut grown = inode;
            grown.inode.set_size(end as u64);
            let ghost sized = grown;
            let reply = self.transaction_stage_inode_with_csum(&mut transaction, &mut grown);
            assert(old(self).inode_staged(self, begun, transaction, sized, grown, reply));
            assert(old(self).end_staged(self, inode, begun, transaction, end as int, reply));
            match reply {
                Ok(done) => {
                    assert(done == ());
                },
                Err(error) => {
                    self.transaction_abort(transaction);
                    return Err(error);
                },
            }
        } else {
            assert(old(self).end_staged(self, inode, begun, transaction, end as int, Ok(())));
        }
        let ghost staged = *self;
        assert(old(self).end_staged(&staged, inode, begun, transaction, end as int, Ok(())));
        self.finish_journal(
            transaction,
            watch,
            written,
            data_cycles,
            blocks,
            DirectRangePrepare::DataWritten,
        )
    }

    /// What follows on writing to mapped blocks, once the time it took is known.
    pub open spec fn mapped_measured(
        &self,
        after: &Self,
        inode: InodeRef,
        range: WriteLogicalRange,
        offset: usize,
        written: usize,
        transaction: Transaction,
        watch: Stopwatch,
        data_start: usize,
        outcome: Result<DirectRangePrepare>,
    ) -> bool {
        exists|clocked: Self, now: usize|
            {
                &&& #[trigger] self.timed(&clocked, watch.diagnostic, now)
                &&& clocked.mapped_staged(
                    after,
                    inode,
                    transaction,
                    watch,
                    offset + written,
                    written,
                    cycles_between(watch.diagnostic, data_start, now),
                    range.block_count,
                    outcome,
                )
            }
    }

    /// What writing to mapped blocks, and what follows, calls, changes and returns.
    pub open spec fn mapped_stored(
        &self,
        after: &Self,
        inode: InodeRef,
        range: WriteLogicalRange,
        offset: usize,
        data: Seq<u8>,
        transaction: Transaction,
        watch: Stopwatch,
        data_start: usize,
        outcome: Result<DirectRangePrepare>,
    ) -> bool {
        exists|stored: Self, reply: Result<usize>|
            {
                &&& #[trigger] self.mapped_written(&stored, inode, offset, data, reply)
                &&& match reply {
                    Ok(written) => stored.mapped_measured(
                        after,
                        inode,
                        range,
                        offset,
                        written,
                        transaction,
                        watch,
                        data_start,
                        outcome,
                    ),
                    Err(error) => {
                        &&& stored.given_up(after, transaction)
                        &&& outcome == Err::<DirectRangePrepare, Ext4Error>(error)
                    },
                }
            }
    }

    /// What follows once the blocks of a range are known to be mapped.
    pub open spec fn mapped_ready(
        &self,
        after: &Self,
        inode: InodeRef,
        range: WriteLogicalRange,
        offset: usize,
        data: Seq<u8>,
        transaction: Transaction,
        watch: Stopwatch,
        outcome: Result<DirectRangePrepare>,
    ) -> bool {
        exists|clocked: Self, data_start: usize|
            {
                &&& #[trigger] self.timed(&clocked, watch.diagnostic, data_start)
                &&& clocked.mapped_stored(
                    after,
                    inode,
                    range,
                    offset,
                    data,
                    transaction,
                    watch,
                    data_start,
                    outcome,
                )
            }
    }

    /// Writes to mapped blocks, and records the end of the write.
    fn store_mapped(
        &mut self,
        inode: InodeRef,
        range: &WriteLogicalRange,
        offset: usize,
        data: &[u8],
        transaction: Transaction,
        watch: Stopwatch,
    ) -> (outcome: Result<DirectRangePrepare>)
        requires
            old(self).inv(),
            transaction.inv(),
        ensures
            final(self).inv(),
            final(self).state().gate == old(self).state().gate,
            old(self).mapped_ready(
                final(self),
                inode,
                *range,
                offset,
                data@,
                transaction,
                watch,
                outcome,
            ),
    {
        let ghost begun = transaction;
        let data_start: usize = self.cycles_if(watch.diagnostic);
        let ghost clocked = *self;
        assert(old(self).timed(&clocked, watch.diagnostic, data_start));
        let reply = self.write_mapped_data(&inode, offset, data);
        let ghost stored = *self;
        assert(clocked.mapped_written(&stored, inode, offset, data@, reply));
        let outcome: Result<DirectRangePrepare> = match reply {
            Ok(written) => {
                let now: usize = self.cycles_if(watch.diagnostic);
                let ghost measured = *self;
                assert(stored.timed(&measured, watch.diagnostic, now));
                let data_cycles: usize = elapsed(watch.diagnostic, data_start, now);
                let outcome = self.stage_mapped(
                    inode,
                    transaction,
                    watch,
                    offset,
                    written,
                    data_cycles,
                    range.block_count,
                );
                assert(stored.mapped_measured(
                    self,
                    inode,
                    *range,
                    offset,
                    written,
                    begun,
                    watch,
                    data_start,
                    outcome,
                ));
                outcome
            },
            Err(error) => {
                self.transaction_abort(transaction);
                Err(error)
            },
        };
        assert(clocked.mapped_stored(
            self,
            inode,
            *range,
            offset,
            data@,
            begun,
            watch,
            data_start,
            outcome,
        ));
        outcome
    }

    /// What writing to the blocks of an inode, and what follows, calls, changes and returns.
    pub open spec fn mapped_checked(
        &self,
        after: &Self,
        inode: InodeRef,
        range: WriteLogicalRange,
        offset: usize,
        data: Seq<u8>,
        transaction: Transaction,
        watch: Stopwatch,
        outcome: Result<DirectRangePrepare>,
    ) -> bool {
        exists|looked: Self, reply: Result<()>|
            {
                &&& #[trigger] self.range_looked_up(
                    &looked,
                    inode,
                    range.first_lblock as int,
                    range.last_lblock as int,
                    reply,
                )
                &&& match reply {
                    Ok(_) => looked.mapped_ready(
                        after,
                        inode,
                        range,
                        offset,
                        data,
                        transaction,
                        watch,
                        outcome,
                    ),
                    Err(error) => {
                        &&& looked.given_up(after, transaction)
                        &&& outcome == if error.code == ErrCode::ENOENT {
                            Ok::<DirectRangePrepare, Ext4Error>(DirectRangePrepare::Unsupported)
                        } else {
                            Err(error)
                        }
                    },
                }
            }
    }

    /// What reading an inode inside a transaction, and what follows, calls, changes and returns.
    pub open spec fn mapped_opened(
        &self,
        after: &Self,
        id: InodeId,
        range: WriteLogicalRange,
        offset: usize,
        data: Seq<u8>,
        transaction: Transaction,
        watch: Stopwatch,
        outcome: Result<DirectRangePrepare>,
    ) -> bool {
        exists|read: Self, found: Result<InodeRef>|
            {
                &&& #[trigger] self.staged_inode_read(&read, transaction, id, found)
                &&& match found {
                    Ok(inode) => if is_free(inode.inode) {
                        &&& read.given_up(after, transaction)
                        &&& outcome == failed::<DirectRangePrepare>(ErrCode::EINVAL)
                    } else {
                        read.mapped_checked(
                            after,
                            inode,
                            range,
                            offset,
                            data,
                            transaction,
                            watch,
                            outcome,
                        )
                    },
                    Err(error) => {
                        &&& read.given_up(after, transaction)
                        &&& outcome == Err::<DirectRangePrepare, Ext4Error>(error)
                    },
                }
            }
    }

    /// What starting a transaction for a write, and what follows, calls, changes and returns.
    pub open spec fn mapped_begun(
        &self,
        after: &Self,
        id: InodeId,
        range: WriteLogicalRange,
        offset: usize,
        data: Seq<u8>,
        watch: Stopwatch,
        outcome: Result<DirectRangePrepare>,
    ) -> bool {
        exists|begun: Self, reply: Result<Transaction>|
            {
                &&& #[trigger] self.begun(&begun, MAPPED_CREDITS, reply)
                &&& match reply {
                    Ok(transaction) => begun.mapped_opened(
                        after,
                        id,
                        range,
                        offset,
                        data,
                        transaction,
                        watch,
                        outcome,
                    ),
                    Err(error) => begun.idle(after) && outcome == Err::<
                        DirectRangePrepare,
                        Ext4Error,
                    >(error),
                }
            }
    }

    /// What writing to mapped blocks through the journal calls, changes and returns.
    pub open spec fn journal_mapped_written(
        &self,
        after: &Self,
        id: InodeId,
        range: WriteLogicalRange,
        offset: usize,
        data: Seq<u8>,
        outcome: Result<DirectRangePrepare>,
    ) -> bool {
        exists|ready: Self, watch: Stopwatch|
            {
                &&& #[trigger] self.watch_started(&ready, watch)
                &&& ready.mapped_begun(after, id, range, offset, data, watch, outcome)
            }
    }

    /// Writes to mapped blocks through the journal.
    ///
    /// Images that wait for a commit may hold the newest inode, so that it is read through the
    /// transaction; they stay where they are.
    pub(crate) fn try_prepare_journal_mapped_write(
        &mut self,
        id: InodeId,
        range: &WriteLogicalRange,
        offset: usize,
        data: &[u8],
    ) -> (outcome: Result<DirectRangePrepare>)
        requires
            old(self).inv(),
        ensures
            final(self).inv(),
            final(self).state().gate == old(self).state().gate,
            old(self).journal_mapped_written(
                final(self),
                id,
                *range,
                offset,
                data@,
                outcome,
            ),
    {
        let watch = self.start_watch();
        let ghost ready = *self;
        assert(old(self).watch_started(&ready, watch));
        let reply = self.transaction_start(MAPPED_CREDITS);
        let ghost begun = *self;
        let ghost answer = reply;
        assert(ready.begun(&begun, MAPPED_CREDITS, answer));
        let transaction = match reply {
            Ok(transaction) => transaction,
            Err(error) => {
                assert(ready.mapped_begun(
                    self,
                    id,
                    *range,
                    offset,
                    data@,
                    watch,
                    Err(error),
                ));
                return Err(error);
            },
        };
        let ghost started = transaction;
        let found = self.transaction_read_inode(&transaction, id);
        let ghost read = *self;
        assert(begun.staged_inode_read(&read, started, id, found));
        let outcome: Result<DirectRangePrepare> = match found {
            Ok(inode) => {
                if inode.inode.mode().bits() == 0 {
                    self.transaction_abort(transaction);
                    Err(Ext4Error::new(ErrCode::EINVAL))
                } else {
                    let outcome = self.check_mapped(
                        inode,
                        range,
                        offset,
                        data,
                        transaction,
                        watch,
                    );
                    assert(read.mapped_checked(
                        self,
                        inode,
                        *range,
                        offset,
                        data@,
                        started,
                        watch,
                        outcome,
                    ));
                    outcome
                }
            },
            Err(error) => {
                self.transaction_abort(transaction);
                Err(error)
            },
        };
        assert(begun.mapped_opened(
            self,
            id,
            *range,
            offset,
            data@,
            started,
            watch,
            outcome,
        ));
        assert(ready.mapped_begun(self, id, *range, offset, data@, watch, outcome));
        outcome
    }

    /// Writes to the blocks of an inode, if they are mapped.
    fn check_mapped(
        &mut self,
        inode: InodeRef,
        range: &WriteLogicalRange,
        offset: usize,
        data: &[u8],
        transaction: Transaction,
        watch: Stopwatch,
    ) -> (outcome: Result<DirectRangePrepare>)
        requires
            old(self).inv(),
            transaction.inv(),
        ensures
            final(self).inv(),
            final(self).state().gate == old(self).state().gate,
            old(self).mapped_checked(
                final(self),
                inode,
                *range,
                offset,
                data@,
                transaction,
                watch,
                outcome,
            ),
    {
        let reply = self.look_up_range(&inode, range);
        let ghost looked = *self;
        assert(old(self).range_looked_up(
            &looked,
            inode,
            range.first_lblock as int,
            range.last_lblock as int,
            reply,
        ));
        match reply {
            Ok(_) => self.store_mapped(inode, range, offset, data, transaction, watch),
            Err(error) => {
                self.transaction_abort(transaction);
                if error.code() == ErrCode::ENOENT {
                    Ok(DirectRangePrepare::Unsupported)
                } else {
                    Err(error)
                }
            },
        }
    }
}

impl<D: BlockDevice, V: Volume<D>> Ext4<D, V> {
    /// A range that was prepared through the journal was stored before its extent was staged, and
    /// so before any commit that makes the extent durable.
    pub proof fn lemma_data_precedes_its_commit(
        &self,
        after: &Self,
        inode: InodeRef,
        plan: DirectRangePlan,
        data: Option<Seq<u8>>,
        transaction: Transaction,
        first: PBlockId,
        watch: Stopwatch,
        data_start: usize,
        prepared: DirectRangePrepare,
    )
        requires
            self.journal_stored(
                after,
                inode,
                plan,
                data,
                transaction,
                first,
                watch,
                data_start,
                Ok(prepared),
            ),
            prepared != DirectRangePrepare::Unsupported,
        ensures
            exists|stored: Self, clocked: Self, now: usize|
                {
                    &&& #[trigger] self.range_stored(&stored, first, plan.count, data, Ok(()))
                    &&& #[trigger] stored.timed(&clocked, watch.diagnostic, now)
                    &&& clocked.journal_appended(
                        after,
                        inode,
                        plan,
                        transaction,
                        first,
                        watch,
                        cycles_between(watch.diagnostic, data_start, now),
                        prepared_with(data),
                        Ok(prepared),
                    )
                },
    {
        let (stored, reply) = choose|stored: Self, reply: Result<()>|
            {
                &&& #[trigger] self.range_stored(&stored, first, plan.count, data, reply)
                &&& stored.journal_measured(
                    after,
                    inode,
                    plan,
                    data,
                    transaction,
                    first,
                    watch,
                    data_start,
                    reply,
                    Ok(prepared),
                )
            };
        match reply {
            Ok(done) => {
                assert(done == ());
            },
            Err(_) => {},
        }
    }
}

} // verus!
