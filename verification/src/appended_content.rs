//! What a file holds once blocks were added to it with their data.

use vstd::prelude::*;
use crate::append_range::{
    homes_of, prepared_with, usable, DirectRangePlan, DirectRangePrepare, RANGE_CREDITS,
};
use crate::content::{
    byte_of, elsewhere, lemma_extends, lemma_held_without_writes, writes, Disk, Places,
};
use crate::device::{extends, since, BlockDevice, Event};
use crate::error::{failed, ErrCode, Ext4Error, Result};
use crate::fs::Ext4;
use crate::grow::is_free;
use crate::inode::InodeRef;
use crate::journal_transaction::{CommitError, Transaction};
use crate::prepare_journal::{cycles_between, Stopwatch, MAX_DEFERRED_JOURNAL_BLOCKS};
use crate::range::WriteLogicalRange;
use crate::staged::{holds_home, ordered, StagedBlock};
use crate::stored_content::{takes_free_blocks, vacant, with_run};
use crate::volume::{LayerCall, RangeAllocation, Volume};
use crate::{InodeId, PBlockId, BLOCK_SIZE};

verus! {

/// Whether a call adds consecutive blocks to a file.
pub open spec fn adds_run(
    call: Event,
    id: InodeId,
    start: int,
    first: PBlockId,
    count: int,
) -> bool {
    match call {
        Event::Layer {
            call: LayerCall::StageAppend { inode, start: at, first: home, count: blocks, after, reply: Ok(_) },
        } => inode.id == id && at == start && home == first && blocks == count,
        _ => false,
    }
}

/// Whether a file holds data in blocks that were added to it, and elsewhere what it held.
pub open spec fn holds_run(
    disk: Disk,
    last: Disk,
    places: Places,
    start: int,
    first: PBlockId,
    count: int,
    data: Seq<u8>,
) -> bool {
    forall|at: int|
        0 <= at ==> #[trigger] byte_of(last, with_run(places, start, first, count), at)
            == if start * BLOCK_SIZE <= at < (start + count) * BLOCK_SIZE {
            data[at - start * BLOCK_SIZE]
        } else {
            byte_of(disk, places, at)
        }
}

/// Blocks that hold data are the bytes of a file to which they were added.
pub(crate) proof fn lemma_run_bytes(
    disk: Disk,
    last: Disk,
    places: Places,
    start: int,
    first: PBlockId,
    count: int,
    data: Seq<u8>,
)
    requires
        0 <= start,
        0 <= count,
        first + count <= u64::MAX,
        data.len() == count * BLOCK_SIZE,
        forall|i: int|
            0 <= i < count ==> #[trigger] last[(first + i) as u64] == data.subrange(
                i * BLOCK_SIZE,
                (i + 1) * BLOCK_SIZE,
            ),
        forall|block: int| #[trigger]
            places.contains_key(block) ==> last[places[block]] == disk[places[block]],
        forall|block: int|
            start <= block < start + count ==> !(#[trigger] places.contains_key(block)),
    ensures
        holds_run(disk, last, places, start, first, count, data),
{
    let now = with_run(places, start, first, count);
    assert forall|at: int| 0 <= at implies #[trigger] byte_of(last, now, at) == if start
        * BLOCK_SIZE <= at < (start + count) * BLOCK_SIZE {
        data[at - start * BLOCK_SIZE]
    } else {
        byte_of(disk, places, at)
    } by {
        let block = at / BLOCK_SIZE as int;
        let rest = at % BLOCK_SIZE as int;
        assert(at == block * BLOCK_SIZE + rest);
        if start <= block < start + count {
            let i = block - start;
            assert(last[(first + i) as u64] == data.subrange(
                i * BLOCK_SIZE,
                (i + 1) * BLOCK_SIZE,
            ));
            assert(now[block] == (first + i) as u64);
        }
    }
}

impl<D: BlockDevice, V: Volume<D>> Ext4<D, V> {
    /// Whether the record went on without a write.
    pub open spec fn asks(&self, after: &Self) -> bool {
        &&& extends(self.log(), after.log())
        &&& forall|k: int|
            self.log().len() <= k < after.log().len() ==> !writes(#[trigger] after.log()[k])
    }

    /// Whether, on the way to a later state, the layers allocate blocks that are free.
    pub open spec fn allots(
        &self,
        after: &Self,
        places: Places,
        busy: spec_fn(PBlockId) -> bool,
    ) -> bool {
        forall|k: int|
            self.log().len() <= k < after.log().len() ==> takes_free_blocks(
                #[trigger] after.log()[k],
                places,
                busy,
            )
    }

    /// Whether blocks were added to a file that hold data, and the rest of the file is as before.
    pub open spec fn appended(
        &self,
        after: &Self,
        id: InodeId,
        start: int,
        count: int,
        data: Seq<u8>,
        disk: Disk,
        places: Places,
    ) -> bool {
        &&& extends(self.log(), after.log())
        &&& exists|k: int, first: PBlockId|
            {
                &&& self.log().len() <= k < after.log().len()
                &&& #[trigger] adds_run(after.log()[k], id, start, first, count)
                &&& holds_run(
                    disk,
                    self.left_on(after, disk),
                    places,
                    start,
                    first,
                    count,
                    data,
                )
            }
    }

    /// What follows on calls that write nothing is all that happens to a device.
    pub(crate) proof fn lemma_after_asking(&self, middle: &Self, after: &Self, disk: Disk)
        requires
            self.asks(middle),
            extends(middle.log(), after.log()),
        ensures
            extends(self.log(), after.log()),
            self.left_on(middle, disk) == disk,
            self.left_on(after, disk) == middle.left_on(after, disk),
            self.answered_by(after, disk) ==> middle.answered_by(after, disk),
    {
        let calls = since(self.log(), middle.log());
        assert forall|k: int| 0 <= k < calls.len() implies !writes(#[trigger] calls[k]) by {
            assert(calls[k] == middle.log()[self.log().len() + k]);
        }
        lemma_held_without_writes(disk, calls);
        self.lemma_device_joins(middle, after, disk);
        if self.answered_by(after, disk) {
            self.lemma_answers_split(middle, after, disk);
        }
    }

    /// Blocks that were added after calls that write nothing were added.
    pub(crate) proof fn lemma_appended_later(
        &self,
        middle: &Self,
        after: &Self,
        id: InodeId,
        start: int,
        count: int,
        data: Seq<u8>,
        disk: Disk,
        places: Places,
    )
        requires
            self.asks(middle),
            middle.appended(after, id, start, count, data, disk, places),
        ensures
            self.appended(after, id, start, count, data, disk, places),
    {
        self.lemma_after_asking(middle, after, disk);
        let (k, first) = choose|k: int, first: PBlockId|
            {
                &&& middle.log().len() <= k < after.log().len()
                &&& #[trigger] adds_run(after.log()[k], id, start, first, count)
                &&& holds_run(
                    disk,
                    middle.left_on(after, disk),
                    places,
                    start,
                    first,
                    count,
                    data,
                )
            };
        assert(adds_run(after.log()[k], id, start, first, count));
    }

    /// Measuring time asks.
    pub(crate) proof fn lemma_timing_asks(&self, after: &Self, diagnostic: bool, cycles: usize)
        requires
            self.timed(after, diagnostic, cycles),
        ensures
            self.asks(after),
            after.state() == self.state(),
    {
        assert(after.log().take(self.log().len() as int) =~= self.log());
    }

    /// Reporting a write asks.
    proof fn lemma_report_asks(
        &self,
        after: &Self,
        watch: Stopwatch,
        bytes: usize,
        data_cycles: usize,
        blocks: usize,
    )
        requires
            self.write_reported(after, watch, bytes, data_cycles, blocks),
        ensures
            self.asks(after),
            after.state() == self.state(),
    {
        assert(after.log().take(self.log().len() as int) =~= self.log());
    }

    /// Letting a write wait for a commit, or committing it, leaves the blocks of the device that the
    /// transaction does not cover, but for those of the journal.
    pub(crate) proof fn lemma_finished_leaves(
        &self,
        after: &Self,
        transaction: Transaction,
        watch: Stopwatch,
        bytes: usize,
        data_cycles: usize,
        blocks: usize,
        prepared: DirectRangePrepare,
        disk: Disk,
    )
        requires
            self.journal_finished(
                after,
                transaction,
                watch,
                bytes,
                data_cycles,
                blocks,
                prepared,
                Ok(prepared),
            ),
            self.state().mode is Journal,
            self.sound_journal(),
            self.nothing_waits(),
            ordered(transaction.staged()),
            ordered(transaction.batch()),
        ensures
            extends(self.log(), after.log()),
            self.answered_by(after, disk) ==> forall|block: PBlockId|
                !self.logs_to(block) && !transaction.covers(block) ==> #[trigger] self.left_on(
                    after,
                    disk,
                )[block] == disk[block],
    {
        let outcome = Ok::<DirectRangePrepare, Ext4Error>(prepared);
        let (done, reply, settled, result) = choose|
            done: Self,
            reply: core::result::Result<(), CommitError>,
            settled: Self,
            result: Result<()>,
        |
            {
                &&& #[trigger] self.deferred(
                    &done,
                    transaction,
                    MAX_DEFERRED_JOURNAL_BLOCKS,
                    reply,
                )
                &&& #[trigger] done.with_counts(
                    done.counts().with_ending(reply is Ok),
                ).settled(&settled, reply, result)
                &&& match result {
                    Ok(_) => {
                        &&& settled.write_reported(after, watch, bytes, data_cycles, blocks)
                        &&& outcome == Ok::<DirectRangePrepare, Ext4Error>(prepared)
                    },
                    Err(error) => {
                        &&& settled.idle(after)
                        &&& outcome == Err::<DirectRangePrepare, Ext4Error>(error)
                    },
                }
            };
        broadcast use Ext4::lemma_with_counts;

        match reply {
            Ok(done) => {
                assert(done == ());
            },
            Err(_) => {},
        }
        self.lemma_followed_is_recorded(&done);
        settled.lemma_report_asks(after, watch, bytes, data_cycles, blocks);
        assert(settled.log() == done.log());
        lemma_extends(self.log(), done.log(), after.log());
        if self.answered_by(after, disk) {
            self.lemma_answers_split(&done, after, disk);
            self.lemma_deferral_is_seen(&done, transaction, MAX_DEFERRED_JOURNAL_BLOCKS, disk);
            self.lemma_device_joins(&done, after, disk);
            assert(after.log().take(after.log().len() as int) =~= after.log());
            settled.lemma_after_asking(after, after, self.left_on(&done, disk));
            assert forall|block: PBlockId|
                !self.logs_to(block) && !transaction.covers(block) implies #[trigger] self.left_on(
                after,
                disk,
            )[block] == disk[block] by {
                assert(done.sight(self.left_on(&done, disk))[block] == crate::readback::shown_by(
                    transaction,
                    disk,
                )[block]);
                assert(!holds_home(done.state().batch(), block));
            }
        }
    }
}

/// Adding blocks to a file through the journal.
impl<D: BlockDevice, V: Volume<D>> Ext4<D, V> {
    /// Staging the inode of a new range, and letting it wait, leaves the blocks of the device that
    /// are neither busy nor covered.
    proof fn lemma_journal_staged_leaves(
        &self,
        after: &Self,
        inode: InodeRef,
        transaction: Transaction,
        watch: Stopwatch,
        data_cycles: usize,
        count: u32,
        prepared: DirectRangePrepare,
        disk: Disk,
    )
        requires
            self.journal_staged(
                after,
                inode,
                transaction,
                watch,
                data_cycles,
                count,
                prepared,
                Ok(prepared),
            ),
            self.state().mode is Journal,
            self.sound_journal(),
            self.nothing_waits(),
            ordered(transaction.staged()),
            ordered(transaction.batch()),
        ensures
            extends(self.log(), after.log()),
            self.answered_by(after, disk) ==> forall|block: PBlockId|
                !self.logs_to(block) && !transaction.covers(block) && (
                self.state().inode_position(inode.id) matches Some((home, _)) ==> home != block)
                    ==> #[trigger] self.left_on(after, disk)[block] == disk[block],
    {
        broadcast use Ext4::lemma_with_counts;

        let outcome = Ok::<DirectRangePrepare, Ext4Error>(prepared);
        let (staged, grown, sealed, reply) = choose|
            staged: Self,
            grown: Transaction,
            sealed: InodeRef,
            reply: Result<()>,
        |
            {
                &&& #[trigger] self.inode_staged(
                    &staged,
                    transaction,
                    grown,
                    inode,
                    sealed,
                    reply,
                )
                &&& match reply {
                    Ok(_) => staged.with_counts(staged.counts().with_inode_io()).journal_finished(
                        after,
                        grown,
                        watch,
                        (count * BLOCK_SIZE) as usize,
                        data_cycles,
                        count as usize,
                        prepared,
                        outcome,
                    ),
                    Err(error) => {
                        &&& staged.with_counts(staged.counts().with_failure()).given_up(
                            after,
                            grown,
                        )
                        &&& outcome == Err::<DirectRangePrepare, Ext4Error>(error)
                    },
                }
            };
        let (home, at) = self.state().inode_position(inode.id)->0;
        self.lemma_block_staged_asks(
            &staged,
            transaction,
            grown,
            home,
            at,
            sealed.inode@,
            reply,
        );
        let counted = staged.with_counts(staged.counts().with_inode_io());
        counted.lemma_finished_leaves(
            after,
            grown,
            watch,
            (count * BLOCK_SIZE) as usize,
            data_cycles,
            count as usize,
            prepared,
            disk,
        );
        self.lemma_after_asking(&staged, after, disk);
        if self.answered_by(after, disk) {
            assert(counted.answered_by(after, disk));
            assert forall|block: PBlockId|
                !self.logs_to(block) && !transaction.covers(block) && home != block implies
            #[trigger] self.left_on(after, disk)[block] == disk[block] by {
                assert(!counted.logs_to(block));
                assert(!grown.covers(block));
                assert(counted.left_on(after, disk)[block] == disk[block]);
            }
        }
    }

    /// Adding the extent of a new range, and what follows, adds the blocks to the file, and leaves
    /// the blocks of the device that are neither busy nor covered.
    proof fn lemma_journal_appended_leaves(
        &self,
        after: &Self,
        inode: InodeRef,
        plan: DirectRangePlan,
        transaction: Transaction,
        first: PBlockId,
        watch: Stopwatch,
        data_cycles: usize,
        prepared: DirectRangePrepare,
        disk: Disk,
        places: Places,
        busy: spec_fn(PBlockId) -> bool,
    )
        requires
            self.journal_appended(
                after,
                inode,
                plan,
                transaction,
                first,
                watch,
                data_cycles,
                prepared,
                Ok(prepared),
            ),
            self.state().mode is Journal,
            self.sound_journal(),
            self.nothing_waits(),
            ordered(transaction.staged()),
            ordered(transaction.batch()),
        ensures
            extends(self.log(), after.log()),
            exists|k: int|
                {
                    &&& self.log().len() <= k < after.log().len()
                    &&& adds_run(
                        #[trigger] after.log()[k],
                        inode.id,
                        plan.start_lblock as int,
                        first,
                        plan.count as int,
                    )
                },
            self.answered_by(after, disk) && self.allots(after, places, busy) ==> forall|
                block: PBlockId,
            |
                !self.logs_to(block) && !transaction.covers(block) && (
                self.state().inode_position(inode.id) matches Some((home, _)) ==> home != block)
                    ==> #[trigger] self.left_on(after, disk)[block] == disk[block],
    {
        let outcome = Ok::<DirectRangePrepare, Ext4Error>(prepared);
        let (asked, grown, reply) = choose|asked: Self, grown: InodeRef, reply: Result<()>|
            {
                &&& #[trigger] self.asked(
                    &asked,
                    LayerCall::StageAppend {
                        inode,
                        start: plan.start_lblock,
                        first,
                        count: plan.count,
                        after: grown,
                        reply,
                    },
                )
                &&& match reply {
                    Ok(_) => asked.journal_staged(
                        after,
                        grown,
                        transaction,
                        watch,
                        data_cycles,
                        plan.count,
                        prepared,
                        outcome,
                    ),
                    Err(error) => {
                        &&& asked.with_counts(asked.counts().with_failure()).given_up(
                            after,
                            transaction,
                        )
                        &&& outcome == Err::<DirectRangePrepare, Ext4Error>(error)
                    },
                }
            };
        let call = Event::Layer {
            call: LayerCall::StageAppend {
                inode,
                start: plan.start_lblock,
                first,
                count: plan.count,
                after: grown,
                reply,
            },
        };
        self.lemma_call_only_asks(&asked, call);
        asked.lemma_journal_staged_leaves(
            after,
            grown,
            transaction,
            watch,
            data_cycles,
            plan.count,
            prepared,
            disk,
        );
        self.lemma_after_asking(&asked, after, disk);
        let k = self.log().len() as int;
        assert(after.log().take(asked.log().len() as int)[k] == after.log()[k]);
        assert(after.log()[k] == call);
        assert(adds_run(
            after.log()[k],
            inode.id,
            plan.start_lblock as int,
            first,
            plan.count as int,
        ));
        if self.answered_by(after, disk) && self.allots(after, places, busy) {
            assert(takes_free_blocks(after.log()[k], places, busy));
            assert(grown.id == inode.id);
            assert forall|block: PBlockId|
                !self.logs_to(block) && !transaction.covers(block) && (
                self.state().inode_position(inode.id) matches Some((home, _)) ==> home
                    != block) implies #[trigger] self.left_on(after, disk)[block] == disk[block] by {
                assert(asked.left_on(after, disk)[block] == disk[block]);
            }
        }
    }

    /// Storing the data of a new range, and what follows, adds the blocks to the file with their
    /// data.
    proof fn lemma_journal_stored_appends(
        &self,
        after: &Self,
        inode: InodeRef,
        plan: DirectRangePlan,
        data: Seq<u8>,
        transaction: Transaction,
        first: PBlockId,
        watch: Stopwatch,
        data_start: usize,
        disk: Disk,
        places: Places,
        busy: spec_fn(PBlockId) -> bool,
    )
        requires
            self.journal_stored(
                after,
                inode,
                plan,
                Some(data),
                transaction,
                first,
                watch,
                data_start,
                Ok(DirectRangePrepare::DataWritten),
            ),
            data.len() == plan.count * BLOCK_SIZE,
            self.state().mode is Journal,
            self.sound_journal(),
            self.nothing_waits(),
            ordered(transaction.staged()),
            ordered(transaction.batch()),
        ensures
            extends(self.log(), after.log()),
            self.answered_by(after, disk) && self.allots(after, places, busy) && self.may_append(
                inode.id,
                plan,
                transaction,
                first,
                places,
            ) ==> self.appended(
                after,
                inode.id,
                plan.start_lblock as int,
                plan.count as int,
                data,
                disk,
                places,
            ),
    {
        let outcome = Ok::<DirectRangePrepare, Ext4Error>(DirectRangePrepare::DataWritten);
        let (stored, reply) = choose|stored: Self, reply: Result<()>|
            {
                &&& #[trigger] self.range_stored(&stored, first, plan.count, Some(data), reply)
                &&& stored.journal_measured(
                    after,
                    inode,
                    plan,
                    Some(data),
                    transaction,
                    first,
                    watch,
                    data_start,
                    reply,
                    outcome,
                )
            };
        let (clocked, now) = choose|clocked: Self, now: usize|
            {
                &&& #[trigger] stored.timed(&clocked, watch.diagnostic, now)
                &&& match reply {
                    Ok(_) => clocked.journal_appended(
                        after,
                        inode,
                        plan,
                        transaction,
                        first,
                        watch,
                        cycles_between(watch.diagnostic, data_start, now),
                        prepared_with(Some(data)),
                        outcome,
                    ),
                    Err(error) => {
                        &&& clocked.with_counts(clocked.counts().with_failure()).given_up(
                            after,
                            transaction,
                        )
                        &&& outcome == crate::append_range::not_stored(error)
                    },
                }
            };
        match reply {
            Ok(done) => {
                assert(done == ());
            },
            Err(_) => {},
        }
        stored.lemma_timing_asks(&clocked, watch.diagnostic, now);
        self.lemma_stored_range_holds_data(&stored, first, plan.count, Some(data), disk);
        let middle = self.left_on(&stored, disk);
        clocked.lemma_journal_appended_leaves(
            after,
            inode,
            plan,
            transaction,
            first,
            watch,
            cycles_between(watch.diagnostic, data_start, now),
            DirectRangePrepare::DataWritten,
            middle,
            places,
            busy,
        );
        stored.lemma_after_asking(&clocked, after, middle);
        lemma_extends(self.log(), stored.log(), after.log());
        self.lemma_device_joins(&stored, after, disk);
        if self.answered_by(after, disk) && self.allots(after, places, busy) && self.may_append(
            inode.id,
            plan,
            transaction,
            first,
            places,
        ) {
            self.lemma_answers_split(&stored, after, disk);
            let last = self.left_on(after, disk);
            let start = plan.start_lblock as int;
            let count = plan.count as int;
            assert forall|i: int| 0 <= i < count implies #[trigger] last[(first + i) as u64]
                == data.subrange(i * BLOCK_SIZE, (i + 1) * BLOCK_SIZE) by {
                let home = (first + i) as u64;
                assert(self.spare(inode.id, transaction, home));
                assert(last[home] == middle[home]);
            }
            assert forall|block: int| #[trigger] places.contains_key(block) implies
            last[places[block]] == disk[places[block]] by {
                let home = places[block];
                assert(self.spare(inode.id, transaction, home));
                assert(last[home] == middle[home]);
                assert(!(first <= home < first + count)) by {
                    if first <= home < first + count {
                        assert(elsewhere(places, home));
                    }
                }
            }
            lemma_run_bytes(disk, last, places, start, first, count, data);
            let k = choose|k: int|
                {
                    &&& clocked.log().len() <= k < after.log().len()
                    &&& adds_run(#[trigger] after.log()[k], inode.id, start, first, count)
                };
            assert(adds_run(after.log()[k], inode.id, start, first, count));
        }
    }

    /// Whether a block is left alone by a transaction: it belongs neither to the journal nor to the
    /// images, and the inode does not stand in it.
    pub open spec fn spare(&self, id: InodeId, transaction: Transaction, block: PBlockId) -> bool {
        &&& !self.logs_to(block)
        &&& !transaction.covers(block)
        &&& self.state().inode_position(id) matches Some((home, _)) ==> home != block
    }

    /// Whether blocks can be added to a file: they and the blocks of the file are left alone by the
    /// transaction, the new ones are no blocks of the file, and the file has none in their place.
    pub open spec fn may_append(
        &self,
        id: InodeId,
        plan: DirectRangePlan,
        transaction: Transaction,
        first: PBlockId,
        places: Places,
    ) -> bool {
        &&& first + plan.count <= u64::MAX
        &&& forall|home: PBlockId|
            first <= home < first + plan.count ==> #[trigger] self.spare(id, transaction, home)
        &&& forall|home: PBlockId|
            first <= home < first + plan.count ==> #[trigger] elsewhere(places, home)
        &&& forall|block: int| #[trigger]
            places.contains_key(block) ==> self.spare(id, transaction, places[block])
        &&& forall|block: int|
            plan.start_lblock <= block < plan.start_lblock + plan.count ==> !(
            #[trigger] places.contains_key(block))
    }
}

/// Allocating blocks for a file through the journal.
impl<D: BlockDevice, V: Volume<D>> Ext4<D, V> {
    /// A range that was stored without data is not said to hold any.
    proof fn lemma_journal_without_data(
        &self,
        after: &Self,
        inode: InodeRef,
        plan: DirectRangePlan,
        transaction: Transaction,
        first: PBlockId,
        watch: Stopwatch,
        outcome: Result<DirectRangePrepare>,
    )
        requires
            self.journal_initialized(
                after,
                inode,
                plan,
                None,
                transaction,
                first,
                watch,
                outcome,
            ),
        ensures
            outcome != Ok::<DirectRangePrepare, Ext4Error>(DirectRangePrepare::DataWritten),
    {
        let (ready, data_start) = choose|ready: Self, data_start: usize|
            {
                &&& #[trigger] self.with_counts(
                    self.counts().with_call(plan.count as u64).with_missing(plan.count as u64),
                ).timed(&ready, watch.diagnostic, data_start)
                &&& ready.journal_stored(
                    after,
                    inode,
                    plan,
                    None,
                    transaction,
                    first,
                    watch,
                    data_start,
                    outcome,
                )
            };
        let (stored, reply) = choose|stored: Self, reply: Result<()>|
            {
                &&& #[trigger] ready.range_stored(&stored, first, plan.count, None, reply)
                &&& stored.journal_measured(
                    after,
                    inode,
                    plan,
                    None,
                    transaction,
                    first,
                    watch,
                    data_start,
                    reply,
                    outcome,
                )
            };
        if outcome is Ok && reply is Ok {
            stored.lemma_measured_says(
                after,
                inode,
                plan,
                None,
                transaction,
                first,
                watch,
                data_start,
                reply,
                outcome,
            );
        }
    }

    /// What follows on storing a range says whether it holds data.
    pub(crate) proof fn lemma_measured_says(
        &self,
        after: &Self,
        inode: InodeRef,
        plan: DirectRangePlan,
        data: Option<Seq<u8>>,
        transaction: Transaction,
        first: PBlockId,
        watch: Stopwatch,
        data_start: usize,
        reply: Result<()>,
        outcome: Result<DirectRangePrepare>,
    )
        requires
            self.journal_measured(
                after,
                inode,
                plan,
                data,
                transaction,
                first,
                watch,
                data_start,
                reply,
                outcome,
            ),
            reply is Ok,
            outcome is Ok,
        ensures
            outcome == Ok::<DirectRangePrepare, Ext4Error>(prepared_with(data)),
    {
        let stored = *self;
        let (clocked, now) = choose|clocked: Self, now: usize|
            {
                &&& #[trigger] stored.timed(&clocked, watch.diagnostic, now)
                &&& match reply {
                    Ok(_) => clocked.journal_appended(
                        after,
                        inode,
                        plan,
                        transaction,
                        first,
                        watch,
                        cycles_between(watch.diagnostic, data_start, now),
                        prepared_with(data),
                        outcome,
                    ),
                    Err(error) => {
                        &&& clocked.with_counts(clocked.counts().with_failure()).given_up(
                            after,
                            transaction,
                        )
                        &&& outcome == crate::append_range::not_stored(error)
                    },
                }
            };
        let cycles = cycles_between(watch.diagnostic, data_start, now);
        let prepared = prepared_with(data);
        let (asked, grown, answer) = choose|asked: Self, grown: InodeRef, answer: Result<()>|
            {
                &&& #[trigger] clocked.asked(
                    &asked,
                    LayerCall::StageAppend {
                        inode,
                        start: plan.start_lblock,
                        first,
                        count: plan.count,
                        after: grown,
                        reply: answer,
                    },
                )
                &&& match answer {
                    Ok(_) => asked.journal_staged(
                        after,
                        grown,
                        transaction,
                        watch,
                        cycles,
                        plan.count,
                        prepared,
                        outcome,
                    ),
                    Err(error) => {
                        &&& asked.with_counts(asked.counts().with_failure()).given_up(
                            after,
                            transaction,
                        )
                        &&& outcome == Err::<DirectRangePrepare, Ext4Error>(error)
                    },
                }
            };
        let (staged, more, sealed, said) = choose|
            staged: Self,
            more: Transaction,
            sealed: InodeRef,
            said: Result<()>,
        |
            {
                &&& #[trigger] asked.inode_staged(&staged, transaction, more, grown, sealed, said)
                &&& match said {
                    Ok(_) => staged.with_counts(staged.counts().with_inode_io()).journal_finished(
                        after,
                        more,
                        watch,
                        (plan.count * BLOCK_SIZE) as usize,
                        cycles,
                        plan.count as usize,
                        prepared,
                        outcome,
                    ),
                    Err(error) => {
                        &&& staged.with_counts(staged.counts().with_failure()).given_up(
                            after,
                            more,
                        )
                        &&& outcome == Err::<DirectRangePrepare, Ext4Error>(error)
                    },
                }
            };
        assert(said is Ok);
    }

    /// Whether blocks that belong to the journal, that wait in the batch of a transaction or in
    /// which an inode stands are busy, and those of a file are not.
    pub open spec fn fenced(
        &self,
        id: InodeId,
        batch: Seq<StagedBlock>,
        places: Places,
        busy: spec_fn(PBlockId) -> bool,
    ) -> bool {
        &&& forall|block: PBlockId| #[trigger] self.logs_to(block) ==> busy(block)
        &&& forall|block: PBlockId| #[trigger] holds_home(batch, block) ==> busy(block)
        &&& self.state().inode_position(id) matches Some((home, _)) ==> busy(home)
        &&& forall|block: int| #[trigger] places.contains_key(block) ==> !busy(places[block])
    }

    /// Blocks that were allocated where others are fenced off can be added to a file.
    pub(crate) proof fn lemma_taken_may_append(
        &self,
        taken: &Self,
        inode: InodeId,
        plan: DirectRangePlan,
        transaction: Transaction,
        grown: Transaction,
        given: (PBlockId, Seq<PBlockId>),
        places: Places,
        busy: spec_fn(PBlockId) -> bool,
    )
        requires
            self.range_taken(taken, transaction, grown, inode, plan, Ok(given)),
            ordered(transaction.staged()),
            transaction.staged().len() == 0,
            vacant(places, plan.start_lblock as int, plan.count as int),
            self.fenced(inode, transaction.batch(), places, busy),
            self.allots(taken, places, busy),
        ensures
            taken.may_append(inode, plan, grown, given.0, places),
    {
        self.lemma_range_taken_asks(taken, transaction, grown, inode, plan, Ok(given));
        let (k, allocation) = choose|k: int, allocation: RangeAllocation|
            {
                &&& self.log().len() <= k < taken.log().len()
                &&& #[trigger] taken.log()[k] == (Event::Layer {
                    call: LayerCall::AllocRange {
                        inode,
                        preferred_first: plan.preferred_first,
                        requires_merge: plan.requires_merge,
                        count: plan.count,
                        reply: Ok(allocation),
                    },
                })
                &&& given.0 == allocation.first
                &&& #[trigger] homes_of(allocation.images@) == given.1
                &&& forall|other: PBlockId| #[trigger]
                    holds_home(grown.staged(), other) ==> holds_home(transaction.staged(), other)
                        || exists|i: int|
                        0 <= i < allocation.images@.len() && (#[trigger] allocation.images@[i]).home
                            == other
            };
        assert(takes_free_blocks(taken.log()[k], places, busy));
        let first = given.0;
        assert forall|home: PBlockId| first <= home < first + plan.count implies
        #[trigger] elsewhere(places, home) by {}
        assert forall|home: PBlockId| first <= home < first + plan.count implies
        #[trigger] taken.spare(inode, grown, home) by {
            assert(elsewhere(places, home));
            assert(!busy(home));
            assert(!self.logs_to(home));
            if holds_home(grown.staged(), home) {
                let i = choose|i: int|
                    0 <= i < allocation.images@.len() && (#[trigger] allocation.images@[i]).home
                        == home;
                assert(allocation.images@[i].home == home);
            }
        }
        assert forall|block: int| #[trigger] places.contains_key(block) implies taken.spare(
            inode,
            grown,
            places[block],
        ) by {
            let home = places[block];
            assert(!busy(home));
            assert(!self.logs_to(home));
            if holds_home(grown.staged(), home) {
                let i = choose|i: int|
                    0 <= i < allocation.images@.len() && (#[trigger] allocation.images@[i]).home
                        == home;
                assert(elsewhere(places, allocation.images@[i].home));
            }
        }
    }

    /// Allocating a planned range through the journal, and what follows, adds the blocks to the
    /// file with their data.
    proof fn lemma_journal_allocated_appends(
        &self,
        after: &Self,
        inode: InodeRef,
        plan: DirectRangePlan,
        data: Option<Seq<u8>>,
        transaction: Transaction,
        watch: Stopwatch,
        disk: Disk,
        places: Places,
        busy: spec_fn(PBlockId) -> bool,
    )
        requires
            self.journal_allocated(
                after,
                inode,
                plan,
                data,
                transaction,
                watch,
                Ok(DirectRangePrepare::DataWritten),
            ),
            data matches Some(bytes) ==> bytes.len() == plan.count * BLOCK_SIZE,
            transaction.staged().len() == 0,
            ordered(transaction.batch()),
            self.state().mode is Journal,
            self.sound_journal(),
            self.nothing_waits(),
        ensures
            data is Some,
            extends(self.log(), after.log()),
            self.answered_by(after, disk) && self.allots(after, places, busy) && self.fenced(
                inode.id,
                transaction.batch(),
                places,
                busy,
            ) && vacant(places, plan.start_lblock as int, plan.count as int) ==> self.appended(
                after,
                inode.id,
                plan.start_lblock as int,
                plan.count as int,
                data->0,
                disk,
                places,
            ),
    {
        broadcast use Ext4::lemma_with_counts;

        let outcome = Ok::<DirectRangePrepare, Ext4Error>(DirectRangePrepare::DataWritten);
        let (taken, grown, reply) = choose|
            taken: Self,
            grown: Transaction,
            reply: Result<(PBlockId, Seq<PBlockId>)>,
        |
            {
                &&& #[trigger] self.range_taken(
                    &taken,
                    transaction,
                    grown,
                    inode.id,
                    plan,
                    reply,
                )
                &&& match reply {
                    Ok(allocation) => taken.journal_initialized(
                        after,
                        inode,
                        plan,
                        data,
                        grown,
                        allocation.0,
                        watch,
                        outcome,
                    ),
                    Err(error) => {
                        &&& taken.given_up(after, grown)
                        &&& outcome == crate::append_range::not_taken(error)
                    },
                }
            };
        let given = reply->Ok_0;
        self.lemma_range_taken_asks(&taken, transaction, grown, inode.id, plan, reply);
        if data is None {
            taken.lemma_journal_without_data(after, inode, plan, grown, given.0, watch, outcome);
        }
        let bytes = data->0;
        let (ready, data_start) = choose|ready: Self, data_start: usize|
            {
                &&& #[trigger] taken.with_counts(
                    taken.counts().with_call(plan.count as u64).with_missing(plan.count as u64),
                ).timed(&ready, watch.diagnostic, data_start)
                &&& ready.journal_stored(
                    after,
                    inode,
                    plan,
                    data,
                    grown,
                    given.0,
                    watch,
                    data_start,
                    outcome,
                )
            };
        taken.with_counts(
            taken.counts().with_call(plan.count as u64).with_missing(plan.count as u64),
        ).lemma_timing_asks(&ready, watch.diagnostic, data_start);
        ready.lemma_journal_stored_appends(
            after,
            inode,
            plan,
            bytes,
            grown,
            given.0,
            watch,
            data_start,
            disk,
            places,
            busy,
        );
        taken.lemma_after_asking(&ready, after, disk);
        self.lemma_after_asking(&taken, after, disk);
        if self.answered_by(after, disk) && self.allots(after, places, busy) && self.fenced(
            inode.id,
            transaction.batch(),
            places,
            busy,
        ) && vacant(places, plan.start_lblock as int, plan.count as int) {
            assert(self.allots(&taken, places, busy)) by {
                assert forall|k: int| self.log().len() <= k < taken.log().len() implies
                takes_free_blocks(#[trigger] taken.log()[k], places, busy) by {
                    assert(after.log().take(taken.log().len() as int)[k] == after.log()[k]);
                    assert(takes_free_blocks(after.log()[k], places, busy));
                }
            }
            self.lemma_taken_may_append(
                &taken,
                inode.id,
                plan,
                transaction,
                grown,
                given,
                places,
                busy,
            );
            assert(ready.may_append(inode.id, plan, grown, given.0, places)) by {
                assert forall|home: PBlockId| #[trigger] ready.spare(inode.id, grown, home)
                    == taken.spare(inode.id, grown, home) by {}
            }
            taken.lemma_appended_later(
                &ready,
                after,
                inode.id,
                plan.start_lblock as int,
                plan.count as int,
                bytes,
                disk,
                places,
            );
            self.lemma_appended_later(
                &taken,
                after,
                inode.id,
                plan.start_lblock as int,
                plan.count as int,
                bytes,
                disk,
                places,
            );
        }
    }
}

/// Preparing a new range through the journal.
impl<D: BlockDevice, V: Volume<D>> Ext4<D, V> {
    /// Planning a range only asks, and plans the range that it is asked for.
    pub(crate) proof fn lemma_planning_asks(
        &self,
        after: &Self,
        inode: InodeRef,
        range: WriteLogicalRange,
        outcome: Result<Option<DirectRangePlan>>,
    )
        requires
            self.range_planned(after, inode, range, outcome),
        ensures
            self.only_asked(after),
            outcome matches Ok(Some(plan)) ==> {
                &&& plan.start_lblock == range.first_lblock
                &&& plan.count == range.block_count
                &&& forall|places: Places, busy: spec_fn(PBlockId) -> bool| #[trigger]
                    self.allots(after, places, busy) ==> vacant(
                        places,
                        plan.start_lblock as int,
                        plan.count as int,
                    )
            },
    {
        assert(after.log().take(self.log().len() as int) =~= self.log());
        if let Ok(Some(plan)) = outcome {
            assert forall|places: Places, busy: spec_fn(PBlockId) -> bool| #[trigger]
                self.allots(after, places, busy) implies vacant(
                places,
                plan.start_lblock as int,
                plan.count as int,
            ) by {
                let k = self.log().len() as int;
                assert(takes_free_blocks(after.log()[k], places, busy));
            }
        }
    }

    /// What is allotted on the way to a later state is so on the way to one before it.
    pub(crate) proof fn lemma_allots_earlier(
        &self,
        middle: &Self,
        after: &Self,
        places: Places,
        busy: spec_fn(PBlockId) -> bool,
    )
        requires
            extends(middle.log(), after.log()),
            self.allots(after, places, busy),
        ensures
            self.allots(middle, places, busy),
    {
        assert forall|k: int| self.log().len() <= k < middle.log().len() implies takes_free_blocks(
            #[trigger] middle.log()[k],
            places,
            busy,
        ) by {
            assert(after.log().take(middle.log().len() as int)[k] == after.log()[k]);
            assert(takes_free_blocks(after.log()[k], places, busy));
        }
    }

    /// Planning a range for an inode through the journal, and what follows, adds the blocks to the
    /// file with their data.
    proof fn lemma_journal_planned_appends(
        &self,
        after: &Self,
        inode: InodeRef,
        range: WriteLogicalRange,
        data: Option<Seq<u8>>,
        transaction: Transaction,
        watch: Stopwatch,
        disk: Disk,
        places: Places,
        busy: spec_fn(PBlockId) -> bool,
    )
        requires
            self.journal_planned(
                after,
                inode,
                range,
                data,
                transaction,
                watch,
                Ok(DirectRangePrepare::DataWritten),
            ),
            transaction.staged().len() == 0,
            ordered(transaction.batch()),
            self.state().mode is Journal,
            self.sound_journal(),
            self.nothing_waits(),
        ensures
            extends(self.log(), after.log()),
            data matches Some(bytes) && bytes.len() >= range.block_count * BLOCK_SIZE,
            self.answered_by(after, disk) && self.allots(after, places, busy) && self.fenced(
                inode.id,
                transaction.batch(),
                places,
                busy,
            ) ==> self.appended(
                after,
                inode.id,
                range.first_lblock as int,
                range.block_count as int,
                data->0.take(range.block_count * BLOCK_SIZE),
                disk,
                places,
            ),
    {
        let outcome = Ok::<DirectRangePrepare, Ext4Error>(DirectRangePrepare::DataWritten);
        let (planned, reply) = choose|planned: Self, reply: Result<Option<DirectRangePlan>>|
            {
                &&& #[trigger] self.range_planned(&planned, inode, range, reply)
                &&& match reply {
                    Ok(Some(plan)) => planned.journal_allocated(
                        after,
                        inode,
                        plan,
                        usable(data, (plan.count * BLOCK_SIZE) as nat),
                        transaction,
                        watch,
                        outcome,
                    ),
                    Ok(None) => {
                        &&& planned.given_up(after, transaction)
                        &&& outcome == Ok::<DirectRangePrepare, Ext4Error>(
                            DirectRangePrepare::Unsupported,
                        )
                    },
                    Err(error) => {
                        &&& planned.given_up(after, transaction)
                        &&& outcome == Err::<DirectRangePrepare, Ext4Error>(error)
                    },
                }
            };
        self.lemma_planning_asks(&planned, inode, range, reply);
        let plan = reply->Ok_0->0;
        let bytes = usable(data, (plan.count * BLOCK_SIZE) as nat);
        planned.lemma_journal_allocated_appends(
            after,
            inode,
            plan,
            bytes,
            transaction,
            watch,
            disk,
            places,
            busy,
        );
        self.lemma_after_asking(&planned, after, disk);
        if self.answered_by(after, disk) && self.allots(after, places, busy) && self.fenced(
            inode.id,
            transaction.batch(),
            places,
            busy,
        ) {
            assert(planned.fenced(inode.id, transaction.batch(), places, busy)) by {
                assert forall|block: PBlockId| #[trigger] planned.logs_to(block) implies busy(
                    block,
                ) by {
                    assert(self.logs_to(block));
                }
            }
            assert(planned.allots(after, places, busy));
            self.lemma_allots_earlier(&planned, after, places, busy);
            assert(planned.answered_by(after, disk));
            assert(bytes->0 == data->0.take(range.block_count * BLOCK_SIZE));
            self.lemma_appended_later(
                &planned,
                after,
                inode.id,
                range.first_lblock as int,
                range.block_count as int,
                bytes->0,
                disk,
                places,
            );
        }
    }

    /// Preparing a new range through the journal adds the blocks to the file with their data.
    pub(crate) proof fn lemma_journal_range_appends(
        &self,
        after: &Self,
        id: InodeId,
        range: WriteLogicalRange,
        data: Option<Seq<u8>>,
        disk: Disk,
        places: Places,
        busy: spec_fn(PBlockId) -> bool,
    )
        requires
            self.journal_range_prepared(
                after,
                id,
                range,
                data,
                Ok(DirectRangePrepare::DataWritten),
            ),
            self.state().mode is Journal,
        ensures
            extends(self.log(), after.log()),
            data matches Some(bytes) && bytes.len() >= range.block_count * BLOCK_SIZE,
            self.answered_by(after, disk) && self.allots(after, places, busy) && self.fenced(
                id,
                self.state().batch(),
                places,
                busy,
            ) ==> self.appended(
                after,
                id,
                range.first_lblock as int,
                range.block_count as int,
                data->0.take(range.block_count * BLOCK_SIZE),
                disk,
                places,
            ),
    {
        let outcome = Ok::<DirectRangePrepare, Ext4Error>(DirectRangePrepare::DataWritten);
        let (ready, watch) = choose|ready: Self, watch: Stopwatch|
            {
                &&& #[trigger] self.watch_started(&ready, watch)
                &&& ready.journal_begun(after, id, range, data, watch, outcome)
            };
        assert(ready.log().take(self.log().len() as int) =~= self.log());
        let (begun, reply) = choose|begun: Self, reply: Result<Transaction>|
            {
                &&& #[trigger] ready.begun(&begun, RANGE_CREDITS, reply)
                &&& match reply {
                    Ok(transaction) => begun.journal_opened(
                        after,
                        id,
                        range,
                        data,
                        transaction,
                        watch,
                        outcome,
                    ),
                    Err(error) => begun.idle(after) && outcome == Err::<
                        DirectRangePrepare,
                        Ext4Error,
                    >(error),
                }
            };
        let transaction = reply->Ok_0;
        let (read, found) = choose|read: Self, found: Result<InodeRef>|
            {
                &&& #[trigger] begun.staged_inode_read(&read, transaction, id, found)
                &&& match found {
                    Ok(inode) => if is_free(inode.inode) {
                        &&& read.given_up(after, transaction)
                        &&& outcome == failed::<DirectRangePrepare>(ErrCode::EINVAL)
                    } else {
                        read.journal_planned(
                            after,
                            inode,
                            range,
                            data,
                            transaction,
                            watch,
                            outcome,
                        )
                    },
                    Err(error) => {
                        &&& read.given_up(after, transaction)
                        &&& outcome == Err::<DirectRangePrepare, Ext4Error>(error)
                    },
                }
            };
        let inode = found->Ok_0;
        begun.lemma_shown_inode_is_read(&read, transaction, id, inode, disk);
        assert(self.asks(&read)) by {
            lemma_extends(self.log(), begun.log(), read.log());
            assert forall|k: int| self.log().len() <= k < read.log().len() implies !writes(
                #[trigger] read.log()[k],
            ) by {
                if k < begun.log().len() {
                    assert(read.log().take(begun.log().len() as int)[k] == read.log()[k]);
                }
            }
        }
        read.lemma_journal_planned_appends(
            after,
            inode,
            range,
            data,
            transaction,
            watch,
            disk,
            places,
            busy,
        );
        self.lemma_after_asking(&read, after, disk);
        if self.answered_by(after, disk) && self.allots(after, places, busy) && self.fenced(
            id,
            self.state().batch(),
            places,
            busy,
        ) {
            assert(transaction.batch() == self.state().batch());
            assert(read.fenced(id, transaction.batch(), places, busy)) by {
                assert forall|block: PBlockId| #[trigger] read.logs_to(block) implies busy(
                    block,
                ) by {
                    assert(self.logs_to(block));
                }
            }
            self.lemma_appended_later(
                &read,
                after,
                id,
                range.first_lblock as int,
                range.block_count as int,
                data->0.take(range.block_count * BLOCK_SIZE),
                disk,
                places,
            );
        }
    }
}

} // verus!
