//! Committing a range allocation without a journal.
//!
//! Allocation homes are written before the inode-table home that makes the extent reachable. A
//! failure before the inode write rolls the allocation homes back.

use vstd::prelude::*;
use crate::commit::{heard, refused};
use crate::commit_plan::CommitFailure;
use crate::device::{extends, BlockDevice, Event, Io};
use crate::durability::writes_to;
use crate::error::{ErrCode, Ext4Error, Result};
use crate::journal_transaction::{
    restored, CommitError, DirectTransactionCore, Transaction, TransactionCoreRef,
};
use crate::staged::{block_of, holds_home, images, CachePublisher, StagedBlock, StagedBlocks};
use crate::trace::{flush_if_reliable, flush_step, halted, lemma_outset, publish_step, reached, write_bytes, Step};
use crate::PBlockId;

verus! {

broadcast use {Io::lemma_stays, Io::lemma_goes_on};

/// Whether an allocation home can be written and rolled back.
pub open spec fn reversible(target: u64, blocks: Seq<StagedBlock>, home: PBlockId) -> bool {
    home < target && holds_home(blocks, home) && block_of(blocks, home).original is Some
}

/// Whether the staged blocks are the given allocation homes and the inode home, all of them
/// reversible.
pub open spec fn is_range(
    target: u64,
    blocks: Seq<StagedBlock>,
    homes: Seq<PBlockId>,
    inode_home: PBlockId,
) -> bool {
    &&& homes.len() > 0
    &&& !homes.contains(inode_home)
    &&& blocks.len() == homes.len() + 1
    &&& reversible(target, blocks, inode_home)
    &&& forall|i: int| 0 <= i < homes.len() ==> reversible(target, blocks, #[trigger] homes[i])
}

/// Allocation homes in the given order, a barrier, the inode home, the publication.
pub open spec fn range_plan(
    blocks: Seq<StagedBlock>,
    homes: Seq<PBlockId>,
    inode_home: PBlockId,
) -> Seq<Step> {
    Seq::new(
        homes.len(),
        |i: int| Step::Write { id: homes[i], data: block_of(blocks, homes[i]).image@ },
    ) + seq![
        Step::Flush,
        Step::Write { id: inode_home, data: block_of(blocks, inode_home).image@ },
        Step::Publish { blocks: images(blocks) },
    ]
}

/// What the first `count` homes held before, last home first, and a barrier.
pub open spec fn rollback_plan(
    blocks: Seq<StagedBlock>,
    homes: Seq<PBlockId>,
    count: nat,
) -> Seq<Step> {
    let writes = Seq::new(
        count,
        |i: int|
            Step::Write {
                id: homes[count - 1 - i],
                data: block_of(blocks, homes[count - 1 - i]).original->0@,
            },
    );
    if count == 0 {
        writes
    } else {
        writes.push(Step::FlushIfReliable)
    }
}

/// How many homes a failure at step `at` leaves to be rolled back.
pub open spec fn touched(homes: Seq<PBlockId>, at: int) -> nat {
    if at < homes.len() {
        (at + 1) as nat
    } else {
        homes.len()
    }
}

/// What follows a failure at step `at` of the plan, and whether it poisons the backend.
pub open spec fn rolled_back(
    blocks: Seq<StagedBlock>,
    homes: Seq<PBlockId>,
    at: int,
    error: Ext4Error,
    log: Seq<Event>,
    log_after: Seq<Event>,
    stop: CommitError,
    poisons: bool,
) -> bool {
    let plan = rollback_plan(blocks, homes, touched(homes, at));
    if at > homes.len() {
        &&& log_after == log
        &&& stop.error == error
        &&& stop.failure == CommitFailure::CommitUncertain
        &&& poisons
    } else {
        match stop.failure {
            CommitFailure::BeforeCommit => {
                &&& reached(log, log_after, plan, plan.len() as int, false)
                &&& stop.error == error
                &&& !poisons
            },
            CommitFailure::CheckpointFailed => {
                &&& exists|step: int| #[trigger]
                    halted(log, log_after, plan, step, false, stop.error)
                &&& poisons
            },
            _ => false,
        }
    }
}

/// What committing a range does to the device, and whether it poisons the backend.
pub open spec fn range_outcome(
    blocks: Seq<StagedBlock>,
    homes: Seq<PBlockId>,
    inode_home: PBlockId,
    log: Seq<Event>,
    log_after: Seq<Event>,
    outcome: core::result::Result<(), CommitError>,
    poisons: bool,
) -> bool {
    let plan = range_plan(blocks, homes, inode_home);
    match outcome {
        Ok(_) => !poisons && reached(log, log_after, plan, plan.len() as int, false),
        Err(stop) => exists|broken: Seq<Event>, at: int, error: Ext4Error|
            {
                &&& #[trigger] halted(log, broken, plan, at, false, error)
                &&& rolled_back(blocks, homes, at, error, broken, log_after, stop, poisons)
            },
    }
}

/// What committing a range does to a backend without a journal.
pub open spec fn range_committed(
    before: DirectTransactionCore,
    after: DirectTransactionCore,
    blocks: Seq<StagedBlock>,
    homes: Seq<PBlockId>,
    inode_home: PBlockId,
    log: Seq<Event>,
    log_after: Seq<Event>,
    outcome: core::result::Result<(), CommitError>,
) -> bool {
    &&& !after.writing()
    &&& after.target() == before.target()
    &&& log_after.len() > log.len()
    &&& log_after[log.len() as int] matches Event::ReliableFlush { reply: reliable }
    &&& if !reliable || !is_range(before.target(), blocks, homes, inode_home) {
        &&& refused(outcome, ErrCode::EINVAL)
        &&& log_after == log.push(Event::ReliableFlush { reply: reliable })
        &&& after.poisoned() == before.poisoned()
    } else {
        exists|poisons: bool|
            {
                &&& #[trigger] range_outcome(
                    blocks,
                    homes,
                    inode_home,
                    log.push(Event::ReliableFlush { reply: true }),
                    log_after,
                    outcome,
                    poisons,
                )
                &&& after.poisoned() == (before.poisoned() || poisons)
            }
    }
}

/// Whether a home can be written and rolled back.
fn can_reverse(target: u64, staged: &StagedBlocks, home: PBlockId) -> (can: bool)
    requires
        staged.inv(),
    ensures
        can == reversible(target, staged@, home),
{
    match staged.get(home) {
        Some(block) => home < target && block.original.is_some(),
        None => false,
    }
}

/// Whether the staged blocks are the given allocation homes and the inode home.
fn check_range(
    target: u64,
    staged: &StagedBlocks,
    homes: &[PBlockId],
    inode_home: PBlockId,
) -> (valid: bool)
    requires
        staged.inv(),
    ensures
        valid == is_range(target, staged@, homes@, inode_home),
{
    let count: usize = homes.len();
    if count == 0 || staged.len() == 0 || staged.len() - 1 != count || !can_reverse(
        target,
        staged,
        inode_home,
    ) {
        return false;
    }
    let mut at: usize = 0;
    while at < count
        invariant
            at <= count,
            count == homes@.len(),
            staged.inv(),
            forall|i: int| 0 <= i < at ==> reversible(target, staged@, #[trigger] homes@[i]),
            forall|i: int| 0 <= i < at ==> homes@[i] != inode_home,
        decreases count - at,
    {
        if homes[at] == inode_home || !can_reverse(target, staged, homes[at]) {
            assert(homes@.contains(homes@[at as int]));
            return false;
        }
        at = at + 1;
    }
    true
}

/// Writes back what the first `count` homes held before, last home first.
fn rollback_direct_range<D: BlockDevice>(
    io: &mut Io<D>,
    staged: &StagedBlocks,
    homes: &[PBlockId],
    count: usize,
) -> (outcome: Result<()>)
    requires
        staged.inv(),
        count <= homes@.len(),
        forall|i: int|
            0 <= i < homes@.len() ==> holds_home(staged@, #[trigger] homes@[i]) && block_of(
                staged@,
                homes@[i],
            ).original is Some,
    ensures
        old(io).grew_to(final(io)),
        ({
            let plan = rollback_plan(staged@, homes@, count as nat);
            match outcome {
                Ok(_) => reached(
                    old(io).log(),
                    final(io).log(),
                    plan,
                    plan.len() as int,
                    false,
                ),
                Err(error) => exists|at: int| #[trigger]
                    halted(old(io).log(), final(io).log(), plan, at, false, error),
            }
        }),
{
    let ghost base = io.log();
    let ghost plan = rollback_plan(staged@, homes@, count as nat);
    proof {
        lemma_outset(base, plan, false);
    }
    let mut left: usize = count;
    while left > 0
        invariant
            old(io).grew_to(io),
            left <= count,
            count <= homes@.len(),
            staged.inv(),
            plan == rollback_plan(staged@, homes@, count as nat),
            forall|i: int|
                0 <= i < homes@.len() ==> holds_home(staged@, #[trigger] homes@[i]) && block_of(
                    staged@,
                    homes@[i],
                ).original is Some,
            base == old(io).log(),
            reached(base, io.log(), plan, count - left, false),
        decreases left,
    {
        left = left - 1;
        let home: PBlockId = homes[left];
        match staged.get(home) {
            Some(block) => match &block.original {
                Some(original) => {
                    assert(plan[count - 1 - left] == (Step::Write { id: home, data: original@ }));
                    match write_bytes(
                        io,
                        home,
                        original,
                        Ghost(base),
                        Ghost(plan),
                        Ghost(count - 1 - left),
                        Ghost(false),
                    ) {
                        Ok(_) => {},
                        Err(error) => {
                            return Err(error);
                        },
                    }
                },
                None => {
                    return Err(Ext4Error::new(ErrCode::EIO));
                },
            },
            None => {
                return Err(Ext4Error::new(ErrCode::EIO));
            },
        }
    }
    if count > 0 {
        return flush_if_reliable(io, Ghost(base), Ghost(plan), Ghost(count as int), Ghost(false));
    }
    Ok(())
}

/// Writes the range, and rolls it back where that is possible.
fn run_range<D: BlockDevice, P: CachePublisher>(
    io: &mut Io<D>,
    publisher: &mut P,
    staged: &StagedBlocks,
    homes: &[PBlockId],
    inode_home: PBlockId,
    Ghost(target): Ghost<u64>,
) -> (outcome: core::result::Result<(), (CommitError, bool)>)
    requires
        staged.inv(),
        is_range(target, staged@, homes@, inode_home),
    ensures
        old(io).grew_to(final(io)),
        heard(*old(publisher), *final(publisher), staged@, outcome is Ok),
        match outcome {
            Ok(_) => range_outcome(
                staged@,
                homes@,
                inode_home,
                old(io).log(),
                final(io).log(),
                Ok(()),
                false,
            ),
            Err((stop, poisons)) => range_outcome(
                staged@,
                homes@,
                inode_home,
                old(io).log(),
                final(io).log(),
                Err(stop),
                poisons,
            ),
        },
{
    let ghost base = io.log();
    let ghost plan = range_plan(staged@, homes@, inode_home);
    let count: usize = homes.len();
    proof {
        lemma_outset(base, plan, false);
    }
    let mut done: usize = 0;
    while done < count
        invariant
            old(io).grew_to(io),
            done <= count,
            count == homes@.len(),
            staged.inv(),
            is_range(target, staged@, homes@, inode_home),
            plan == range_plan(staged@, homes@, inode_home),
            base == old(io).log(),
            reached(base, io.log(), plan, done as int, false),
        decreases count - done,
    {
        let home: PBlockId = homes[done];
        assert(reversible(target, staged@, homes@[done as int]));
        match staged.get(home) {
            Some(block) => {
                match write_bytes(
                    io,
                    home,
                    block.bytes(),
                    Ghost(base),
                    Ghost(plan),
                    Ghost(done as int),
                    Ghost(false),
                ) {
                    Ok(_) => {},
                    Err(error) => {
                        return Err(
                            roll_back(
                                io,
                                staged,
                                homes,
                                done + 1,
                                error,
                                Ghost(target),
                                Ghost(base),
                                Ghost(inode_home),
                                Ghost(done as int),
                            ),
                        );
                    },
                }
            },
            None => {},
        }
        done = done + 1;
    }
    match flush_step(io, Ghost(base), Ghost(plan), Ghost(count as int), Ghost(false)) {
        Ok(_) => {},
        Err(error) => {
            return Err(
                roll_back(
                    io,
                    staged,
                    homes,
                    count,
                    error,
                    Ghost(target),
                    Ghost(base),
                    Ghost(inode_home),
                    Ghost(count as int),
                ),
            );
        },
    }
    match staged.get(inode_home) {
        Some(block) => {
            match write_bytes(
                io,
                inode_home,
                block.bytes(),
                Ghost(base),
                Ghost(plan),
                Ghost(count + 1),
                Ghost(false),
            ) {
                Ok(_) => {},
                Err(error) => {
                    let stop = CommitError { error, failure: CommitFailure::CommitUncertain };
                    assert(halted(base, io.log(), plan, count + 1, false, error));
                    assert(rolled_back(
                        staged@,
                        homes@,
                        count + 1,
                        error,
                        io.log(),
                        io.log(),
                        stop,
                        true,
                    ));
                    return Err((stop, true));
                },
            }
        },
        None => {},
    }
    publish_step(
        io,
        publisher,
        staged,
        Ghost(base),
        Ghost(plan),
        Ghost(count + 2),
        Ghost(false),
    );
    Ok(())
}

/// Rolls back after a failure at step `at`.
fn roll_back<D: BlockDevice>(
    io: &mut Io<D>,
    staged: &StagedBlocks,
    homes: &[PBlockId],
    count: usize,
    error: Ext4Error,
    Ghost(target): Ghost<u64>,
    Ghost(base): Ghost<Seq<Event>>,
    Ghost(inode_home): Ghost<PBlockId>,
    Ghost(at): Ghost<int>,
) -> (stopped: (CommitError, bool))
    requires
        staged.inv(),
        is_range(target, staged@, homes@, inode_home),
        0 <= at <= homes@.len(),
        count == touched(homes@, at),
        halted(
            base,
            old(io).log(),
            range_plan(staged@, homes@, inode_home),
            at,
            false,
            error,
        ),
    ensures
        old(io).grew_to(final(io)),
        range_outcome(
            staged@,
            homes@,
            inode_home,
            base,
            final(io).log(),
            Err(stopped.0),
            stopped.1,
        ),
{
    let ghost broken = io.log();
    assert forall|i: int| 0 <= i < homes@.len() implies holds_home(staged@, #[trigger] homes@[i])
        && block_of(staged@, homes@[i]).original is Some by {
        assert(reversible(target, staged@, homes@[i]));
    }
    let restored = rollback_direct_range(io, staged, homes, count);
    let stopped = match restored {
        Ok(_) => (CommitError { error, failure: CommitFailure::BeforeCommit }, false),
        Err(error) => (CommitError { error, failure: CommitFailure::CheckpointFailed }, true),
    };
    assert(rolled_back(
        staged@,
        homes@,
        at,
        error,
        broken,
        io.log(),
        stopped.0,
        stopped.1,
    ));
    stopped
}

impl Transaction {
    /// Commits a range allocation in semantic order.
    ///
    /// The transaction holds exactly the allocation homes and the inode home. Once the inode write
    /// is attempted its state on the device is uncertain, so a failure there poisons the backend
    /// instead of releasing blocks that the inode may own.
    pub fn commit_direct_range<D: BlockDevice, P: CachePublisher>(
        self,
        core: TransactionCoreRef<'_>,
        io: &mut Io<D>,
        publisher: &mut P,
        allocation_homes: &[PBlockId],
        inode_home: PBlockId,
    ) -> (outcome: core::result::Result<(), CommitError>)
        requires
            self.inv(),
        ensures
            old(io).grew_to(final(io)),
            heard(*old(publisher), *final(publisher), self.staged(), outcome is Ok),
            core is Journal ==> *final(io) == *old(io),
            match core {
                TransactionCoreRef::Journal(journal) => {
                    &&& refused(outcome, ErrCode::EINVAL)
                    &&& final(io).log() == old(io).log()
                    &&& !final(journal).writing()
                    &&& final(journal).poisoned() == journal.poisoned()
                    &&& final(journal).context() == restored(journal.context(), self.deferred())
                },
                TransactionCoreRef::Direct(direct) => range_committed(
                    *direct,
                    *final(direct),
                    self.staged(),
                    allocation_homes@,
                    inode_home,
                    old(io).log(),
                    final(io).log(),
                    outcome,
                ),
            },
    {
        match core {
            TransactionCoreRef::Journal(journal) => {
                self.leave(journal);
                Err(
                    CommitError {
                        error: Ext4Error::new(ErrCode::EINVAL),
                        failure: CommitFailure::BeforeCommit,
                    },
                )
            },
            TransactionCoreRef::Direct(direct) => {
                let ghost before = *direct;
                let ghost log = io.log();
                let reliable = io.supports_reliable_flush();
                let target: u64 = direct.target_blocks();
                let staged = self.staged_blocks();
                if !reliable || !check_range(target, staged, allocation_homes, inode_home) {
                    direct.finish(false);
                    return Err(
                        CommitError {
                            error: Ext4Error::new(ErrCode::EINVAL),
                            failure: CommitFailure::BeforeCommit,
                        },
                    );
                }
                let ghost base = io.log();
                let carried = run_range(
                    io,
                    publisher,
                    staged,
                    allocation_homes,
                    inode_home,
                    Ghost(target),
                );
                match carried {
                    Ok(done) => {
                        assert(done == ());
                        proof {
                            assert(extends(base, io.log()));
                            assert(io.log().take(base.len() as int)[log.len() as int] == base[log.len() as int]);
                        }
                        direct.finish(false);
                        Ok(())
                    },
                    Err((stop, poisons)) => {
                        proof {
                            lemma_range_extends(
                                staged@,
                                allocation_homes@,
                                inode_home,
                                base,
                                io.log(),
                                stop,
                                poisons,
                            );
                            assert(io.log().take(base.len() as int)[log.len() as int] == base[log.len() as int]);
                        }
                        direct.finish(poisons);
                        Err(stop)
                    },
                }
            },
        }
    }
}

/// Committing a range continues the record.
proof fn lemma_range_extends(
    blocks: Seq<StagedBlock>,
    homes: Seq<PBlockId>,
    inode_home: PBlockId,
    log: Seq<Event>,
    log_after: Seq<Event>,
    stop: CommitError,
    poisons: bool,
)
    requires
        range_outcome(blocks, homes, inode_home, log, log_after, Err(stop), poisons),
    ensures
        extends(log, log_after),
{
    let plan = range_plan(blocks, homes, inode_home);
    let (broken, at, error) = choose|broken: Seq<Event>, at: int, error: Ext4Error|
        {
            &&& #[trigger] halted(log, broken, plan, at, false, error)
            &&& rolled_back(blocks, homes, at, error, broken, log_after, stop, poisons)
        };
    assert(extends(log, broken));
    assert(extends(broken, log_after)) by {
        assert(broken.take(broken.len() as int) =~= broken);
    }
    assert(log_after.take(log.len() as int) =~= broken.take(log.len() as int));
}

/// The inode home is written once, behind the barrier that follows the allocation homes.
pub proof fn lemma_inode_written_last(
    target: u64,
    blocks: Seq<StagedBlock>,
    homes: Seq<PBlockId>,
    inode_home: PBlockId,
    i: int,
)
    requires
        is_range(target, blocks, homes, inode_home),
        0 <= i < range_plan(blocks, homes, inode_home).len(),
        writes_to(range_plan(blocks, homes, inode_home)[i], inode_home),
    ensures
        i == homes.len() + 1,
        range_plan(blocks, homes, inode_home)[homes.len() as int] == Step::Flush,
{
    let plan = range_plan(blocks, homes, inode_home);
    if i < homes.len() {
        assert(plan[i] == (Step::Write { id: homes[i], data: block_of(blocks, homes[i]).image@ }));
        assert(homes.contains(homes[i]));
    }
}

/// The rollback after a failure at step `at` restores every allocation home that an attempted
/// write named, and writes nothing but what homes held before.
pub proof fn lemma_rollback_restores(
    blocks: Seq<StagedBlock>,
    homes: Seq<PBlockId>,
    inode_home: PBlockId,
    at: int,
    i: int,
)
    requires
        homes.len() > 0,
        0 <= at <= homes.len(),
        0 <= i <= at,
        range_plan(blocks, homes, inode_home)[i] is Write,
    ensures
        ({
            let plan = rollback_plan(blocks, homes, touched(homes, at));
            let restored = plan[touched(homes, at) - 1 - i];
            &&& 0 <= touched(homes, at) - 1 - i < plan.len()
            &&& range_plan(blocks, homes, inode_home)[i]->Write_id == homes[i]
            &&& restored == (Step::Write {
                id: homes[i],
                data: block_of(blocks, homes[i]).original->0@,
            })
            &&& forall|k: int|
                0 <= k < plan.len() ==> (#[trigger] plan[k] matches Step::Write { id, data }
                    ==> data == block_of(blocks, id).original->0@)
        }),
{
    let plan = range_plan(blocks, homes, inode_home);
    if i == homes.len() {
        assert(plan[i] == Step::Flush);
    }
}

} // verus!
