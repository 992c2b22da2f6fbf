//! What a journal commit leaves on the device when it succeeds and when it fails.

use vstd::prelude::*;
use crate::commit::{home_refusal, journal_outcome, log_fits};
use crate::commit_plan::{
    checkpoint_part, commit_part, home_writes, joined, journal_failure, journal_plan, lemma_log_len,
    lemma_run_end, log_data, log_homes, log_part, log_writes, run_end, run_step, tail_part,
    CommitFailure,
};
use crate::context::JournalContext;
use crate::device::{since, Event, JournalCommitReason, JournalFlushPhase};
use crate::error::Ext4Error;
use crate::journal_log::{
    group_at, group_log, lemma_ring_positions_distinct, log_of_groups, ring_slice,
};
use crate::journal_transaction::CommitError;
use crate::staged::StagedBlock;
use crate::trace::{cuts, halted, performed, step_done, step_failed, Step};
use crate::{BLOCK_SIZE, PBlockId};

verus! {

/// Whether a step writes to `block`.
pub open spec fn writes_to(step: Step, block: PBlockId) -> bool {
    match step {
        Step::Patch { id, prefix } => block == id,
        Step::Write { id, data } => block == id,
        Step::WriteRun { start, data } => exists|k: int|
            0 <= k < data.len() / BLOCK_SIZE as nat && block == #[trigger] start.wrapping_add(
                k as u64,
            ),
        _ => false,
    }
}

/// Whether a call writes to `block`.
pub open spec fn call_writes(call: Event, block: PBlockId) -> bool {
    match call {
        Event::WriteBlock { id, data, reply } => block == id,
        Event::WriteBlocks { start, data, reply } => writes_to(
            Step::WriteRun { start, data },
            block,
        ),
        _ => false,
    }
}

/// Whether every read is answered with the block that was asked for.
pub open spec fn honest_reads(calls: Seq<Event>) -> bool {
    forall|k: int|
        0 <= k < calls.len() ==> (#[trigger] calls[k] matches Event::ReadBlock {
            id,
            reply: Ok(block),
        } ==> block.id == id)
}

/// The blocks that a step's calls write to are those that the step writes to.
proof fn lemma_step_writes(step: Step, diagnostic: bool, calls: Seq<Event>, k: int, block: PBlockId)
    requires
        step_done(step, diagnostic, calls) || exists|error: Ext4Error|
            step_failed(step, diagnostic, calls, error),
        honest_reads(calls),
        0 <= k < calls.len(),
        call_writes(calls[k], block),
    ensures
        writes_to(step, block),
{
    match step {
        Step::Patch { id, prefix } => {
            assert(calls[0] is ReadBlock);
        },
        _ => {},
    }
}

/// A write of a completed plan belongs to one of its steps.
proof fn lemma_performed_writes(
    steps: Seq<Step>,
    diagnostic: bool,
    calls: Seq<Event>,
    k: int,
    block: PBlockId,
)
    requires
        performed(steps, diagnostic, calls),
        honest_reads(calls),
        0 <= k < calls.len(),
        call_writes(calls[k], block),
    ensures
        exists|i: int| 0 <= i < steps.len() && writes_to(#[trigger] steps[i], block),
    decreases steps.len(),
{
    let cut = choose|cut: int|
        {
            &&& #[trigger] cuts(calls, cut)
            &&& performed(steps.drop_last(), diagnostic, calls.take(cut))
            &&& step_done(steps.last(), diagnostic, calls.skip(cut))
        };
    if k < cut {
        assert forall|n: int| 0 <= n < cut implies (#[trigger] calls.take(cut)[n] matches
            Event::ReadBlock { id, reply: Ok(block) } ==> block.id == id) by {
            assert(calls.take(cut)[n] == calls[n]);
        }
        assert(calls.take(cut)[k] == calls[k]);
        lemma_performed_writes(steps.drop_last(), diagnostic, calls.take(cut), k, block);
        let i = choose|i: int|
            0 <= i < steps.drop_last().len() && writes_to(#[trigger] steps.drop_last()[i], block);
        assert(writes_to(steps[i], block));
    } else {
        assert forall|n: int| 0 <= n < calls.skip(cut).len() implies (#[trigger] calls.skip(
            cut,
        )[n] matches Event::ReadBlock { id, reply: Ok(block) } ==> block.id == id) by {
            assert(calls.skip(cut)[n] == calls[n + cut]);
        }
        assert(calls.skip(cut)[k - cut] == calls[k]);
        lemma_step_writes(steps.last(), diagnostic, calls.skip(cut), k - cut, block);
        assert(writes_to(steps[steps.len() - 1], block));
    }
}

/// A write of a plan that came to a halt belongs to one of the steps that were attempted.
proof fn lemma_halted_writes(
    base: Seq<Event>,
    log: Seq<Event>,
    plan: Seq<Step>,
    at: int,
    diagnostic: bool,
    error: Ext4Error,
    k: int,
    block: PBlockId,
)
    requires
        halted(base, log, plan, at, diagnostic, error),
        honest_reads(since(base, log)),
        0 <= k < since(base, log).len(),
        call_writes(since(base, log)[k], block),
    ensures
        exists|i: int| 0 <= i <= at && writes_to(#[trigger] plan[i], block),
{
    let calls = since(base, log);
    let cut = choose|cut: int|
        {
            &&& #[trigger] cuts(calls, cut)
            &&& performed(plan.take(at), diagnostic, calls.take(cut))
            &&& step_failed(plan[at], diagnostic, calls.skip(cut), error)
        };
    if k < cut {
        assert forall|n: int| 0 <= n < cut implies (#[trigger] calls.take(cut)[n] matches
            Event::ReadBlock { id, reply: Ok(block) } ==> block.id == id) by {
            assert(calls.take(cut)[n] == calls[n]);
        }
        lemma_performed_writes(plan.take(at), diagnostic, calls.take(cut), k, block);
        let i = choose|i: int|
            0 <= i < plan.take(at).len() && writes_to(#[trigger] plan.take(at)[i], block);
        assert(writes_to(plan[i], block));
    } else {
        assert forall|n: int| 0 <= n < calls.skip(cut).len() implies (#[trigger] calls.skip(
            cut,
        )[n] matches Event::ReadBlock { id, reply: Ok(block) } ==> block.id == id) by {
            assert(calls.skip(cut)[n] == calls[n + cut]);
        }
        assert(calls.skip(cut)[k - cut] == calls[k]);
        assert(step_failed(plan[at], diagnostic, calls.skip(cut), error));
        lemma_step_writes(plan[at], diagnostic, calls.skip(cut), k - cut, block);
        assert(writes_to(plan[at], block));
    }
}

/// The bytes of equally long blocks.
proof fn lemma_joined_len(data: Seq<Seq<u8>>)
    requires
        forall|i: int| 0 <= i < data.len() ==> (#[trigger] data[i]).len() == BLOCK_SIZE,
    ensures
        joined(data).len() == data.len() * BLOCK_SIZE,
    decreases data.len(),
{
    if data.len() > 0 {
        let front = data.drop_last();
        assert forall|i: int| 0 <= i < front.len() implies (#[trigger] front[i]).len()
            == BLOCK_SIZE by {
            assert(front[i] == data[i]);
        }
        lemma_joined_len(front);
        assert(data[data.len() - 1].len() == BLOCK_SIZE);
    }
}

/// The writes of the log go to the blocks of the log.
proof fn lemma_log_writes_to(
    blocks: Seq<PBlockId>,
    data: Seq<Seq<u8>>,
    start: int,
    i: int,
    block: PBlockId,
)
    requires
        data.len() == blocks.len(),
        forall|n: int| 0 <= n < data.len() ==> (#[trigger] data[n]).len() == BLOCK_SIZE,
        0 <= start,
        0 <= i < log_writes(blocks, data, start).len(),
        writes_to(log_writes(blocks, data, start)[i], block),
    ensures
        blocks.contains(block),
    decreases blocks.len() - start,
{
    let writes = log_writes(blocks, data, start);
    let end = run_end(blocks, start, start + 1);
    assert(blocks[start].wrapping_add(0) == blocks[start]);
    lemma_run_end(blocks, start, start + 1);
    if i == 0 {
        assert(writes[0] == run_step(blocks, data, start, end));
        if end - start > 1 {
            let run = data.subrange(start, end);
            assert forall|n: int| 0 <= n < run.len() implies (#[trigger] run[n]).len()
                == BLOCK_SIZE by {
                assert(run[n] == data[start + n]);
            }
            lemma_joined_len(run);
            let k = choose|k: int|
                0 <= k < joined(run).len() / BLOCK_SIZE as nat && block
                    == #[trigger] blocks[start].wrapping_add(k as u64);
            assert(k < end - start);
            assert(blocks[start + k] == blocks[start].wrapping_add(k as u64));
            assert(blocks.contains(blocks[start + k]));
        } else {
            assert(blocks.contains(blocks[start]));
        }
    } else {
        assert(writes[i] == log_writes(blocks, data, end)[i - 1]);
        lemma_log_writes_to(blocks, data, end, i - 1, block);
    }
}

/// Every log block is as long as a device block.
proof fn lemma_log_block_len(context: JournalContext, blocks: Seq<StagedBlock>, groups: nat)
    ensures
        forall|n: int|
            0 <= n < log_of_groups(
                context.superblock,
                context.superblock.sequence,
                blocks,
                groups,
            ).len() ==> (#[trigger] log_of_groups(
                context.superblock,
                context.superblock.sequence,
                blocks,
                groups,
            )[n]).len() == BLOCK_SIZE,
    decreases groups,
{
    if groups > 0 {
        let sb = context.superblock;
        let sequence = sb.sequence;
        let before = log_of_groups(sb, sequence, blocks, (groups - 1) as nat);
        let group = group_at(
            sb,
            blocks,
            (groups - 1) * crate::journal_log::descriptor_tags(sb.features),
        );
        lemma_log_block_len(context, blocks, (groups - 1) as nat);
        lemma_descriptor_len(context, group, group.len());
        let log = log_of_groups(sb, sequence, blocks, groups);
        let added = group_log(sb, sequence, group);
        assert forall|n: int| 0 <= n < log.len() implies (#[trigger] log[n]).len()
            == BLOCK_SIZE by {
            if n < before.len() {
                assert(log[n] == before[n]);
            } else {
                assert(log[n] == added[n - before.len()]);
            }
        }
    }
}

/// A descriptor is as long as a device block.
proof fn lemma_descriptor_len(context: JournalContext, group: Seq<StagedBlock>, count: nat)
    ensures
        crate::journal_log::with_tags(
            context.superblock,
            context.superblock.sequence,
            group,
            count,
        ).len() == BLOCK_SIZE,
    decreases count,
{
    if count > 0 {
        lemma_descriptor_len(context, group, (count - 1) as nat);
    }
}

/// Only the steps between the barrier of the commit record and the barrier of the checkpoint
/// write to a block outside the journal.
pub proof fn lemma_outside_written_between_barriers(
    context: JournalContext,
    blocks: Seq<StagedBlock>,
    since: usize,
    reason: JournalCommitReason,
    i: int,
    home: PBlockId,
)
    requires
        context.inv(),
        log_fits(context, blocks),
        !context.journal_blocks@.contains(home),
        0 <= i < journal_plan(context, blocks, since, reason).len(),
        writes_to(journal_plan(context, blocks, since, reason)[i], home),
    ensures
        ({
            let plan = journal_plan(context, blocks, since, reason);
            let logged = log_part(context, blocks).len() as int;
            let sequence = context.superblock.sequence;
            &&& plan[logged + 1] == (Step::Barrier {
                transaction: sequence,
                phase: JournalFlushPhase::CommitRecord,
            })
            &&& plan[logged + 2 + blocks.len()] == (Step::Barrier {
                transaction: sequence,
                phase: JournalFlushPhase::Checkpoint,
            })
            &&& logged + 1 < i < logged + 2 + blocks.len()
        }),
{
    let plan = journal_plan(context, blocks, since, reason);
    let data = log_data(context, blocks);
    let homes = log_homes(context, data.len());
    let writes = log_writes(homes, data, 0);
    let logged = log_part(context, blocks).len() as int;
    let tail = logged + 3 + blocks.len();
    lemma_log_len(context, blocks);
    lemma_ring_positions_distinct(context.superblock, context.head, (data.len() + 1) as nat);
    let positions = ring_slice(context.superblock, context.head, (data.len() + 1) as nat);
    assert(context.journal_blocks@.contains(context.logical_blocks@[0]));
    if i < logged {
        if i == 0 {
        } else if i < logged - 1 {
            assert(plan[i] == writes[i - 1]);
            lemma_log_block_len(
                context,
                blocks,
                crate::journal_log::descriptor_blocks(blocks.len(), context.superblock.features),
            );
            lemma_log_writes_to(homes, data, 0, i - 1, home);
            let n = choose|n: int| 0 <= n < homes.len() && homes[n] == home;
            assert(crate::journal_log::in_ring(context.superblock, positions[n]));
            assert(context.journal_blocks@.contains(
                context.logical_blocks@[positions[n] as int],
            ));
        } else {
            assert(plan[i] == log_part(context, blocks)[i]);
        }
    } else if i == logged {
        assert(crate::journal_log::in_ring(
            context.superblock,
            positions[data.len() as int],
        ));
        assert(context.journal_blocks@.contains(
            context.logical_blocks@[positions[data.len() as int] as int],
        ));
        assert(plan[i] == commit_part(context, blocks)[0]);
    } else if i == logged + 1 {
        assert(plan[i] == commit_part(context, blocks)[1]);
    } else if i >= tail - 1 {
        if i == tail - 1 {
            assert(plan[i] == checkpoint_part(context, blocks).last());
        } else {
            assert(plan[i] == tail_part(context, blocks, since, reason)[i - tail]);
        }
    }
}

/// Only the steps between the barrier of the commit record and the barrier of the checkpoint
/// write to a home block.
pub proof fn lemma_homes_written_between_barriers(
    context: JournalContext,
    blocks: Seq<StagedBlock>,
    since: usize,
    reason: JournalCommitReason,
    i: int,
    j: int,
)
    requires
        context.inv(),
        log_fits(context, blocks),
        home_refusal(context, blocks) is None,
        0 <= j < blocks.len(),
        0 <= i < journal_plan(context, blocks, since, reason).len(),
        writes_to(journal_plan(context, blocks, since, reason)[i], blocks[j].home),
    ensures
        ({
            let plan = journal_plan(context, blocks, since, reason);
            let logged = log_part(context, blocks).len() as int;
            let sequence = context.superblock.sequence;
            &&& plan[logged + 1] == (Step::Barrier {
                transaction: sequence,
                phase: JournalFlushPhase::CommitRecord,
            })
            &&& plan[logged + 2 + blocks.len()] == (Step::Barrier {
                transaction: sequence,
                phase: JournalFlushPhase::Checkpoint,
            })
            &&& logged + 1 < i < logged + 2 + blocks.len()
        }),
{
    assert(!crate::commit::foreign_home(context, blocks[j].home));
    lemma_outside_written_between_barriers(context, blocks, since, reason, i, blocks[j].home);
}

/// A commit that fails before its record is durable has written to no home block, as long as
/// reads are answered with the block that was asked for.
pub proof fn lemma_uncommitted_leaves_homes(
    context: JournalContext,
    blocks: Seq<StagedBlock>,
    reason: JournalCommitReason,
    before: Seq<Event>,
    after: Seq<Event>,
    stop: CommitError,
    poisons: bool,
    k: int,
    j: int,
)
    requires
        context.inv(),
        journal_outcome(context, blocks, reason, before, after, Err(stop), poisons),
        stop.failure == CommitFailure::BeforeCommit || stop.failure
            == CommitFailure::CommitUncertain,
        honest_reads(since(before, after)),
        0 <= k < since(before, after).len(),
        0 <= j < blocks.len(),
    ensures
        !call_writes(since(before, after)[k], blocks[j].home),
        !(since(before, after)[k] is Publish),
{
    let calls = since(before, after);
    if calls[0]->ReliableFlush_reply && log_fits(context, blocks) && home_refusal(
        context,
        blocks,
    ) is None {
        let diagnostic = calls[1]->Diagnostics_reply;
        let asked: int = if diagnostic {
            3
        } else {
            2
        };
        let start = if diagnostic {
            calls[2]->Cycles_reply
        } else {
            0usize
        };
        let base = after.take(before.len() + asked);
        let plan = journal_plan(context, blocks, start, reason);
        let at = choose|at: int|
            {
                &&& #[trigger] halted(base, after, plan, at, diagnostic, stop.error)
                &&& stop.failure == journal_failure(context, blocks, at)
            };
        if k >= asked {
            let rest = since(base, after);
            assert(rest[k - asked] == calls[k]);
            if call_writes(calls[k], blocks[j].home) {
                assert forall|n: int| 0 <= n < rest.len() implies (#[trigger] rest[n] matches
                    Event::ReadBlock { id, reply: Ok(block) } ==> block.id == id) by {
                    assert(rest[n] == calls[n + asked]);
                }
                lemma_halted_writes(
                    base,
                    after,
                    plan,
                    at,
                    diagnostic,
                    stop.error,
                    k - asked,
                    blocks[j].home,
                );
                let i = choose|i: int|
                    0 <= i <= at && writes_to(#[trigger] plan[i], blocks[j].home);
                lemma_homes_written_between_barriers(context, blocks, start, reason, i, j);
            }
            if calls[k] is Publish {
                lemma_halted_publishes(
                    base,
                    after,
                    plan,
                    at,
                    diagnostic,
                    stop.error,
                    k - asked,
                );
                let i = choose|i: int| 0 <= i <= at && #[trigger] plan[i] is Publish;
                lemma_publication_follows_checkpoint(context, blocks, start, reason, i);
            }
        }
    }
}

/// Only a publishing step publishes.
proof fn lemma_step_publishes(step: Step, diagnostic: bool, calls: Seq<Event>, k: int)
    requires
        step_done(step, diagnostic, calls) || exists|error: Ext4Error|
            step_failed(step, diagnostic, calls, error),
        0 <= k < calls.len(),
        calls[k] is Publish,
    ensures
        step is Publish,
{
    if step_done(step, diagnostic, calls) {
        assert(k == 0 || k == 1 || k == 2 || k == 3);
    } else {
        assert(k == 0 || k == 1);
    }
}

/// A publication of a completed plan belongs to one of its steps.
proof fn lemma_performed_publishes(
    steps: Seq<Step>,
    diagnostic: bool,
    calls: Seq<Event>,
    k: int,
)
    requires
        performed(steps, diagnostic, calls),
        0 <= k < calls.len(),
        calls[k] is Publish,
    ensures
        exists|i: int| 0 <= i < steps.len() && #[trigger] steps[i] is Publish,
    decreases steps.len(),
{
    let cut = choose|cut: int|
        {
            &&& #[trigger] cuts(calls, cut)
            &&& performed(steps.drop_last(), diagnostic, calls.take(cut))
            &&& step_done(steps.last(), diagnostic, calls.skip(cut))
        };
    if k < cut {
        assert(calls.take(cut)[k] == calls[k]);
        lemma_performed_publishes(steps.drop_last(), diagnostic, calls.take(cut), k);
        let i = choose|i: int|
            0 <= i < steps.drop_last().len() && #[trigger] steps.drop_last()[i] is Publish;
        assert(steps[i] is Publish);
    } else {
        assert(calls.skip(cut)[k - cut] == calls[k]);
        lemma_step_publishes(steps.last(), diagnostic, calls.skip(cut), k - cut);
        assert(steps[steps.len() - 1] is Publish);
    }
}

/// A publication of a plan that came to a halt belongs to one of the steps that were attempted.
proof fn lemma_halted_publishes(
    base: Seq<Event>,
    log: Seq<Event>,
    plan: Seq<Step>,
    at: int,
    diagnostic: bool,
    error: Ext4Error,
    k: int,
)
    requires
        halted(base, log, plan, at, diagnostic, error),
        0 <= k < since(base, log).len(),
        since(base, log)[k] is Publish,
    ensures
        exists|i: int| 0 <= i <= at && #[trigger] plan[i] is Publish,
{
    let calls = since(base, log);
    let cut = choose|cut: int|
        {
            &&& #[trigger] cuts(calls, cut)
            &&& performed(plan.take(at), diagnostic, calls.take(cut))
            &&& step_failed(plan[at], diagnostic, calls.skip(cut), error)
        };
    if k < cut {
        assert(calls.take(cut)[k] == calls[k]);
        lemma_performed_publishes(plan.take(at), diagnostic, calls.take(cut), k);
        let i = choose|i: int|
            0 <= i < plan.take(at).len() && #[trigger] plan.take(at)[i] is Publish;
        assert(plan[i] is Publish);
    } else {
        assert(calls.skip(cut)[k - cut] == calls[k]);
        assert(step_failed(plan[at], diagnostic, calls.skip(cut), error));
        lemma_step_publishes(plan[at], diagnostic, calls.skip(cut), k - cut);
        assert(plan[at] is Publish);
    }
}

/// Images are published only behind the barrier of the checkpoint.
pub proof fn lemma_publication_follows_checkpoint(
    context: JournalContext,
    blocks: Seq<StagedBlock>,
    since: usize,
    reason: JournalCommitReason,
    i: int,
)
    requires
        0 <= i < journal_plan(context, blocks, since, reason).len(),
        journal_plan(context, blocks, since, reason)[i] is Publish,
    ensures
        i > log_part(context, blocks).len() + 2 + blocks.len(),
{
    let plan = journal_plan(context, blocks, since, reason);
    let data = log_data(context, blocks);
    let homes = log_homes(context, data.len());
    let writes = log_writes(homes, data, 0);
    let logged = log_part(context, blocks).len() as int;
    let tail = logged + 3 + blocks.len();
    if i < tail {
        if 0 < i < logged - 1 {
            assert(plan[i] == writes[i - 1]);
            lemma_log_writes_kind(homes, data, 0, i - 1);
        } else if i < logged {
            assert(plan[i] == log_part(context, blocks)[i]);
        } else if i < logged + 2 {
            assert(plan[i] == commit_part(context, blocks)[i - logged]);
        } else {
            assert(plan[i] == checkpoint_part(context, blocks)[i - logged - 2]);
        }
    }
}

/// The writes of the log are writes.
proof fn lemma_log_writes_kind(blocks: Seq<PBlockId>, data: Seq<Seq<u8>>, start: int, i: int)
    requires
        0 <= start,
        0 <= i < log_writes(blocks, data, start).len(),
    ensures
        log_writes(blocks, data, start)[i] is Write || log_writes(blocks, data, start)[i]
            is WriteRun,
    decreases blocks.len() - start,
{
    let end = run_end(blocks, start, start + 1);
    assert(blocks[start].wrapping_add(0) == blocks[start]);
    lemma_run_end(blocks, start, start + 1);
    if i > 0 {
        assert(log_writes(blocks, data, start)[i] == log_writes(blocks, data, end)[i - 1]);
        lemma_log_writes_kind(blocks, data, end, i - 1);
    }
}

/// Where the calls of one step of a completed plan stand.
pub open spec fn done_between(
    step: Step,
    diagnostic: bool,
    calls: Seq<Event>,
    from: int,
    to: int,
) -> bool {
    0 <= from <= to <= calls.len() && step_done(step, diagnostic, calls.subrange(from, to))
}

/// The calls of two steps of a completed plan follow each other.
proof fn lemma_performed_pair(
    steps: Seq<Step>,
    diagnostic: bool,
    calls: Seq<Event>,
    i: int,
    j: int,
)
    requires
        performed(steps, diagnostic, calls),
        0 <= i < j < steps.len(),
    ensures
        exists|a: int, b: int, c: int, d: int|
            {
                &&& #[trigger] done_between(steps[i], diagnostic, calls, a, b)
                &&& #[trigger] done_between(steps[j], diagnostic, calls, c, d)
                &&& b <= c
            },
    decreases steps.len(),
{
    let cut = choose|cut: int|
        {
            &&& #[trigger] cuts(calls, cut)
            &&& performed(steps.drop_last(), diagnostic, calls.take(cut))
            &&& step_done(steps.last(), diagnostic, calls.skip(cut))
        };
    let front = calls.take(cut);
    if j < steps.len() - 1 {
        lemma_performed_pair(steps.drop_last(), diagnostic, front, i, j);
        let (a, b, c, d) = choose|a: int, b: int, c: int, d: int|
            {
                &&& #[trigger] done_between(steps.drop_last()[i], diagnostic, front, a, b)
                &&& #[trigger] done_between(steps.drop_last()[j], diagnostic, front, c, d)
                &&& b <= c
            };
        assert(front.subrange(a, b) =~= calls.subrange(a, b));
        assert(front.subrange(c, d) =~= calls.subrange(c, d));
        assert(done_between(steps[i], diagnostic, calls, a, b));
        assert(done_between(steps[j], diagnostic, calls, c, d));
    } else {
        lemma_performed_one(steps.drop_last(), diagnostic, front, i);
        let (a, b) = choose|a: int, b: int| #[trigger]
            done_between(steps.drop_last()[i], diagnostic, front, a, b);
        assert(front.subrange(a, b) =~= calls.subrange(a, b));
        assert(calls.skip(cut) =~= calls.subrange(cut, calls.len() as int));
        assert(done_between(steps[i], diagnostic, calls, a, b));
        assert(done_between(steps[j], diagnostic, calls, cut, calls.len() as int));
    }
}

/// The calls of a step of a completed plan.
proof fn lemma_performed_one(steps: Seq<Step>, diagnostic: bool, calls: Seq<Event>, i: int)
    requires
        performed(steps, diagnostic, calls),
        0 <= i < steps.len(),
    ensures
        exists|a: int, b: int| #[trigger] done_between(steps[i], diagnostic, calls, a, b),
    decreases steps.len(),
{
    let cut = choose|cut: int|
        {
            &&& #[trigger] cuts(calls, cut)
            &&& performed(steps.drop_last(), diagnostic, calls.take(cut))
            &&& step_done(steps.last(), diagnostic, calls.skip(cut))
        };
    let front = calls.take(cut);
    if i < steps.len() - 1 {
        lemma_performed_one(steps.drop_last(), diagnostic, front, i);
        let (a, b) = choose|a: int, b: int| #[trigger]
            done_between(steps.drop_last()[i], diagnostic, front, a, b);
        assert(front.subrange(a, b) =~= calls.subrange(a, b));
        assert(done_between(steps[i], diagnostic, calls, a, b));
    } else {
        assert(calls.skip(cut) =~= calls.subrange(cut, calls.len() as int));
        assert(done_between(steps[i], diagnostic, calls, cut, calls.len() as int));
    }
}

/// Whether `calls` stores `image` in `home` and makes it durable afterwards.
pub open spec fn stored_durably(calls: Seq<Event>, home: PBlockId, image: Seq<u8>) -> bool {
    exists|write: int, flush: int|
        {
            &&& 0 <= write < flush < calls.len()
            &&& #[trigger] calls[write] == (Event::WriteBlock {
                id: home,
                data: image,
                reply: Ok(()),
            })
            &&& #[trigger] calls[flush] == (Event::Flush { reply: Ok(()) })
        }
}

/// A commit that succeeds has stored every image in its home block, and made it durable.
pub proof fn lemma_commit_is_durable(
    context: JournalContext,
    blocks: Seq<StagedBlock>,
    reason: JournalCommitReason,
    before: Seq<Event>,
    after: Seq<Event>,
    j: int,
)
    requires
        journal_outcome(context, blocks, reason, before, after, Ok(()), false),
        0 <= j < blocks.len(),
    ensures
        stored_durably(since(before, after), blocks[j].home, blocks[j].image@),
{
    let calls = since(before, after);
    let diagnostic = calls[1]->Diagnostics_reply;
    let asked: int = if diagnostic {
        3
    } else {
        2
    };
    let start = if diagnostic {
        calls[2]->Cycles_reply
    } else {
        0usize
    };
    let base = after.take(before.len() + asked);
    let plan = journal_plan(context, blocks, start, reason);
    let logged = log_part(context, blocks).len() as int;
    let barrier_at = logged + 2 + blocks.len();
    let rest = since(base, after);
    assert(plan.take(plan.len() as int) =~= plan);
    assert(plan[logged + 2 + j] == home_writes(blocks)[j]);
    assert(plan[barrier_at] == checkpoint_part(context, blocks).last());
    lemma_performed_pair(plan, diagnostic, rest, logged + 2 + j, barrier_at);
    let (a, b, c, d) = choose|a: int, b: int, c: int, d: int|
        {
            &&& #[trigger] done_between(plan[logged + 2 + j], diagnostic, rest, a, b)
            &&& #[trigger] done_between(plan[barrier_at], diagnostic, rest, c, d)
            &&& b <= c
        };
    let write = Event::WriteBlock { id: blocks[j].home, data: blocks[j].image@, reply: Ok(()) };
    assert(plan[logged + 2 + j] == (Step::Write {
        id: blocks[j].home,
        data: blocks[j].image@,
    }));
    assert(rest.subrange(a, b) == seq![write]);
    assert(rest.subrange(a, b).len() == 1);
    assert(rest.subrange(a, b)[0] == rest[a]);
    let flush: int = if diagnostic {
        c + 1
    } else {
        c
    };
    let barrier = rest.subrange(c, d);
    assert(step_done(plan[barrier_at], diagnostic, barrier));
    assert(plan[barrier_at] is Barrier);
    assert(barrier.len() == d - c);
    assert(if diagnostic {
        barrier.len() == 4
    } else {
        barrier == seq![Event::Flush { reply: Ok(()) }] && barrier.len() == 1
    });
    assert(barrier[flush - c] == rest[flush]);
    assert(calls[a + asked] == rest[a]);
    assert(calls[flush + asked] == rest[flush]);
    assert(calls[a + asked] == (Event::WriteBlock {
        id: blocks[j].home,
        data: blocks[j].image@,
        reply: Ok(()),
    }));
    assert(calls[flush + asked] == (Event::Flush { reply: Ok(()) }));
}

/// The blocks and bytes that a log write stores.
pub open spec fn stored_by(step: Step) -> Seq<(PBlockId, Seq<u8>)> {
    match step {
        Step::Write { id, data } => seq![(id, data)],
        Step::WriteRun { start, data } => Seq::new(
            data.len() / BLOCK_SIZE as nat,
            |k: int|
                (
                    start.wrapping_add(k as u64),
                    data.subrange(k * BLOCK_SIZE, (k + 1) * BLOCK_SIZE),
                ),
        ),
        _ => Seq::empty(),
    }
}

/// The blocks and bytes that several log writes store, in order.
pub open spec fn stored_by_all(steps: Seq<Step>) -> Seq<(PBlockId, Seq<u8>)>
    decreases steps.len(),
{
    if steps.len() == 0 {
        Seq::empty()
    } else {
        stored_by(steps[0]) + stored_by_all(steps.skip(1))
    }
}

/// One block of joined blocks.
proof fn lemma_joined_block(data: Seq<Seq<u8>>, k: int)
    requires
        forall|i: int| 0 <= i < data.len() ==> (#[trigger] data[i]).len() == BLOCK_SIZE,
        0 <= k < data.len(),
    ensures
        joined(data).len() == data.len() * BLOCK_SIZE,
        joined(data).subrange(k * BLOCK_SIZE, (k + 1) * BLOCK_SIZE) == data[k],
    decreases data.len(),
{
    let front = data.drop_last();
    assert forall|i: int| 0 <= i < front.len() implies (#[trigger] front[i]).len()
        == BLOCK_SIZE by {
        assert(front[i] == data[i]);
    }
    lemma_joined_len(front);
    lemma_joined_len(data);
    assert(data[data.len() - 1].len() == BLOCK_SIZE);
    if k < front.len() {
        lemma_joined_block(front, k);
        assert(joined(data).subrange(k * BLOCK_SIZE, (k + 1) * BLOCK_SIZE) =~= joined(
            front,
        ).subrange(k * BLOCK_SIZE, (k + 1) * BLOCK_SIZE));
    } else {
        assert(joined(data).subrange(k * BLOCK_SIZE, (k + 1) * BLOCK_SIZE) =~= data.last());
    }
}

/// Grouping log blocks into runs stores exactly the log blocks, each in its own place.
pub proof fn lemma_runs_store_the_log(blocks: Seq<PBlockId>, data: Seq<Seq<u8>>, start: int)
    requires
        data.len() == blocks.len(),
        forall|n: int| 0 <= n < data.len() ==> (#[trigger] data[n]).len() == BLOCK_SIZE,
        0 <= start <= blocks.len(),
    ensures
        stored_by_all(log_writes(blocks, data, start)) == Seq::new(
            (blocks.len() - start) as nat,
            |n: int| (blocks[start + n], data[start + n]),
        ),
    decreases blocks.len() - start,
{
    let writes = log_writes(blocks, data, start);
    let expected = Seq::new(
        (blocks.len() - start) as nat,
        |n: int| (blocks[start + n], data[start + n]),
    );
    if start < blocks.len() {
        let end = run_end(blocks, start, start + 1);
        assert(blocks[start].wrapping_add(0) == blocks[start]);
        lemma_run_end(blocks, start, start + 1);
        lemma_runs_store_the_log(blocks, data, end);
        assert(writes.skip(1) =~= log_writes(blocks, data, end));
        let first = stored_by(writes[0]);
        let run = data.subrange(start, end);
        assert forall|n: int| 0 <= n < run.len() implies (#[trigger] run[n]).len()
            == BLOCK_SIZE by {
            assert(run[n] == data[start + n]);
        }
        lemma_joined_len(run);
        if end - start > 1 {
            assert(first.len() == end - start);
            assert forall|n: int| 0 <= n < end - start implies #[trigger] first[n] == (
                blocks[start + n],
                data[start + n],
            ) by {
                lemma_joined_block(run, n);
                assert(run[n] == data[start + n]);
                assert(blocks[start + n] == blocks[start].wrapping_add(n as u64));
            }
        }
        assert(stored_by_all(writes) =~= expected);
    } else {
        assert(stored_by_all(writes) =~= expected);
    }
}

} // verus!
