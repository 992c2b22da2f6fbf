//! The order in which a commit reaches the device.

use vstd::prelude::*;
use crate::context::JournalContext;
use crate::device::{JournalCommitReason, JournalFlushPhase};
use crate::journal_log::{
    commit_image, descriptor_blocks, descriptor_tags, encoded_log, group_at, group_log,
    log_of_groups, ring_at, superblock_with,
};
use crate::staged::{images, StagedBlock};
use crate::trace::Step;
use crate::{BLOCK_SIZE, PBlockId};

verus! {

/// How far a failed commit had come.
#[derive(Clone, Copy, Debug, PartialEq, Eq, Structural)]
pub enum CommitFailure {
    /// No commit record was issued; recovery will ignore any log fragments.
    BeforeCommit,
    /// The commit record or its durability flush failed, so the commit is uncertain.
    CommitUncertain,
    /// The transaction committed, but home blocks are not known to be durable.
    CheckpointFailed,
    /// Home blocks are durable, but the journal tail was not durably cleared.
    TailUpdateFailed,
}

/// The end of the run of consecutive blocks from `start` on, of which the blocks before `at` are
/// known to belong to it.
pub open spec fn run_end(blocks: Seq<PBlockId>, start: int, at: int) -> int
    decreases blocks.len() - at,
{
    if start < at < blocks.len() && blocks[at] == blocks[start].wrapping_add((at - start) as u64) {
        run_end(blocks, start, at + 1)
    } else {
        at
    }
}

/// A run does not end before the blocks that are known to belong to it.
pub proof fn lemma_run_end(blocks: Seq<PBlockId>, start: int, at: int)
    requires
        0 <= start < at <= blocks.len(),
        forall|i: int|
            start <= i < at ==> blocks[i] == blocks[start].wrapping_add((i - start) as u64),
    ensures
        at <= run_end(blocks, start, at) <= blocks.len(),
        forall|i: int|
            start <= i < run_end(blocks, start, at) ==> blocks[i] == blocks[start].wrapping_add(
                (i - start) as u64,
            ),
    decreases blocks.len() - at,
{
    if at < blocks.len() && blocks[at] == blocks[start].wrapping_add((at - start) as u64) {
        lemma_run_end(blocks, start, at + 1);
    }
}

/// The bytes of all blocks, one after the other.
pub open spec fn joined(data: Seq<Seq<u8>>) -> Seq<u8>
    decreases data.len(),
{
    if data.len() == 0 {
        Seq::empty()
    } else {
        joined(data.drop_last()) + data.last()
    }
}

/// The write of one run of log blocks.
pub open spec fn run_step(blocks: Seq<PBlockId>, data: Seq<Seq<u8>>, start: int, end: int) -> Step {
    if end - start > 1 {
        Step::WriteRun { start: blocks[start], data: joined(data.subrange(start, end)) }
    } else {
        Step::Write { id: blocks[start], data: data[start] }
    }
}

/// The writes of the log blocks from `start` on, one for each run of consecutive blocks.
pub open spec fn log_writes(blocks: Seq<PBlockId>, data: Seq<Seq<u8>>, start: int) -> Seq<Step>
    decreases blocks.len() - start,
{
    if 0 <= start < blocks.len() {
        let end = run_end(blocks, start, start + 1);
        if start < end <= blocks.len() {
            seq![run_step(blocks, data, start, end)] + log_writes(blocks, data, end)
        } else {
            Seq::empty()
        }
    } else {
        Seq::empty()
    }
}

/// The writes of the home blocks, in ascending order.
pub open spec fn home_writes(blocks: Seq<StagedBlock>) -> Seq<Step> {
    Seq::new(blocks.len(), |i: int| Step::Write { id: blocks[i].home, data: blocks[i].image@ })
}

/// The log blocks of a transaction, without its commit record.
pub open spec fn log_data(context: JournalContext, blocks: Seq<StagedBlock>) -> Seq<Seq<u8>> {
    encoded_log(context.superblock, context.superblock.sequence, blocks)
}

/// The device blocks of the `count` journal blocks from the head on.
pub open spec fn log_homes(context: JournalContext, count: nat) -> Seq<PBlockId> {
    Seq::new(
        count,
        |i: int|
            context.logical_blocks@[ring_at(context.superblock, context.head, i as nat) as int],
    )
}

/// The device block of the commit record.
pub open spec fn commit_home(context: JournalContext, blocks: Seq<StagedBlock>) -> PBlockId {
    context.logical_blocks@[ring_at(
        context.superblock,
        context.head,
        log_data(context, blocks).len(),
    ) as int]
}

/// The journal superblock while the transaction is being logged.
pub open spec fn active_superblock(context: JournalContext) -> Seq<u8> {
    superblock_with(
        context.superblock_image@,
        context.superblock.sequence,
        context.head,
        context.superblock,
    )
}

/// The journal superblock once the transaction is checkpointed.
pub open spec fn clean_superblock(context: JournalContext) -> Seq<u8> {
    superblock_with(
        context.superblock_image@,
        context.superblock.sequence.wrapping_add(1),
        0,
        context.superblock,
    )
}

/// The barrier that ends a phase of the commit.
pub open spec fn barrier(context: JournalContext, phase: JournalFlushPhase) -> Step {
    Step::Barrier { transaction: context.superblock.sequence, phase }
}

/// The superblock, the log blocks, and the barrier before the commit record.
pub open spec fn log_part(context: JournalContext, blocks: Seq<StagedBlock>) -> Seq<Step> {
    let data = log_data(context, blocks);
    seq![Step::Patch { id: context.logical_blocks@[0], prefix: active_superblock(context) }]
        + log_writes(log_homes(context, data.len()), data, 0) + seq![
        barrier(context, JournalFlushPhase::ActiveLog),
    ]
}

/// The commit record.
pub open spec fn commit_part(context: JournalContext, blocks: Seq<StagedBlock>) -> Seq<Step> {
    seq![
        Step::Write {
            id: commit_home(context, blocks),
            data: commit_image(context.superblock, context.superblock.sequence),
        },
        barrier(context, JournalFlushPhase::CommitRecord),
    ]
}

/// The home blocks.
pub open spec fn checkpoint_part(context: JournalContext, blocks: Seq<StagedBlock>) -> Seq<Step> {
    home_writes(blocks) + seq![barrier(context, JournalFlushPhase::Checkpoint)]
}

/// The publication, and the superblock that ends the transaction.
pub open spec fn tail_part(
    context: JournalContext,
    blocks: Seq<StagedBlock>,
    since: usize,
    reason: JournalCommitReason,
) -> Seq<Step> {
    seq![
        Step::Publish { blocks: images(blocks) },
        Step::Patch { id: context.logical_blocks@[0], prefix: clean_superblock(context) },
        barrier(context, JournalFlushPhase::TailUpdate),
        Step::ReportBytes { bytes: logged_bytes(log_data(context, blocks).len()) },
        Step::ReportCommit {
            transaction: context.superblock.sequence,
            staged: blocks.len() as usize,
            since,
            reason,
        },
    ]
}

/// The bytes of `count` log blocks and the commit record, as far as they can be counted.
pub open spec fn logged_bytes(count: nat) -> usize {
    if (count + 1) * BLOCK_SIZE <= usize::MAX {
        ((count + 1) * BLOCK_SIZE) as usize
    } else {
        usize::MAX
    }
}

/// Everything that a journal commit does, in order.
pub open spec fn journal_plan(
    context: JournalContext,
    blocks: Seq<StagedBlock>,
    since: usize,
    reason: JournalCommitReason,
) -> Seq<Step> {
    log_part(context, blocks) + commit_part(context, blocks) + checkpoint_part(context, blocks)
        + tail_part(context, blocks, since, reason)
}

/// How far a journal commit has come when step `at` of its plan fails.
pub open spec fn journal_failure(
    context: JournalContext,
    blocks: Seq<StagedBlock>,
    at: int,
) -> CommitFailure {
    let logged = log_part(context, blocks).len();
    let committed = logged + commit_part(context, blocks).len();
    let checkpointed = committed + checkpoint_part(context, blocks).len();
    if at < logged {
        CommitFailure::BeforeCommit
    } else if at < committed {
        CommitFailure::CommitUncertain
    } else if at < checkpointed {
        CommitFailure::CheckpointFailed
    } else {
        CommitFailure::TailUpdateFailed
    }
}

/// The number of log blocks of the first `groups` descriptors.
proof fn lemma_groups_len(
    context: JournalContext,
    sequence: u32,
    blocks: Seq<StagedBlock>,
    groups: nat,
)
    requires
        groups <= descriptor_blocks(blocks.len(), context.superblock.features),
    ensures
        log_of_groups(context.superblock, sequence, blocks, groups).len() == groups + if groups
            * descriptor_tags(context.superblock.features) < blocks.len() {
            groups * descriptor_tags(context.superblock.features)
        } else {
            blocks.len()
        },
    decreases groups,
{
    let sb = context.superblock;
    let tags = descriptor_tags(sb.features) as int;
    assert(tags > 0);
    if groups > 0 {
        lemma_groups_len(context, sequence, blocks, (groups - 1) as nat);
        let start = (groups - 1) * tags;
        vstd::arithmetic::div_mod::lemma_fundamental_div_mod(blocks.len() + tags - 1, tags);
        let quotient = (blocks.len() + tags - 1) / tags;
        let rest = (blocks.len() + tags - 1) % tags;
        assert(start < blocks.len()) by (nonlinear_arith)
            requires
                start == (groups - 1) * tags,
                groups <= quotient,
                blocks.len() + tags - 1 == tags * quotient + rest,
                0 <= rest < tags,
                tags > 0,
        ;
        assert(start + tags == groups * tags) by (nonlinear_arith)
            requires
                start == (groups - 1) * tags,
        ;
        assert(start >= 0) by (nonlinear_arith)
            requires
                start == (groups - 1) * tags,
                groups > 0,
                tags > 0,
        ;
        let group = group_at(sb, blocks, start);
        assert(group_log(sb, sequence, group).len() == group.len() + 1);
    } else {
        assert(0 * tags == 0);
    }
}

/// A transaction logs one block for each image and one for each descriptor.
pub proof fn lemma_log_len(context: JournalContext, blocks: Seq<StagedBlock>)
    ensures
        log_data(context, blocks).len() == blocks.len() + descriptor_blocks(
            blocks.len(),
            context.superblock.features,
        ),
{
    let tags = descriptor_tags(context.superblock.features) as int;
    let groups = descriptor_blocks(blocks.len(), context.superblock.features);
    lemma_groups_len(context, context.superblock.sequence, blocks, groups);
    assert(tags > 0);
    vstd::arithmetic::div_mod::lemma_fundamental_div_mod(blocks.len() + tags - 1, tags);
    let quotient = (blocks.len() + tags - 1) / tags;
    let rest = (blocks.len() + tags - 1) % tags;
    assert(quotient >= 0) by (nonlinear_arith)
        requires
            blocks.len() + tags - 1 == tags * quotient + rest,
            0 <= rest < tags,
            tags > 0,
            blocks.len() >= 0,
    ;
    assert(quotient * tags >= blocks.len()) by (nonlinear_arith)
        requires
            blocks.len() + tags - 1 == tags * quotient + rest,
            0 <= rest < tags,
    ;
}

} // verus!
