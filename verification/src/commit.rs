//! Committing transactions.

use vstd::prelude::*;
use crate::commit_plan::{
    active_superblock, checkpoint_part, clean_superblock, commit_part, home_writes, joined,
    journal_failure, journal_plan, lemma_log_len, lemma_run_end, log_data, log_homes, log_part,
    log_writes, logged_bytes, run_end, run_step, tail_part, CommitFailure,
};
use crate::context::{DeferredTransaction, JournalContext};
use crate::device::{extends, since, BlockDevice, Event, Io, JournalCommitReason, JournalFlushPhase};
use crate::error::{ErrCode, Ext4Error};
use crate::jbd2::{Superblock, SUPERBLOCK_BYTES};
use crate::journal_log::{
    bytes_of, commit_image, encodable, encode_commit, encode_log, log_blocks, log_countable,
    required_log_blocks, ring_at, ring_len, ring_next, ring_positions, ring_slice,
    lemma_ring_positions_distinct, lemma_ring_step, update_superblock,
};
use crate::journal_transaction::{
    restored, CommitError, DirectTransactionCore, JournalTransactionCore, Transaction,
    TransactionCoreRef,
};
use crate::staged::{
    count_absent, distinct_homes, images, overlay, without_originals, CachePublisher, StagedBlock,
    StagedBlocks,
};
use crate::trace::{
    flush_journal_phase, halted, lemma_advance, lemma_outset, patch_block, publish_step, reached,
    write_bytes, write_run, Step,
};
use crate::{BLOCK_SIZE, PBlockId};

verus! {

broadcast use {Io::lemma_stays, Io::lemma_goes_on};

/// The refusal of a commit that changed nothing.
pub open spec fn refused(
    outcome: core::result::Result<(), CommitError>,
    code: ErrCode,
) -> bool {
    outcome matches Err(stop) && stop.error.code == code && stop.failure
        == CommitFailure::BeforeCommit
}

/// Whether the log of `blocks` fits into the ring.
pub open spec fn log_fits(context: JournalContext, blocks: Seq<StagedBlock>) -> bool {
    let sb = context.superblock;
    log_countable(blocks.len(), sb.features) && log_blocks(blocks.len(), sb.features) <= sb.max_len
        - sb.first
}

/// Whether a home block lies outside the device or inside the journal.
pub open spec fn foreign_home(context: JournalContext, home: PBlockId) -> bool {
    home >= context.target_blocks || context.journal_blocks@.contains(home)
}

/// Why the images cannot be logged.
pub open spec fn home_refusal(context: JournalContext, blocks: Seq<StagedBlock>) -> Option<
    ErrCode,
> {
    if exists|i: int| 0 <= i < blocks.len() && foreign_home(context, #[trigger] blocks[i].home) {
        Some(ErrCode::EINVAL)
    } else if !encodable(context.superblock.features, blocks) {
        Some(ErrCode::ENOTSUP)
    } else {
        None
    }
}

/// What a journal commit of `blocks` calls and returns, and whether it poisons the journal.
pub open spec fn journal_outcome(
    context: JournalContext,
    blocks: Seq<StagedBlock>,
    reason: JournalCommitReason,
    before: Seq<Event>,
    after: Seq<Event>,
    outcome: core::result::Result<(), CommitError>,
    poisons: bool,
) -> bool {
    let calls = since(before, after);
    &&& extends(before, after)
    &&& calls.len() >= 1
    &&& calls[0] matches Event::ReliableFlush { reply: reliable }
    &&& if !reliable {
        calls.len() == 1 && refused(outcome, ErrCode::ENOTSUP) && !poisons
    } else if !log_fits(context, blocks) {
        calls.len() == 1 && refused(outcome, ErrCode::E2BIG) && !poisons
    } else {
        &&& calls.len() >= 2
        &&& calls[1] matches Event::Diagnostics { reply: diagnostic }
        &&& diagnostic ==> calls.len() >= 3 && calls[2] is Cycles
        &&& {
            let asked = if diagnostic {
                3int
            } else {
                2
            };
            let start = if diagnostic {
                calls[2]->Cycles_reply
            } else {
                0usize
            };
            match home_refusal(context, blocks) {
                Some(code) => calls.len() == asked && refused(outcome, code) && !poisons,
                None => plan_outcome(
                    context,
                    blocks,
                    journal_plan(context, blocks, start, reason),
                    diagnostic,
                    after.take(before.len() + asked),
                    after,
                    outcome,
                    poisons,
                ),
            }
        }
    }
}

/// What carrying out the plan of a journal commit calls and returns.
pub open spec fn plan_outcome(
    context: JournalContext,
    blocks: Seq<StagedBlock>,
    plan: Seq<Step>,
    diagnostic: bool,
    before: Seq<Event>,
    after: Seq<Event>,
    outcome: core::result::Result<(), CommitError>,
    poisons: bool,
) -> bool {
    match outcome {
        Ok(_) => !poisons && reached(before, after, plan, plan.len() as int, diagnostic),
        Err(stop) => {
            &&& poisons
            &&& exists|at: int|
                {
                    &&& #[trigger] halted(before, after, plan, at, diagnostic, stop.error)
                    &&& stop.failure == journal_failure(context, blocks, at)
                }
        },
    }
}

/// The journal after a completed commit of `blocks`.
pub open spec fn moved_on(
    context: JournalContext,
    blocks: Seq<StagedBlock>,
    after: JournalContext,
) -> bool {
    &&& after.superblock == (Superblock {
        sequence: context.superblock.sequence.wrapping_add(1),
        start: 0,
        ..context.superblock
    })
    &&& after.head == ring_at(
        context.superblock,
        context.head,
        log_data(context, blocks).len() + 1,
    )
    &&& after.superblock_image@ == clean_superblock(context)
    &&& after.logical_blocks == context.logical_blocks
    &&& after.journal_blocks == context.journal_blocks
    &&& after.target_blocks == context.target_blocks
    &&& after.deferred_transaction == context.deferred_transaction
}

/// What a journal commit of `blocks` does to the backend.
pub open spec fn journal_committed(
    context: JournalContext,
    poisoned: bool,
    after: JournalTransactionCore,
    blocks: Seq<StagedBlock>,
    reason: JournalCommitReason,
    log: Seq<Event>,
    log_after: Seq<Event>,
    outcome: core::result::Result<(), CommitError>,
) -> bool {
    &&& !after.writing()
    &&& exists|poisons: bool|
        {
            &&& #[trigger] journal_outcome(
                context,
                blocks,
                reason,
                log,
                log_after,
                outcome,
                poisons,
            )
            &&& after.poisoned() == (poisoned || poisons)
        }
    &&& match outcome {
        Ok(_) => moved_on(context, blocks, after.context()),
        Err(_) => after.context() == context,
    }
}

/// A commit that stopped.
struct Stop {
    error: Ext4Error,
    failure: CommitFailure,
    poison: bool,
}

/// Where the steps of a journal commit stand.
proof fn lemma_plan_layout(
    context: JournalContext,
    blocks: Seq<StagedBlock>,
    start: usize,
    reason: JournalCommitReason,
)
    ensures
        ({
            let plan = journal_plan(context, blocks, start, reason);
            let data = log_data(context, blocks);
            let writes = log_writes(log_homes(context, data.len()), data, 0);
            let logged = log_part(context, blocks).len() as int;
            let tail = logged + 3 + blocks.len();
            &&& logged == writes.len() + 2
            &&& commit_part(context, blocks).len() == 2
            &&& checkpoint_part(context, blocks).len() == blocks.len() + 1
            &&& plan.len() == tail + 5
            &&& plan[0] == log_part(context, blocks)[0]
            &&& forall|i: int| 0 <= i < writes.len() ==> #[trigger] plan[i + 1] == writes[i]
            &&& plan[logged - 1] == log_part(context, blocks).last()
            &&& plan[logged] == commit_part(context, blocks)[0]
            &&& plan[logged + 1] == commit_part(context, blocks)[1]
            &&& forall|i: int|
                0 <= i < blocks.len() ==> #[trigger] plan[i + logged + 2] == home_writes(blocks)[i]
            &&& plan[tail - 1] == checkpoint_part(context, blocks).last()
            &&& forall|i: int|
                0 <= i < 5 ==> #[trigger] plan[i + tail] == tail_part(
                    context,
                    blocks,
                    start,
                    reason,
                )[i]
        }),
{
}

/// The writes that remain after the first of them.
proof fn lemma_log_writes_step(blocks: Seq<PBlockId>, data: Seq<Seq<u8>>, start: int)
    requires
        0 <= start < blocks.len(),
    ensures
        ({
            let end = run_end(blocks, start, start + 1);
            let writes = log_writes(blocks, data, start);
            &&& start < end <= blocks.len()
            &&& writes.len() > 0
            &&& writes[0] == run_step(blocks, data, start, end)
            &&& writes.skip(1) == log_writes(blocks, data, end)
        }),
{
    assert(blocks[start].wrapping_add(0) == blocks[start]);
    lemma_run_end(blocks, start, start + 1);
    let end = run_end(blocks, start, start + 1);
    let writes = log_writes(blocks, data, start);
    assert(writes.skip(1) =~= log_writes(blocks, data, end));
}

/// The bytes of a run grow by one block.
proof fn lemma_joined_push(data: Seq<Seq<u8>>, start: int, end: int)
    requires
        0 <= start <= end < data.len(),
    ensures
        joined(data.subrange(start, end + 1)) == joined(data.subrange(start, end)) + data[end],
{
    let grown = data.subrange(start, end + 1);
    assert(grown.drop_last() =~= data.subrange(start, end));
    assert(grown.last() == data[end]);
}

/// The bytes of the blocks from `start` to `end`.
fn join_blocks(encoded: &Vec<Box<[u8; BLOCK_SIZE]>>, start: usize, end: usize) -> (buf: Vec<u8>)
    requires
        start <= end <= encoded@.len(),
    ensures
        buf@ == joined(bytes_of(encoded@).subrange(start as int, end as int)),
{
    let mut buf: Vec<u8> = Vec::new();
    let mut at: usize = start;
    assert(bytes_of(encoded@).subrange(start as int, start as int) =~= Seq::<Seq<u8>>::empty());
    while at < end
        invariant
            start <= at <= end <= encoded@.len(),
            buf@ == joined(bytes_of(encoded@).subrange(start as int, at as int)),
        decreases end - at,
    {
        buf.extend_from_slice(encoded[at].as_slice());
        proof {
            lemma_joined_push(bytes_of(encoded@), start as int, at as int);
        }
        at = at + 1;
    }
    buf
}

/// Writes the log blocks, one call for each run of consecutive device blocks.
fn write_log<D: BlockDevice>(
    io: &mut Io<D>,
    context: &JournalContext,
    positions: &Vec<u32>,
    encoded: &Vec<Box<[u8; BLOCK_SIZE]>>,
    Ghost(base): Ghost<Seq<Event>>,
    Ghost(plan): Ghost<Seq<Step>>,
    Ghost(diagnostic): Ghost<bool>,
) -> (outcome: crate::error::Result<()>)
    requires
        context.inv(),
        encoded@.len() < positions@.len() <= context.superblock.max_len - context.superblock.first,
        positions@ == ring_slice(context.superblock, context.head, positions@.len()),
        reached(base, old(io).log(), plan, 1, diagnostic),
        ({
            let writes = log_writes(
                log_homes(*context, encoded@.len()),
                bytes_of(encoded@),
                0,
            );
            &&& writes.len() + 1 < plan.len()
            &&& forall|i: int| 0 <= i < writes.len() ==> #[trigger] plan[i + 1] == writes[i]
        }),
    ensures
        old(io).grew_to(final(io)),
        ({
            let writes = log_writes(
                log_homes(*context, encoded@.len()),
                bytes_of(encoded@),
                0,
            );
            match outcome {
                Ok(_) => reached(base, final(io).log(), plan, writes.len() as int + 1, diagnostic),
                Err(error) => exists|at: int|
                    {
                        &&& 1 <= at <= writes.len()
                        &&& #[trigger] halted(
                            base,
                            final(io).log(),
                            plan,
                            at,
                            diagnostic,
                            error,
                        )
                    },
            }
        }),
{
    let count: usize = encoded.len();
    let ghost homes = log_homes(*context, count as nat);
    let ghost data = bytes_of(encoded@);
    let ghost writes = log_writes(homes, data, 0);
    let ghost mut done: int = 0;
    proof {
        lemma_ring_positions_distinct(context.superblock, context.head, positions@.len());
    }
    assert(writes.skip(0) =~= log_writes(homes, data, 0));
    let mut start: usize = 0;
    while start < count
        invariant
            old(io).grew_to(io),
            start <= count,
            count == encoded@.len(),
            context.inv(),
            count < positions@.len(),
            positions@ == ring_slice(context.superblock, context.head, positions@.len()),
            forall|i: int|
                0 <= i < positions@.len() ==> #[trigger] positions@[i] < context.superblock.max_len,
            homes == log_homes(*context, count as nat),
            data == bytes_of(encoded@),
            writes == log_writes(homes, data, 0),
            writes.len() + 1 < plan.len(),
            forall|i: int| 0 <= i < writes.len() ==> #[trigger] plan[i + 1] == writes[i],
            0 <= done <= writes.len(),
            writes.skip(done) == log_writes(homes, data, start as int),
            reached(base, io.log(), plan, done + 1, diagnostic),
        decreases count - start,
    {
        let first: PBlockId = context.logical_blocks[positions[start] as usize];
        assert(first == homes[start as int]);
        let mut end: usize = start + 1;
        while end < count && context.logical_blocks[positions[end] as usize] == first.wrapping_add(
            (end - start) as u64,
        )
            invariant
                old(io).grew_to(io),
                start < end <= count,
                count < positions@.len(),
                count == homes.len(),
                context.inv(),
                positions@ == ring_slice(context.superblock, context.head, positions@.len()),
                forall|i: int|
                    0 <= i < positions@.len() ==> #[trigger] positions@[i]
                        < context.superblock.max_len,
                homes == log_homes(*context, count as nat),
                first == homes[start as int],
                run_end(homes, start as int, end as int) == run_end(
                    homes,
                    start as int,
                    start + 1,
                ),
            ensures
                start < end <= count,
                end == run_end(homes, start as int, start + 1),
            decreases count - end,
        {
            assert(positions@[end as int] < context.superblock.max_len);
            end = end + 1;
        }
        proof {
            lemma_log_writes_step(homes, data, start as int);
            assert(plan[done + 1] == writes[done]);
            assert(writes.skip(done)[0] == writes[done]);
            assert(writes.skip(done).skip(1) =~= writes.skip(done + 1));
        }
        if end - start > 1 {
            let buf: Vec<u8> = join_blocks(encoded, start, end);
            match write_run(
                io,
                first,
                buf.as_slice(),
                Ghost(base),
                Ghost(plan),
                Ghost(done + 1),
                Ghost(diagnostic),
            ) {
                Ok(_) => {},
                Err(error) => {
                    return Err(error);
                },
            }
        } else {
            match write_bytes(
                io,
                first,
                &encoded[start],
                Ghost(base),
                Ghost(plan),
                Ghost(done + 1),
                Ghost(diagnostic),
            ) {
                Ok(_) => {},
                Err(error) => {
                    return Err(error);
                },
            }
        }
        proof {
            done = done + 1;
        }
        start = end;
    }
    assert(done == writes.len()) by {
        assert(log_writes(homes, data, count as int).len() == 0);
        assert(writes.skip(done).len() == writes.len() - done);
    }
    Ok(())
}

/// Writes the home blocks in ascending order.
fn write_homes<D: BlockDevice>(
    io: &mut Io<D>,
    staged: &StagedBlocks,
    Ghost(base): Ghost<Seq<Event>>,
    Ghost(plan): Ghost<Seq<Step>>,
    Ghost(from): Ghost<int>,
    Ghost(diagnostic): Ghost<bool>,
) -> (outcome: crate::error::Result<()>)
    requires
        reached(base, old(io).log(), plan, from, diagnostic),
        from + staged@.len() <= plan.len(),
        forall|i: int|
            0 <= i < staged@.len() ==> #[trigger] plan[i + from] == home_writes(staged@)[i],
    ensures
        old(io).grew_to(final(io)),
        match outcome {
            Ok(_) => reached(base, final(io).log(), plan, from + staged@.len(), diagnostic),
            Err(error) => exists|at: int|
                {
                    &&& from <= at < from + staged@.len()
                    &&& #[trigger] halted(base, final(io).log(), plan, at, diagnostic, error)
                },
        },
{
    let count: usize = staged.len();
    let mut done: usize = 0;
    while done < count
        invariant
            old(io).grew_to(io),
            done <= count,
            count == staged@.len(),
            0 <= from,
            from + staged@.len() <= plan.len(),
            forall|i: int|
                0 <= i < staged@.len() ==> #[trigger] plan[i + from] == home_writes(staged@)[i],
            reached(base, io.log(), plan, from + done, diagnostic),
        decreases count - done,
    {
        let block = staged.at(done);
        assert(plan[done + from] == home_writes(staged@)[done as int]);
        match write_bytes(
            io,
            block.home(),
            block.bytes(),
            Ghost(base),
            Ghost(plan),
            Ghost(from + done),
            Ghost(diagnostic),
        ) {
            Ok(_) => {},
            Err(error) => {
                return Err(error);
            },
        }
        done = done + 1;
    }
    Ok(())
}

/// The outcome of a commit that stopped.
spec fn stopped_with(stop: Stop) -> core::result::Result<(), CommitError> {
    Err(CommitError { error: stop.error, failure: stop.failure })
}

/// A refusal before the first write.
fn refusal(code: ErrCode) -> (stop: Stop)
    ensures
        stop == (Stop {
            error: Ext4Error { code },
            failure: CommitFailure::BeforeCommit,
            poison: false,
        }),
{
    Stop { error: Ext4Error::new(code), failure: CommitFailure::BeforeCommit, poison: false }
}

/// A failure after the first write.
fn stop_at(error: Ext4Error, failure: CommitFailure) -> (stop: Stop)
    ensures
        stop == (Stop { error, failure, poison: true }),
{
    Stop { error, failure, poison: true }
}

/// Whether a home block lies outside the device or inside the journal.
fn has_foreign_home(context: &JournalContext, staged: &StagedBlocks) -> (found: bool)
    ensures
        found == exists|i: int|
            0 <= i < staged@.len() && foreign_home(*context, #[trigger] staged@[i].home),
{
    broadcast use vstd::std_specs::btree::group_btree_axioms;

    let count: usize = staged.len();
    let mut at: usize = 0;
    while at < count
        invariant
            at <= count,
            count == staged@.len(),
            forall|i: int| 0 <= i < at ==> !foreign_home(*context, #[trigger] staged@[i].home),
        decreases count - at,
    {
        broadcast use vstd::std_specs::btree::group_btree_axioms;

        let home: PBlockId = staged.at(at).home();
        if home >= context.target_blocks || context.journal_blocks.contains(&home) {
            assert(foreign_home(*context, staged@[at as int].home));
            return true;
        }
        at = at + 1;
    }
    false
}

/// The bytes of `count` log blocks and the commit record, as far as they can be counted.
fn bytes_logged(count: usize) -> (bytes: usize)
    requires
        count < usize::MAX,
    ensures
        bytes == logged_bytes(count as nat),
{
    match (count + 1).checked_mul(BLOCK_SIZE) {
        Some(bytes) => bytes,
        None => usize::MAX,
    }
}

/// Logs, commits and checkpoints `staged`, and returns the logical block of the commit record and
/// the journal superblock that it left.
fn run_journal<D: BlockDevice, P: CachePublisher>(
    context: &JournalContext,
    io: &mut Io<D>,
    publisher: &mut P,
    staged: &StagedBlocks,
    reason: JournalCommitReason,
) -> (outcome: core::result::Result<(u32, Box<[u8; SUPERBLOCK_BYTES]>), Stop>)
    requires
        context.inv(),
        staged.inv(),
    ensures
        old(io).grew_to(final(io)),
        heard(
            *old(publisher),
            *final(publisher),
            staged@,
            match outcome {
                Ok(_) => true,
                Err(stop) => stop.failure == CommitFailure::TailUpdateFailed,
            },
        ),
        match outcome {
            Ok((commit_logical, image)) => {
                &&& journal_outcome(
                    *context,
                    staged@,
                    reason,
                    old(io).log(),
                    final(io).log(),
                    Ok(()),
                    false,
                )
                &&& commit_logical == ring_at(
                    context.superblock,
                    context.head,
                    log_data(*context, staged@).len(),
                )
                &&& image@ == clean_superblock(*context)
            },
            Err(stop) => journal_outcome(
                *context,
                staged@,
                reason,
                old(io).log(),
                final(io).log(),
                stopped_with(stop),
                stop.poison,
            ),
        },
{
    let ghost before = io.log();
    let ghost blocks = staged@;
    let reliable = io.supports_reliable_flush();
    assert(io.log().take(before.len() as int) =~= before);
    if !reliable {
        return Err(refusal(ErrCode::ENOTSUP));
    }
    let sb: Superblock = context.superblock;
    let needed: usize = match required_log_blocks(staged.len(), sb.features) {
        Ok(needed) => needed,
        Err(error) => {
            return Err(refusal(error.code()));
        },
    };
    let available: usize = match ring_len(&sb) {
        Ok(available) => available,
        Err(error) => {
            return Err(refusal(error.code()));
        },
    };
    if needed > available {
        return Err(refusal(ErrCode::E2BIG));
    }
    let sequence: u32 = sb.sequence;
    let diagnostic = io.diagnostic_enabled();
    let start: usize = if diagnostic {
        io.diagnostic_cycles()
    } else {
        0
    };
    let ghost base = io.log();
    assert(base.take(before.len() as int) =~= before);
    assert(since(before, base)[0] == (Event::ReliableFlush { reply: true }));
    assert(since(before, base)[1] == (Event::Diagnostics { reply: diagnostic }));
    let positions: Vec<u32> = match ring_positions(&sb, context.head, needed) {
        Ok(positions) => positions,
        Err(error) => {
            return Err(refusal(error.code()));
        },
    };
    if has_foreign_home(context, staged) {
        return Err(refusal(ErrCode::EINVAL));
    }
    let encoded: Vec<Box<[u8; BLOCK_SIZE]>> = match encode_log(&sb, sequence, staged) {
        Ok(encoded) => encoded,
        Err(error) => {
            return Err(refusal(error.code()));
        },
    };
    let commit = encode_commit(&sb, sequence);
    let mut active: [u8; SUPERBLOCK_BYTES] = *context.superblock_image;
    update_superblock(&mut active, sequence, context.head, &sb);
    let mut clean: [u8; SUPERBLOCK_BYTES] = *context.superblock_image;
    update_superblock(&mut clean, sequence.wrapping_add(1), 0, &sb);

    let ghost plan = journal_plan(*context, blocks, start, reason);
    proof {
        lemma_log_len(*context, blocks);
        lemma_ring_positions_distinct(sb, context.head, positions@.len());
        assert(encoded@.len() == bytes_of(encoded@).len());
    }
    let carried = carry_out(
        context,
        io,
        publisher,
        staged,
        &positions,
        &encoded,
        &commit,
        &active,
        &clean,
        start,
        diagnostic,
        reason,
    );
    proof {
        lemma_plan_outcome_extends(
            *context,
            blocks,
            plan,
            diagnostic,
            base,
            io.log(),
            carried,
            carried is Err,
        );
        lemma_prefix(before, base, io.log());
        assert(since(before, io.log())[0] == since(before, base)[0]);
        assert(since(before, io.log())[1] == since(before, base)[1]);
        assert(diagnostic ==> since(before, io.log())[2] == since(before, base)[2]);
    }
    match carried {
        Ok(done) => {
            assert(done == ());
            Ok((positions[positions.len() - 1], Box::new(clean)))
        },
        Err(stop) => Err(stop_at(stop.error, stop.failure)),
    }
}

/// Carrying out a plan continues the record.
proof fn lemma_plan_outcome_extends(
    context: JournalContext,
    blocks: Seq<StagedBlock>,
    plan: Seq<Step>,
    diagnostic: bool,
    before: Seq<Event>,
    after: Seq<Event>,
    outcome: core::result::Result<(), CommitError>,
    poisons: bool,
)
    requires
        plan_outcome(context, blocks, plan, diagnostic, before, after, outcome, poisons),
    ensures
        extends(before, after),
{
}

/// The outcome of the steps from `from` up to and without `to`.
spec fn phase_ran(
    outcome: crate::error::Result<()>,
    base: Seq<Event>,
    log: Seq<Event>,
    plan: Seq<Step>,
    from: int,
    to: int,
    diagnostic: bool,
) -> bool {
    match outcome {
        Ok(_) => reached(base, log, plan, to, diagnostic),
        Err(error) => exists|at: int|
            from <= at < to && #[trigger] halted(base, log, plan, at, diagnostic, error),
    }
}

/// Writes the active superblock and the log, and makes them durable.
fn log_phase<D: BlockDevice>(
    io: &mut Io<D>,
    context: &JournalContext,
    active: &[u8; SUPERBLOCK_BYTES],
    positions: &Vec<u32>,
    encoded: &Vec<Box<[u8; BLOCK_SIZE]>>,
    diagnostic: bool,
    Ghost(base): Ghost<Seq<Event>>,
    Ghost(plan): Ghost<Seq<Step>>,
    Ghost(logged): Ghost<int>,
) -> (outcome: crate::error::Result<()>)
    requires
        context.inv(),
        encoded@.len() < positions@.len() <= context.superblock.max_len - context.superblock.first,
        positions@ == ring_slice(context.superblock, context.head, positions@.len()),
        reached(base, old(io).log(), plan, 0, diagnostic),
        ({
            let writes = log_writes(
                log_homes(*context, encoded@.len()),
                bytes_of(encoded@),
                0,
            );
            &&& logged == writes.len() + 2
            &&& logged <= plan.len()
            &&& plan[0] == (Step::Patch { id: context.logical_blocks@[0], prefix: active@ })
            &&& forall|i: int| 0 <= i < writes.len() ==> #[trigger] plan[i + 1] == writes[i]
            &&& plan[logged - 1] == (Step::Barrier {
                transaction: context.superblock.sequence,
                phase: JournalFlushPhase::ActiveLog,
            })
        }),
    ensures
        old(io).grew_to(final(io)),
        phase_ran(outcome, base, final(io).log(), plan, 0, logged, diagnostic),
{
    match patch_block(
        io,
        context.logical_blocks[0],
        active,
        Ghost(base),
        Ghost(plan),
        Ghost(0int),
        Ghost(diagnostic),
    ) {
        Ok(_) => {},
        Err(error) => {
            return Err(error);
        },
    }
    match write_log(
        io,
        context,
        positions,
        encoded,
        Ghost(base),
        Ghost(plan),
        Ghost(diagnostic),
    ) {
        Ok(_) => {},
        Err(error) => {
            return Err(error);
        },
    }
    flush_journal_phase(
        io,
        context.superblock.sequence,
        JournalFlushPhase::ActiveLog,
        diagnostic,
        Ghost(base),
        Ghost(plan),
        Ghost(logged - 1),
    )
}

/// Writes the commit record, and makes it durable.
fn commit_phase<D: BlockDevice>(
    io: &mut Io<D>,
    home: PBlockId,
    commit: &[u8; BLOCK_SIZE],
    sequence: u32,
    diagnostic: bool,
    Ghost(base): Ghost<Seq<Event>>,
    Ghost(plan): Ghost<Seq<Step>>,
    Ghost(at): Ghost<int>,
) -> (outcome: crate::error::Result<()>)
    requires
        reached(base, old(io).log(), plan, at, diagnostic),
        at + 2 <= plan.len(),
        plan[at] == (Step::Write { id: home, data: commit@ }),
        plan[at + 1] == (Step::Barrier {
            transaction: sequence,
            phase: JournalFlushPhase::CommitRecord,
        }),
    ensures
        old(io).grew_to(final(io)),
        phase_ran(outcome, base, final(io).log(), plan, at, at + 2, diagnostic),
{
    match write_bytes(
        io,
        home,
        commit,
        Ghost(base),
        Ghost(plan),
        Ghost(at),
        Ghost(diagnostic),
    ) {
        Ok(_) => {},
        Err(error) => {
            return Err(error);
        },
    }
    flush_journal_phase(
        io,
        sequence,
        JournalFlushPhase::CommitRecord,
        diagnostic,
        Ghost(base),
        Ghost(plan),
        Ghost(at + 1),
    )
}

/// Writes the home blocks, and makes them durable.
fn checkpoint_phase<D: BlockDevice>(
    io: &mut Io<D>,
    staged: &StagedBlocks,
    sequence: u32,
    diagnostic: bool,
    Ghost(base): Ghost<Seq<Event>>,
    Ghost(plan): Ghost<Seq<Step>>,
    Ghost(from): Ghost<int>,
) -> (outcome: crate::error::Result<()>)
    requires
        reached(base, old(io).log(), plan, from, diagnostic),
        from + staged@.len() < plan.len(),
        forall|i: int|
            0 <= i < staged@.len() ==> #[trigger] plan[i + from] == home_writes(staged@)[i],
        plan[from + staged@.len()] == (Step::Barrier {
            transaction: sequence,
            phase: JournalFlushPhase::Checkpoint,
        }),
    ensures
        old(io).grew_to(final(io)),
        phase_ran(
            outcome,
            base,
            final(io).log(),
            plan,
            from,
            from + staged@.len() + 1,
            diagnostic,
        ),
{
    match write_homes(
        io,
        staged,
        Ghost(base),
        Ghost(plan),
        Ghost(from),
        Ghost(diagnostic),
    ) {
        Ok(_) => {},
        Err(error) => {
            return Err(error);
        },
    }
    flush_journal_phase(
        io,
        sequence,
        JournalFlushPhase::Checkpoint,
        diagnostic,
        Ghost(base),
        Ghost(plan),
        Ghost(from + staged@.len()),
    )
}

/// Publishes the images, and durably clears the journal tail.
fn tail_phase<D: BlockDevice, P: CachePublisher>(
    io: &mut Io<D>,
    publisher: &mut P,
    staged: &StagedBlocks,
    home: PBlockId,
    clean: &[u8; SUPERBLOCK_BYTES],
    sequence: u32,
    diagnostic: bool,
    Ghost(base): Ghost<Seq<Event>>,
    Ghost(plan): Ghost<Seq<Step>>,
    Ghost(at): Ghost<int>,
) -> (outcome: crate::error::Result<()>)
    requires
        reached(base, old(io).log(), plan, at, diagnostic),
        at + 3 <= plan.len(),
        plan[at] == (Step::Publish { blocks: images(staged@) }),
        plan[at + 1] == (Step::Patch { id: home, prefix: clean@ }),
        plan[at + 2] == (Step::Barrier {
            transaction: sequence,
            phase: JournalFlushPhase::TailUpdate,
        }),
    ensures
        old(io).grew_to(final(io)),
        old(publisher).answers_publish(final(publisher), images(staged@)),
        phase_ran(outcome, base, final(io).log(), plan, at, at + 3, diagnostic),
{
    publish_step(io, publisher, staged, Ghost(base), Ghost(plan), Ghost(at), Ghost(diagnostic));
    match patch_block(
        io,
        home,
        clean,
        Ghost(base),
        Ghost(plan),
        Ghost(at + 1),
        Ghost(diagnostic),
    ) {
        Ok(_) => {},
        Err(error) => {
            return Err(error);
        },
    }
    flush_journal_phase(
        io,
        sequence,
        JournalFlushPhase::TailUpdate,
        diagnostic,
        Ghost(base),
        Ghost(plan),
        Ghost(at + 2),
    )
}

/// Carries out the plan of a journal commit, all of whose blocks are encoded.
fn carry_out<D: BlockDevice, P: CachePublisher>(
    context: &JournalContext,
    io: &mut Io<D>,
    publisher: &mut P,
    staged: &StagedBlocks,
    positions: &Vec<u32>,
    encoded: &Vec<Box<[u8; BLOCK_SIZE]>>,
    commit: &[u8; BLOCK_SIZE],
    active: &[u8; SUPERBLOCK_BYTES],
    clean: &[u8; SUPERBLOCK_BYTES],
    start: usize,
    diagnostic: bool,
    reason: JournalCommitReason,
) -> (outcome: core::result::Result<(), CommitError>)
    requires
        context.inv(),
        encoded@.len() + 1 == positions@.len(),
        positions@.len() <= context.superblock.max_len - context.superblock.first,
        positions@ == ring_slice(context.superblock, context.head, positions@.len()),
        bytes_of(encoded@) == log_data(*context, staged@),
        commit@ == commit_image(context.superblock, context.superblock.sequence),
        active@ == active_superblock(*context),
        clean@ == clean_superblock(*context),
    ensures
        old(io).grew_to(final(io)),
        heard(*old(publisher), *final(publisher), staged@, published(outcome)),
        plan_outcome(
            *context,
            staged@,
            journal_plan(*context, staged@, start, reason),
            diagnostic,
            old(io).log(),
            final(io).log(),
            outcome,
            outcome is Err,
        ),
{
    let ghost base = io.log();
    let ghost blocks = staged@;
    let ghost plan = journal_plan(*context, blocks, start, reason);
    let ghost logged = log_part(*context, blocks).len() as int;
    let ghost tail = logged + 3 + blocks.len();
    let sequence: u32 = context.superblock.sequence;
    proof {
        lemma_plan_layout(*context, blocks, start, reason);
        lemma_outset(base, plan, diagnostic);
        lemma_ring_positions_distinct(context.superblock, context.head, positions@.len());
        assert(encoded@.len() == bytes_of(encoded@).len());
    }
    match log_phase(
        io,
        context,
        active,
        positions,
        encoded,
        diagnostic,
        Ghost(base),
        Ghost(plan),
        Ghost(logged),
    ) {
        Ok(_) => {},
        Err(error) => {
            return Err(CommitError { error, failure: CommitFailure::BeforeCommit });
        },
    }
    let commit_logical: u32 = positions[positions.len() - 1];
    assert(commit_logical == ring_at(context.superblock, context.head, encoded@.len()));
    match commit_phase(
        io,
        context.logical_blocks[commit_logical as usize],
        commit,
        sequence,
        diagnostic,
        Ghost(base),
        Ghost(plan),
        Ghost(logged),
    ) {
        Ok(_) => {},
        Err(error) => {
            return Err(CommitError { error, failure: CommitFailure::CommitUncertain });
        },
    }
    assert forall|i: int| 0 <= i < blocks.len() implies #[trigger] plan[i + (logged + 2)]
        == home_writes(blocks)[i] by {
        assert(plan[i + logged + 2] == home_writes(blocks)[i]);
    }
    match checkpoint_phase(
        io,
        staged,
        sequence,
        diagnostic,
        Ghost(base),
        Ghost(plan),
        Ghost(logged + 2),
    ) {
        Ok(_) => {},
        Err(error) => {
            return Err(CommitError { error, failure: CommitFailure::CheckpointFailed });
        },
    }
    proof {
        let part = tail_part(*context, blocks, start, reason);
        assert(plan[0 + tail] == part[0]);
        assert(plan[1 + tail] == part[1]);
        assert(plan[2 + tail] == part[2]);
        assert(plan[3 + tail] == part[3]);
        assert(plan[4 + tail] == part[4]);
    }
    match tail_phase(
        io,
        publisher,
        staged,
        context.logical_blocks[0],
        clean,
        sequence,
        diagnostic,
        Ghost(base),
        Ghost(plan),
        Ghost(tail),
    ) {
        Ok(_) => {},
        Err(error) => {
            return Err(CommitError { error, failure: CommitFailure::TailUpdateFailed });
        },
    }
    report_commit(
        io,
        context,
        staged,
        encoded.len(),
        start,
        diagnostic,
        reason,
        Ghost(base),
        Ghost(plan),
        Ghost(tail + 3),
    );
    Ok(())
}

/// A record that continues another keeps what that one continued.
proof fn lemma_prefix(before: Seq<Event>, base: Seq<Event>, after: Seq<Event>)
    requires
        extends(before, base),
        extends(base, after),
    ensures
        extends(before, after),
        after.take(base.len() as int) == base,
        forall|i: int|
            0 <= i < base.len() - before.len() ==> #[trigger] since(before, after)[i] == since(
                before,
                base,
            )[i],
        since(before, after).len() >= since(before, base).len(),
{
    assert(after.take(before.len() as int) =~= base.take(before.len() as int));
    assert forall|i: int| 0 <= i < base.len() - before.len() implies #[trigger] since(
        before,
        after,
    )[i] == since(before, base)[i] by {
        assert(after[before.len() + i] == after.take(base.len() as int)[before.len() + i]);
    }
}

/// Reports a completed commit.
fn report_commit<D: BlockDevice>(
    io: &mut Io<D>,
    context: &JournalContext,
    staged: &StagedBlocks,
    logged: usize,
    start: usize,
    diagnostic: bool,
    reason: JournalCommitReason,
    Ghost(base): Ghost<Seq<Event>>,
    Ghost(plan): Ghost<Seq<Step>>,
    Ghost(at): Ghost<int>,
)
    requires
        logged < usize::MAX,
        reached(base, old(io).log(), plan, at, diagnostic),
        at + 2 == plan.len(),
        plan[at] == (Step::ReportBytes { bytes: logged_bytes(logged as nat) }),
        plan[at + 1] == (Step::ReportCommit {
            transaction: context.superblock.sequence,
            staged: staged@.len() as usize,
            since: start,
            reason,
        }),
    ensures
        old(io).grew_to(final(io)),
        reached(base, final(io).log(), plan, plan.len() as int, diagnostic),
{
    let ghost first = io.log();
    let bytes: usize = bytes_logged(logged);
    io.record_journal_commit(bytes);
    let ghost second = io.log();
    proof {
        assert(second.take(first.len() as int) =~= first);
        assert(since(first, second) =~= seq![Event::RecordJournalBytes { bytes }]);
        lemma_advance(base, first, second, plan, at, diagnostic);
    }
    if diagnostic {
        let end: usize = io.diagnostic_cycles();
        io.record_writeback_journal_commit(
            context.superblock.sequence,
            staged.len(),
            end.wrapping_sub(start),
            reason,
        );
    }
    proof {
        assert(io.log().take(second.len() as int) =~= second);
        lemma_advance(base, second, io.log(), plan, at + 1, diagnostic);
    }
}

/// What a direct commit writes, in order.
pub open spec fn direct_plan(blocks: Seq<StagedBlock>) -> Seq<Step> {
    home_writes(blocks).push(Step::Publish { blocks: images(blocks) })
}

/// Whether a home block lies outside the device.
pub open spec fn beyond(target: u64, blocks: Seq<StagedBlock>) -> bool {
    exists|i: int| 0 <= i < blocks.len() && #[trigger] blocks[i].home >= target
}

/// What a direct commit of `blocks` does.
pub open spec fn direct_committed(
    before: DirectTransactionCore,
    after: DirectTransactionCore,
    blocks: Seq<StagedBlock>,
    log: Seq<Event>,
    log_after: Seq<Event>,
    outcome: core::result::Result<(), CommitError>,
) -> bool {
    let plan = direct_plan(blocks);
    &&& !after.writing()
    &&& after.target() == before.target()
    &&& if beyond(before.target(), blocks) {
        &&& refused(outcome, ErrCode::EINVAL)
        &&& log_after == log
        &&& after.poisoned() == before.poisoned()
    } else {
        match outcome {
            Ok(_) => {
                &&& reached(log, log_after, plan, plan.len() as int, false)
                &&& after.poisoned() == before.poisoned()
            },
            Err(stop) => {
                &&& stop.failure == CommitFailure::CheckpointFailed
                &&& exists|at: int| #[trigger]
                    halted(log, log_after, plan, at, false, stop.error)
                &&& after.poisoned()
            },
        }
    }
}

/// Whether no image of the transaction is dropped or restored.
pub open spec fn committed_nothing(
    transaction: Transaction,
    before: JournalTransactionCore,
    after: JournalTransactionCore,
) -> bool {
    &&& !after.writing()
    &&& after.poisoned() == before.poisoned()
    &&& after.context() == restored(before.context(), transaction.deferred())
}

/// What committing a transaction through the journal does.
pub open spec fn committed_by_journal(
    transaction: Transaction,
    before: JournalTransactionCore,
    after: JournalTransactionCore,
    log: Seq<Event>,
    log_after: Seq<Event>,
    outcome: core::result::Result<(), CommitError>,
) -> bool {
    if transaction.staged().len() == 0 {
        &&& outcome is Ok
        &&& log_after == log
        &&& committed_nothing(transaction, before, after)
    } else {
        journal_committed(
            before.context(),
            before.poisoned(),
            after,
            overlay(transaction.batch(), transaction.staged()),
            JournalCommitReason::Explicit,
            log,
            log_after,
            outcome,
        )
    }
}

/// What committing a transaction directly does.
pub open spec fn committed_directly(
    transaction: Transaction,
    before: DirectTransactionCore,
    after: DirectTransactionCore,
    log: Seq<Event>,
    log_after: Seq<Event>,
    outcome: core::result::Result<(), CommitError>,
) -> bool {
    if transaction.staged().len() == 0 {
        &&& outcome is Ok
        &&& log_after == log
        &&& !after.writing()
        &&& after.poisoned() == before.poisoned()
        &&& after.target() == before.target()
    } else {
        direct_committed(before, after, transaction.staged(), log, log_after, outcome)
    }
}

/// Whether a transaction of `total` images is too large to wait.
pub open spec fn must_commit(context: JournalContext, total: nat, max_deferred_blocks: usize) -> bool {
    let sb = context.superblock;
    total >= max_deferred_blocks || 2 * log_blocks(total, sb.features) >= sb.max_len - sb.first
}

/// What deferring a transaction does.
pub open spec fn deferred_by_journal(
    transaction: Transaction,
    before: JournalTransactionCore,
    after: JournalTransactionCore,
    log: Seq<Event>,
    log_after: Seq<Event>,
    max_deferred_blocks: usize,
    outcome: core::result::Result<(), CommitError>,
) -> bool {
    let context = before.context();
    let total = distinct_homes(transaction.batch(), transaction.staged());
    let blocks = overlay(transaction.batch(), transaction.staged());
    if total == 0 {
        &&& outcome is Ok
        &&& log_after == log
        &&& committed_nothing(transaction, before, after)
    } else if !log_countable(total, context.superblock.features) {
        &&& refused(outcome, ErrCode::E2BIG)
        &&& log_after == log
        &&& committed_nothing(transaction, before, after)
    } else if must_commit(context, total, max_deferred_blocks) {
        journal_committed(
            before.context(),
            before.poisoned(),
            after,
            blocks,
            JournalCommitReason::DeferredThreshold,
            log,
            log_after,
            outcome,
        )
    } else {
        &&& outcome is Ok
        &&& log_after == log.push(Event::PublishPending { blocks: images(blocks) })
        &&& !after.writing()
        &&& after.poisoned() == before.poisoned()
        &&& after.context().deferred_transaction matches Some(batch)
        &&& batch@ == without_originals(blocks)
        &&& after.context() == (JournalContext {
            deferred_transaction: after.context().deferred_transaction,
            ..context
        })
    }
}

/// Whether a commit through the journal made its images durable in their homes, and so published
/// them.
pub open spec fn published(outcome: core::result::Result<(), CommitError>) -> bool {
    match outcome {
        Ok(_) => true,
        Err(stop) => stop.failure == CommitFailure::TailUpdateFailed,
    }
}

/// Whether a publisher was told of `blocks` once, or not at all.
pub open spec fn heard<P: CachePublisher>(
    publisher: P,
    after: P,
    blocks: Seq<StagedBlock>,
    told: bool,
) -> bool {
    if told {
        publisher.answers_publish(&after, images(blocks))
    } else {
        after == publisher
    }
}

/// What a publisher is told by a commit through the journal.
pub open spec fn heard_of_commit<P: CachePublisher>(
    transaction: Transaction,
    publisher: P,
    after: P,
    outcome: core::result::Result<(), CommitError>,
) -> bool {
    heard(
        publisher,
        after,
        overlay(transaction.batch(), transaction.staged()),
        transaction.staged().len() > 0 && published(outcome),
    )
}

/// What a publisher is told by a commit without a journal.
pub open spec fn heard_of_writes<P: CachePublisher>(
    transaction: Transaction,
    publisher: P,
    after: P,
    outcome: core::result::Result<(), CommitError>,
) -> bool {
    heard(publisher, after, transaction.staged(), transaction.staged().len() > 0 && outcome is Ok)
}

/// What a publisher is told where images may wait for a commit.
pub open spec fn heard_of_batch<P: CachePublisher>(
    transaction: Transaction,
    journal: JournalTransactionCore,
    publisher: P,
    after: P,
    max_deferred_blocks: usize,
    outcome: core::result::Result<(), CommitError>,
) -> bool {
    let context = journal.context();
    let total = distinct_homes(transaction.batch(), transaction.staged());
    let blocks = overlay(transaction.batch(), transaction.staged());
    if total == 0 || !log_countable(total, context.superblock.features) {
        after == publisher
    } else if must_commit(context, total, max_deferred_blocks) {
        heard(publisher, after, blocks, published(outcome))
    } else {
        publisher.answers_pending(&after, images(blocks))
    }
}

/// Whether committing the images that wait publishes them.
pub open spec fn flush_told(
    journal: JournalTransactionCore,
    outcome: core::result::Result<bool, CommitError>,
) -> bool {
    !journal.writing() && journal.context().deferred_transaction is Some && published(bare(outcome))
}

/// What a publisher is told by committing the images that wait.
pub open spec fn heard_of_flush<P: CachePublisher>(
    journal: JournalTransactionCore,
    publisher: P,
    after: P,
    outcome: core::result::Result<bool, CommitError>,
) -> bool {
    heard(publisher, after, journal.batch(), flush_told(journal, outcome))
}

/// The outcome of a commit without what it says of the images that waited.
pub open spec fn bare(outcome: core::result::Result<bool, CommitError>) -> core::result::Result<
    (),
    CommitError,
> {
    match outcome {
        Ok(_) => Ok(()),
        Err(stop) => Err(stop),
    }
}

/// What committing the images that wait does.
pub open spec fn deferred_flushed(
    before: JournalTransactionCore,
    after: JournalTransactionCore,
    reason: JournalCommitReason,
    log: Seq<Event>,
    log_after: Seq<Event>,
    outcome: core::result::Result<bool, CommitError>,
) -> bool {
    if before.writing() {
        &&& outcome == Err::<bool, CommitError>(
            CommitError {
                error: Ext4Error { code: ErrCode::EAGAIN },
                failure: CommitFailure::BeforeCommit,
            },
        )
        &&& after == before
        &&& log_after == log
    } else if before.context().deferred_transaction is None {
        &&& outcome == Ok::<bool, CommitError>(false)
        &&& after == before
        &&& log_after == log
    } else {
        &&& journal_committed(
            JournalContext { deferred_transaction: None, ..before.context() },
            before.poisoned(),
            after,
            before.batch(),
            reason,
            log,
            log_after,
            bare(outcome),
        )
        &&& outcome is Ok ==> outcome == Ok::<bool, CommitError>(true)
    }
}

impl JournalTransactionCore {
    /// Commits all images that wait, and returns whether there were any.
    pub fn flush_deferred_transaction<D: BlockDevice, P: CachePublisher>(
        &mut self,
        io: &mut Io<D>,
        publisher: &mut P,
        reason: JournalCommitReason,
    ) -> (outcome: core::result::Result<bool, CommitError>)
        requires
            old(self).inv(),
        ensures
            old(io).grew_to(final(io)),
            heard_of_flush(*old(self), *old(publisher), *final(publisher), outcome),
            final(self).inv(),
            deferred_flushed(
                *old(self),
                *final(self),
                reason,
                old(io).log(),
                final(io).log(),
                outcome,
            ),
    {
        let ghost before = *self;
        if !self.claim() {
            proof {
                before.lemma_same(self);
            }
            return Err(
                CommitError {
                    error: Ext4Error::new(ErrCode::EAGAIN),
                    failure: CommitFailure::BeforeCommit,
                },
            );
        }
        match self.take_batch() {
            Some(batch) => {
                let ghost images = batch@;
                let transaction = Transaction::from_deferred(batch);
                proof {
                    assert(count_absent(transaction.batch(), images) == images.len()) by {
                        lemma_nothing_absent(images);
                    }
                    assert(overlay(transaction.batch(), images) == images);
                }
                let outcome = transaction.commit_journal(self, io, publisher, reason);
                match outcome {
                    Ok(done) => {
                        assert(done == ());
                        Ok(true)
                    },
                    Err(stop) => Err(stop),
                }
            },
            None => {
                self.finish(false);
                proof {
                    before.lemma_same(self);
                }
                Ok(false)
            },
        }
    }
}

/// Without an earlier batch every home is new.
proof fn lemma_nothing_absent(blocks: Seq<StagedBlock>)
    ensures
        count_absent(Seq::empty(), blocks) == blocks.len(),
    decreases blocks.len(),
{
    if blocks.len() > 0 {
        lemma_nothing_absent(blocks.drop_last());
    }
}

impl Transaction {
    /// Logs, commits and checkpoints the transaction and its batch.
    pub fn commit_journal<D: BlockDevice, P: CachePublisher>(
        self,
        journal: &mut JournalTransactionCore,
        io: &mut Io<D>,
        publisher: &mut P,
        reason: JournalCommitReason,
    ) -> (outcome: core::result::Result<(), CommitError>)
        requires
            self.inv(),
            old(journal).inv(),
        ensures
            old(io).grew_to(final(io)),
            heard(
                *old(publisher),
                *final(publisher),
                overlay(self.batch(), self.staged()),
                published(outcome),
            ),
            final(journal).inv(),
            journal_committed(
                old(journal).context(),
                old(journal).poisoned(),
                *final(journal),
                overlay(self.batch(), self.staged()),
                reason,
                old(io).log(),
                final(io).log(),
                outcome,
            ),
    {
        let ghost before = *journal;
        let staged = self.absorb_deferred_staged();
        let carried = run_journal(journal.context_ref(), io, publisher, &staged, reason);
        match carried {
            Ok((commit_logical, image)) => {
                proof {
                    lemma_ring_step(
                        before.context().superblock,
                        before.context().head,
                        log_data(before.context(), staged@).len(),
                    );
                }
                let sb: Superblock = journal.context_ref().superblock;
                let head: u32 = ring_next(&sb, commit_logical);
                journal.advance(sb.sequence.wrapping_add(1), head, image);
                journal.finish(false);
                Ok(())
            },
            Err(stop) => {
                journal.finish(stop.poison);
                Err(CommitError { error: stop.error, failure: stop.failure })
            },
        }
    }

    /// Writes the home blocks in ascending order.
    fn commit_direct<D: BlockDevice, P: CachePublisher>(
        self,
        direct: &mut DirectTransactionCore,
        io: &mut Io<D>,
        publisher: &mut P,
    ) -> (outcome: core::result::Result<(), CommitError>)
        requires
            self.inv(),
        ensures
            old(io).grew_to(final(io)),
            heard(*old(publisher), *final(publisher), self.staged(), outcome is Ok),
            direct_committed(
                *old(direct),
                *final(direct),
                self.staged(),
                old(io).log(),
                final(io).log(),
                outcome,
            ),
    {
        let ghost base = io.log();
        let ghost plan = direct_plan(self.staged());
        let staged = self.staged_blocks();
        let count: usize = staged.len();
        let mut at: usize = 0;
        while at < count
            invariant
                old(io).grew_to(io),
                at <= count,
                count == staged@.len(),
                staged@ == self.staged(),
                io.log() == old(io).log(),
                *direct == *old(direct),
                forall|i: int| 0 <= i < at ==> #[trigger] staged@[i].home < old(direct).target(),
            decreases count - at,
        {
            if staged.at(at).home() >= direct.target_blocks() {
                assert(staged@[at as int].home >= old(direct).target());
                direct.finish(false);
                return Err(
                    CommitError {
                        error: Ext4Error::new(ErrCode::EINVAL),
                        failure: CommitFailure::BeforeCommit,
                    },
                );
            }
            at = at + 1;
        }
        proof {
            lemma_outset(base, plan, false);
        }
        match write_homes(io, staged, Ghost(base), Ghost(plan), Ghost(0int), Ghost(false)) {
            Ok(_) => {},
            Err(error) => {
                direct.finish(true);
                return Err(CommitError { error, failure: CommitFailure::CheckpointFailed });
            },
        }
        publish_step(
            io,
            publisher,
            staged,
            Ghost(base),
            Ghost(plan),
            Ghost(count as int),
            Ghost(false),
        );
        direct.finish(false);
        Ok(())
    }

    /// Commits the transaction.
    pub fn commit<D: BlockDevice, P: CachePublisher>(
        self,
        core: TransactionCoreRef<'_>,
        io: &mut Io<D>,
        publisher: &mut P,
    ) -> (outcome: core::result::Result<(), CommitError>)
        requires
            self.inv(),
            core matches TransactionCoreRef::Journal(journal) ==> journal.inv(),
        ensures
            old(io).grew_to(final(io)),
            match core {
                TransactionCoreRef::Journal(_) => heard_of_commit(
                    self,
                    *old(publisher),
                    *final(publisher),
                    outcome,
                ),
                TransactionCoreRef::Direct(_) => heard_of_writes(
                    self,
                    *old(publisher),
                    *final(publisher),
                    outcome,
                ),
            },
            match core {
                TransactionCoreRef::Journal(journal) => {
                    &&& final(journal).inv()
                    &&& committed_by_journal(
                        self,
                        *journal,
                        *final(journal),
                        old(io).log(),
                        final(io).log(),
                        outcome,
                    )
                },
                TransactionCoreRef::Direct(direct) => committed_directly(
                    self,
                    *direct,
                    *final(direct),
                    old(io).log(),
                    final(io).log(),
                    outcome,
                ),
            },
    {
        if self.staged_blocks().is_empty() {
            self.abort(core);
            return Ok(());
        }
        match core {
            TransactionCoreRef::Journal(journal) => self.commit_journal(
                journal,
                io,
                publisher,
                JournalCommitReason::Explicit,
            ),
            TransactionCoreRef::Direct(direct) => self.commit_direct(direct, io, publisher),
        }
    }

    /// Lets the images wait for a commit while the batch is small, and commits it otherwise.
    pub fn defer_or_commit<D: BlockDevice, P: CachePublisher>(
        self,
        core: TransactionCoreRef<'_>,
        io: &mut Io<D>,
        publisher: &mut P,
        max_deferred_blocks: usize,
    ) -> (outcome: core::result::Result<(), CommitError>)
        requires
            self.inv(),
            core matches TransactionCoreRef::Journal(journal) ==> journal.inv(),
        ensures
            old(io).grew_to(final(io)),
            match core {
                TransactionCoreRef::Journal(journal) => heard_of_batch(
                    self,
                    *journal,
                    *old(publisher),
                    *final(publisher),
                    max_deferred_blocks,
                    outcome,
                ),
                TransactionCoreRef::Direct(_) => heard_of_writes(
                    self,
                    *old(publisher),
                    *final(publisher),
                    outcome,
                ),
            },
            match core {
                TransactionCoreRef::Journal(journal) => {
                    &&& final(journal).inv()
                    &&& deferred_by_journal(
                        self,
                        *journal,
                        *final(journal),
                        old(io).log(),
                        final(io).log(),
                        max_deferred_blocks,
                        outcome,
                    )
                },
                TransactionCoreRef::Direct(direct) => committed_directly(
                    self,
                    *direct,
                    *final(direct),
                    old(io).log(),
                    final(io).log(),
                    outcome,
                ),
            },
    {
        match core {
            TransactionCoreRef::Journal(journal) => self.defer_or_commit_journal(
                journal,
                io,
                publisher,
                max_deferred_blocks,
            ),
            TransactionCoreRef::Direct(direct) => self.commit(
                TransactionCoreRef::Direct(direct),
                io,
                publisher,
            ),
        }
    }

    fn defer_or_commit_journal<D: BlockDevice, P: CachePublisher>(
        self,
        journal: &mut JournalTransactionCore,
        io: &mut Io<D>,
        publisher: &mut P,
        max_deferred_blocks: usize,
    ) -> (outcome: core::result::Result<(), CommitError>)
        requires
            self.inv(),
            old(journal).inv(),
        ensures
            old(io).grew_to(final(io)),
            heard_of_batch(
                self,
                *old(journal),
                *old(publisher),
                *final(publisher),
                max_deferred_blocks,
                outcome,
            ),
            final(journal).inv(),
            deferred_by_journal(
                self,
                *old(journal),
                *final(journal),
                old(io).log(),
                final(io).log(),
                max_deferred_blocks,
                outcome,
            ),
    {
        let total: usize = self.total_staged_len();
        if total == 0 {
            self.leave(journal);
            return Ok(());
        }
        let sb: Superblock = journal.context_ref().superblock;
        let required: usize = match required_log_blocks(total, sb.features) {
            Ok(required) => required,
            Err(error) => {
                self.leave(journal);
                return Err(CommitError { error, failure: CommitFailure::BeforeCommit });
            },
        };
        let available: usize = match ring_len(&sb) {
            Ok(available) => available,
            Err(error) => {
                self.leave(journal);
                return Err(CommitError { error, failure: CommitFailure::BeforeCommit });
            },
        };
        let crowded = required >= available || required >= available - required;
        if total >= max_deferred_blocks || crowded {
            return self.commit_journal(
                journal,
                io,
                publisher,
                JournalCommitReason::DeferredThreshold,
            );
        }
        let mut staged = self.absorb_deferred_staged();
        io.publish_pending(publisher, &staged);
        staged.drop_originals();
        journal.put_batch(DeferredTransaction::new(staged));
        journal.finish(false);
        Ok(())
    }
}

} // verus!
