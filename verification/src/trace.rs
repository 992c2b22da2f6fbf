//! Plans of device operations, and what it means that a record of calls carries one out.

use vstd::prelude::*;
use crate::bytes::{put_bytes, splice};
use crate::device::{
    extends, since, Block, BlockDevice, Event, Io, JournalCommitReason, JournalFlushPhase,
};
use crate::error::{Ext4Error, Result};
use crate::staged::{images, CachePublisher, StagedBlocks};
use crate::{BLOCK_SIZE, PBlockId};

verus! {

broadcast use {Io::lemma_stays, Io::lemma_goes_on};

/// One operation of a plan.
pub ghost enum Step {
    /// Read a block, and write it back with its first bytes replaced.
    Patch { id: PBlockId, prefix: Seq<u8> },
    /// Write one block.
    Write { id: PBlockId, data: Seq<u8> },
    /// Write consecutive blocks with one call.
    WriteRun { start: PBlockId, data: Seq<u8> },
    /// Flush, and report the barrier where diagnostics are on.
    Barrier { transaction: u32, phase: JournalFlushPhase },
    /// Flush.
    Flush,
    /// Flush where the device supports it.
    FlushIfReliable,
    /// Hand the images to the cache publisher.
    Publish { blocks: Seq<(PBlockId, Seq<u8>)> },
    /// Report the logged bytes.
    ReportBytes { bytes: usize },
    /// Report the commit where diagnostics are on; the counter stood at `since` at its start.
    ReportCommit { transaction: u32, staged: usize, since: usize, reason: JournalCommitReason },
}

/// Whether `calls` carries out `step`.
pub open spec fn step_done(step: Step, diagnostic: bool, calls: Seq<Event>) -> bool {
    match step {
        Step::Patch { id, prefix } => {
            &&& calls.len() == 2
            &&& calls[0] matches Event::ReadBlock { id: read, reply: Ok(block) }
            &&& read == id
            &&& calls[1] == (Event::WriteBlock {
                id: block.id,
                data: splice(block.data@, 0, prefix),
                reply: Ok(()),
            })
        },
        Step::Write { id, data } => calls == seq![Event::WriteBlock { id, data, reply: Ok(()) }],
        Step::WriteRun { start, data } => calls == seq![
            Event::WriteBlocks { start, data, reply: Ok(()) },
        ],
        Step::Barrier { transaction, phase } => if diagnostic {
            &&& calls.len() == 4
            &&& calls[0] matches Event::Cycles { reply: from }
            &&& calls[1] == (Event::Flush { reply: Ok(()) })
            &&& calls[2] matches Event::Cycles { reply: to }
            &&& calls[3] == (Event::RecordFlush {
                transaction,
                phase,
                cycles: to.wrapping_sub(from),
            })
        } else {
            calls == seq![Event::Flush { reply: Ok(()) }]
        },
        Step::Flush => calls == seq![Event::Flush { reply: Ok(()) }],
        Step::FlushIfReliable => {
            ||| calls == seq![Event::ReliableFlush { reply: false }]
            ||| calls == seq![
                Event::ReliableFlush { reply: true },
                Event::Flush { reply: Ok(()) },
            ]
        },
        Step::Publish { blocks } => calls == seq![Event::Publish { blocks }],
        Step::ReportBytes { bytes } => calls == seq![Event::RecordJournalBytes { bytes }],
        Step::ReportCommit { transaction, staged, since, reason } => if diagnostic {
            &&& calls.len() == 2
            &&& calls[0] matches Event::Cycles { reply: to }
            &&& calls[1] == (Event::RecordCommit {
                transaction,
                staged,
                cycles: to.wrapping_sub(since),
                reason,
            })
        } else {
            calls.len() == 0
        },
    }
}

/// Whether `calls` attempts `step`, and its last call fails with `error`.
pub open spec fn step_failed(
    step: Step,
    diagnostic: bool,
    calls: Seq<Event>,
    error: Ext4Error,
) -> bool {
    match step {
        Step::Patch { id, prefix } => {
            ||| calls == seq![Event::ReadBlock { id, reply: Err(error) }]
            ||| {
                &&& calls.len() == 2
                &&& calls[0] matches Event::ReadBlock { id: read, reply: Ok(block) }
                &&& read == id
                &&& calls[1] == (Event::WriteBlock {
                    id: block.id,
                    data: splice(block.data@, 0, prefix),
                    reply: Err(error),
                })
            }
        },
        Step::Write { id, data } => calls == seq![
            Event::WriteBlock { id, data, reply: Err(error) },
        ],
        Step::WriteRun { start, data } => calls == seq![
            Event::WriteBlocks { start, data, reply: Err(error) },
        ],
        Step::Barrier { transaction, phase } => if diagnostic {
            &&& calls.len() == 2
            &&& calls[0] is Cycles
            &&& calls[1] == (Event::Flush { reply: Err(error) })
        } else {
            calls == seq![Event::Flush { reply: Err(error) }]
        },
        Step::Flush => calls == seq![Event::Flush { reply: Err(error) }],
        Step::FlushIfReliable => calls == seq![
            Event::ReliableFlush { reply: true },
            Event::Flush { reply: Err(error) },
        ],
        Step::Publish { blocks } => false,
        Step::ReportBytes { bytes } => false,
        Step::ReportCommit { transaction, staged, since, reason } => false,
    }
}

/// Whether `calls` can be cut in two at `cut`.
pub open spec fn cuts(calls: Seq<Event>, cut: int) -> bool {
    0 <= cut <= calls.len()
}

/// Whether `calls` carries out `steps`, one after the other.
pub open spec fn performed(steps: Seq<Step>, diagnostic: bool, calls: Seq<Event>) -> bool
    decreases steps.len(),
{
    if steps.len() == 0 {
        calls.len() == 0
    } else {
        exists|cut: int|
            {
                &&& #[trigger] cuts(calls, cut)
                &&& performed(steps.drop_last(), diagnostic, calls.take(cut))
                &&& step_done(steps.last(), diagnostic, calls.skip(cut))
            }
    }
}

/// Whether `calls` carries out the steps before position `at`, and then fails in that step with
/// `error`; nothing is called after that.
pub open spec fn stopped(
    steps: Seq<Step>,
    diagnostic: bool,
    calls: Seq<Event>,
    at: int,
    error: Ext4Error,
) -> bool {
    &&& 0 <= at < steps.len()
    &&& exists|cut: int|
        {
            &&& #[trigger] cuts(calls, cut)
            &&& performed(steps.take(at), diagnostic, calls.take(cut))
            &&& step_failed(steps[at], diagnostic, calls.skip(cut), error)
        }
}

/// The record `log` continues `base` by carrying out `steps`.
pub open spec fn progress(
    base: Seq<Event>,
    log: Seq<Event>,
    steps: Seq<Step>,
    diagnostic: bool,
) -> bool {
    extends(base, log) && performed(steps, diagnostic, since(base, log))
}

/// The record `log` continues `base` by carrying out the first `at` steps of `plan`.
pub open spec fn reached(
    base: Seq<Event>,
    log: Seq<Event>,
    plan: Seq<Step>,
    at: int,
    diagnostic: bool,
) -> bool {
    0 <= at <= plan.len() && progress(base, log, plan.take(at), diagnostic)
}

/// The record `log` continues `base` by carrying out `plan` up to step `at`, which fails.
pub open spec fn halted(
    base: Seq<Event>,
    log: Seq<Event>,
    plan: Seq<Step>,
    at: int,
    diagnostic: bool,
    error: Ext4Error,
) -> bool {
    extends(base, log) && stopped(plan, diagnostic, since(base, log), at, error)
}

/// A record carries out no steps when nothing was called.
pub proof fn lemma_no_progress(base: Seq<Event>, diagnostic: bool)
    ensures
        progress(base, base, Seq::<Step>::empty(), diagnostic),
{
    assert(base.take(base.len() as int) =~= base);
}

/// One more completed step.
pub proof fn lemma_progress(
    base: Seq<Event>,
    before: Seq<Event>,
    after: Seq<Event>,
    steps: Seq<Step>,
    step: Step,
    diagnostic: bool,
)
    requires
        progress(base, before, steps, diagnostic),
        extends(before, after),
        step_done(step, diagnostic, since(before, after)),
    ensures
        progress(base, after, steps.push(step), diagnostic),
{
    let cut = before.len() - base.len();
    let calls = since(base, after);
    assert(after.take(base.len() as int) =~= before.take(base.len() as int));
    assert(calls.take(cut) =~= since(base, before));
    assert(calls.skip(cut) =~= since(before, after));
    assert(steps.push(step).drop_last() =~= steps);
    assert(base =~= after.take(base.len() as int));
    let grown = steps.push(step);
    assert(performed(grown.drop_last(), diagnostic, calls.take(cut)));
    assert(step_done(grown.last(), diagnostic, calls.skip(cut)));
    assert(cuts(calls, cut));
}

/// A failed step after completed ones.
pub proof fn lemma_stopped(
    base: Seq<Event>,
    before: Seq<Event>,
    after: Seq<Event>,
    steps: Seq<Step>,
    plan: Seq<Step>,
    error: Ext4Error,
    diagnostic: bool,
)
    requires
        progress(base, before, steps, diagnostic),
        extends(before, after),
        steps.len() < plan.len(),
        plan.take(steps.len() as int) == steps,
        step_failed(plan[steps.len() as int], diagnostic, since(before, after), error),
    ensures
        extends(base, after),
        stopped(plan, diagnostic, since(base, after), steps.len() as int, error),
{
    let cut = before.len() - base.len();
    let calls = since(base, after);
    assert(after.take(base.len() as int) =~= before.take(base.len() as int));
    assert(base =~= after.take(base.len() as int));
    assert(calls.take(cut) =~= since(base, before));
    assert(calls.skip(cut) =~= since(before, after));
    assert(cuts(calls, cut));
}

/// Nothing of a plan is carried out when nothing was called.
pub proof fn lemma_outset(base: Seq<Event>, plan: Seq<Step>, diagnostic: bool)
    ensures
        reached(base, base, plan, 0, diagnostic),
{
    lemma_no_progress(base, diagnostic);
    assert(plan.take(0) =~= Seq::<Step>::empty());
}

/// The next step of a plan is completed.
pub proof fn lemma_advance(
    base: Seq<Event>,
    before: Seq<Event>,
    after: Seq<Event>,
    plan: Seq<Step>,
    at: int,
    diagnostic: bool,
)
    requires
        reached(base, before, plan, at, diagnostic),
        at < plan.len(),
        extends(before, after),
        step_done(plan[at], diagnostic, since(before, after)),
    ensures
        reached(base, after, plan, at + 1, diagnostic),
{
    lemma_progress(base, before, after, plan.take(at), plan[at], diagnostic);
    assert(plan.take(at).push(plan[at]) =~= plan.take(at + 1));
}

/// The next step of a plan fails.
pub proof fn lemma_halt(
    base: Seq<Event>,
    before: Seq<Event>,
    after: Seq<Event>,
    plan: Seq<Step>,
    at: int,
    diagnostic: bool,
    error: Ext4Error,
)
    requires
        reached(base, before, plan, at, diagnostic),
        at < plan.len(),
        extends(before, after),
        step_failed(plan[at], diagnostic, since(before, after), error),
    ensures
        halted(base, after, plan, at, diagnostic, error),
{
    lemma_stopped(base, before, after, plan.take(at), plan, error, diagnostic);
}

/// The outcome of one step of a plan.
pub open spec fn ran(
    reply: Result<()>,
    base: Seq<Event>,
    log: Seq<Event>,
    plan: Seq<Step>,
    at: int,
    diagnostic: bool,
) -> bool {
    match reply {
        Ok(_) => reached(base, log, plan, at + 1, diagnostic),
        Err(error) => halted(base, log, plan, at, diagnostic, error),
    }
}

/// Writes `bytes` to block `id`.
pub(crate) fn write_bytes<D: BlockDevice>(
    io: &mut Io<D>,
    id: PBlockId,
    bytes: &[u8; BLOCK_SIZE],
    Ghost(base): Ghost<Seq<Event>>,
    Ghost(plan): Ghost<Seq<Step>>,
    Ghost(at): Ghost<int>,
    Ghost(diagnostic): Ghost<bool>,
) -> (reply: Result<()>)
    requires
        reached(base, old(io).log(), plan, at, diagnostic),
        at < plan.len(),
        plan[at] == (Step::Write { id, data: bytes@ }),
    ensures
        old(io).grew_to(final(io)),
        ran(reply, base, final(io).log(), plan, at, diagnostic),
{
    let ghost before = io.log();
    let reply = io.write_block(&Block::new(id, Box::new(*bytes)));
    assert(io.log().take(before.len() as int) =~= before);
    assert(since(before, io.log()) =~= seq![Event::WriteBlock { id, data: bytes@, reply }]);
    match reply {
        Ok(done) => {
            assert(done == ());
            proof {
                lemma_advance(base, before, io.log(), plan, at, diagnostic);
            }
        },
        Err(error) => {
            proof {
                lemma_halt(base, before, io.log(), plan, at, diagnostic, error);
            }
        },
    }
    reply
}

/// Writes consecutive blocks from `start` on.
pub(crate) fn write_run<D: BlockDevice>(
    io: &mut Io<D>,
    start: PBlockId,
    data: &[u8],
    Ghost(base): Ghost<Seq<Event>>,
    Ghost(plan): Ghost<Seq<Step>>,
    Ghost(at): Ghost<int>,
    Ghost(diagnostic): Ghost<bool>,
) -> (reply: Result<()>)
    requires
        reached(base, old(io).log(), plan, at, diagnostic),
        at < plan.len(),
        plan[at] == (Step::WriteRun { start, data: data@ }),
    ensures
        old(io).grew_to(final(io)),
        ran(reply, base, final(io).log(), plan, at, diagnostic),
{
    let ghost before = io.log();
    let reply = io.write_blocks(start, data);
    assert(io.log().take(before.len() as int) =~= before);
    assert(since(before, io.log()) =~= seq![Event::WriteBlocks { start, data: data@, reply }]);
    match reply {
        Ok(done) => {
            assert(done == ());
            proof {
                lemma_advance(base, before, io.log(), plan, at, diagnostic);
            }
        },
        Err(error) => {
            proof {
                lemma_halt(base, before, io.log(), plan, at, diagnostic, error);
            }
        },
    }
    reply
}

/// Reads block `id`, and writes it back with its first bytes replaced by `prefix`.
pub(crate) fn patch_block<D: BlockDevice>(
    io: &mut Io<D>,
    id: PBlockId,
    prefix: &[u8],
    Ghost(base): Ghost<Seq<Event>>,
    Ghost(plan): Ghost<Seq<Step>>,
    Ghost(at): Ghost<int>,
    Ghost(diagnostic): Ghost<bool>,
) -> (reply: Result<()>)
    requires
        reached(base, old(io).log(), plan, at, diagnostic),
        at < plan.len(),
        prefix@.len() <= BLOCK_SIZE,
        plan[at] == (Step::Patch { id, prefix: prefix@ }),
    ensures
        old(io).grew_to(final(io)),
        ran(reply, base, final(io).log(), plan, at, diagnostic),
{
    let ghost before = io.log();
    let block = match io.read_block(id) {
        Ok(block) => block,
        Err(error) => {
            assert(io.log().take(before.len() as int) =~= before);
            assert(since(before, io.log()) =~= seq![Event::ReadBlock { id, reply: Err(error) }]);
            proof {
                lemma_halt(base, before, io.log(), plan, at, diagnostic, error);
            }
            return Err(error);
        },
    };
    let mut data: [u8; BLOCK_SIZE] = *block.data;
    put_bytes(&mut data, 0, prefix);
    let reply = io.write_block(&Block::new(block.id, Box::new(data)));
    assert(io.log().take(before.len() as int) =~= before);
    match reply {
        Ok(done) => {
            assert(done == ());
            proof {
                lemma_advance(base, before, io.log(), plan, at, diagnostic);
            }
        },
        Err(error) => {
            proof {
                lemma_halt(base, before, io.log(), plan, at, diagnostic, error);
            }
        },
    }
    reply
}

/// Flushes.
pub(crate) fn flush_step<D: BlockDevice>(
    io: &mut Io<D>,
    Ghost(base): Ghost<Seq<Event>>,
    Ghost(plan): Ghost<Seq<Step>>,
    Ghost(at): Ghost<int>,
    Ghost(diagnostic): Ghost<bool>,
) -> (reply: Result<()>)
    requires
        reached(base, old(io).log(), plan, at, diagnostic),
        at < plan.len(),
        plan[at] == Step::Flush,
    ensures
        old(io).grew_to(final(io)),
        ran(reply, base, final(io).log(), plan, at, diagnostic),
{
    let ghost before = io.log();
    let reply = io.flush();
    assert(io.log().take(before.len() as int) =~= before);
    assert(since(before, io.log()) =~= seq![Event::Flush { reply }]);
    match reply {
        Ok(done) => {
            assert(done == ());
            proof {
                lemma_advance(base, before, io.log(), plan, at, diagnostic);
            }
        },
        Err(error) => {
            proof {
                lemma_halt(base, before, io.log(), plan, at, diagnostic, error);
            }
        },
    }
    reply
}

/// Flushes where the device supports it.
pub(crate) fn flush_if_reliable<D: BlockDevice>(
    io: &mut Io<D>,
    Ghost(base): Ghost<Seq<Event>>,
    Ghost(plan): Ghost<Seq<Step>>,
    Ghost(at): Ghost<int>,
    Ghost(diagnostic): Ghost<bool>,
) -> (reply: Result<()>)
    requires
        reached(base, old(io).log(), plan, at, diagnostic),
        at < plan.len(),
        plan[at] == Step::FlushIfReliable,
    ensures
        old(io).grew_to(final(io)),
        ran(reply, base, final(io).log(), plan, at, diagnostic),
{
    let ghost before = io.log();
    if io.supports_reliable_flush() {
        let reply = io.flush();
        assert(io.log().take(before.len() as int) =~= before);
        assert(since(before, io.log()) =~= seq![
            Event::ReliableFlush { reply: true },
            Event::Flush { reply },
        ]);
        match reply {
            Ok(done) => {
                assert(done == ());
                proof {
                    lemma_advance(base, before, io.log(), plan, at, diagnostic);
                }
            },
            Err(error) => {
                proof {
                    lemma_halt(base, before, io.log(), plan, at, diagnostic, error);
                }
            },
        }
        return reply;
    }
    assert(io.log().take(before.len() as int) =~= before);
    assert(since(before, io.log()) =~= seq![Event::ReliableFlush { reply: false }]);
    proof {
        lemma_advance(base, before, io.log(), plan, at, diagnostic);
    }
    Ok(())
}

/// Flushes, and reports the barrier where diagnostics are on.
pub(crate) fn flush_journal_phase<D: BlockDevice>(
    io: &mut Io<D>,
    transaction: u32,
    phase: JournalFlushPhase,
    diagnostic: bool,
    Ghost(base): Ghost<Seq<Event>>,
    Ghost(plan): Ghost<Seq<Step>>,
    Ghost(at): Ghost<int>,
) -> (reply: Result<()>)
    requires
        reached(base, old(io).log(), plan, at, diagnostic),
        at < plan.len(),
        plan[at] == (Step::Barrier { transaction, phase }),
    ensures
        old(io).grew_to(final(io)),
        ran(reply, base, final(io).log(), plan, at, diagnostic),
{
    let ghost before = io.log();
    let start: usize = if diagnostic {
        io.diagnostic_cycles()
    } else {
        0
    };
    match io.flush() {
        Ok(done) => {
            assert(done == ());
        },
        Err(error) => {
            assert(io.log().take(before.len() as int) =~= before);
            assert(!diagnostic ==> since(before, io.log()) =~= seq![
                Event::Flush { reply: Err(error) },
            ]);
            proof {
                lemma_halt(base, before, io.log(), plan, at, diagnostic, error);
            }
            return Err(error);
        },
    }
    if diagnostic {
        let end: usize = io.diagnostic_cycles();
        io.record_writeback_journal_flush(transaction, phase, end.wrapping_sub(start));
    }
    assert(io.log().take(before.len() as int) =~= before);
    assert(!diagnostic ==> since(before, io.log()) =~= seq![Event::Flush { reply: Ok(()) }]);
    proof {
        lemma_advance(base, before, io.log(), plan, at, diagnostic);
    }
    Ok(())
}

/// Hands written images to a publisher.
pub(crate) fn publish_step<D: BlockDevice, P: CachePublisher>(
    io: &mut Io<D>,
    publisher: &mut P,
    blocks: &StagedBlocks,
    Ghost(base): Ghost<Seq<Event>>,
    Ghost(plan): Ghost<Seq<Step>>,
    Ghost(at): Ghost<int>,
    Ghost(diagnostic): Ghost<bool>,
)
    requires
        reached(base, old(io).log(), plan, at, diagnostic),
        at < plan.len(),
        plan[at] == (Step::Publish { blocks: images(blocks@) }),
    ensures
        old(io).grew_to(final(io)),
        old(publisher).answers_publish(final(publisher), images(blocks@)),
        reached(base, final(io).log(), plan, at + 1, diagnostic),
{
    let ghost before = io.log();
    io.publish(publisher, blocks);
    assert(io.log().take(before.len() as int) =~= before);
    assert(since(before, io.log()) =~= seq![Event::Publish { blocks: images(blocks@) }]);
    proof {
        lemma_advance(base, before, io.log(), plan, at, diagnostic);
    }
}

} // verus!
