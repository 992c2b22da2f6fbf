//! What a file system sees of its device: images that wait for a commit stand before what the
//! device holds, and a commit changes nothing of it.

use vstd::prelude::*;
use crate::commit::{deferred_flushed, journal_outcome};
use crate::commit_plan::{home_writes, journal_plan, log_part};
use crate::content::{
    held, lemma_extends, lemma_held_joins, lemma_held_without_writes, told, told_all, writes, Disk,
};
use crate::context::{batch_of, JournalContext};
use crate::device::{extends, since, BlockDevice, Event, JournalCommitReason};
use crate::durability::{honest_reads, lemma_outside_written_between_barriers, writes_to};
use crate::error::{Ext4Error, Result};
use crate::fs::{Ext4, FsState, MetadataMutationMode};
use crate::journal_transaction::{CommitError, Transaction};
use crate::readback::{
    holds_images, lemma_commit_is_what_is_read, lemma_direct_commit_is_held,
    lemma_originals_dropped, shown_by,
};
use crate::replace_links::faithful;
use crate::staged::{
    block_of, distinct_homes, holds_home, images, is_slot, lemma_overlay, lemma_slot_unique,
    ordered, overlay, without_originals, StagedBlock,
};
use crate::trace::{cuts, performed, step_done, Step};
use crate::volume::{LayerCall, Volume};
use crate::{PBlockId, BLOCK_SIZE};

verus! {

/// A step of a commit leaves a block that it does not write to, and leaves its data in the block
/// that it writes.
proof fn lemma_step_is_held(
    step: Step,
    diagnostic: bool,
    calls: Seq<Event>,
    disk: Disk,
    block: PBlockId,
)
    requires
        step_done(step, diagnostic, calls),
        honest_reads(calls),
    ensures
        !writes_to(step, block) ==> held(disk, calls)[block] == disk[block],
        step matches Step::Write { id, data } ==> id == block ==> held(disk, calls)[block] == data,
{
    reveal_with_fuel(held, 5);
    match step {
        Step::Patch { id, prefix } => {
            assert(calls[0] is ReadBlock);
            assert(calls.skip(1)[0] == calls[1]);
            assert(calls.skip(1).skip(1) =~= Seq::<Event>::empty());
        },
        Step::Write { id, data } => {
            assert(calls.skip(1) =~= Seq::<Event>::empty());
        },
        Step::WriteRun { start, data } => {
            assert(calls.skip(1) =~= Seq::<Event>::empty());
            if start <= block < start + data.len() / BLOCK_SIZE as nat {
                assert(block == start.wrapping_add((block - start) as u64));
                assert(writes_to(step, block));
            }
        },
        _ => {
            assert forall|k: int| 0 <= k < calls.len() implies !writes(#[trigger] calls[k]) by {}
            lemma_held_without_writes(disk, calls);
        },
    }
}

/// Whether a step writes a block, and none that follows does.
pub open spec fn ends_in(steps: Seq<Step>, i: int, block: PBlockId) -> bool {
    &&& steps[i] is Write
    &&& steps[i]->Write_id == block
    &&& forall|j: int| i < j < steps.len() ==> !writes_to(#[trigger] steps[j], block)
}

/// A completed plan leaves a block that none of its steps writes to, and leaves in a block the data
/// of the last step that writes it.
pub(crate) proof fn lemma_plan_is_held(
    steps: Seq<Step>,
    diagnostic: bool,
    calls: Seq<Event>,
    disk: Disk,
    block: PBlockId,
)
    requires
        performed(steps, diagnostic, calls),
        honest_reads(calls),
    ensures
        (forall|i: int| 0 <= i < steps.len() ==> !writes_to(#[trigger] steps[i], block)) ==> held(
            disk,
            calls,
        )[block] == disk[block],
        forall|i: int|
            0 <= i < steps.len() && ends_in(steps, i, block) ==> held(disk, calls)[block] == (
            #[trigger] steps[i])->Write_data,
    decreases steps.len(),
{
    if steps.len() == 0 {
        assert(calls =~= Seq::<Event>::empty());
    } else {
        let cut = choose|cut: int|
            {
                &&& #[trigger] cuts(calls, cut)
                &&& performed(steps.drop_last(), diagnostic, calls.take(cut))
                &&& step_done(steps.last(), diagnostic, calls.skip(cut))
            };
        let first = calls.take(cut);
        let last = calls.skip(cut);
        assert(honest_reads(first)) by {
            assert forall|n: int| 0 <= n < first.len() implies (#[trigger] first[n] matches
                Event::ReadBlock { id, reply: Ok(block) } ==> block.id == id) by {
                assert(first[n] == calls[n]);
            }
        }
        assert(honest_reads(last)) by {
            assert forall|n: int| 0 <= n < last.len() implies (#[trigger] last[n] matches
                Event::ReadBlock { id, reply: Ok(block) } ==> block.id == id) by {
                assert(last[n] == calls[n + cut]);
            }
        }
        assert(calls =~= first + last);
        lemma_held_joins(disk, first, last);
        lemma_plan_is_held(steps.drop_last(), diagnostic, first, disk, block);
        lemma_step_is_held(steps.last(), diagnostic, last, held(disk, first), block);
        let end = steps.len() - 1;
        assert(steps[end] == steps.last());
        assert forall|i: int| 0 <= i < end implies #[trigger] steps.drop_last()[i] == steps[i] by {}
        assert forall|i: int| 0 <= i < steps.len() && ends_in(steps, i, block) implies held(
            disk,
            calls,
        )[block] == (#[trigger] steps[i])->Write_data by {
            if i < end {
                assert(!writes_to(steps[end], block));
                assert forall|j: int| i < j < end implies !writes_to(
                    #[trigger] steps.drop_last()[j],
                    block,
                ) by {
                    assert(steps.drop_last()[j] == steps[j]);
                }
                assert(ends_in(steps.drop_last(), i, block));
            }
        }
        if forall|i: int| 0 <= i < steps.len() ==> !writes_to(#[trigger] steps[i], block) {
            assert forall|i: int| 0 <= i < end implies !writes_to(
                #[trigger] steps.drop_last()[i],
                block,
            ) by {
                assert(steps.drop_last()[i] == steps[i]);
            }
            assert(!writes_to(steps[end], block));
        }
    }
}

/// What a device holds with some images over it.
pub open spec fn overlaid(disk: Disk, images: Seq<StagedBlock>) -> Disk {
    Map::new(
        |id: PBlockId| true,
        |id: PBlockId|
            if holds_home(images, id) {
                block_of(images, id).image@
            } else {
                disk[id]
            },
    )
}

/// A commit through the journal leaves every image in its home, and the other blocks outside the
/// journal as they were.
pub proof fn lemma_journal_commit_is_held(
    context: JournalContext,
    blocks: Seq<StagedBlock>,
    reason: JournalCommitReason,
    before: Seq<Event>,
    after: Seq<Event>,
    disk: Disk,
    block: PBlockId,
)
    requires
        context.inv(),
        ordered(blocks),
        journal_outcome(context, blocks, reason, before, after, Ok(()), false),
        honest_reads(since(before, after)),
        !context.journal_blocks@.contains(block),
    ensures
        held(disk, since(before, after))[block] == overlaid(disk, blocks)[block],
{
    let calls = since(before, after);
    let diagnostic = calls[1]->Diagnostics_reply;
    let asked: int = if diagnostic {
        3
    } else {
        2
    };
    let start = if diagnostic {
        calls[2]->Cycles_reply
    } else {
        0usize
    };
    let base = after.take(before.len() + asked);
    let plan = journal_plan(context, blocks, start, reason);
    let logged = log_part(context, blocks).len() as int;
    let rest = since(base, after);
    assert(plan.take(plan.len() as int) =~= plan);
    assert(performed(plan, diagnostic, rest));
    let quiet = calls.take(asked);
    assert(calls =~= quiet + rest);
    lemma_held_joins(disk, quiet, rest);
    assert forall|k: int| 0 <= k < quiet.len() implies !writes(#[trigger] quiet[k]) by {
        assert(quiet[k] == calls[k]);
    }
    lemma_held_without_writes(disk, quiet);
    assert(honest_reads(rest)) by {
        assert forall|n: int| 0 <= n < rest.len() implies (#[trigger] rest[n] matches
            Event::ReadBlock { id, reply: Ok(block) } ==> block.id == id) by {
            assert(rest[n] == calls[n + asked]);
        }
    }
    lemma_plan_is_held(plan, diagnostic, rest, disk, block);
    assert forall|i: int| 0 <= i < plan.len() && writes_to(#[trigger] plan[i], block) implies {
        &&& logged + 1 < i < logged + 2 + blocks.len()
        &&& blocks[i - logged - 2].home == block
    } by {
        lemma_outside_written_between_barriers(context, blocks, start, reason, i, block);
        assert(plan[i] == home_writes(blocks)[i - logged - 2]);
    }
    if holds_home(blocks, block) {
        let j = choose|j: int| 0 <= j < blocks.len() && blocks[j].home == block;
        assert(is_slot(blocks, block, j));
        lemma_slot_unique(blocks, block, j);
        assert(plan[logged + 2 + j] == home_writes(blocks)[j]);
        assert(plan[logged + 2 + j] == (Step::Write { id: block, data: blocks[j].image@ }));
        assert forall|i: int| logged + 2 + j < i < plan.len() implies !writes_to(
            #[trigger] plan[i],
            block,
        ) by {}
        assert(ends_in(plan, logged + 2 + j, block));
    }
}

/// Reads that are answered with what a device holds are answered with the blocks that were asked
/// for.
pub(crate) proof fn lemma_faithful_reads(disk: Disk, calls: Seq<Event>)
    requires
        faithful(disk, calls),
    ensures
        honest_reads(calls),
{
    assert forall|k: int| 0 <= k < calls.len() implies (#[trigger] calls[k] matches
        Event::ReadBlock { id, reply: Ok(block) } ==> block.id == id) by {
        assert(told(calls[k], held(disk, calls.take(k))));
    }
}

/// Calls of which only the last one may write are answered with what the device held at first.
pub(crate) proof fn lemma_told_before_writing(disk: Disk, calls: Seq<Event>)
    requires
        faithful(disk, calls),
        forall|k: int| 0 <= k < calls.len() - 1 ==> !writes(#[trigger] calls[k]),
    ensures
        told_all(calls, disk),
{
    assert forall|k: int| 0 <= k < calls.len() implies told(#[trigger] calls[k], disk) by {
        let earlier = calls.take(k);
        assert forall|n: int| 0 <= n < earlier.len() implies !writes(#[trigger] earlier[n]) by {
            assert(earlier[n] == calls[n]);
        }
        lemma_held_without_writes(disk, earlier);
        assert(told(calls[k], held(disk, calls.take(k))));
    }
}

impl<D: BlockDevice, V: Volume<D>> Ext4<D, V> {
    /// What the file system sees of a device: an image that waits for a commit, or else what the
    /// device holds.
    pub open spec fn sight(&self, disk: Disk) -> Disk {
        overlaid(disk, self.state().batch())
    }

    /// Whether a block belongs to the journal.
    pub open spec fn logs_to(&self, block: PBlockId) -> bool {
        self.state().mode matches MetadataMutationMode::Journal(journal)
            && journal.context().journal_blocks@.contains(block)
    }

    /// Whether the journal, where there is one, is valid.
    pub open spec fn sound_journal(&self) -> bool {
        self.state().mode matches MetadataMutationMode::Journal(journal) ==> journal.inv()
    }

    /// Whether nothing changed of what is seen of a device, but for the blocks of the journal.
    pub open spec fn keeps_sight(&self, after: &Self, disk: Disk) -> bool {
        &&& extends(self.log(), after.log())
        &&& after.state().superblock == self.state().superblock
        &&& after.state().groups == self.state().groups
        &&& after.state().reserved == self.state().reserved
        &&& forall|block: PBlockId| #[trigger] after.logs_to(block) == self.logs_to(block)
        &&& forall|block: PBlockId|
            !self.logs_to(block) ==> #[trigger] after.sight(self.left_on(after, disk))[block]
                == self.sight(disk)[block]
    }

    /// Where nothing is called and nothing waits that did not wait before, nothing changes.
    pub(crate) proof fn lemma_still_keeps_sight(&self, after: &Self, disk: Disk)
        requires
            after.log() == self.log(),
            after.state().superblock == self.state().superblock,
            after.state().groups == self.state().groups,
            after.state().reserved == self.state().reserved,
            after.state().batch() == self.state().batch(),
            forall|block: PBlockId| #[trigger] after.logs_to(block) == self.logs_to(block),
        ensures
            self.keeps_sight(after, disk),
    {
        assert(after.log().take(self.log().len() as int) =~= self.log());
        assert(since(self.log(), after.log()) =~= Seq::<Event>::empty());
    }

    /// Committing the images that wait changes nothing that is seen, and leaves none.
    pub(crate) proof fn lemma_flush_keeps_sight(
        &self,
        after: &Self,
        reason: JournalCommitReason,
        disk: Disk,
    )
        requires
            self.sound_journal(),
            self.flushed(after, reason, Ok(())),
            self.answered_by(after, disk),
        ensures
            self.keeps_sight(after, disk),
            after.state().batch() == Seq::<StagedBlock>::empty(),
            after.state().mode is Journal == self.state().mode is Journal,
            after.state().mode is Direct == self.state().mode is Direct,
            after.nothing_waits(),
    {
        match self.state().mode {
            MetadataMutationMode::Journal(journal) => {
                let journal_after = after.state().mode->Journal_0;
                let reply = choose|reply: core::result::Result<bool, CommitError>|
                    {
                        &&& #[trigger] deferred_flushed(
                            journal,
                            journal_after,
                            reason,
                            self.log(),
                            after.log(),
                            reply,
                        )
                        &&& Ok::<(), Ext4Error>(()) == crate::fs::brief(crate::commit::bare(reply))
                    };
                let context = JournalContext {
                    deferred_transaction: None,
                    ..journal.context()
                };
                if journal.context().deferred_transaction is None {
                    self.lemma_still_keeps_sight(after, disk);
                } else {
                    assert(crate::commit::journal_committed(
                        context,
                        journal.poisoned(),
                        journal_after,
                        journal.batch(),
                        reason,
                        self.log(),
                        after.log(),
                        Ok(()),
                    ));
                    lemma_faithful_reads(disk, since(self.log(), after.log()));
                    assert(ordered(batch_of(None)));
                    assert forall|block: PBlockId| !self.logs_to(block) implies
                    #[trigger] after.sight(self.left_on(after, disk))[block] == self.sight(
                        disk,
                    )[block] by {
                        lemma_journal_commit_is_held(
                            context,
                            journal.batch(),
                            reason,
                            self.log(),
                            after.log(),
                            disk,
                            block,
                        );
                    }
                }
            },
            _ => {
                self.lemma_still_keeps_sight(after, disk);
            },
        }
    }

    /// Coming into the barrier changes nothing that is seen.
    pub(crate) proof fn lemma_entry_keeps_sight(&self, inside: &Self, disk: Disk)
        requires
            self.sound_journal(),
            self.direct_entered(inside, Ok(())),
            self.answered_by(inside, disk),
        ensures
            self.keeps_sight(inside, disk),
            inside.state().batch() == Seq::<StagedBlock>::empty(),
            inside.state().mode is Journal == self.state().mode is Journal,
            inside.state().mode is Direct == self.state().mode is Direct,
            inside.nothing_waits(),
    {
        let (waiting, flushed) = choose|waiting: Self, flushed: Self|
            {
                &&& self.direct_inside(&waiting)
                &&& #[trigger] waiting.flushed(
                    &flushed,
                    JournalCommitReason::DirectMetadataBarrier,
                    Ok(()),
                )
                &&& flushed.idle(inside)
            };
        waiting.lemma_flush_keeps_sight(
            &flushed,
            JournalCommitReason::DirectMetadataBarrier,
            disk,
        );
        assert forall|block: PBlockId| !self.logs_to(block) implies #[trigger] inside.sight(
            self.left_on(inside, disk),
        )[block] == self.sight(disk)[block] by {
            assert(!waiting.logs_to(block));
            assert(flushed.sight(waiting.left_on(&flushed, disk))[block] == waiting.sight(
                disk,
            )[block]);
        }
        assert forall|block: PBlockId| #[trigger] inside.logs_to(block) == self.logs_to(block) by {
            assert(flushed.logs_to(block) == waiting.logs_to(block));
        }
    }

    /// A transaction that was committed is seen as it stood, and nothing waits.
    pub(crate) proof fn lemma_commit_is_seen(
        &self,
        after: &Self,
        transaction: Transaction,
        disk: Disk,
    )
        requires
            self.sound_journal(),
            self.committed(after, transaction, Ok(())),
            ordered(transaction.staged()),
            ordered(transaction.batch()),
            transaction.staged().len() > 0,
            self.state().mode is Direct ==> transaction.deferred() is None,
            self.nothing_waits(),
            self.answered_by(after, disk),
        ensures
            extends(self.log(), after.log()),
            after.state().batch() == Seq::<StagedBlock>::empty(),
            after.nothing_waits(),
            forall|block: PBlockId| #[trigger] after.logs_to(block) == self.logs_to(block),
            forall|block: PBlockId|
                !self.logs_to(block) ==> #[trigger] self.left_on(after, disk)[block] == shown_by(
                    transaction,
                    disk,
                )[block],
    {
        self.lemma_followed_is_recorded(after);
        match self.state().mode {
            MetadataMutationMode::Journal(journal) => {
                let blocks = overlay(transaction.batch(), transaction.staged());
                lemma_overlay(transaction.batch(), transaction.staged());
                lemma_faithful_reads(disk, since(self.log(), after.log()));
                assert forall|block: PBlockId| !self.logs_to(block) implies
                #[trigger] self.left_on(after, disk)[block] == shown_by(
                    transaction,
                    disk,
                )[block] by {
                    lemma_journal_commit_is_held(
                        journal.context(),
                        blocks,
                        JournalCommitReason::Explicit,
                        self.log(),
                        after.log(),
                        disk,
                        block,
                    );
                    lemma_commit_is_what_is_read(
                        transaction.batch(),
                        transaction.staged(),
                        block,
                    );
                }
            },
            MetadataMutationMode::Direct(direct) => {
                let direct_after = after.state().mode->Direct_0;
                lemma_direct_commit_is_held(
                    transaction,
                    direct,
                    direct_after,
                    self.log(),
                    after.log(),
                    disk,
                );
                assert forall|block: PBlockId| #[trigger] self.left_on(after, disk)[block]
                    == shown_by(transaction, disk)[block] by {
                    lemma_images_shown(transaction, disk, self.left_on(after, disk), block);
                }
            },
            MetadataMutationMode::ReadOnly => {},
        }
    }

    /// A transaction that was committed, or let wait for a commit, is seen as it stood.
    pub(crate) proof fn lemma_deferral_is_seen(
        &self,
        after: &Self,
        transaction: Transaction,
        max_deferred_blocks: usize,
        disk: Disk,
    )
        requires
            self.sound_journal(),
            self.deferred(after, transaction, max_deferred_blocks, Ok(())),
            ordered(transaction.staged()),
            ordered(transaction.batch()),
            self.nothing_waits(),
            self.state().mode is Direct ==> transaction.deferred() is None,
            self.answered_by(after, disk),
        ensures
            extends(self.log(), after.log()),
            forall|block: PBlockId| #[trigger] after.logs_to(block) == self.logs_to(block),
            forall|block: PBlockId|
                !self.logs_to(block) ==> #[trigger] after.sight(self.left_on(after, disk))[block]
                    == shown_by(transaction, disk)[block],
            forall|block: PBlockId| #[trigger]
                holds_home(after.state().batch(), block) ==> transaction.covers(block),
    {
        self.lemma_followed_is_recorded(after);
        match self.state().mode {
            MetadataMutationMode::Journal(journal) => {
                let journal_after = after.state().mode->Journal_0;
                let blocks = overlay(transaction.batch(), transaction.staged());
                let total = distinct_homes(transaction.batch(), transaction.staged());
                lemma_overlay(transaction.batch(), transaction.staged());
                lemma_faithful_reads(disk, since(self.log(), after.log()));
                if total == 0 {
                    assert(since(self.log(), after.log()) =~= Seq::<Event>::empty());
                    assert(transaction.staged() =~= Seq::<StagedBlock>::empty());
                    lemma_no_homes(transaction);
                } else if crate::commit::must_commit(
                    journal.context(),
                    total,
                    max_deferred_blocks,
                ) {
                    assert forall|block: PBlockId| !self.logs_to(block) implies
                    #[trigger] after.sight(self.left_on(after, disk))[block] == shown_by(
                        transaction,
                        disk,
                    )[block] by {
                        lemma_journal_commit_is_held(
                            journal.context(),
                            blocks,
                            JournalCommitReason::DeferredThreshold,
                            self.log(),
                            after.log(),
                            disk,
                            block,
                        );
                        lemma_commit_is_what_is_read(
                            transaction.batch(),
                            transaction.staged(),
                            block,
                        );
                    }
                } else {
                    assert forall|block: PBlockId| #[trigger]
                        holds_home(after.state().batch(), block) implies transaction.covers(
                        block,
                    ) by {
                        let kept = without_originals(blocks);
                        let i = choose|i: int| 0 <= i < kept.len() && kept[i].home == block;
                        assert(blocks[i].home == block);
                        assert(holds_home(blocks, block));
                    }
                    let call = Event::PublishPending { blocks: images(blocks) };
                    assert(since(self.log(), after.log()) =~= seq![call]);
                    lemma_held_without_writes(disk, seq![call]);
                    assert forall|block: PBlockId| !self.logs_to(block) implies
                    #[trigger] after.sight(self.left_on(after, disk))[block] == shown_by(
                        transaction,
                        disk,
                    )[block] by {
                        lemma_commit_is_what_is_read(
                            transaction.batch(),
                            transaction.staged(),
                            block,
                        );
                        let kept = without_originals(blocks);
                        if holds_home(blocks, block) {
                            lemma_originals_dropped(blocks, block);
                        } else if holds_home(kept, block) {
                            let i = choose|i: int| 0 <= i < kept.len() && kept[i].home == block;
                            assert(blocks[i].home == block);
                        }
                    }
                }
            },
            MetadataMutationMode::Direct(direct) => {
                let direct_after = after.state().mode->Direct_0;
                lemma_direct_commit_is_held(
                    transaction,
                    direct,
                    direct_after,
                    self.log(),
                    after.log(),
                    disk,
                );
                assert forall|block: PBlockId| #[trigger] after.sight(
                    self.left_on(after, disk),
                )[block] == shown_by(transaction, disk)[block] by {
                    lemma_images_shown(transaction, disk, self.left_on(after, disk), block);
                }
            },
            MetadataMutationMode::ReadOnly => {},
        }
    }
}

/// Work inside the barrier.
impl<D: BlockDevice, V: Volume<D>> Ext4<D, V> {
    /// Whether the work of a writer, from `inside` to `left`, is all that happened to what is seen.
    pub open spec fn worked(&self, inside: &Self, left: &Self, after: &Self, disk: Disk) -> bool {
        let start = self.left_on(inside, disk);
        &&& self.keeps_sight(inside, disk)
        &&& extends(inside.log(), left.log())
        &&& inside.answered_by(left, start)
        &&& extends(left.log(), after.log())
        &&& extends(self.log(), after.log())
        &&& self.left_on(after, disk) == inside.left_on(left, start)
        &&& after.state().superblock == left.state().superblock
        &&& after.state().groups == left.state().groups
        &&& after.state().mode == left.state().mode
    }

    /// The work of a direct writer is all that happens to what is seen, and it starts where no
    /// images wait.
    pub(crate) proof fn lemma_direct_writer<T>(
        &self,
        after: &Self,
        work: spec_fn(Self, Self, Result<T>) -> bool,
        outcome: Result<T>,
        disk: Disk,
    ) -> (stages: (Self, Self))
        requires
            self.sound_journal(),
            self.with_direct_gate(after, work, outcome),
            outcome is Ok,
            forall|inside: Self, left: Self| #[trigger]
                work(inside, left, outcome) ==> extends(inside.log(), left.log()),
            self.answered_by(after, disk),
        ensures
            work(stages.0, stages.1, outcome),
            self.worked(&stages.0, &stages.1, after, disk),
            stages.0.state().batch() == Seq::<StagedBlock>::empty(),
            stages.0.nothing_waits(),
            stages.0.state().mode is Journal == self.state().mode is Journal,
            stages.0.state().mode is Direct == self.state().mode is Direct,
    {
        let (inside, lock) = choose|inside: Self, lock: Result<()>|
            {
                &&& #[trigger] self.direct_entered(&inside, lock)
                &&& match lock {
                    Err(error) => inside.idle(after) && outcome == Err::<T, Ext4Error>(error),
                    Ok(_) => exists|left: Self|
                        {
                            &&& work(inside, left, outcome)
                            &&& #[trigger] left.direct_left(after)
                        },
                }
            };
        match lock {
            Ok(done) => {
                assert(done == ());
            },
            Err(_) => {},
        }
        let left = choose|left: Self|
            {
                &&& work(inside, left, outcome)
                &&& #[trigger] left.direct_left(after)
            };
        self.lemma_barrier_goes_on(&inside);
        self.lemma_leaving(&inside, &left, after, disk);
        self.lemma_entry_keeps_sight(&inside, disk);
        (inside, left)
    }

    /// The work of a direct writer goes on with the record.
    pub(crate) proof fn lemma_direct_writer_goes_on<T>(
        &self,
        after: &Self,
        work: spec_fn(Self, Self, Result<T>) -> bool,
        outcome: Result<T>,
    )
        requires
            self.with_direct_gate(after, work, outcome),
            outcome is Ok,
            forall|inside: Self, left: Self| #[trigger]
                work(inside, left, outcome) ==> extends(inside.log(), left.log()),
        ensures
            extends(self.log(), after.log()),
    {
        let (inside, lock) = choose|inside: Self, lock: Result<()>|
            {
                &&& #[trigger] self.direct_entered(&inside, lock)
                &&& match lock {
                    Err(error) => inside.idle(after) && outcome == Err::<T, Ext4Error>(error),
                    Ok(_) => exists|left: Self|
                        {
                            &&& work(inside, left, outcome)
                            &&& #[trigger] left.direct_left(after)
                        },
                }
            };
        match lock {
            Ok(done) => {
                assert(done == ());
            },
            Err(_) => {},
        }
        let left = choose|left: Self|
            {
                &&& work(inside, left, outcome)
                &&& #[trigger] left.direct_left(after)
            };
        self.lemma_barrier_goes_on(&inside);
        assert(after.log().take(left.log().len() as int) =~= left.log());
        lemma_extends(self.log(), inside.log(), left.log());
        lemma_extends(self.log(), left.log(), after.log());
    }

    /// Coming into the barrier goes on with the record.
    proof fn lemma_barrier_goes_on(&self, inside: &Self)
        requires
            self.direct_entered(inside, Ok(())),
        ensures
            extends(self.log(), inside.log()),
    {
        let (waiting, flushed) = choose|waiting: Self, flushed: Self|
            {
                &&& self.direct_inside(&waiting)
                &&& #[trigger] waiting.flushed(
                    &flushed,
                    JournalCommitReason::DirectMetadataBarrier,
                    Ok(()),
                )
                &&& flushed.idle(inside)
            };
        assert(self.log().take(self.log().len() as int) =~= self.log());
        if waiting.state().mode is Journal {
            waiting.lemma_followed_is_recorded(&flushed);
        }
    }

    /// Leaving the barrier calls nothing that writes.
    pub(crate) proof fn lemma_leaving(&self, inside: &Self, left: &Self, after: &Self, disk: Disk)
        requires
            extends(self.log(), inside.log()),
            extends(inside.log(), left.log()),
            after.log() == left.log().push(Event::Layer { call: LayerCall::Released }),
            self.answered_by(after, disk),
        ensures
            extends(left.log(), after.log()),
            extends(self.log(), after.log()),
            self.answered_by(inside, disk),
            inside.answered_by(left, self.left_on(inside, disk)),
            self.left_on(after, disk) == inside.left_on(left, self.left_on(inside, disk)),
    {
        assert(after.log().take(left.log().len() as int) =~= left.log());
        lemma_extends(self.log(), inside.log(), left.log());
        self.lemma_device_joins(left, after, disk);
        self.lemma_device_joins(inside, left, disk);
        self.lemma_answers_split(left, after, disk);
        self.lemma_answers_split(inside, left, disk);
        let last = since(left.log(), after.log());
        assert(last =~= seq![Event::Layer { call: LayerCall::Released }]);
        lemma_held_without_writes(self.left_on(left, disk), last);
    }

    /// The work of the exclusive writer is all that happens to what is seen.
    pub(crate) proof fn lemma_exclusive_writer<T>(
        &self,
        after: &Self,
        work: spec_fn(Self, Self, Result<T>) -> bool,
        outcome: Result<T>,
        disk: Disk,
    ) -> (stages: (Self, Self))
        requires
            self.with_exclusive_gate(after, work, outcome),
            outcome is Ok,
            forall|inside: Self, left: Self| #[trigger]
                work(inside, left, outcome) ==> extends(inside.log(), left.log()),
            self.answered_by(after, disk),
        ensures
            work(stages.0, stages.1, outcome),
            self.worked(&stages.0, &stages.1, after, disk),
            self.inv() ==> stages.0.inv(),
            self.sound_journal() ==> stages.0.sound_journal(),
            stages.0.log() == self.log(),
            self.left_on(&stages.0, disk) == disk,
            stages.0.state() == (FsState { gate: stages.0.state().gate, ..self.state() }),
    {
        let (inside, lock) = choose|inside: Self, lock: Result<()>|
            {
                &&& #[trigger] self.exclusive_entered(&inside, lock)
                &&& match lock {
                    Err(error) => inside.idle(after) && outcome == Err::<T, Ext4Error>(error),
                    Ok(_) => exists|left: Self|
                        {
                            &&& work(inside, left, outcome)
                            &&& #[trigger] left.exclusive_left(after)
                        },
                }
            };
        match lock {
            Ok(done) => {
                assert(done == ());
            },
            Err(_) => {},
        }
        let left = choose|left: Self|
            {
                &&& work(inside, left, outcome)
                &&& #[trigger] left.exclusive_left(after)
            };
        self.lemma_still_keeps_sight(&inside, disk);
        self.lemma_leaving(&inside, &left, after, disk);
        assert(since(self.log(), inside.log()) =~= Seq::<Event>::empty());
        (inside, left)
    }
}

/// A transaction without homes has no images.
proof fn lemma_no_homes(transaction: Transaction)
    requires
        distinct_homes(transaction.batch(), transaction.staged()) == 0,
    ensures
        transaction.batch() == Seq::<StagedBlock>::empty(),
        transaction.staged() == Seq::<StagedBlock>::empty(),
{
    let older = transaction.batch();
    let newer = transaction.staged();
    assert(newer.len() == 0);
    if older.len() > 0 {
        assert(!holds_home(newer, older.last().home));
    }
    assert(older =~= Seq::<StagedBlock>::empty());
    assert(newer =~= Seq::<StagedBlock>::empty());
}

/// A device that holds the images of a transaction, and elsewhere what it held, is seen as the
/// transaction shows it.
proof fn lemma_images_shown(transaction: Transaction, disk: Disk, after: Disk, block: PBlockId)
    requires
        ordered(transaction.staged()),
        transaction.deferred() is None,
        holds_images(disk, after, transaction.staged(), transaction.staged().len() as int),
    ensures
        after[block] == shown_by(transaction, disk)[block],
{
    let blocks = transaction.staged();
    if holds_home(blocks, block) {
        let i = choose|i: int| 0 <= i < blocks.len() && blocks[i].home == block;
        assert(is_slot(blocks, block, i));
        lemma_slot_unique(blocks, block, i);
        assert(after[blocks[i].home] == blocks[i].image@);
    } else {
        assert forall|i: int| 0 <= i < blocks.len() implies (#[trigger] blocks[i]).home
            != block by {}
    }
}

} // verus!
