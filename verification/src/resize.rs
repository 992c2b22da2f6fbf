//! The size that a file has after it was truncated, and what is left of its bytes.

use vstd::prelude::*;
use crate::bytes::splice;
use crate::content::{apart, byte_of, lemma_extends, told_all, writes, Disk, Places};
use crate::device::{extends, since, BlockDevice, Event, JournalCommitReason};
use crate::error::{failed, ErrCode, Ext4Error, Result};
use crate::fs::Ext4;
use crate::grow::is_free;
use crate::inode::{
    attributes_of, lemma_attributes_read_back, with_halves64, FileAttr, InodeRef, SetAttr,
    SB_GOOD_INODE_SIZE,
};
use crate::journal_transaction::{CommitError, Transaction};
use crate::readback::{lemma_patch_is_shown, lemma_patch_waits, shown_by};
use crate::shrink::{hits, kept_places, lemma_kept_bytes, lemma_spared_blocks_hold, spares};
use crate::sight::lemma_told_before_writing;
use crate::staged::{holds_home, StagedBlock};
use crate::superblock::lemma_checksum_keeps_inode;
use crate::tree::lemma_inode_stays_in_its_block;
use crate::truncate::{Cut, TRUNCATE_CREDITS, TRUNCATE_MAX_STEPS};
use crate::volume::{ExtentTail, LayerCall, Volume};
use crate::{InodeId, BLOCK_SIZE};

verus! {

impl<D: BlockDevice, V: Volume<D>> Ext4<D, V> {
    /// The last step of a truncation.
    proof fn lemma_last_step(
        &self,
        after: &Self,
        id: InodeId,
        cut: Cut,
        left: nat,
        first: bool,
    ) -> (last: (Self, Self, bool))
        requires
            self.steps_cut(after, id, cut, left, first, Ok(())),
        ensures
            extends(self.log(), last.0.log()),
            last.0.step_cut(&last.1, id, cut, last.2, Ok(true)),
            last.1.idle(after),
        decreases left,
    {
        let (stepped, reply) = choose|stepped: Self, reply: Result<bool>|
            {
                &&& #[trigger] self.step_cut(&stepped, id, cut, first, reply)
                &&& match reply {
                    Ok(finished) => if finished {
                        stepped.idle(after)
                    } else {
                        stepped.steps_cut(after, id, cut, (left - 1) as nat, false, Ok(()))
                    },
                    Err(error) => stepped.idle(after) && Ok::<(), Ext4Error>(()) == Err::<
                        (),
                        Ext4Error,
                    >(error),
                }
            };
        if reply->Ok_0 {
            assert(self.log().take(self.log().len() as int) =~= self.log());
            (*self, stepped, first)
        } else {
            let last = stepped.lemma_last_step(after, id, cut, (left - 1) as nat, false);
            self.lemma_step_goes_on(&stepped, id, cut, first, reply);
            lemma_extends(self.log(), stepped.log(), last.0.log());
            last
        }
    }

    /// What the last step of a truncation does once the last extent is known: it stages the inode
    /// with the new size, and nothing else.
    proof fn lemma_last_stage(
        &self,
        after: &Self,
        inode: InodeRef,
        tail: Option<ExtentTail>,
        transaction: Transaction,
        cut: Cut,
        first: bool,
    ) -> (stage: (Self, InodeRef))
        requires
            self.cut_cleared(after, inode, tail, transaction, cut, first, Ok(true)),
        ensures
            extends(self.log(), stage.0.log()),
            stage.0.state() == self.state(),
            stage.1.id == inode.id,
            stage.1.inode@ == with_halves64(inode.inode@, 4, 108, cut.new_size),
            stage.0.cut_staged(after, stage.1, transaction, true, Ok(true)),
    {
        let ready = if !first || !cut.shrinks() || cut.rest() == 0 {
            assert(self.log().take(self.log().len() as int) =~= self.log());
            *self
        } else {
            let (cleared, reply) = choose|cleared: Self, reply: Result<()>|
                {
                    &&& #[trigger] self.end_cleared(&cleared, inode, cut, reply)
                    &&& match reply {
                        Ok(_) => cleared.cut_decided(
                            after,
                            inode,
                            tail,
                            transaction,
                            cut,
                            Ok(true),
                        ),
                        Err(error) => cleared.given_up(after, transaction) && Ok::<bool, Ext4Error>(
                            true,
                        ) == Err::<bool, Ext4Error>(error),
                    }
                };
            self.lemma_end_cleared_goes_on(&cleared, inode, cut, reply);
            self.lemma_end_cleared_keeps_state(&cleared, inode, cut, reply);
            cleared
        };
        assert(ready.cut_decided(after, inode, tail, transaction, cut, Ok(true)));
        if let Some(last) = tail {
            if let Ok(Some(limit)) = ready.removal(last, cut.kept()) {
                ready.lemma_cut_is_not_the_last(after, inode, transaction, limit, Ok(true));
            }
        }
        assert(ready.cut_sized(after, inode, transaction, cut.new_size, Ok(true)));
        let sized = choose|sized: InodeRef|
            {
                &&& sized.id == inode.id
                &&& sized.inode@ == with_halves64(inode.inode@, 4, 108, cut.new_size)
                &&& #[trigger] ready.cut_staged(after, sized, transaction, true, Ok(true))
            };
        (ready, sized)
    }

    /// An inode that was staged alone in a transaction and committed is the one that is seen.
    proof fn lemma_staged_alone_is_seen(
        &self,
        after: &Self,
        inode: InodeRef,
        transaction: Transaction,
        disk: Disk,
    ) -> (sealed: InodeRef)
        requires
            self.inv(),
            self.cut_staged(after, inode, transaction, true, Ok(true)),
            transaction.inv(),
            transaction.staged() == Seq::<StagedBlock>::empty(),
            self.state().mode is Direct ==> transaction.deferred() is None,
            self.nothing_waits(),
            self.inode_settled(inode.id),
            self.answered_by(after, disk),
        ensures
            extends(self.log(), after.log()),
            sealed.id == inode.id,
            attributes_of(sealed) == attributes_of(inode),
            after.inode_seen(self.left_on(after, disk), inode.id, sealed.inode@),
    {
        let id = inode.id;
        let (staged, grown, sealed, reply) = choose|
            staged: Self,
            grown: Transaction,
            sealed: InodeRef,
            reply: Result<()>,
        |
            {
                &&& #[trigger] self.inode_staged(
                    &staged,
                    transaction,
                    grown,
                    inode,
                    sealed,
                    reply,
                )
                &&& match reply {
                    Ok(_) => staged.cut_committed(after, grown, true, Ok(true)),
                    Err(error) => staged.given_up(after, grown) && Ok::<bool, Ext4Error>(true)
                        == Err::<bool, Ext4Error>(error),
                }
            };
        match reply {
            Ok(done) => {
                assert(done == ());
            },
            Err(_) => {},
        }
        let (done, said) = choose|done: Self, said: core::result::Result<(), CommitError>|
            {
                &&& #[trigger] staged.committed(&done, grown, said)
                &&& match said {
                    Ok(_) => done.idle(after),
                    Err(stop) => done.gave_out(after) && Ok::<bool, Ext4Error>(true) == Err::<
                        bool,
                        Ext4Error,
                    >(stop.error),
                }
            };
        match said {
            Ok(done) => {
                assert(done == ());
            },
            Err(_) => {},
        }
        self.lemma_cut_staged_goes_on(after, inode, transaction, true, Ok(true));
        self.lemma_followed_is_recorded(&staged);
        staged.lemma_followed_is_recorded(&done);
        let (home, at) = self.state().inode_position(id)->0;
        lemma_inode_stays_in_its_block(self.state(), id);
        lemma_patch_waits(
            transaction,
            grown,
            self.log(),
            staged.log(),
            home,
            at,
            sealed.inode@,
        );
        lemma_patch_is_shown(
            transaction,
            grown,
            self.log(),
            staged.log(),
            home,
            at,
            sealed.inode@,
            disk,
        );
        self.lemma_device_joins(&staged, &done, disk);
        self.lemma_answers_split(&staged, &done, disk);
        let quiet = since(self.log(), staged.log());
        assert forall|k: int| 0 <= k < quiet.len() implies !writes(#[trigger] quiet[k]) by {}
        crate::content::lemma_held_without_writes(disk, quiet);
        lemma_told_before_writing(disk, quiet);
        assert(holds_home(grown.staged(), home));
        staged.lemma_commit_is_seen(&done, grown, disk);
        assert(!holds_home(grown.staged(), 0));
        assert forall|i: int| 0 <= i < self.state().groups.len() implies !holds_home(
            grown.staged(),
            (#[trigger] staged.state().group_position(i)).0,
        ) by {
            assert(self.state().group_position(i) == staged.state().group_position(i));
        }
        assert(staged.state().refreshed_groups(grown.staged()) =~= self.state().groups);
        let last = self.left_on(after, disk);
        assert(!staged.logs_to(home)) by {
            assert(self.logs_to(home) == staged.logs_to(home));
        }
        assert(last[home] == splice(shown_by(transaction, disk)[home], at, sealed.inode@));
        assert(last[home].subrange(at, at + SB_GOOD_INODE_SIZE) =~= sealed.inode@);
        lemma_checksum_keeps_inode(inode, sealed, self.state().superblock);
        sealed
    }

    /// Whether the inode of a file stands, at the last step of a truncation, neither with a cached
    /// record nor in the journal.
    pub open spec fn ends_settled(&self, after: &Self, id: InodeId) -> bool {
        forall|last: Self, stepped: Self, cut: Cut, first: bool|
            #[trigger] last.step_cut(&stepped, id, cut, first, Ok(true)) && extends(
                self.log(),
                last.log(),
            ) && extends(stepped.log(), after.log()) ==> last.inode_settled(id)
    }

    /// After its last step, a truncated file is seen with its new size.
    proof fn lemma_last_step_is_seen(
        &self,
        after: &Self,
        id: InodeId,
        cut: Cut,
        first: bool,
        disk: Disk,
    ) -> (sealed: InodeRef)
        requires
            self.step_cut(after, id, cut, first, Ok(true)),
            self.inode_settled(id),
            self.answered_by(after, disk),
        ensures
            extends(self.log(), after.log()),
            sealed.id == id,
            attributes_of(sealed).size == cut.new_size,
            after.inode_seen(self.left_on(after, disk), id, sealed.inode@),
    {
        let (begun, reply) = choose|begun: Self, reply: Result<Transaction>|
            {
                &&& #[trigger] self.begun(&begun, TRUNCATE_CREDITS, reply)
                &&& match reply {
                    Ok(transaction) => begun.cut_opened(
                        after,
                        id,
                        transaction,
                        cut,
                        first,
                        Ok(true),
                    ),
                    Err(error) => begun.idle(after) && Ok::<bool, Ext4Error>(true) == Err::<
                        bool,
                        Ext4Error,
                    >(error),
                }
            };
        let transaction = reply->Ok_0;
        let (read, found) = choose|read: Self, found: Result<InodeRef>|
            {
                &&& #[trigger] begun.staged_inode_read(&read, transaction, id, found)
                &&& match found {
                    Ok(inode) => read.cut_looked_up(
                        after,
                        inode,
                        transaction,
                        cut,
                        first,
                        Ok(true),
                    ),
                    Err(error) => read.given_up(after, transaction) && Ok::<bool, Ext4Error>(true)
                        == Err::<bool, Ext4Error>(error),
                }
            };
        let inode = found->Ok_0;
        begun.lemma_shown_inode_is_read(&read, transaction, id, inode, disk);
        let asked = if !cut.shrinks() || !crate::inode::has_extents(inode.inode@) {
            assert(read.cut_cleared(after, inode, None, transaction, cut, first, Ok(true)));
            assert(read.log().take(read.log().len() as int) =~= read.log());
            (read, None::<ExtentTail>)
        } else {
            let (asked, answer) = choose|asked: Self, answer: Result<Option<ExtentTail>>|
                {
                    &&& #[trigger] read.asked(&asked, LayerCall::Tail { inode, reply: answer })
                    &&& match answer {
                        Ok(tail) => asked.cut_cleared(
                            after,
                            inode,
                            tail,
                            transaction,
                            cut,
                            first,
                            Ok(true),
                        ),
                        Err(error) => asked.given_up(after, transaction) && Ok::<bool, Ext4Error>(
                            true,
                        ) == Err::<bool, Ext4Error>(error),
                    }
                };
            assert(asked.log().take(read.log().len() as int) =~= read.log());
            (asked, answer->Ok_0)
        };
        let (ready, sized) = asked.0.lemma_last_stage(
            after,
            inode,
            asked.1,
            transaction,
            cut,
            first,
        );
        lemma_extends(self.log(), read.log(), asked.0.log());
        lemma_extends(self.log(), asked.0.log(), ready.log());
        ready.lemma_cut_staged_goes_on(after, sized, transaction, true, Ok(true));
        self.lemma_answers_split(&ready, after, disk);
        self.lemma_device_joins(&ready, after, disk);
        assert(ready.state() == begun.state());
        let (home, at) = self.state().inode_position(id)->0;
        assert(ready.inode_settled(id)) by {
            assert forall|i: int| 0 <= i < ready.state().groups.len() implies (
            #[trigger] ready.state().group_position(i)).0 != home by {
                assert(self.state().group_position(i) == ready.state().group_position(i));
            }
            assert(ready.logs_to(home) == self.logs_to(home));
        }
        let sealed = ready.lemma_staged_alone_is_seen(
            after,
            sized,
            transaction,
            self.left_on(&ready, disk),
        );
        let attr = SetAttr {
            mode: None,
            uid: None,
            gid: None,
            size: Some(cut.new_size),
            atime: None,
            mtime: None,
            ctime: None,
            crtime: None,
        };
        assert(sized.inode@ == attr.applied(inode.inode@));
        lemma_attributes_read_back(inode, sized, attr);
        sealed
    }

    /// A file that was truncated is seen with the size that it was truncated to, inside the
    /// barrier.
    proof fn lemma_truncated_is_seen(
        &self,
        after: &Self,
        id: InodeId,
        new_size: u64,
        disk: Disk,
    ) -> (sealed: InodeRef)
        requires
            self.inv(),
            self.truncated(after, id, new_size, Ok(())),
            self.ends_settled(after, id),
            self.answered_by(after, disk),
        ensures
            sealed.id == id,
            attributes_of(sealed).size == new_size,
            after.inode_seen(self.left_on(after, disk), id, sealed.inode@),
    {
        let (flushed, reply) = choose|flushed: Self, reply: Result<()>|
            {
                &&& #[trigger] self.flushed(
                    &flushed,
                    JournalCommitReason::DurabilityBoundary,
                    reply,
                )
                &&& match reply {
                    Ok(_) => flushed.file_resized(after, id, new_size, Ok(())),
                    Err(error) => flushed.idle(after) && Ok::<(), Ext4Error>(()) == Err::<
                        (),
                        Ext4Error,
                    >(error),
                }
            };
        match reply {
            Ok(done) => {
                assert(done == ());
            },
            Err(_) => {},
        }
        let (read, found) = choose|read: Self, found: Result<InodeRef>|
            {
                &&& #[trigger] flushed.inode_read(&read, id, found)
                &&& match found {
                    Ok(inode) => if is_free(inode.inode) {
                        read.idle(after) && Ok::<(), Ext4Error>(()) == failed::<()>(
                            ErrCode::EINVAL,
                        )
                    } else if inode.inode.byte_size() == new_size {
                        read.idle(after)
                    } else {
                        read.steps_cut(
                            after,
                            id,
                            (Cut { old_size: inode.inode.byte_size(), new_size }),
                            TRUNCATE_MAX_STEPS as nat,
                            true,
                            Ok(()),
                        )
                    },
                    Err(error) => read.idle(after) && Ok::<(), Ext4Error>(()) == Err::<
                        (),
                        Ext4Error,
                    >(error),
                }
            };
        let inode = found->Ok_0;
        assert(read.log().take(flushed.log().len() as int) =~= flushed.log());
        self.lemma_flush_goes_on(&flushed, JournalCommitReason::DurabilityBoundary);
        lemma_extends(self.log(), flushed.log(), read.log());
        if inode.inode.byte_size() == new_size {
            self.lemma_answers_split(&flushed, after, disk);
            self.lemma_device_joins(&flushed, after, disk);
            flushed.lemma_read_inode_is_seen(&read, id, inode, self.left_on(&flushed, disk));
            assert(after.inode_seen(self.left_on(after, disk), id, inode.inode@));
            inode
        } else {
            let cut = Cut { old_size: inode.inode.byte_size(), new_size };
            read.lemma_steps_go_on(after, id, cut, TRUNCATE_MAX_STEPS as nat, true, Ok(()));
            self.lemma_answers_split(&read, after, disk);
            self.lemma_device_joins(&read, after, disk);
            assert(read.ends_settled(after, id)) by {
                assert forall|last: Self, stepped: Self, cut: Cut, first: bool|
                    #[trigger] last.step_cut(&stepped, id, cut, first, Ok(true)) && extends(
                        read.log(),
                        last.log(),
                    ) && extends(stepped.log(), after.log()) implies last.inode_settled(id) by {
                    lemma_extends(self.log(), read.log(), last.log());
                }
            }
            read.lemma_steps_are_seen(after, id, cut, self.left_on(&read, disk))
        }
    }

    /// After the steps of a truncation, a file is seen with its new size.
    proof fn lemma_steps_are_seen(
        &self,
        after: &Self,
        id: InodeId,
        cut: Cut,
        disk: Disk,
    ) -> (sealed: InodeRef)
        requires
            self.steps_cut(after, id, cut, TRUNCATE_MAX_STEPS as nat, true, Ok(())),
            self.ends_settled(after, id),
            self.answered_by(after, disk),
        ensures
            sealed.id == id,
            attributes_of(sealed).size == cut.new_size,
            after.inode_seen(self.left_on(after, disk), id, sealed.inode@),
    {
        let (last, stepped, first) = self.lemma_last_step(
            after,
            id,
            cut,
            TRUNCATE_MAX_STEPS as nat,
            true,
        );
        last.lemma_step_goes_on(&stepped, id, cut, first, Ok(true));
        self.lemma_answers_split(&last, after, disk);
        self.lemma_device_joins(&last, after, disk);
        assert(after.log().take(stepped.log().len() as int) =~= stepped.log());
        assert(last.inode_settled(id));
        last.lemma_last_step_is_seen(&stepped, id, cut, first, self.left_on(&last, disk))
    }

    /// An inode that was read where nothing waits is the one that is seen.
    pub(crate) proof fn lemma_read_inode_is_seen(
        &self,
        after: &Self,
        id: InodeId,
        found: InodeRef,
        disk: Disk,
    )
        requires
            self.inode_read(after, id, Ok(found)),
            self.answered_by(after, disk),
        ensures
            self.only_asked(after),
            found.id == id,
            self.left_on(after, disk) == disk,
            after.inode_seen(disk, id, found.inode@),
    {
        let (home, at) = self.state().inode_position(id)->0;
        lemma_inode_stays_in_its_block(self.state(), id);
        let reply = choose|reply: Result<crate::device::Block>|
            {
                &&& #[trigger] self.block_read(after, home, reply)
                &&& crate::fs::inode_found(crate::fs::bytes_read(reply), at, id, Ok(found))
            };
        let calls = since(self.log(), after.log());
        if holds_home(self.state().batch(), home) {
            self.lemma_idle_only_asks(after);
        } else {
            let call = Event::ReadBlock { id: home, reply };
            self.lemma_call_only_asks(after, call);
            assert(calls[0] == call);
            lemma_told_before_writing(disk, calls);
            assert(crate::content::told(calls[0], disk));
        }
        self.lemma_asking_leaves_device(after, disk);
    }

    /// A file that was truncated is seen with the size that it was truncated to.
    proof fn lemma_changed_size_is_seen(
        &self,
        truncated: &Self,
        id: InodeId,
        new_size: u64,
        disk: Disk,
    ) -> (sealed: InodeRef)
        requires
            self.inv(),
            self.size_changed(truncated, id, new_size, Ok(())),
            self.ends_settled(truncated, id),
            self.answered_by(truncated, disk),
        ensures
            sealed.id == id,
            attributes_of(sealed).size == new_size,
            truncated.inode_seen(self.left_on(truncated, disk), id, sealed.inode@),
    {
        let work = |inside: Self, left: Self, outcome: Result<()>|
            inside.truncated(&left, id, new_size, outcome);
        assert forall|inside: Self, left: Self| #[trigger] work(inside, left, Ok(())) implies extends(
            inside.log(),
            left.log(),
        ) by {
            inside.lemma_truncated_goes_on(&left, id, new_size, Ok(()));
        }
        let (inside, left) = self.lemma_exclusive_writer(truncated, work, Ok(()), disk);
        assert(inside.ends_settled(&left, id)) by {
            assert forall|last: Self, stepped: Self, cut: Cut, first: bool|
                #[trigger] last.step_cut(&stepped, id, cut, first, Ok(true)) && extends(
                    inside.log(),
                    last.log(),
                ) && extends(stepped.log(), left.log()) implies last.inode_settled(id) by {
                lemma_extends(stepped.log(), left.log(), truncated.log());
                lemma_extends(self.log(), inside.log(), last.log());
            }
        }
        inside.lemma_truncated_is_seen(&left, id, new_size, disk)
    }

    /// The size that is read of a file after it was truncated is the one that it was truncated to,
    /// whatever it was before.
    pub proof fn lemma_truncated_size_is_read(
        &self,
        truncated: &Self,
        later: &Self,
        after: &Self,
        id: InodeId,
        new_size: u64,
        outcome: FileAttr,
        disk: Disk,
    )
        requires
            self.inv(),
            self.size_changed(truncated, id, new_size, Ok(())),
            self.ends_settled(truncated, id),
            self.answered_by(truncated, disk),
            later.state() == truncated.state(),
            later.attributes_read(after, id, Ok(outcome)),
            told_all(since(later.log(), after.log()), self.left_on(truncated, disk)),
        ensures
            outcome.size == new_size,
    {
        let sealed = self.lemma_changed_size_is_seen(truncated, id, new_size, disk);
        let found = later.lemma_seen_attributes_are_read(
            after,
            id,
            outcome,
            self.left_on(truncated, disk),
            sealed.inode@,
        );
        assert(attributes_of(found).size == attributes_of(sealed).size);
    }

    /// Committing what waits goes on with the record.
    pub(crate) proof fn lemma_flush_goes_on(&self, flushed: &Self, reason: JournalCommitReason)
        requires
            self.flushed(flushed, reason, Ok(())),
        ensures
            extends(self.log(), flushed.log()),
    {
        assert(self.log().take(self.log().len() as int) =~= self.log());
        if self.state().mode is Journal {
            self.lemma_followed_is_recorded(flushed);
        }
    }

    /// Truncating a file goes on with the record.
    proof fn lemma_truncated_goes_on(
        &self,
        after: &Self,
        id: InodeId,
        new_size: u64,
        outcome: Result<()>,
    )
        requires
            self.truncated(after, id, new_size, outcome),
            outcome is Ok,
        ensures
            extends(self.log(), after.log()),
    {
        let (flushed, reply) = choose|flushed: Self, reply: Result<()>|
            {
                &&& #[trigger] self.flushed(
                    &flushed,
                    JournalCommitReason::DurabilityBoundary,
                    reply,
                )
                &&& match reply {
                    Ok(_) => flushed.file_resized(after, id, new_size, outcome),
                    Err(error) => flushed.idle(after) && outcome == Err::<(), Ext4Error>(error),
                }
            };
        match reply {
            Ok(done) => {
                assert(done == ());
            },
            Err(_) => {},
        }
        self.lemma_flush_goes_on(&flushed, JournalCommitReason::DurabilityBoundary);
        let (read, found) = choose|read: Self, found: Result<InodeRef>|
            {
                &&& #[trigger] flushed.inode_read(&read, id, found)
                &&& match found {
                    Ok(inode) => if is_free(inode.inode) {
                        read.idle(after) && outcome == failed::<()>(ErrCode::EINVAL)
                    } else if inode.inode.byte_size() == new_size {
                        read.idle(after) && outcome == Ok::<(), Ext4Error>(())
                    } else {
                        read.steps_cut(
                            after,
                            id,
                            (Cut { old_size: inode.inode.byte_size(), new_size }),
                            TRUNCATE_MAX_STEPS as nat,
                            true,
                            outcome,
                        )
                    },
                    Err(error) => read.idle(after) && outcome == Err::<(), Ext4Error>(error),
                }
            };
        assert(read.log().take(flushed.log().len() as int) =~= flushed.log());
        let inode = found->Ok_0;
        if inode.inode.byte_size() != new_size {
            let cut = Cut { old_size: inode.inode.byte_size(), new_size };
            read.lemma_steps_go_on(after, id, cut, TRUNCATE_MAX_STEPS as nat, true, outcome);
        } else {
            assert(after.log().take(read.log().len() as int) =~= read.log());
        }
        lemma_extends(self.log(), flushed.log(), read.log());
        lemma_extends(self.log(), read.log(), after.log());
    }
}

/// What is left of the bytes of a file.
impl<D: BlockDevice, V: Volume<D>> Ext4<D, V> {
    /// Whether, on the way to a later state, what clears the last block behind the new end of a
    /// file is answered by where the blocks of the file stand, and all else that is written is
    /// written elsewhere than in the blocks that the file keeps.
    pub open spec fn cuts_cleanly(
        &self,
        after: &Self,
        id: InodeId,
        cut: Cut,
        disk: Disk,
        places: Places,
    ) -> bool {
        if !cut.shrinks() {
            spares(since(self.log(), after.log()), places)
        } else if cut.rest() == 0 {
            spares(since(self.log(), after.log()), kept_places(places, cut))
        } else {
            forall|read: Self, start: Self, cleared: Self, file: InodeRef|
                #[trigger] read.end_clearing(&start, &cleared, id, file, cut) && extends(
                    self.log(),
                    read.log(),
                ) && extends(cleared.log(), after.log()) ==> {
                    let now = self.left_on(&start, disk);
                    &&& start.sees_batch(now)
                    &&& start.served(&cleared, now, file, places)
                    &&& spares(since(self.log(), start.log()), places)
                    &&& spares(since(cleared.log(), after.log()), kept_places(places, cut))
                }
        }
    }

    /// The steps of a truncation keep the bytes of a file up to its new end, and leave zero bytes
    /// behind it.
    proof fn lemma_steps_keep_bytes(
        &self,
        read: &Self,
        after: &Self,
        id: InodeId,
        cut: Cut,
        disk: Disk,
        places: Places,
        at: int,
    )
        requires
            extends(self.log(), read.log()),
            read.steps_cut(after, id, cut, TRUNCATE_MAX_STEPS as nat, true, Ok(())),
            cut.shrinks(),
            cut.rest() != 0,
            apart(places),
            self.cuts_cleanly(after, id, cut, disk, places),
            0 <= at,
        ensures
            byte_of(self.left_on(after, disk), kept_places(places, cut), at) == if at
                < cut.new_size {
                byte_of(disk, places, at)
            } else {
                0
            },
    {
        read.lemma_steps_go_on(after, id, cut, TRUNCATE_MAX_STEPS as nat, true, Ok(()));
        let (start, cleared, file) = choose|start: Self, cleared: Self, file: InodeRef|
            {
                &&& #[trigger] read.end_clearing(&start, &cleared, id, file, cut)
                &&& extends(start.log(), cleared.log())
                &&& extends(cleared.log(), after.log())
            };
        read.lemma_clearing_starts_quietly(&start, &cleared, id, file, cut, disk);
        lemma_extends(self.log(), read.log(), start.log());
        let now = self.left_on(&start, disk);
        assert(spares(since(cleared.log(), after.log()), kept_places(places, cut)));
        assert(start.end_cleared(&cleared, file, cut, Ok(())));
        start.lemma_end_reads_as_zero(&cleared, file, cut, now, places);
        let middle = start.left_on(&cleared, now);
        self.lemma_device_joins(&start, &cleared, disk);
        lemma_extends(self.log(), start.log(), cleared.log());
        self.lemma_device_joins(&cleared, after, disk);
        let calls = since(cleared.log(), after.log());
        let block = at / BLOCK_SIZE as int;
        assert(byte_of(now, places, at) == byte_of(disk, places, at)) by {
            if places.contains_key(block) {
                lemma_spared_blocks_hold(disk, since(self.log(), start.log()), places, block);
            }
        }
        assert(byte_of(middle, places, at) == if cut.new_size <= at < cut.kept() * BLOCK_SIZE {
            0
        } else {
            byte_of(disk, places, at)
        });
        lemma_kept_bytes(disk, middle, calls, places, cut, at);
    }

    /// A truncation to a larger size keeps all bytes of a file; one to a smaller size keeps those
    /// before the new end, and leaves zero bytes behind it, which is what is read there once the
    /// file grows again. `before` is the inode as it is seen, and `places` is where the blocks of
    /// the file stand; it keeps those up to its new end.
    pub proof fn lemma_truncation_keeps_bytes(
        &self,
        after: &Self,
        before: InodeRef,
        new_size: u64,
        disk: Disk,
        places: Places,
        at: int,
    )
        requires
            self.inv(),
            self.size_changed(after, before.id, new_size, Ok(())),
            self.inode_seen(disk, before.id, before.inode@),
            self.inode_settled(before.id),
            self.answered_by(after, disk),
            apart(places),
            self.cuts_cleanly(
                after,
                before.id,
                (Cut { old_size: before.inode.byte_size(), new_size }),
                disk,
                places,
            ),
            0 <= at,
        ensures
            ({
                let cut = Cut { old_size: before.inode.byte_size(), new_size };
                let last = self.left_on(after, disk);
                if new_size < before.inode.byte_size() {
                    byte_of(last, kept_places(places, cut), at) == if at < new_size {
                        byte_of(disk, places, at)
                    } else {
                        0
                    }
                } else {
                    byte_of(last, places, at) == byte_of(disk, places, at)
                }
            }),
    {
        let id = before.id;
        let cut = Cut { old_size: before.inode.byte_size(), new_size };
        let calls = since(self.log(), after.log());
        let block = at / BLOCK_SIZE as int;
        if !cut.shrinks() {
            if places.contains_key(block) {
                lemma_spared_blocks_hold(disk, calls, places, block);
            }
        } else if cut.rest() == 0 {
            lemma_kept_bytes(disk, disk, calls, places, cut, at);
        } else {
            let work = |inside: Self, left: Self, outcome: Result<()>|
                inside.truncated(&left, id, new_size, outcome);
            assert forall|inside: Self, left: Self| #[trigger]
                work(inside, left, Ok(())) implies extends(inside.log(), left.log()) by {
                inside.lemma_truncated_goes_on(&left, id, new_size, Ok(()));
            }
            let (inside, left) = self.lemma_exclusive_writer(after, work, Ok(()), disk);
            self.lemma_cuts_cleanly_inside(&inside, &left, after, id, cut, disk, places);
            let (home, _) = self.state().inode_position(id)->0;
            assert(inside.logs_to(home) == self.logs_to(home));
            inside.lemma_cut_keeps_bytes(&left, before, cut, disk, places, at);
        }
    }

    /// What cuts cleanly with the barrier does so inside it.
    proof fn lemma_cuts_cleanly_inside(
        &self,
        inside: &Self,
        left: &Self,
        after: &Self,
        id: InodeId,
        cut: Cut,
        disk: Disk,
        places: Places,
    )
        requires
            cut.shrinks(),
            cut.rest() != 0,
            inside.log() == self.log(),
            extends(left.log(), after.log()),
            self.cuts_cleanly(after, id, cut, disk, places),
        ensures
            inside.cuts_cleanly(left, id, cut, disk, places),
    {
        let kept = kept_places(places, cut);
        assert forall|read: Self, start: Self, cleared: Self, file: InodeRef|
            #[trigger] read.end_clearing(&start, &cleared, id, file, cut) && extends(
                inside.log(),
                read.log(),
            ) && extends(cleared.log(), left.log()) implies {
            let now = inside.left_on(&start, disk);
            &&& start.sees_batch(now)
            &&& start.served(&cleared, now, file, places)
            &&& spares(since(inside.log(), start.log()), places)
            &&& spares(since(cleared.log(), left.log()), kept)
        } by {
            lemma_extends(cleared.log(), left.log(), after.log());
            let whole = since(cleared.log(), after.log());
            let part = since(cleared.log(), left.log());
            assert(spares(whole, kept));
            assert forall|k: int, block: int|
                0 <= k < part.len() && kept.contains_key(block) implies !hits(
                #[trigger] part[k],
                #[trigger] kept[block],
            ) by {
                assert(after.log().take(left.log().len() as int)[cleared.log().len() + k]
                    == after.log()[cleared.log().len() + k]);
                assert(whole[k] == part[k]);
            }
        }
    }

    /// A truncation to a smaller size that is no multiple of the block size, inside the barrier.
    proof fn lemma_cut_keeps_bytes(
        &self,
        after: &Self,
        before: InodeRef,
        cut: Cut,
        disk: Disk,
        places: Places,
        at: int,
    )
        requires
            self.inv(),
            self.truncated(after, before.id, cut.new_size, Ok(())),
            cut.old_size == before.inode.byte_size(),
            cut.shrinks(),
            cut.rest() != 0,
            self.inode_seen(disk, before.id, before.inode@),
            self.state().inode_position(before.id) matches Some((home, _)) ==> !self.logs_to(home),
            self.answered_by(after, disk),
            apart(places),
            self.cuts_cleanly(after, before.id, cut, disk, places),
            0 <= at,
        ensures
            byte_of(self.left_on(after, disk), kept_places(places, cut), at) == if at
                < cut.new_size {
                byte_of(disk, places, at)
            } else {
                0
            },
    {
        let id = before.id;
        let new_size = cut.new_size;
        let (flushed, reply) = choose|flushed: Self, reply: Result<()>|
            {
                &&& #[trigger] self.flushed(
                    &flushed,
                    JournalCommitReason::DurabilityBoundary,
                    reply,
                )
                &&& match reply {
                    Ok(_) => flushed.file_resized(after, id, new_size, Ok(())),
                    Err(error) => flushed.idle(after) && Ok::<(), Ext4Error>(()) == Err::<
                        (),
                        Ext4Error,
                    >(error),
                }
            };
        match reply {
            Ok(done) => {
                assert(done == ());
            },
            Err(_) => {},
        }
        let (read, found) = choose|read: Self, found: Result<InodeRef>|
            {
                &&& #[trigger] flushed.inode_read(&read, id, found)
                &&& match found {
                    Ok(inode) => if is_free(inode.inode) {
                        read.idle(after) && Ok::<(), Ext4Error>(()) == failed::<()>(
                            ErrCode::EINVAL,
                        )
                    } else if inode.inode.byte_size() == new_size {
                        read.idle(after)
                    } else {
                        read.steps_cut(
                            after,
                            id,
                            (Cut { old_size: inode.inode.byte_size(), new_size }),
                            TRUNCATE_MAX_STEPS as nat,
                            true,
                            Ok(()),
                        )
                    },
                    Err(error) => read.idle(after) && Ok::<(), Ext4Error>(()) == Err::<
                        (),
                        Ext4Error,
                    >(error),
                }
            };
        let inode = found->Ok_0;
        self.lemma_flush_goes_on(&flushed, JournalCommitReason::DurabilityBoundary);
        assert(read.log().take(flushed.log().len() as int) =~= flushed.log());
        lemma_extends(self.log(), flushed.log(), read.log());
        let found_cut = Cut { old_size: inode.inode.byte_size(), new_size };
        if inode.inode.byte_size() != new_size {
            read.lemma_steps_go_on(after, id, found_cut, TRUNCATE_MAX_STEPS as nat, true, Ok(()));
        } else {
            assert(after.log().take(read.log().len() as int) =~= read.log());
        }
        lemma_extends(flushed.log(), read.log(), after.log());
        self.lemma_answers_split(&flushed, after, disk);
        let there = self.left_on(&flushed, disk);
        flushed.lemma_answers_split(&read, after, there);
        self.lemma_flush_keeps_sight(&flushed, JournalCommitReason::DurabilityBoundary, disk);
        let (home, _) = self.state().inode_position(id)->0;
        assert(flushed.sight(there)[home] == self.sight(disk)[home]);
        flushed.lemma_read_inode_is_seen(&read, id, inode, there);
        assert(inode.inode@ == before.inode@);
        assert(inode.inode.byte_size() == before.inode.byte_size());
        self.lemma_steps_keep_bytes(&read, after, id, cut, disk, places, at);
    }
}

} // verus!
