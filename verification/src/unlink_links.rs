//! The number of names of a file after it got or lost one, and who is told that it has none left.

use vstd::prelude::*;
use crate::bytes::le32_at;
use crate::content::{lemma_extends, Disk};
use crate::device::{extends, since, BlockDevice, Event, JournalCommitReason};
use crate::dir_links::links_on;
use crate::error::{failed, ErrCode, Ext4Error, Result};
use crate::fs::{Ext4, FsState};
use crate::inode::InodeRef;
use crate::journal_transaction::{CommitError, Transaction};
use crate::naming::Names;
use crate::readback::shown_by;
use crate::replace_links::{
    entries_apart, free_of_inodes, images_apart, lemma_apart_elsewhere, lemma_free_elsewhere,
};
use crate::staged::{ordered, StagedBlock};
use crate::unlink::{
    directory, handle_of, is_last_name, links_of, LINK_CREDITS, MAX_DEFERRED_NAMESPACE_BLOCKS,
};
use crate::volume::{BlockImage, DirEntryLocation, InodeReclaimHandle, LayerCall, Volume};
use crate::{InodeId, PBlockId};

verus! {

impl<D: BlockDevice, V: Volume<D>> Ext4<D, V> {
    /// Whether no inode stands in the journal.
    pub open spec fn tables_unlogged(&self) -> bool {
        forall|id: InodeId|
            (#[trigger] self.state().inode_position(id)) matches Some((home, _)) ==> !self.logs_to(
                home,
            )
    }

    /// A transaction starts with what is seen, also where the images that wait are committed first.
    proof fn lemma_begun_shows(
        &self,
        begun: &Self,
        credits: usize,
        transaction: Transaction,
        disk: Disk,
    )
        requires
            self.sound_journal(),
            self.begun_with_retry(begun, credits, Ok(transaction)),
        ensures
            extends(self.log(), begun.log()),
            begun.inv(),
            begun.nothing_waits(),
            transaction.staged() == Seq::<StagedBlock>::empty(),
            ordered(transaction.batch()),
            begun.state().mode is Direct ==> transaction.deferred() is None,
            begun.state().mode is Journal == self.state().mode is Journal,
            begun.state().superblock == self.state().superblock,
            begun.state().groups == self.state().groups,
            forall|block: PBlockId| #[trigger] begun.logs_to(block) == self.logs_to(block),
            self.answered_by(begun, disk) ==> forall|block: PBlockId|
                !self.logs_to(block) ==> #[trigger] shown_by(
                    transaction,
                    self.left_on(begun, disk),
                )[block] == self.sight(disk)[block],
    {
        let (tried, first) = choose|tried: Self, first: Result<Transaction>|
            {
                &&& #[trigger] self.begun(&tried, credits, first)
                &&& if first matches Err(error) && error.code == ErrCode::E2BIG
                    && self.state().mode is Journal {
                    exists|flushed: Self, reply: Result<()>|
                        {
                            &&& #[trigger] tried.flushed(
                                &flushed,
                                JournalCommitReason::DurabilityBoundary,
                                reply,
                            )
                            &&& match reply {
                                Ok(_) => flushed.begun(begun, credits, Ok(transaction)),
                                Err(error) => flushed.idle(begun) && Ok::<Transaction, Ext4Error>(
                                    transaction,
                                ) == Err::<Transaction, Ext4Error>(error),
                            }
                        }
                } else {
                    tried.idle(begun) && Ok::<Transaction, Ext4Error>(transaction) == first
                }
            };
        assert(self.log().take(self.log().len() as int) =~= self.log());
        if first is Err {
            let (flushed, reply) = choose|flushed: Self, reply: Result<()>|
                {
                    &&& #[trigger] tried.flushed(
                        &flushed,
                        JournalCommitReason::DurabilityBoundary,
                        reply,
                    )
                    &&& match reply {
                        Ok(_) => flushed.begun(begun, credits, Ok(transaction)),
                        Err(error) => flushed.idle(begun) && Ok::<Transaction, Ext4Error>(
                            transaction,
                        ) == Err::<Transaction, Ext4Error>(error),
                    }
                };
            match reply {
                Ok(done) => {
                    assert(done == ());
                },
                Err(_) => {},
            }
            assert(tried.state().mode == self.state().mode);
            tried.lemma_flush_goes_on(&flushed, JournalCommitReason::DurabilityBoundary);
            assert forall|block: PBlockId| #[trigger] begun.logs_to(block) == self.logs_to(block) by {
                assert(tried.logs_to(block) == self.logs_to(block));
            }
            if self.answered_by(begun, disk) {
                tried.lemma_flush_keeps_sight(
                    &flushed,
                    JournalCommitReason::DurabilityBoundary,
                    disk,
                );
                assert forall|block: PBlockId| !self.logs_to(block) implies #[trigger] shown_by(
                    transaction,
                    self.left_on(begun, disk),
                )[block] == self.sight(disk)[block] by {
                    assert(!tried.logs_to(block));
                    assert(flushed.sight(tried.left_on(&flushed, disk))[block] == tried.sight(
                        disk,
                    )[block]);
                }
            }
        } else {
            assert(since(self.log(), begun.log()) =~= Seq::<Event>::empty());
            assert forall|block: PBlockId| #[trigger] begun.logs_to(block) == self.logs_to(block) by {}
            assert(transaction.batch() == self.state().batch());
        }
    }

    /// Resolving a name only asks, and gives the inode that is seen.
    proof fn lemma_resolving_asks(
        &self,
        after: &Self,
        parent: InodeId,
        name: Seq<char>,
        pair: (InodeRef, InodeRef),
        disk: Disk,
    )
        requires
            self.name_resolved(after, parent, name, Ok(pair)),
        ensures
            self.only_asked(after),
            self.answered_by(after, disk) ==> after.inode_seen(disk, pair.1.id, pair.1.inode@),
    {
        let outcome = Ok::<(InodeRef, InodeRef), Ext4Error>(pair);
        let (opened, dir) = choose|opened: Self, dir: Result<InodeRef>|
            {
                &&& #[trigger] self.dir_opened(&opened, parent, dir)
                &&& match dir {
                    Ok(dir) => opened.name_located(after, dir, parent, name, outcome),
                    Err(error) => opened.idle(after) && outcome == Err::<
                        (InodeRef, InodeRef),
                        Ext4Error,
                    >(error),
                }
            };
        let found = choose|found: Result<InodeRef>| #[trigger] self.inode_read(&opened, parent, found);
        self.lemma_reading_inode_asks(&opened, parent, found);
        let dir = dir->Ok_0;
        let (located, reply) = choose|located: Self, reply: Result<DirEntryLocation>|
            {
                &&& #[trigger] opened.asked(&located, LayerCall::LocateEntry { dir, name, reply })
                &&& match reply {
                    Ok(location) => located.pair_read(after, parent, location.inode_id, outcome),
                    Err(error) => located.idle(after) && outcome == Err::<
                        (InodeRef, InodeRef),
                        Ext4Error,
                    >(error),
                }
            };
        opened.lemma_call_only_asks(
            &located,
            Event::Layer { call: LayerCall::LocateEntry { dir, name, reply } },
        );
        let target = reply->Ok_0.inode_id;
        let (read, one) = choose|read: Self, one: Result<InodeRef>|
            {
                &&& #[trigger] located.inode_read(&read, parent, one)
                &&& match one {
                    Ok(one) => read.other_read(after, one, target, outcome),
                    Err(error) => read.idle(after) && outcome == Err::<
                        (InodeRef, InodeRef),
                        Ext4Error,
                    >(error),
                }
            };
        located.lemma_reading_inode_asks(&read, parent, one);
        let other = choose|other: Result<InodeRef>|
            {
                &&& #[trigger] read.inode_read(after, target, other)
                &&& outcome == match other {
                    Ok(inode) => Ok::<(InodeRef, InodeRef), Ext4Error>((one->Ok_0, inode)),
                    Err(error) => Err(error),
                }
            };
        read.lemma_reading_inode_asks(after, target, other);
        self.lemma_calls_join(&opened, &located);
        self.lemma_calls_join(&located, &read);
        self.lemma_calls_join(&read, after);
        if self.answered_by(after, disk) {
            self.lemma_answers_split(&read, after, disk);
            self.lemma_asking_leaves_device(&read, disk);
            read.lemma_read_inode_is_seen(after, target, pair.1, disk);
        }
    }

    /// What the names of inodes are after a transaction that only asked was let wait or committed.
    proof fn lemma_settled_links(
        &self,
        counted: &Self,
        after: &Self,
        grown: Transaction,
        disk: Disk,
        id: InodeId,
    )
        requires
            self.only_asked(counted),
            counted.names_settled(after, grown, false, Ok(())),
            self.inv(),
            self.nothing_waits(),
            ordered(grown.staged()),
            ordered(grown.batch()),
            self.state().mode is Direct ==> grown.deferred() is None,
        ensures
            extends(counted.log(), after.log()),
            extends(self.log(), after.log()),
            self.answered_by(after, disk) && (self.state().inode_position(id) matches Some(
                (home, _),
            ) ==> !self.logs_to(home)) ==> links_on(
                after.sight(self.left_on(after, disk)),
                self.state(),
                id,
            ) == links_on(shown_by(grown, disk), self.state(), id),
    {
        let outcome = Ok::<(), Ext4Error>(());
        let (done, reply) = choose|done: Self, reply: core::result::Result<(), CommitError>|
            {
                &&& #[trigger] counted.names_ended(&done, grown, false, reply)
                &&& match reply {
                    Ok(_) => done.idle(after) && outcome == Ok::<(), Ext4Error>(()),
                    Err(stop) => done.gave_out(after) && outcome == Err::<(), Ext4Error>(
                        stop.error,
                    ),
                }
            };
        match reply {
            Ok(done) => {
                assert(done == ());
            },
            Err(_) => {},
        }
        if counted.state().mode is ReadOnly {
            assert(done.log().take(counted.log().len() as int) =~= counted.log());
        } else {
            counted.lemma_followed_is_recorded(&done);
        }
        lemma_extends(self.log(), counted.log(), done.log());
        if self.answered_by(after, disk) {
            self.lemma_answers_split(counted, after, disk);
            self.lemma_device_joins(counted, after, disk);
            self.lemma_asking_leaves_device(counted, disk);
            counted.lemma_deferral_is_seen(&done, grown, MAX_DEFERRED_NAMESPACE_BLOCKS, disk);
            if let Some((home, at)) = self.state().inode_position(id) {
                if !self.logs_to(home) {
                    assert(counted.logs_to(home) == self.logs_to(home));
                    assert(done.sight(counted.left_on(&done, disk))[home] == shown_by(
                        grown,
                        disk,
                    )[home]);
                }
            }
        }
    }
}

/// Losing a name.
impl<D: BlockDevice, V: Volume<D>> Ext4<D, V> {
    /// What taking the name of a file away does to the numbers of names, and whom it returns, once
    /// the transaction has started.
    proof fn lemma_removed_links(
        &self,
        after: &Self,
        parent: InodeRef,
        child: InodeRef,
        name: Seq<char>,
        last: bool,
        transaction: Transaction,
        handle: Option<InodeReclaimHandle>,
        disk: Disk,
        id: InodeId,
    )
        requires
            self.unlink_removed(after, parent, child, name, last, transaction, Ok(handle)),
            !directory(child),
            self.inv(),
            self.nothing_waits(),
            transaction.staged() == Seq::<StagedBlock>::empty(),
            ordered(transaction.batch()),
            self.state().mode is Direct ==> transaction.deferred() is None,
        ensures
            extends(self.log(), after.log()),
            handle == handle_of(child, last),
            self.sound_to(after, disk) && (self.state().inode_position(id) matches Some((home, _))
                ==> !self.logs_to(home)) ==> links_on(
                after.sight(self.left_on(after, disk)),
                self.state(),
                id,
            ) == if id != child.id {
                links_on(shown_by(transaction, disk), self.state(), id)
            } else if last {
                0
            } else {
                links_of(child.inode@).wrapping_sub(1)
            },
    {
        let outcome = Ok::<Option<InodeReclaimHandle>, Ext4Error>(handle);
        let (removed, more, reply) = choose|removed: Self, more: Transaction, reply: Result<()>|
            {
                &&& #[trigger] self.entry_removed(
                    &removed,
                    transaction,
                    more,
                    parent,
                    name,
                    reply,
                )
                &&& match reply {
                    Ok(_) => removed.unlink_parted(after, parent, child, last, more, outcome),
                    Err(error) => removed.given_up(after, more) && outcome == Err::<
                        Option<InodeReclaimHandle>,
                        Ext4Error,
                    >(error),
                }
            };
        match reply {
            Ok(done) => {
                assert(done == ());
            },
            Err(_) => {},
        }
        let (counted, grown, said) = choose|counted: Self, grown: Transaction, said: Result<()>|
            {
                &&& #[trigger] removed.name_counted_off(
                    &counted,
                    more,
                    grown,
                    child,
                    last,
                    said,
                )
                &&& match said {
                    Ok(_) => counted.unlink_ended(after, child, last, grown, outcome),
                    Err(error) => counted.given_up(after, grown) && outcome == Err::<
                        Option<InodeReclaimHandle>,
                        Ext4Error,
                    >(error),
                }
            };
        match said {
            Ok(done) => {
                assert(done == ());
            },
            Err(_) => {},
        }
        let ending = choose|ending: Result<()>|
            {
                &&& #[trigger] counted.names_settled(after, grown, directory(child), ending)
                &&& outcome == match ending {
                    Ok(_) => Ok::<Option<InodeReclaimHandle>, Ext4Error>(handle_of(child, last)),
                    Err(error) => Err(error),
                }
            };
        match ending {
            Ok(done) => {
                assert(done == ());
            },
            Err(_) => {},
        }
        assert(ordered(transaction.staged()));
        self.lemma_entry_removed_links(&removed, transaction, more, parent, name, disk);
        removed.lemma_counted_off_links(&counted, more, grown, child, last, disk);
        self.lemma_calls_join(&removed, &counted);
        self.lemma_settled_links(&counted, after, grown, disk, id);
        if self.sound_to(after, disk) {
            assert(extends(counted.log(), after.log()));
            lemma_extends(removed.log(), counted.log(), after.log());
            self.lemma_sound_so_far(&removed, after, disk);
            self.lemma_sound_parts(&removed, after, disk);
            removed.lemma_sound_so_far(&counted, after, disk);
            assert(links_on(shown_by(more, disk), self.state(), id) == links_on(
                shown_by(transaction, disk),
                self.state(),
                id,
            ));
        }
    }

    /// A file that loses a name has one name less, and no other file more or fewer; who takes its
    /// last name away is told so, and which file and which generation of it that was.
    pub proof fn lemma_unlinked_file_is_counted_off(
        &self,
        after: &Self,
        parent: InodeId,
        name: Seq<char>,
        handle: Option<InodeReclaimHandle>,
        child: InodeRef,
        names: Names,
        disk: Disk,
        id: InodeId,
    )
        requires
            self.inv(),
            self.name_unlinked(after, parent, name, Ok(handle)),
            self.speaks_by(after, names),
            child.id == names[(parent, name)],
            self.inode_seen(disk, child.id, child.inode@),
            self.sound_to(after, disk),
            self.tables_unlogged(),
        ensures
            handle == if links_of(child.inode@) <= 1 {
                Some(
                    InodeReclaimHandle {
                        ino: child.id,
                        generation: le32_at(child.inode@, 100),
                    },
                )
            } else {
                None
            },
            links_on(after.sight(self.left_on(after, disk)), self.state(), id) == if id
                != child.id {
                links_on(self.sight(disk), self.state(), id)
            } else if links_of(child.inode@) <= 1 {
                0
            } else {
                (links_of(child.inode@) - 1) as u16
            },
    {
        let outcome = Ok::<Option<InodeReclaimHandle>, Ext4Error>(handle);
        let work = |inside: Self, left: Self, outcome: Result<Option<InodeReclaimHandle>>|
            inside.file_unlinked(&left, parent, name, outcome);
        assert forall|inside: Self, left: Self| #[trigger] work(inside, left, outcome) implies extends(
            inside.log(),
            left.log(),
        ) by {
            inside.lemma_file_unlinked_goes_on(&left, parent, name, handle);
        }
        let (inside, left) = self.lemma_exclusive_writer(after, work, outcome, disk);
        self.lemma_told_inside(&inside, &left, after, names, child, disk);
        inside.lemma_unlinked_links(&left, parent, name, handle, child, names, disk, id);
        assert(self.sight(disk) == inside.sight(disk));
        assert(after.sight(self.left_on(after, disk)) == left.sight(inside.left_on(&left, disk)));
        assert(inside.state().inode_position(id) == self.state().inode_position(id));
        assert(inside.state().inode_position(child.id) == self.state().inode_position(child.id));
    }

    /// What is told with the barrier is told inside it.
    proof fn lemma_told_inside(
        &self,
        inside: &Self,
        left: &Self,
        after: &Self,
        names: Names,
        child: InodeRef,
        disk: Disk,
    )
        requires
            inside.log() == self.log(),
            inside.state() == (FsState { gate: inside.state().gate, ..self.state() }),
            extends(inside.log(), left.log()),
            extends(left.log(), after.log()),
            self.speaks_by(after, names),
            self.inode_seen(disk, child.id, child.inode@),
            self.sound_to(after, disk),
            self.tables_unlogged(),
        ensures
            inside.speaks_by(left, names),
            inside.inode_seen(disk, child.id, child.inode@),
            inside.sound_to(left, disk),
            inside.tables_unlogged(),
    {
        self.lemma_sound_so_far(left, after, disk);
        self.lemma_sound_elsewhere(inside, left, disk);
        self.lemma_joins(left, after, names);
        assert forall|id: InodeId|
            (#[trigger] inside.state().inode_position(id)) matches Some(
                (home, _),
            ) ==> !inside.logs_to(home) by {
            assert(inside.state().inode_position(id) == self.state().inode_position(id));
            if let Some((home, _)) = self.state().inode_position(id) {
                assert(inside.logs_to(home) == self.logs_to(home));
            }
        }
    }

    /// Taking the name of a file away goes on with the record.
    proof fn lemma_file_unlinked_goes_on(
        &self,
        after: &Self,
        parent: InodeId,
        name: Seq<char>,
        handle: Option<InodeReclaimHandle>,
    )
        requires
            self.file_unlinked(after, parent, name, Ok(handle)),
        ensures
            extends(self.log(), after.log()),
    {
        self.lemma_unlinked_inside(after, parent, name, handle, Map::empty());
    }

    /// The same, inside the barrier.
    proof fn lemma_unlinked_links(
        &self,
        after: &Self,
        parent: InodeId,
        name: Seq<char>,
        handle: Option<InodeReclaimHandle>,
        child: InodeRef,
        names: Names,
        disk: Disk,
        id: InodeId,
    )
        requires
            self.inv(),
            self.file_unlinked(after, parent, name, Ok(handle)),
            self.speaks_by(after, names),
            child.id == names[(parent, name)],
            self.inode_seen(disk, child.id, child.inode@),
            self.sound_to(after, disk),
            self.tables_unlogged(),
        ensures
            handle == handle_of(child, links_of(child.inode@) <= 1),
            links_on(after.sight(self.left_on(after, disk)), self.state(), id) == if id
                != child.id {
                links_on(self.sight(disk), self.state(), id)
            } else if links_of(child.inode@) <= 1 {
                0
            } else {
                links_of(child.inode@).wrapping_sub(1)
            },
    {
        let outcome = Ok::<Option<InodeReclaimHandle>, Ext4Error>(handle);
        let (resolved, pair) = choose|resolved: Self, pair: Result<(InodeRef, InodeRef)>|
            {
                &&& #[trigger] self.name_resolved(&resolved, parent, name, pair)
                &&& match pair {
                    Ok(found) => if directory(found.1) {
                        resolved.idle(after) && outcome == failed::<Option<InodeReclaimHandle>>(
                            ErrCode::EISDIR,
                        )
                    } else {
                        resolved.unlinked(after, found.0, found.1, name, outcome)
                    },
                    Err(error) => resolved.idle(after) && outcome == Err::<
                        Option<InodeReclaimHandle>,
                        Ext4Error,
                    >(error),
                }
            };
        let found = pair->Ok_0;
        let last = is_last_name(directory(found.1), links_of(found.1.inode@));
        let (begun, reply) = choose|begun: Self, reply: Result<Transaction>|
            {
                &&& #[trigger] resolved.begun_with_retry(
                    &begun,
                    resolved.credits_to_unlink(found.1),
                    reply,
                )
                &&& match reply {
                    Ok(transaction) => begun.unlink_removed(
                        after,
                        found.0,
                        found.1,
                        name,
                        last,
                        transaction,
                        outcome,
                    ),
                    Err(error) => begun.idle(after) && outcome == Err::<
                        Option<InodeReclaimHandle>,
                        Ext4Error,
                    >(error),
                }
            };
        let transaction = reply->Ok_0;
        self.lemma_resolving_asks(&resolved, parent, name, found, disk);
        self.lemma_resolved_names(&resolved, parent, name, found, names);
        resolved.lemma_begun_shows(
            &begun,
            resolved.credits_to_unlink(found.1),
            transaction,
            disk,
        );
        let start = resolved.left_on(&begun, disk);
        begun.lemma_removed_links(
            after,
            found.0,
            found.1,
            name,
            last,
            transaction,
            handle,
            start,
            id,
        );
        lemma_extends(resolved.log(), begun.log(), after.log());
        lemma_extends(self.log(), resolved.log(), begun.log());
        self.lemma_joins(&resolved, after, names);
        self.lemma_answers_split(&resolved, after, disk);
        self.lemma_asking_leaves_device(&resolved, disk);
        resolved.lemma_answers_split(&begun, after, disk);
        self.lemma_device_joins(&resolved, after, disk);
        resolved.lemma_device_joins(&begun, after, disk);
        assert(found.1.id == child.id);
        assert(found.1.inode@ == child.inode@);
        self.lemma_sound_later(&begun, after, disk, start);
        assert forall|block: PBlockId| #[trigger] begun.logs_to(block) == self.logs_to(block) by {
            assert(resolved.logs_to(block) == self.logs_to(block));
        }
        if let Some((home, at)) = self.state().inode_position(id) {
            assert(!self.logs_to(home));
            assert(!resolved.logs_to(home));
            assert(!begun.logs_to(home));
            assert(shown_by(transaction, start)[home] == resolved.sight(disk)[home]);
            assert(begun.state().inode_position(id) == self.state().inode_position(id));
        }
    }

    /// What is sound on the way to a state is so from a later one on that has the same inodes.
    proof fn lemma_sound_later(&self, begun: &Self, after: &Self, disk: Disk, start: Disk)
        requires
            self.sound_to(after, disk),
            extends(self.log(), begun.log()),
            begun.state().superblock == self.state().superblock,
            begun.state().groups == self.state().groups,
            begun.answered_by(after, start),
        ensures
            begun.sound_to(after, start),
    {
        assert forall|home: PBlockId|
            free_of_inodes(self.state(), home) implies
        #[trigger] free_of_inodes(begun.state(), home) by {
            lemma_free_elsewhere(self.state(), begun.state(), home);
        }
        assert forall|k: int| begun.log().len() <= k < after.log().len() implies
        entries_apart(begun.state(), #[trigger] after.log()[k]) by {
            assert(entries_apart(self.state(), after.log()[k]));
        }
        lemma_free_elsewhere(self.state(), begun.state(), 0);
        lemma_apart_elsewhere(self.state(), begun.state());
    }
}

/// Whether an entry that is added stands in blocks without inodes.
pub open spec fn insertion_apart(places: FsState, call: Event) -> bool {
    match call {
        Event::Layer {
            call: LayerCall::InsertImages { dir, name, target, kind, reply: Ok(images) },
        } => images_apart(places, images@),
        _ => true,
    }
}

/// Getting a name.
impl<D: BlockDevice, V: Volume<D>> Ext4<D, V> {
    /// Whether entries that are added on the way to a later state stand in blocks without inodes.
    pub open spec fn insertions_apart(&self, after: &Self) -> bool {
        forall|k: int|
            self.log().len() <= k < after.log().len() ==> insertion_apart(
                self.state(),
                #[trigger] after.log()[k],
            )
    }

    /// What adding a name to a file does to the numbers of names, once the transaction has started.
    proof fn lemma_inserted_links(
        &self,
        after: &Self,
        parent: InodeRef,
        child: InodeRef,
        name: Seq<char>,
        transaction: Transaction,
        disk: Disk,
        id: InodeId,
    )
        requires
            self.link_inserted(after, parent, child, name, transaction, Ok(())),
            self.inv(),
            self.nothing_waits(),
            transaction.staged() == Seq::<StagedBlock>::empty(),
            ordered(transaction.batch()),
            self.state().mode is Direct ==> transaction.deferred() is None,
        ensures
            extends(self.log(), after.log()),
            self.sound_to(after, disk) && self.insertions_apart(after) && (
            self.state().inode_position(id) matches Some((home, _)) ==> !self.logs_to(home))
                ==> links_on(after.sight(self.left_on(after, disk)), self.state(), id) == if id
                != child.id {
                links_on(shown_by(transaction, disk), self.state(), id)
            } else {
                links_of(child.inode@).wrapping_add(1)
            },
    {
        let outcome = Ok::<(), Ext4Error>(());
        let (inserted, more, reply) = choose|inserted: Self, more: Transaction, reply: Result<()>|
            {
                &&& #[trigger] self.entry_inserted(
                    &inserted,
                    transaction,
                    more,
                    parent,
                    name,
                    child.id,
                    child.inode.kind(),
                    reply,
                )
                &&& match reply {
                    Ok(_) => inserted.link_counted(after, child, more, outcome),
                    Err(error) => inserted.given_up(after, more) && outcome == Err::<
                        (),
                        Ext4Error,
                    >(error),
                }
            };
        match reply {
            Ok(done) => {
                assert(done == ());
            },
            Err(_) => {},
        }
        let (asked, answer) = choose|asked: Self, answer: Result<Vec<BlockImage>>|
            {
                &&& #[trigger] self.asked(
                    &asked,
                    LayerCall::InsertImages {
                        dir: parent,
                        name,
                        target: child.id,
                        kind: child.inode.kind(),
                        reply: answer,
                    },
                )
                &&& match answer {
                    Ok(images) => asked.images_staged(
                        &inserted,
                        transaction,
                        more,
                        images@,
                        0,
                        reply,
                    ),
                    Err(error) => {
                        &&& asked.idle(&inserted)
                        &&& more == transaction
                        &&& reply == Err::<(), Ext4Error>(error)
                    },
                }
            };
        let images = answer->Ok_0;
        let call = Event::Layer {
            call: LayerCall::InsertImages {
                dir: parent,
                name,
                target: child.id,
                kind: child.inode.kind(),
                reply: answer,
            },
        };
        self.lemma_call_only_asks(&asked, call);
        asked.lemma_images_staged_links(&inserted, transaction, more, images@, 0, disk);
        self.lemma_calls_join(&asked, &inserted);
        let (counted, grown, sealed, said) = choose|
            counted: Self,
            grown: Transaction,
            sealed: InodeRef,
            said: Result<()>,
        |
            {
                &&& #[trigger] inserted.links_staged(
                    &counted,
                    more,
                    grown,
                    child,
                    links_of(child.inode@).wrapping_add(1),
                    sealed,
                    said,
                )
                &&& match said {
                    Ok(_) => counted.names_settled(after, grown, false, outcome),
                    Err(error) => counted.given_up(after, grown) && outcome == Err::<
                        (),
                        Ext4Error,
                    >(error),
                }
            };
        match said {
            Ok(done) => {
                assert(done == ());
            },
            Err(_) => {},
        }
        inserted.lemma_links_staged_links(
            &counted,
            more,
            grown,
            child,
            links_of(child.inode@).wrapping_add(1),
            sealed,
            disk,
        );
        self.lemma_calls_join(&inserted, &counted);
        self.lemma_settled_links(&counted, after, grown, disk, id);
        if self.sound_to(after, disk) && self.insertions_apart(after) {
            lemma_extends(inserted.log(), counted.log(), after.log());
            lemma_extends(asked.log(), inserted.log(), after.log());
            let k = self.log().len() as int;
            assert(after.log().take(asked.log().len() as int)[k] == after.log()[k]);
            assert(after.log()[k] == call);
            assert(insertion_apart(self.state(), after.log()[k]));
            self.lemma_answers_split(&inserted, after, disk);
            self.lemma_answers_split(&asked, &inserted, disk);
            self.lemma_asking_leaves_device(&asked, disk);
            self.lemma_sound_parts(&inserted, after, disk);
            inserted.lemma_sound_so_far(&counted, after, disk);
            assert(links_on(shown_by(more, disk), self.state(), id) == links_on(
                shown_by(transaction, disk),
                self.state(),
                id,
            ));
        }
    }

    /// Adding a name to a file, inside the barrier.
    proof fn lemma_link_logged_links(
        &self,
        after: &Self,
        parent: InodeRef,
        child: InodeRef,
        name: Seq<char>,
        disk: Disk,
        id: InodeId,
    )
        requires
            self.sound_journal(),
            self.link_logged(after, parent, child, name, Ok(())),
        ensures
            extends(self.log(), after.log()),
            self.sound_to(after, disk) && self.insertions_apart(after) && self.tables_unlogged()
                ==> links_on(after.sight(self.left_on(after, disk)), self.state(), id) == if id
                != child.id {
                links_on(self.sight(disk), self.state(), id)
            } else {
                links_of(child.inode@).wrapping_add(1)
            },
    {
        let outcome = Ok::<(), Ext4Error>(());
        let (begun, reply) = choose|begun: Self, reply: Result<Transaction>|
            {
                &&& #[trigger] self.begun_with_retry(&begun, LINK_CREDITS, reply)
                &&& match reply {
                    Ok(transaction) => begun.link_inserted(
                        after,
                        parent,
                        child,
                        name,
                        transaction,
                        outcome,
                    ),
                    Err(error) => begun.idle(after) && outcome == Err::<(), Ext4Error>(error),
                }
            };
        let transaction = reply->Ok_0;
        self.lemma_begun_shows(&begun, LINK_CREDITS, transaction, disk);
        let start = self.left_on(&begun, disk);
        begun.lemma_inserted_links(after, parent, child, name, transaction, start, id);
        lemma_extends(self.log(), begun.log(), after.log());
        if self.sound_to(after, disk) && self.insertions_apart(after) && self.tables_unlogged() {
            self.lemma_answers_split(&begun, after, disk);
            self.lemma_device_joins(&begun, after, disk);
            self.lemma_sound_later(&begun, after, disk, start);
            assert forall|home: PBlockId|
                free_of_inodes(self.state(), home) implies
            #[trigger] free_of_inodes(begun.state(), home) by {
                lemma_free_elsewhere(self.state(), begun.state(), home);
            }
            assert forall|k: int| begun.log().len() <= k < after.log().len() implies
            insertion_apart(begun.state(), #[trigger] after.log()[k]) by {
                assert(insertion_apart(self.state(), after.log()[k]));
            }
            assert(begun.state().inode_position(id) == self.state().inode_position(id));
            if let Some((home, at)) = self.state().inode_position(id) {
                assert(!self.logs_to(home));
                assert(begun.logs_to(home) == self.logs_to(home));
                assert(shown_by(transaction, start)[home] == self.sight(disk)[home]);
            }
        }
    }

    /// Making room for a name goes on with the record.
    proof fn lemma_room_goes_on(
        &self,
        made: &Self,
        dir: InodeRef,
        child: InodeRef,
        name: Seq<char>,
        grown: InodeRef,
    )
        requires
            self.room_made(made, dir, child, name, Ok(grown)),
        ensures
            extends(self.log(), made.log()),
    {
        let outcome = Ok::<InodeRef, Ext4Error>(grown);
        let (asked, reply) = choose|asked: Self, reply: Result<bool>|
            {
                &&& #[trigger] self.asked(&asked, LayerCall::HasSpace { dir, child, name, reply })
                &&& match reply {
                    Ok(room) => if room {
                        asked.idle(made) && outcome == Ok::<InodeRef, Ext4Error>(dir)
                    } else {
                        asked.dir_grown_gated(made, dir, outcome)
                    },
                    Err(error) => asked.idle(made) && outcome == Err::<InodeRef, Ext4Error>(error),
                }
            };
        self.lemma_call_only_asks(
            &asked,
            Event::Layer { call: LayerCall::HasSpace { dir, child, name, reply } },
        );
        if reply == Ok::<bool, Ext4Error>(false) {
            let work = |inside: Self, left: Self, outcome: Result<InodeRef>|
                inside.dir_grown(&left, dir, outcome);
            Self::lemma_growth_asks(work, dir, outcome);
            asked.lemma_direct_writer_goes_on(made, work, outcome);
            lemma_extends(self.log(), asked.log(), made.log());
        }
    }

    /// Giving a directory room only asks the layers.
    proof fn lemma_growth_asks(
        work: spec_fn(Self, Self, Result<InodeRef>) -> bool,
        dir: InodeRef,
        outcome: Result<InodeRef>,
    )
        requires
            work == (|inside: Self, left: Self, outcome: Result<InodeRef>|
                inside.dir_grown(&left, dir, outcome)),
        ensures
            forall|inside: Self, left: Self| #[trigger]
                work(inside, left, outcome) ==> inside.only_asked(&left) && extends(
                    inside.log(),
                    left.log(),
                ),
    {
        assert forall|inside: Self, left: Self| #[trigger] work(inside, left, outcome) implies
        inside.only_asked(&left) && extends(inside.log(), left.log()) by {
            let (grown, reply) = choose|grown: InodeRef, reply: Result<()>|
                {
                    &&& #[trigger] inside.asked(
                        &left,
                        LayerCall::GrowDirectory { dir, after: grown, reply },
                    )
                    &&& outcome == match reply {
                        Ok(_) => Ok::<InodeRef, Ext4Error>(grown),
                        Err(error) => Err(error),
                    }
                };
            inside.lemma_call_only_asks(
                &left,
                Event::Layer { call: LayerCall::GrowDirectory { dir, after: grown, reply } },
            );
        }
    }

    /// Making room for a name leaves what is seen as it was.
    proof fn lemma_room_keeps_sight(
        &self,
        made: &Self,
        dir: InodeRef,
        child: InodeRef,
        name: Seq<char>,
        grown: InodeRef,
        disk: Disk,
    )
        requires
            self.sound_journal(),
            self.room_made(made, dir, child, name, Ok(grown)),
            self.answered_by(made, disk),
        ensures
            made.state().superblock == self.state().superblock,
            made.state().groups == self.state().groups,
            forall|block: PBlockId| #[trigger] made.logs_to(block) == self.logs_to(block),
            forall|block: PBlockId|
                !self.logs_to(block) ==> #[trigger] made.sight(self.left_on(made, disk))[block]
                    == self.sight(disk)[block],
    {
        let outcome = Ok::<InodeRef, Ext4Error>(grown);
        let (asked, reply) = choose|asked: Self, reply: Result<bool>|
            {
                &&& #[trigger] self.asked(&asked, LayerCall::HasSpace { dir, child, name, reply })
                &&& match reply {
                    Ok(room) => if room {
                        asked.idle(made) && outcome == Ok::<InodeRef, Ext4Error>(dir)
                    } else {
                        asked.dir_grown_gated(made, dir, outcome)
                    },
                    Err(error) => asked.idle(made) && outcome == Err::<InodeRef, Ext4Error>(error),
                }
            };
        self.lemma_call_only_asks(
            &asked,
            Event::Layer { call: LayerCall::HasSpace { dir, child, name, reply } },
        );
        self.lemma_asking_leaves_device(&asked, disk);
        match reply {
            Ok(room) => {
                if room {
                    asked.lemma_idle_only_asks(made);
                    self.lemma_calls_join(&asked, made);
                    self.lemma_asking_leaves_device(made, disk);
                } else {
                    let work = |inside: Self, left: Self, outcome: Result<InodeRef>|
                        inside.dir_grown(&left, dir, outcome);
                    Self::lemma_growth_asks(work, dir, outcome);
                    asked.lemma_direct_writer_goes_on(made, work, outcome);
                    lemma_extends(self.log(), asked.log(), made.log());
                    self.lemma_answers_split(&asked, made, disk);
                    self.lemma_device_joins(&asked, made, disk);
                    let (inside, left) = asked.lemma_direct_writer(made, work, outcome, disk);
                    let start = asked.left_on(&inside, disk);
                    inside.lemma_asking_leaves_device(&left, start);
                    assert(made.sight(start) == inside.sight(start));
                    assert forall|block: PBlockId| #[trigger]
                        made.logs_to(block) == self.logs_to(block) by {
                        assert(inside.logs_to(block) == asked.logs_to(block));
                    }
                    assert forall|block: PBlockId| !self.logs_to(block) implies
                    #[trigger] made.sight(self.left_on(made, disk))[block] == self.sight(
                        disk,
                    )[block] by {
                        assert(!asked.logs_to(block));
                        assert(inside.sight(start)[block] == asked.sight(disk)[block]);
                    }
                }
            },
            Err(_) => {},
        }
    }

    /// The number of names of an inode that is seen.
    proof fn lemma_seen_links(&self, other: &Self, was: Disk, now: Disk, id: InodeId)
        requires
            other.state().superblock == self.state().superblock,
            other.state().groups == self.state().groups,
            self.tables_unlogged(),
            forall|block: PBlockId| #[trigger] other.logs_to(block) == self.logs_to(block),
            forall|block: PBlockId|
                !self.logs_to(block) ==> #[trigger] other.sight(now)[block]
                    == self.sight(was)[block],
        ensures
            links_on(other.sight(now), self.state(), id) == links_on(
                self.sight(was),
                self.state(),
                id,
            ),
            other.tables_unlogged(),
            other.state().inode_position(id) == self.state().inode_position(id),
    {
        assert(other.state().inode_position(id) == self.state().inode_position(id));
        if let Some((home, at)) = self.state().inode_position(id) {
            assert(!self.logs_to(home));
            assert(other.sight(now)[home] == self.sight(was)[home]);
        }
        assert forall|any: InodeId|
            (#[trigger] other.state().inode_position(any)) matches Some((home, _))
                ==> !other.logs_to(home) by {
            assert(other.state().inode_position(any) == self.state().inode_position(any));
            if let Some((home, _)) = self.state().inode_position(any) {
                assert(other.logs_to(home) == self.logs_to(home));
            }
        }
    }

    /// Adding a name to a file goes on with the record.
    proof fn lemma_gated_link_goes_on(
        &self,
        after: &Self,
        parent: InodeRef,
        child: InodeRef,
        name: Seq<char>,
    )
        requires
            self.link_gated(after, parent, child, name, Ok(())),
        ensures
            extends(self.log(), after.log()),
    {
        let outcome = Ok::<(), Ext4Error>(());
        let (inside, lock) = choose|inside: Self, lock: Result<()>|
            {
                &&& #[trigger] self.exclusive_entered(&inside, lock)
                &&& match lock {
                    Err(error) => inside.idle(after) && outcome == Err::<(), Ext4Error>(error),
                    Ok(_) => exists|left: Self|
                        {
                            &&& inside.link_logged(&left, parent, child, name, outcome)
                            &&& #[trigger] left.exclusive_left(after)
                        },
                }
            };
        match lock {
            Ok(done) => {
                assert(done == ());
            },
            Err(_) => {},
        }
        let left = choose|left: Self|
            {
                &&& inside.link_logged(&left, parent, child, name, outcome)
                &&& #[trigger] left.exclusive_left(after)
            };
        inside.lemma_link_logged_names(&left, parent, child, name, Map::empty());
        assert(after.log().take(left.log().len() as int) =~= left.log());
        lemma_extends(inside.log(), left.log(), after.log());
    }

    /// Adding a name to a file, with the barrier.
    proof fn lemma_gated_link_links(
        &self,
        after: &Self,
        parent: InodeRef,
        child: InodeRef,
        name: Seq<char>,
        disk: Disk,
        id: InodeId,
    )
        requires
            self.sound_journal(),
            self.link_gated(after, parent, child, name, Ok(())),
            self.sound_to(after, disk),
            self.insertions_apart(after),
            self.tables_unlogged(),
        ensures
            links_on(after.sight(self.left_on(after, disk)), self.state(), id) == if id
                != child.id {
                links_on(self.sight(disk), self.state(), id)
            } else {
                links_of(child.inode@).wrapping_add(1)
            },
    {
        let outcome = Ok::<(), Ext4Error>(());
        let work = |inside: Self, left: Self, outcome: Result<()>|
            inside.link_logged(&left, parent, child, name, outcome);
        assert forall|inside: Self, left: Self| #[trigger]
            work(inside, left, outcome) implies extends(inside.log(), left.log()) by {
            inside.lemma_link_logged_names(&left, parent, child, name, Map::empty());
        }
        let (inside, left) = self.lemma_exclusive_writer(after, work, outcome, disk);
        inside.lemma_link_logged_links(&left, parent, child, name, disk, id);
        self.lemma_sound_so_far(&left, after, disk);
        self.lemma_sound_elsewhere(&inside, &left, disk);
        assert(inside.sight(disk) == self.sight(disk));
        assert(after.sight(self.left_on(after, disk)) == left.sight(inside.left_on(&left, disk)));
        self.lemma_seen_links(&inside, disk, disk, id);
        assert forall|k: int| inside.log().len() <= k < left.log().len() implies insertion_apart(
            inside.state(),
            #[trigger] left.log()[k],
        ) by {
            assert(after.log().take(left.log().len() as int)[k] == after.log()[k]);
            assert(insertion_apart(self.state(), after.log()[k]));
            assert forall|home: PBlockId|
                free_of_inodes(self.state(), home) implies
            #[trigger] free_of_inodes(inside.state(), home) by {
                lemma_free_elsewhere(self.state(), inside.state(), home);
            }
        }
    }

    /// Adding a free name to a file.
    proof fn lemma_roomed_link_links(
        &self,
        after: &Self,
        dir: InodeRef,
        child: InodeRef,
        name: Seq<char>,
        disk: Disk,
        id: InodeId,
    )
        requires
            self.sound_journal(),
            self.link_roomed(after, dir, child, name, Ok(())),
        ensures
            extends(self.log(), after.log()),
            self.sound_to(after, disk) && self.insertions_apart(after) && self.tables_unlogged()
                ==> links_on(after.sight(self.left_on(after, disk)), self.state(), id) == if id
                != child.id {
                links_on(self.sight(disk), self.state(), id)
            } else {
                links_of(child.inode@).wrapping_add(1)
            },
    {
        let outcome = Ok::<(), Ext4Error>(());
        let (made, grown) = choose|made: Self, grown: Result<InodeRef>|
            {
                &&& #[trigger] self.room_made(&made, dir, child, name, grown)
                &&& made.inv()
                &&& match grown {
                    Ok(parent) => made.link_gated(after, parent, child, name, outcome),
                    Err(error) => made.idle(after) && outcome == Err::<(), Ext4Error>(error),
                }
            };
        let parent = grown->Ok_0;
        self.lemma_room_goes_on(&made, dir, child, name, parent);
        made.lemma_gated_link_goes_on(after, parent, child, name);
        lemma_extends(self.log(), made.log(), after.log());
        if self.sound_to(after, disk) && self.insertions_apart(after) && self.tables_unlogged() {
            let start = self.left_on(&made, disk);
            self.lemma_answers_split(&made, after, disk);
            self.lemma_device_joins(&made, after, disk);
            self.lemma_room_keeps_sight(&made, dir, child, name, parent, disk);
            self.lemma_seen_links(&made, disk, start, id);
            self.lemma_sound_later(&made, after, disk, start);
            assert forall|home: PBlockId|
                free_of_inodes(self.state(), home) implies
            #[trigger] free_of_inodes(made.state(), home) by {
                lemma_free_elsewhere(self.state(), made.state(), home);
            }
            assert forall|k: int| made.log().len() <= k < after.log().len() implies
            insertion_apart(made.state(), #[trigger] after.log()[k]) by {
                assert(insertion_apart(self.state(), after.log()[k]));
            }
            made.lemma_gated_link_links(after, parent, child, name, start, id);
        }
    }

    /// A file that gets a name has one name more: its inode counts it, and no other inode counts
    /// otherwise than before.
    ///
    /// The device answers with what it holds, the images of directory entries stand in blocks
    /// without inodes, and the tables of inodes do not stand in the journal.
    pub proof fn lemma_linked_file_is_counted(
        &self,
        after: &Self,
        parent: InodeId,
        name: Seq<char>,
        child: InodeRef,
        disk: Disk,
        id: InodeId,
    )
        requires
            self.inv(),
            self.hard_linked(after, child.id, parent, name, Ok(())),
            self.inode_seen(disk, child.id, child.inode@),
            links_of(child.inode@) < u16::MAX,
            self.sound_to(after, disk),
            self.insertions_apart(after),
            self.tables_unlogged(),
        ensures
            links_on(after.sight(self.left_on(after, disk)), self.state(), id) == if id
                != child.id {
                links_on(self.sight(disk), self.state(), id) as int
            } else {
                links_of(child.inode@) + 1
            },
    {
        let outcome = Ok::<(), Ext4Error>(());
        let (opened, found) = choose|opened: Self, found: Result<InodeRef>|
            {
                &&& #[trigger] self.dir_opened(&opened, parent, found)
                &&& match found {
                    Ok(dir) => opened.link_opened(after, dir, child.id, name, outcome),
                    Err(error) => opened.idle(after) && outcome == Err::<(), Ext4Error>(error),
                }
            };
        let dir = found->Ok_0;
        let seen = choose|seen: Result<InodeRef>| #[trigger]
            self.inode_read(&opened, parent, seen);
        self.lemma_reading_inode_asks(&opened, parent, seen);
        let (read, target) = choose|read: Self, target: Result<InodeRef>|
            {
                &&& #[trigger] opened.inode_read(&read, child.id, target)
                &&& match target {
                    Ok(inode) => read.link_checked(after, dir, inode, name, outcome),
                    Err(error) => read.idle(after) && outcome == Err::<(), Ext4Error>(error),
                }
            };
        let inode = target->Ok_0;
        opened.lemma_reading_inode_asks(&read, child.id, target);
        self.lemma_calls_join(&opened, &read);
        let (checked, reply) = choose|checked: Self, reply: Result<()>|
            {
                &&& #[trigger] read.name_checked(&checked, dir, name, reply)
                &&& match reply {
                    Ok(_) => checked.link_roomed(after, dir, inode, name, outcome),
                    Err(error) => checked.idle(after) && outcome == Err::<(), Ext4Error>(error),
                }
            };
        let answer = choose|answer: Result<InodeId>| #[trigger]
            read.asked(&checked, LayerCall::FindEntry { dir, name, reply: answer });
        read.lemma_call_only_asks(
            &checked,
            Event::Layer { call: LayerCall::FindEntry { dir, name, reply: answer } },
        );
        self.lemma_calls_join(&read, &checked);
        checked.lemma_roomed_link_links(after, dir, inode, name, disk, id);
        self.lemma_sound_parts(&checked, after, disk);
        self.lemma_asking_leaves_device(&checked, disk);
        self.lemma_device_joins(&checked, after, disk);
        assert(checked.state() == self.state());
        lemma_extends(opened.log(), read.log(), checked.log());
        lemma_extends(opened.log(), checked.log(), after.log());
        lemma_extends(read.log(), checked.log(), after.log());
        self.lemma_answers_split(&opened, after, disk);
        self.lemma_asking_leaves_device(&opened, disk);
        opened.lemma_answers_split(&read, after, disk);
        opened.lemma_read_inode_is_seen(&read, child.id, inode, disk);
        assert(inode.inode@ == child.inode@);
        assert forall|any: InodeId|
            (#[trigger] checked.state().inode_position(any)) matches Some((home, _))
                ==> !checked.logs_to(home) by {
            if let Some((home, _)) = self.state().inode_position(any) {
                assert(checked.logs_to(home) == self.logs_to(home));
            }
        }
        assert forall|k: int| checked.log().len() <= k < after.log().len() implies
        insertion_apart(checked.state(), #[trigger] after.log()[k]) by {
            assert(insertion_apart(self.state(), after.log()[k]));
        }
    }
}

} // verus!
