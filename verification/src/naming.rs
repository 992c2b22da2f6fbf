//! What the names of a file system stand for: lookups and changes of names agree on it.

use vstd::prelude::*;
use crate::bytes::{le16, splice};
use crate::content::lemma_extends;
use crate::device::{extends, plain_all, since, Block, BlockDevice, Event, JournalCommitReason};
use crate::error::{failed, ErrCode, Ext4Error, Result};
use crate::fs::Ext4;
use crate::inode::{FileAttr, FileType, InodeMode, InodeRef};
use crate::journal_transaction::{CommitError, Transaction};
use crate::namespace::{insertion_error, number_of, Birth};
use crate::unlink::{
    directory, handle_of, is_last_name, links_of, EMPTY_DIR_ENTRIES, LINK_CREDITS,
};
use crate::volume::{
    BlockImage, DirAddFailure, DirEntry, DirEntryLocation, InodeReclaimHandle, LayerCall, Volume,
};
use crate::InodeId;

verus! {

/// What the names of each directory stand for.
pub type Names = Map<(InodeId, Seq<char>), InodeId>;

/// The names after a call of the layers. Images for a name that is added, moved or taken away
/// count as soon as they are made: an operation that succeeds stages and commits them.
pub open spec fn names_with(names: Names, call: LayerCall) -> Names {
    match call {
        LayerCall::AddEntry { dir, child, name, after, reply: Ok(_) } => names.insert(
            (dir.id, name),
            child.id,
        ),
        LayerCall::LinkInode { parent, child, name, parent_after, child_after, reply: Ok(_) } => {
            let named = names.insert((parent.id, name), child.id);
            if directory(child) {
                named.insert((child.id, ".."@), parent.id)
            } else {
                named
            }
        },
        LayerCall::RemoveEntry { dir, name, reply: Ok(_) } => names.remove((dir.id, name)),
        LayerCall::RemoveImages { dir, name, reply: Ok(_) } => names.remove((dir.id, name)),
        LayerCall::ReplaceEntry { dir, name, target, kind, reply: Ok(_) } => names.insert(
            (dir.id, name),
            target,
        ),
        LayerCall::ReplaceImages { dir, name, target, kind, reply: Ok(_) } => names.insert(
            (dir.id, name),
            target,
        ),
        LayerCall::InsertImages { dir, name, target, kind, reply: Ok(_) } => names.insert(
            (dir.id, name),
            target,
        ),
        _ => names,
    }
}

/// The names after a call.
pub open spec fn names_after(names: Names, call: Event) -> Names {
    match call {
        Event::Layer { call } => names_with(names, call),
        _ => names,
    }
}

/// The names after some calls.
pub open spec fn named(names: Names, calls: Seq<Event>) -> Names
    decreases calls.len(),
{
    if calls.len() == 0 {
        names
    } else {
        names_after(named(names, calls.drop_last()), calls.last())
    }
}

/// Whether looking a name up gives what it stands for, and says that it is missing only where it
/// is.
pub open spec fn finds(
    names: Names,
    dir: InodeId,
    name: Seq<char>,
    reply: Result<InodeId>,
) -> bool {
    match reply {
        Ok(id) => names.contains_key((dir, name)) && names[(dir, name)] == id,
        Err(error) => error.code == ErrCode::ENOENT ==> !names.contains_key((dir, name)),
    }
}

/// Whether the entries of a directory are its names, with what each stands for.
pub open spec fn lists(names: Names, dir: InodeId, entries: Seq<DirEntry>) -> bool {
    &&& forall|i: int|
        0 <= i < entries.len() ==> {
            &&& names.contains_key((dir, (#[trigger] entries[i]).name@))
            &&& names[(dir, entries[i].name@)] == entries[i].inode
        }
    &&& forall|name: Seq<char>| #[trigger]
        names.contains_key((dir, name)) ==> exists|i: int|
            0 <= i < entries.len() && (#[trigger] entries[i]).name@ == name
}

/// Whether the layers answer a question about names with what the names stand for, and keep the
/// number of an inode that they change.
pub open spec fn answers_by_names(names: Names, call: LayerCall) -> bool {
    match call {
        LayerCall::FindEntry { dir, name, reply } => finds(names, dir.id, name, reply),
        LayerCall::LocateEntry { dir, name, reply } => match reply {
            Ok(location) => {
                &&& names.contains_key((dir.id, name))
                &&& names[(dir.id, name)] == location.inode_id
            },
            Err(error) => error.code == ErrCode::ENOENT ==> !names.contains_key((dir.id, name)),
        },
        LayerCall::ListEntries { dir, reply: Ok(entries) } => lists(names, dir.id, entries@),
        LayerCall::GrowDirectory { dir, after, reply } => after.id == dir.id,
        LayerCall::AddEntry { dir, child, name, after, reply } => after.id == dir.id,
        LayerCall::LinkInode { parent, child, name, parent_after, child_after, reply } => {
            &&& parent_after.id == parent.id
            &&& child_after.id == child.id
        },
        _ => true,
    }
}

/// Whether a call is answered by what the names stand for; that something is missing is said of
/// names alone.
pub open spec fn answered(names: Names, call: Event) -> bool {
    match call {
        Event::Layer { call } => answers_by_names(names, call),
        Event::ReadBlock { id, reply: Err(error) } => error.code != ErrCode::ENOENT,
        _ => true,
    }
}

/// Whether calls are answered, one after another, by what the names stand for.
pub open spec fn answered_all(names: Names, calls: Seq<Event>) -> bool {
    forall|k: int|
        0 <= k < calls.len() ==> answered(named(names, calls.take(k)), #[trigger] calls[k])
}

/// The names after calls that follow on calls.
proof fn lemma_named_joins(names: Names, first: Seq<Event>, second: Seq<Event>)
    ensures
        named(names, first + second) == named(named(names, first), second),
    decreases second.len(),
{
    if second.len() == 0 {
        assert(first + second =~= first);
    } else {
        lemma_named_joins(names, first, second.drop_last());
        assert((first + second).drop_last() =~= first + second.drop_last());
    }
}

/// Calls that follow on calls are answered by the names that these left.
proof fn lemma_answered_splits(names: Names, first: Seq<Event>, second: Seq<Event>)
    requires
        answered_all(names, first + second),
    ensures
        answered_all(names, first),
        answered_all(named(names, first), second),
{
    let all = first + second;
    assert forall|k: int| 0 <= k < first.len() implies answered(
        named(names, first.take(k)),
        #[trigger] first[k],
    ) by {
        assert(all[k] == first[k]);
        assert(all.take(k) =~= first.take(k));
    }
    assert forall|k: int| 0 <= k < second.len() implies answered(
        named(named(names, first), second.take(k)),
        #[trigger] second[k],
    ) by {
        assert(all[first.len() + k] == second[k]);
        assert(all.take(first.len() + k) =~= first + second.take(k));
        lemma_named_joins(names, first, second.take(k));
    }
}

/// Calls of which none is a call of the layers leave the names as they are.
proof fn lemma_plain_calls_keep_names(names: Names, calls: Seq<Event>)
    requires
        plain_all(calls),
    ensures
        named(names, calls) == names,
    decreases calls.len(),
{
    if calls.len() > 0 {
        let rest = calls.drop_last();
        assert forall|k: int| 0 <= k < rest.len() implies crate::device::plain(
            #[trigger] rest[k],
        ) by {
            assert(rest[k] == calls[k]);
        }
        lemma_plain_calls_keep_names(names, rest);
        assert(crate::device::plain(calls.last()));
    }
}

/// Whether the names are those from before and a new one, which stands for `child`; what names
/// the child has of its own is left open.
pub open spec fn gained(
    names: Names,
    after: Names,
    dir: InodeId,
    name: Seq<char>,
    child: InodeId,
) -> bool {
    &&& after.contains_key((dir, name))
    &&& after[(dir, name)] == child
    &&& forall|other: InodeId, word: Seq<char>|
        (other, word) != (dir, name) && other != child ==> {
            &&& #[trigger] after.contains_key((other, word)) == names.contains_key((other, word))
            &&& after[(other, word)] == names[(other, word)]
        }
}

impl<D: BlockDevice, V: Volume<D>> Ext4<D, V> {
    /// The names after the calls that led to a later state.
    pub open spec fn names_at(&self, after: &Self, names: Names) -> Names {
        named(names, since(self.log(), after.log()))
    }

    /// Whether the calls that led to a later state are answered by what the names stand for.
    pub open spec fn speaks_by(&self, after: &Self, names: Names) -> bool {
        answered_all(names, since(self.log(), after.log()))
    }

    /// Whether the record went on, and the names are what they were.
    pub open spec fn keeps_names(&self, after: &Self) -> bool {
        &&& extends(self.log(), after.log())
        &&& forall|names: Names| #[trigger] self.names_at(after, names) == names
    }

    /// What led from one state to the next, and from there on, is what led to the last.
    pub(crate) proof fn lemma_joins(&self, middle: &Self, after: &Self, names: Names)
        requires
            extends(self.log(), middle.log()),
            extends(middle.log(), after.log()),
        ensures
            extends(self.log(), after.log()),
            self.names_at(after, names) == middle.names_at(after, self.names_at(middle, names)),
            self.speaks_by(after, names) ==> {
                &&& self.speaks_by(middle, names)
                &&& middle.speaks_by(after, self.names_at(middle, names))
            },
    {
        lemma_extends(self.log(), middle.log(), after.log());
        let first = since(self.log(), middle.log());
        let second = since(middle.log(), after.log());
        assert(since(self.log(), after.log()) =~= first + second) by {
            assert(after.log().take(middle.log().len() as int) == middle.log());
        }
        lemma_named_joins(names, first, second);
        if self.speaks_by(after, names) {
            lemma_answered_splits(names, first, second);
        }
    }

    /// Names that are kept and kept again are kept.
    pub(crate) proof fn lemma_kept_on(&self, middle: &Self, after: &Self)
        requires
            self.keeps_names(middle),
            middle.keeps_names(after),
        ensures
            self.keeps_names(after),
    {
        assert forall|names: Names| #[trigger] self.names_at(after, names) == names by {
            self.lemma_joins(middle, after, names);
        }
        lemma_extends(self.log(), middle.log(), after.log());
    }

    /// Nothing that is called changes no names.
    pub(crate) proof fn lemma_quiet_keeps_names(&self, after: &Self)
        requires
            after.log() == self.log(),
        ensures
            self.keeps_names(after),
    {
        assert(after.log().take(self.log().len() as int) =~= self.log());
        assert(since(self.log(), after.log()) =~= Seq::<Event>::empty());
    }

    /// What one call does to the names.
    pub(crate) proof fn lemma_one_call(&self, after: &Self, call: Event, names: Names)
        requires
            after.log() == self.log().push(call),
        ensures
            extends(self.log(), after.log()),
            self.names_at(after, names) == names_after(names, call),
            self.speaks_by(after, names) ==> answered(names, call),
    {
        let calls = since(self.log(), after.log());
        assert(after.log().take(self.log().len() as int) =~= self.log());
        assert(calls =~= seq![call]);
        assert(calls.drop_last() =~= Seq::<Event>::empty());
        assert(calls.last() == call);
        reveal_with_fuel(named, 2);
        if self.speaks_by(after, names) {
            assert(calls.take(0) =~= Seq::<Event>::empty());
            assert(answered(named(names, calls.take(0)), calls[0]));
        }
    }

    /// A call that says nothing of names keeps them.
    pub(crate) proof fn lemma_call_keeps_names(&self, after: &Self, call: Event)
        requires
            after.log() == self.log().push(call),
            forall|names: Names| #[trigger] names_after(names, call) == names,
        ensures
            self.keeps_names(after),
    {
        assert forall|names: Names| #[trigger] self.names_at(after, names) == names by {
            self.lemma_one_call(after, call, names);
        }
        self.lemma_one_call(after, call, Map::empty());
    }

    /// Calls of the device and the caches keep the names.
    pub(crate) proof fn lemma_followed_keeps_names(&self, after: &Self)
        requires
            self.followed(after),
        ensures
            self.keeps_names(after),
    {
        self.lemma_followed_is_recorded(after);
        assert forall|names: Names| #[trigger] self.names_at(after, names) == names by {
            lemma_plain_calls_keep_names(names, since(self.log(), after.log()));
        }
    }
}

/// Reads, transactions and commits keep the names.
impl<D: BlockDevice, V: Volume<D>> Ext4<D, V> {
    /// Reading an inode keeps the names, and gives the inode; it does not say that something is
    /// missing.
    pub(crate) proof fn lemma_inode_read_keeps_names(
        &self,
        after: &Self,
        id: InodeId,
        outcome: Result<InodeRef>,
        names: Names,
    )
        requires
            self.inode_read(after, id, outcome),
        ensures
            self.keeps_names(after),
            self.only_asked(after),
            outcome matches Ok(inode) ==> inode.id == id,
            self.speaks_by(after, names) ==> (outcome matches Err(error) ==> error.code
                != ErrCode::ENOENT),
    {
        match self.state().inode_position(id) {
            Some((home, at)) => {
                let reply = choose|reply: Result<Block>|
                    {
                        &&& #[trigger] self.block_read(after, home, reply)
                        &&& crate::fs::inode_found(crate::fs::bytes_read(reply), at, id, outcome)
                    };
                if crate::staged::holds_home(self.state().batch(), home) {
                    self.lemma_quiet_keeps_names(after);
                    self.lemma_idle_only_asks(after);
                } else {
                    self.lemma_call_only_asks(after, Event::ReadBlock { id: home, reply });
                    self.lemma_call_keeps_names(after, Event::ReadBlock { id: home, reply });
                    self.lemma_one_call(after, Event::ReadBlock { id: home, reply }, names);
                }
            },
            None => {
                self.lemma_quiet_keeps_names(after);
                self.lemma_idle_only_asks(after);
            },
        }
    }

    /// Reading a directory keeps the names, and gives the directory; it does not say that
    /// something is missing.
    pub(crate) proof fn lemma_dir_opened_keeps_names(
        &self,
        after: &Self,
        id: InodeId,
        outcome: Result<InodeRef>,
        names: Names,
    )
        requires
            self.dir_opened(after, id, outcome),
        ensures
            self.keeps_names(after),
            self.only_asked(after),
            outcome matches Ok(inode) ==> inode.id == id,
            self.speaks_by(after, names) ==> (outcome matches Err(error) ==> error.code
                != ErrCode::ENOENT),
    {
        let found = choose|found: Result<InodeRef>|
            {
                &&& #[trigger] self.inode_read(after, id, found)
                &&& outcome == match found {
                    Ok(inode) => if inode.inode.kind() == crate::inode::FileType::Directory {
                        found
                    } else {
                        failed(ErrCode::ENOTDIR)
                    },
                    Err(error) => found,
                }
            };
        self.lemma_inode_read_keeps_names(after, id, found, names);
    }

    /// Reading two inodes keeps the names, and gives the inodes.
    pub(crate) proof fn lemma_pair_read_keeps_names(
        &self,
        after: &Self,
        first: InodeId,
        second: InodeId,
        outcome: Result<(InodeRef, InodeRef)>,
    )
        requires
            self.pair_read(after, first, second, outcome),
        ensures
            self.keeps_names(after),
            self.only_asked(after),
            outcome matches Ok(pair) ==> {
                &&& pair.0.id == first
                &&& pair.1.id == second
                &&& self.sees(after, pair.0)
                &&& self.sees(after, pair.1)
            },
    {
        let (read, found) = choose|read: Self, found: Result<InodeRef>|
            {
                &&& #[trigger] self.inode_read(&read, first, found)
                &&& match found {
                    Ok(one) => read.other_read(after, one, second, outcome),
                    Err(error) => read.idle(after) && outcome == Err::<
                        (InodeRef, InodeRef),
                        Ext4Error,
                    >(error),
                }
            };
        self.lemma_inode_read_keeps_names(&read, first, found, Map::empty());
        match found {
            Ok(one) => {
                let other = choose|other: Result<InodeRef>|
                    {
                        &&& #[trigger] read.inode_read(after, second, other)
                        &&& outcome == match other {
                            Ok(other) => Ok::<(InodeRef, InodeRef), Ext4Error>((one, other)),
                            Err(error) => Err(error),
                        }
                    };
                read.lemma_inode_read_keeps_names(after, second, other, Map::empty());
                if let Ok(pair) = outcome {
                    self.lemma_read_is_seen(self, &read, after, one);
                    self.lemma_read_is_seen(&read, after, after, pair.1);
                }
            },
            Err(_) => {
                read.lemma_quiet_keeps_names(after);
                read.lemma_idle_only_asks(after);
            },
        }
        self.lemma_kept_on(&read, after);
        self.lemma_calls_join(&read, after);
    }

    /// Committing the images that wait keeps the names.
    pub(crate) proof fn lemma_flushed_keeps_names(
        &self,
        after: &Self,
        reason: JournalCommitReason,
        outcome: Result<()>,
    )
        requires
            self.flushed(after, reason, outcome),
        ensures
            self.keeps_names(after),
    {
        if self.state().mode is Journal {
            self.lemma_followed_keeps_names(after);
        } else {
            self.lemma_quiet_keeps_names(after);
        }
    }

    /// Starting a transaction keeps the names.
    pub(crate) proof fn lemma_begun_keeps_names(
        &self,
        after: &Self,
        credits: usize,
        outcome: Result<Transaction>,
    )
        requires
            self.begun_with_retry(after, credits, outcome),
        ensures
            self.keeps_names(after),
    {
        let (tried, first) = choose|tried: Self, first: Result<Transaction>|
            {
                &&& #[trigger] self.begun(&tried, credits, first)
                &&& if first matches Err(error) && error.code == ErrCode::E2BIG
                    && self.state().mode is Journal {
                    exists|flushed: Self, reply: Result<()>|
                        {
                            &&& #[trigger] tried.flushed(
                                &flushed,
                                JournalCommitReason::DurabilityBoundary,
                                reply,
                            )
                            &&& match reply {
                                Ok(_) => flushed.begun(after, credits, outcome),
                                Err(error) => flushed.idle(after) && outcome == Err::<
                                    Transaction,
                                    Ext4Error,
                                >(error),
                            }
                        }
                } else {
                    tried.idle(after) && outcome == first
                }
            };
        self.lemma_quiet_keeps_names(&tried);
        if first matches Err(error) && error.code == ErrCode::E2BIG
            && self.state().mode is Journal {
            let (flushed, reply) = choose|flushed: Self, reply: Result<()>|
                {
                    &&& #[trigger] tried.flushed(
                        &flushed,
                        JournalCommitReason::DurabilityBoundary,
                        reply,
                    )
                    &&& match reply {
                        Ok(_) => flushed.begun(after, credits, outcome),
                        Err(error) => flushed.idle(after) && outcome == Err::<
                            Transaction,
                            Ext4Error,
                        >(error),
                    }
                };
            tried.lemma_flushed_keeps_names(
                &flushed,
                JournalCommitReason::DurabilityBoundary,
                reply,
            );
            flushed.lemma_quiet_keeps_names(after);
            tried.lemma_kept_on(&flushed, after);
        } else {
            tried.lemma_quiet_keeps_names(after);
        }
        self.lemma_kept_on(&tried, after);
    }

    /// Staging images keeps the names.
    pub(crate) proof fn lemma_images_keep_names(
        &self,
        after: &Self,
        before: Transaction,
        transaction: Transaction,
        images: Seq<BlockImage>,
        at: int,
        outcome: Result<()>,
    )
        requires
            self.images_staged(after, before, transaction, images, at, outcome),
        ensures
            self.keeps_names(after),
        decreases images.len() - at,
    {
        if at >= images.len() {
            self.lemma_quiet_keeps_names(after);
        } else {
            let (staged, grown, reply) = choose|staged: Self, grown: Transaction, reply: Result<()>|
                {
                    &&& #[trigger] self.block_staged(
                        &staged,
                        before,
                        grown,
                        images[at].home,
                        0,
                        images[at].data@,
                        reply,
                    )
                    &&& match reply {
                        Ok(_) => staged.images_staged(
                            after,
                            grown,
                            transaction,
                            images,
                            at + 1,
                            outcome,
                        ),
                        Err(error) => {
                            &&& staged.idle(after)
                            &&& transaction == grown
                            &&& outcome == Err::<(), Ext4Error>(error)
                        },
                    }
                };
            self.lemma_followed_keeps_names(&staged);
            match reply {
                Ok(_) => {
                    staged.lemma_images_keep_names(
                        after,
                        grown,
                        transaction,
                        images,
                        at + 1,
                        outcome,
                    );
                },
                Err(_) => {
                    staged.lemma_quiet_keeps_names(after);
                },
            }
            self.lemma_kept_on(&staged, after);
        }
    }

    /// Taking a name from an inode keeps what the names stand for.
    pub(crate) proof fn lemma_counting_off_keeps_names(
        &self,
        after: &Self,
        before: Transaction,
        transaction: Transaction,
        inode: InodeRef,
        last: bool,
        outcome: Result<()>,
    )
        requires
            self.name_counted_off(after, before, transaction, inode, last, outcome),
        ensures
            self.keeps_names(after),
    {
        if last && self.state().mode is Journal {
            let (staged, grown, chained, sealed, reply) = choose|
                staged: Self,
                grown: Transaction,
                chained: InodeRef,
                sealed: InodeRef,
                reply: Result<()>,
            |
                {
                    &&& #[trigger] self.inode_staged(
                        &staged,
                        before,
                        grown,
                        chained,
                        sealed,
                        reply,
                    )
                    &&& match reply {
                        Ok(_) => staged.orphan_headed(after, grown, transaction, inode.id, outcome),
                        Err(error) => {
                            &&& staged.idle(after)
                            &&& transaction == grown
                            &&& outcome == Err::<(), Ext4Error>(error)
                        },
                    }
                };
            self.lemma_followed_keeps_names(&staged);
            match reply {
                Ok(_) => {
                    staged.lemma_followed_keeps_names(after);
                },
                Err(_) => {
                    staged.lemma_quiet_keeps_names(after);
                },
            }
            self.lemma_kept_on(&staged, after);
        } else {
            self.lemma_followed_keeps_names(after);
        }
    }

    /// Ending a change of names keeps what the names stand for.
    pub(crate) proof fn lemma_settling_keeps_names(
        &self,
        after: &Self,
        transaction: Transaction,
        at_once: bool,
        outcome: Result<()>,
    )
        requires
            self.names_settled(after, transaction, at_once, outcome),
        ensures
            self.keeps_names(after),
    {
        let (done, reply) = choose|done: Self, reply: core::result::Result<(), CommitError>|
            {
                &&& #[trigger] self.names_ended(&done, transaction, at_once, reply)
                &&& match reply {
                    Ok(_) => done.idle(after) && outcome == Ok::<(), Ext4Error>(()),
                    Err(stop) => done.gave_out(after) && outcome == Err::<(), Ext4Error>(
                        stop.error,
                    ),
                }
            };
        if self.state().mode is ReadOnly {
            self.lemma_quiet_keeps_names(&done);
        } else {
            self.lemma_followed_keeps_names(&done);
        }
        done.lemma_quiet_keeps_names(after);
        self.lemma_kept_on(&done, after);
    }

    /// Entering the barrier as a direct writer keeps the names.
    proof fn lemma_direct_entry_keeps_names(&self, after: &Self, outcome: Result<()>)
        requires
            self.direct_entered(after, outcome),
        ensures
            self.keeps_names(after),
    {
        if self.state().gate.exclusive || self.state().gate.direct
            == crate::gate::METADATA_GATE_DIRECT_MAX {
            self.lemma_quiet_keeps_names(after);
        } else {
            let (inside, flushed) = choose|inside: Self, flushed: Self|
                {
                    &&& self.direct_inside(&inside)
                    &&& #[trigger] inside.flushed(
                        &flushed,
                        JournalCommitReason::DirectMetadataBarrier,
                        outcome,
                    )
                    &&& match outcome {
                        Ok(_) => flushed.idle(after),
                        Err(_) => flushed.direct_left(after),
                    }
                };
            self.lemma_quiet_keeps_names(&inside);
            inside.lemma_flushed_keeps_names(
                &flushed,
                JournalCommitReason::DirectMetadataBarrier,
                outcome,
            );
            match outcome {
                Ok(_) => {
                    flushed.lemma_quiet_keeps_names(after);
                },
                Err(_) => {
                    flushed.lemma_leaving_keeps_names(after);
                },
            }
            inside.lemma_kept_on(&flushed, after);
            self.lemma_kept_on(&inside, after);
        }
    }

    /// Leaving the barrier keeps the names.
    proof fn lemma_leaving_keeps_names(&self, after: &Self)
        requires
            self.direct_left(after) || self.exclusive_left(after),
        ensures
            self.keeps_names(after),
    {
        self.lemma_call_keeps_names(after, Event::Layer { call: LayerCall::Released });
    }
}

/// What operations do to the names.
impl<D: BlockDevice, V: Volume<D>> Ext4<D, V> {
    /// Work between states that keep the names does to the names all that is done.
    pub(crate) proof fn lemma_work_between(
        &self,
        inside: &Self,
        left: &Self,
        after: &Self,
        names: Names,
    )
        requires
            self.keeps_names(inside),
            extends(inside.log(), left.log()),
            left.keeps_names(after),
        ensures
            extends(self.log(), after.log()),
            self.names_at(after, names) == inside.names_at(left, names),
            self.speaks_by(after, names) ==> inside.speaks_by(left, names),
    {
        self.lemma_joins(inside, left, names);
        self.lemma_joins(left, after, names);
    }

    /// The work of a direct writer, between states that keep the names; none where it is refused.
    pub(crate) proof fn lemma_direct_work<T>(
        &self,
        after: &Self,
        work: spec_fn(Self, Self, Result<T>) -> bool,
        outcome: Result<T>,
    ) -> (stages: Option<(Self, Self)>)
        requires
            self.with_direct_gate(after, work, outcome),
        ensures
            match stages {
                None => outcome is Err && self.keeps_names(after),
                Some((inside, left)) => {
                    &&& self.keeps_names(&inside)
                    &&& self.direct_entered(&inside, Ok(()))
                    &&& work(inside, left, outcome)
                    &&& left.keeps_names(after)
                    &&& left.direct_left(after)
                },
            },
    {
        let (inside, lock) = choose|inside: Self, lock: Result<()>|
            {
                &&& #[trigger] self.direct_entered(&inside, lock)
                &&& match lock {
                    Err(error) => inside.idle(after) && outcome == Err::<T, Ext4Error>(error),
                    Ok(_) => exists|left: Self|
                        {
                            &&& work(inside, left, outcome)
                            &&& #[trigger] left.direct_left(after)
                        },
                }
            };
        self.lemma_direct_entry_keeps_names(&inside, lock);
        match lock {
            Err(_) => {
                inside.lemma_quiet_keeps_names(after);
                self.lemma_kept_on(&inside, after);
                None
            },
            Ok(done) => {
                assert(done == ());
                let left = choose|left: Self|
                    {
                        &&& work(inside, left, outcome)
                        &&& #[trigger] left.direct_left(after)
                    };
                left.lemma_leaving_keeps_names(after);
                Some((inside, left))
            },
        }
    }

    /// The work of the exclusive writer, between states that keep the names; none where it is
    /// refused.
    pub(crate) proof fn lemma_exclusive_work<T>(
        &self,
        after: &Self,
        work: spec_fn(Self, Self, Result<T>) -> bool,
        outcome: Result<T>,
    ) -> (stages: Option<(Self, Self)>)
        requires
            self.with_exclusive_gate(after, work, outcome),
        ensures
            match stages {
                None => outcome is Err && self.keeps_names(after),
                Some((inside, left)) => {
                    &&& self.keeps_names(&inside)
                    &&& self.exclusive_entered(&inside, Ok(()))
                    &&& work(inside, left, outcome)
                    &&& left.keeps_names(after)
                    &&& left.exclusive_left(after)
                },
            },
    {
        let (inside, lock) = choose|inside: Self, lock: Result<()>|
            {
                &&& #[trigger] self.exclusive_entered(&inside, lock)
                &&& match lock {
                    Err(error) => inside.idle(after) && outcome == Err::<T, Ext4Error>(error),
                    Ok(_) => exists|left: Self|
                        {
                            &&& work(inside, left, outcome)
                            &&& #[trigger] left.exclusive_left(after)
                        },
                }
            };
        self.lemma_quiet_keeps_names(&inside);
        match lock {
            Err(_) => {
                self.lemma_quiet_keeps_names(after);
                None
            },
            Ok(done) => {
                assert(done == ());
                let left = choose|left: Self|
                    {
                        &&& work(inside, left, outcome)
                        &&& #[trigger] left.exclusive_left(after)
                    };
                left.lemma_leaving_keeps_names(after);
                Some((inside, left))
            },
        }
    }

    /// A lookup gives what a name stands for, and says that a name is missing only where it is.
    pub proof fn lemma_lookup_gives_the_name(
        &self,
        after: &Self,
        parent: InodeId,
        name: Seq<char>,
        outcome: Result<InodeId>,
        names: Names,
    )
        requires
            self.name_looked_up(after, parent, name, outcome),
            self.speaks_by(after, names),
        ensures
            self.keeps_names(after),
            finds(names, parent, name, outcome),
    {
        self.lemma_looked_up(after, parent, name, outcome, names);
    }

    /// A lookup keeps the names, and gives what the name stands for.
    pub(crate) proof fn lemma_looked_up(
        &self,
        after: &Self,
        parent: InodeId,
        name: Seq<char>,
        outcome: Result<InodeId>,
        names: Names,
    )
        requires
            self.name_looked_up(after, parent, name, outcome),
        ensures
            self.keeps_names(after),
            self.speaks_by(after, names) ==> finds(names, parent, name, outcome),
    {
        let (opened, dir) = choose|opened: Self, dir: Result<InodeRef>|
            {
                &&& #[trigger] self.dir_opened(&opened, parent, dir)
                &&& match dir {
                    Ok(dir) => opened.asked(
                        after,
                        LayerCall::FindEntry { dir, name, reply: outcome },
                    ),
                    Err(error) => opened.idle(after) && outcome == Err::<InodeId, Ext4Error>(error),
                }
            };
        self.lemma_dir_opened_keeps_names(&opened, parent, dir, names);
        match dir {
            Ok(dir) => {
                let call = Event::Layer {
                    call: LayerCall::FindEntry { dir, name, reply: outcome },
                };
                opened.lemma_call_keeps_names(after, call);
                opened.lemma_one_call(after, call, names);
            },
            Err(_) => {
                opened.lemma_quiet_keeps_names(after);
            },
        }
        self.lemma_joins(&opened, after, names);
        self.lemma_kept_on(&opened, after);
    }

    /// Listing a directory gives its names, with what each stands for.
    pub proof fn lemma_listing_gives_the_names(
        &self,
        after: &Self,
        id: InodeId,
        outcome: Result<Vec<DirEntry>>,
        names: Names,
    )
        requires
            self.dir_listed(after, id, outcome),
            self.speaks_by(after, names),
        ensures
            self.keeps_names(after),
            outcome matches Ok(entries) ==> lists(names, id, entries@),
    {
        self.lemma_listed(after, id, outcome, names);
    }

    /// Listing a directory keeps the names, and gives those of the directory.
    proof fn lemma_listed(
        &self,
        after: &Self,
        id: InodeId,
        outcome: Result<Vec<DirEntry>>,
        names: Names,
    )
        requires
            self.dir_listed(after, id, outcome),
        ensures
            self.keeps_names(after),
            self.speaks_by(after, names) ==> (outcome matches Ok(entries) ==> lists(
                names,
                id,
                entries@,
            )),
    {
        let (opened, dir) = choose|opened: Self, dir: Result<InodeRef>|
            {
                &&& #[trigger] self.dir_opened(&opened, id, dir)
                &&& match dir {
                    Ok(dir) => opened.asked(after, LayerCall::ListEntries { dir, reply: outcome }),
                    Err(error) => opened.idle(after) && outcome == Err::<Vec<DirEntry>, Ext4Error>(
                        error,
                    ),
                }
            };
        self.lemma_dir_opened_keeps_names(&opened, id, dir, names);
        match dir {
            Ok(dir) => {
                let call = Event::Layer { call: LayerCall::ListEntries { dir, reply: outcome } };
                opened.lemma_call_keeps_names(after, call);
                opened.lemma_one_call(after, call, names);
            },
            Err(_) => {
                opened.lemma_quiet_keeps_names(after);
            },
        }
        self.lemma_joins(&opened, after, names);
        self.lemma_kept_on(&opened, after);
    }

    /// A lookup after listing a directory finds a name where the list has it, with the inode that
    /// the list gives, and says that it is missing only where the list does not have it.
    pub proof fn lemma_listing_agrees_with_lookup(
        &self,
        listed: &Self,
        after: &Self,
        id: InodeId,
        entries: Vec<DirEntry>,
        name: Seq<char>,
        outcome: Result<InodeId>,
        names: Names,
    )
        requires
            self.dir_listed(listed, id, Ok(entries)),
            listed.name_looked_up(after, id, name, outcome),
            self.speaks_by(after, names),
        ensures
            outcome matches Ok(child) ==> exists|i: int|
                {
                    &&& 0 <= i < entries@.len()
                    &&& (#[trigger] entries@[i]).name@ == name
                    &&& entries@[i].inode == child
                },
            outcome matches Ok(child) ==> forall|i: int|
                0 <= i < entries@.len() && (#[trigger] entries@[i]).name@ == name
                    ==> entries@[i].inode == child,
            outcome matches Err(error) ==> error.code == ErrCode::ENOENT ==> forall|i: int|
                0 <= i < entries@.len() ==> (#[trigger] entries@[i]).name@ != name,
    {
        self.lemma_listed(listed, id, Ok(entries), names);
        listed.lemma_looked_up(after, id, name, outcome, names);
        self.lemma_joins(listed, after, names);
    }
}

/// Creating a file, a link, a device or a directory.
impl<D: BlockDevice, V: Volume<D>> Ext4<D, V> {
    /// A new inode brings no names but that of a directory for itself.
    proof fn lemma_born_names(
        &self,
        after: &Self,
        birth: Birth,
        outcome: Result<InodeRef>,
        names: Names,
    )
        requires
            self.inode_born(after, birth, outcome),
        ensures
            extends(self.log(), after.log()),
            outcome is Err ==> self.keeps_names(after),
            self.speaks_by(after, names) ==> (outcome matches Ok(child) ==> self.names_at(
                after,
                names,
            ) == if birth is Directory {
                names.insert((child.id, "."@), child.id)
            } else {
                names
            }),
    {
        match birth {
            Birth::File { mode, owner } => {
                let call = LayerCall::CreateInode { mode, owner, reply: outcome };
                self.lemma_call_keeps_names(after, Event::Layer { call });
            },
            Birth::Link { target, owner } => {
                let call = LayerCall::CreateSymlink { target, owner, reply: outcome };
                self.lemma_call_keeps_names(after, Event::Layer { call });
            },
            Birth::Device { mode, major, minor, owner } => {
                let call = LayerCall::CreateDevice { mode, major, minor, owner, reply: outcome };
                self.lemma_call_keeps_names(after, Event::Layer { call });
            },
            Birth::Directory { mode, owner } => {
                let given = InodeMode {
                    bits: (mode.bits & crate::inode::MODE_PERM_MASK) | crate::inode::MODE_DIRECTORY,
                };
                let (made, reply) = choose|made: Self, reply: Result<InodeRef>|
                    {
                        &&& #[trigger] self.asked(
                            &made,
                            LayerCall::CreateInode { mode: given, owner, reply },
                        )
                        &&& match reply {
                            Ok(child) => made.dir_filled(after, child, outcome),
                            Err(error) => made.idle(after) && outcome == Err::<InodeRef, Ext4Error>(
                                error,
                            ),
                        }
                    };
                let call = LayerCall::CreateInode { mode: given, owner, reply };
                self.lemma_call_keeps_names(&made, Event::Layer { call });
                match reply {
                    Ok(child) => {
                        made.lemma_filled_names(after, child, outcome, names);
                    },
                    Err(_) => {
                        made.lemma_quiet_keeps_names(after);
                    },
                }
                self.lemma_joins(&made, after, names);
                if outcome is Err {
                    self.lemma_kept_on(&made, after);
                }
            },
        }
    }

    /// A new directory has a name for itself.
    proof fn lemma_filled_names(
        &self,
        after: &Self,
        child: InodeRef,
        outcome: Result<InodeRef>,
        names: Names,
    )
        requires
            self.dir_filled(after, child, outcome),
        ensures
            extends(self.log(), after.log()),
            outcome is Err ==> self.keeps_names(after),
            self.speaks_by(after, names) ==> (outcome matches Ok(counted) ==> self.names_at(
                after,
                names,
            ) == names.insert((counted.id, "."@), counted.id)),
    {
        let (added, grown, reply) = choose|
            added: Self,
            grown: InodeRef,
            reply: core::result::Result<(), DirAddFailure>,
        |
            {
                &&& #[trigger] self.asked(
                    &added,
                    LayerCall::AddEntry { dir: child, child, name: "."@, after: grown, reply },
                )
                &&& match reply {
                    Ok(_) => {
                        &&& added.idle(after)
                        &&& outcome matches Ok(counted)
                        &&& counted.id == grown.id
                        &&& counted.inode@ == splice(grown.inode@, 26, le16(1))
                    },
                    Err(failure) => added.dir_dropped(
                        after,
                        grown,
                        insertion_error(failure),
                        outcome,
                    ),
                }
            };
        let call = LayerCall::AddEntry { dir: child, child, name: "."@, after: grown, reply };
        self.lemma_one_call(&added, Event::Layer { call }, names);
        match reply {
            Ok(_) => {
                added.lemma_quiet_keeps_names(after);
            },
            Err(failure) => {
                self.lemma_call_keeps_names(&added, Event::Layer { call });
                let (freed, child_after, told) = choose|
                    freed: Self,
                    child_after: InodeRef,
                    told: Result<()>,
                |
                    {
                        &&& #[trigger] added.asked(
                            &freed,
                            LayerCall::FreeInode { inode: grown, after: child_after, reply: told },
                        )
                        &&& match told {
                            Ok(_) => freed.idle(after),
                            Err(_) => freed.gave_out(after),
                        }
                        &&& outcome == Err::<InodeRef, Ext4Error>(insertion_error(failure))
                    };
                let free = LayerCall::FreeInode { inode: grown, after: child_after, reply: told };
                added.lemma_call_keeps_names(&freed, Event::Layer { call: free });
                freed.lemma_quiet_keeps_names(after);
                added.lemma_kept_on(&freed, after);
                self.lemma_kept_on(&added, after);
            },
        }
        self.lemma_joins(&added, after, names);
    }

    /// Releasing a new inode keeps the names.
    proof fn lemma_release_keeps_names(
        &self,
        after: &Self,
        child: InodeRef,
        child_after: InodeRef,
        error: Ext4Error,
        outcome: Result<()>,
    )
        requires
            self.released_after(after, child, child_after, error, outcome),
        ensures
            self.keeps_names(after),
            outcome is Err,
    {
        let reply = choose|reply: Result<()>|
            {
                &&& #[trigger] self.asked(
                    after,
                    LayerCall::FreeInode { inode: child, after: child_after, reply },
                )
                &&& outcome == match reply {
                    Ok(_) => Err::<(), Ext4Error>(error),
                    Err(fault) => Err(fault),
                }
            };
        let call = LayerCall::FreeInode { inode: child, after: child_after, reply };
        self.lemma_call_keeps_names(after, Event::Layer { call });
    }

    /// A new inode gets a name that was free, or none.
    proof fn lemma_linked_names(
        &self,
        after: &Self,
        parent: InodeRef,
        child: InodeRef,
        child_after: InodeRef,
        name: Seq<char>,
        outcome: Result<()>,
        names: Names,
    )
        requires
            self.new_linked(after, parent, child, child_after, name, outcome),
        ensures
            extends(self.log(), after.log()),
            outcome is Err ==> self.keeps_names(after),
            self.speaks_by(after, names) && outcome is Ok ==> {
                &&& child_after.id == child.id
                &&& !names.contains_key((parent.id, name))
                &&& gained(names, self.names_at(after, names), parent.id, name, child.id)
            },
    {
        let (asked, found) = choose|asked: Self, found: Result<InodeId>|
            {
                &&& #[trigger] self.asked(
                    &asked,
                    LayerCall::FindEntry { dir: parent, name, reply: found },
                )
                &&& match found {
                    Ok(_) => asked.released_after(
                        after,
                        child,
                        child_after,
                        (Ext4Error { code: ErrCode::EEXIST }),
                        outcome,
                    ),
                    Err(error) => if error.code == ErrCode::ENOENT {
                        asked.name_added(after, parent, child, child_after, name, outcome)
                    } else {
                        asked.released_after(after, child, child_after, error, outcome)
                    },
                }
            };
        let find = Event::Layer {
            call: LayerCall::FindEntry { dir: parent, name, reply: found },
        };
        self.lemma_call_keeps_names(&asked, find);
        self.lemma_one_call(&asked, find, names);
        match found {
            Ok(_) => {
                asked.lemma_release_keeps_names(
                    after,
                    child,
                    child_after,
                    Ext4Error { code: ErrCode::EEXIST },
                    outcome,
                );
            },
            Err(error) => {
                if error.code == ErrCode::ENOENT {
                    asked.lemma_added_names(
                        after,
                        parent,
                        child,
                        child_after,
                        name,
                        outcome,
                        names,
                    );
                } else {
                    asked.lemma_release_keeps_names(after, child, child_after, error, outcome);
                }
            },
        }
        self.lemma_joins(&asked, after, names);
        if outcome is Err {
            self.lemma_kept_on(&asked, after);
        }
    }

    /// A name is given, or the new inode is released.
    proof fn lemma_added_names(
        &self,
        after: &Self,
        parent: InodeRef,
        child: InodeRef,
        child_after: InodeRef,
        name: Seq<char>,
        outcome: Result<()>,
        names: Names,
    )
        requires
            self.name_added(after, parent, child, child_after, name, outcome),
        ensures
            extends(self.log(), after.log()),
            outcome is Err ==> self.keeps_names(after),
            self.speaks_by(after, names) && outcome is Ok ==> {
                &&& child_after.id == child.id
                &&& gained(names, self.names_at(after, names), parent.id, name, child.id)
            },
    {
        let (linked, parent_after, told, reply) = choose|
            linked: Self,
            parent_after: InodeRef,
            told: InodeRef,
            reply: Result<()>,
        |
            {
                &&& #[trigger] self.asked(
                    &linked,
                    LayerCall::LinkInode {
                        parent,
                        child,
                        name,
                        parent_after,
                        child_after: told,
                        reply,
                    },
                )
                &&& match reply {
                    Ok(_) => {
                        &&& linked.idle(after)
                        &&& child_after == told
                        &&& outcome == Ok::<(), Ext4Error>(())
                    },
                    Err(error) => linked.released_after(
                        after,
                        told,
                        child_after,
                        error,
                        outcome,
                    ),
                }
            };
        let call = LayerCall::LinkInode {
            parent,
            child,
            name,
            parent_after,
            child_after: told,
            reply,
        };
        self.lemma_one_call(&linked, Event::Layer { call }, names);
        match reply {
            Ok(_) => {
                linked.lemma_quiet_keeps_names(after);
            },
            Err(error) => {
                self.lemma_call_keeps_names(&linked, Event::Layer { call });
                linked.lemma_release_keeps_names(after, told, child_after, error, outcome);
                self.lemma_kept_on(&linked, after);
            },
        }
        self.lemma_joins(&linked, after, names);
    }
}

impl<D: BlockDevice, V: Volume<D>> Ext4<D, V> {
    /// What creating does to the names, inside the barrier.
    proof fn lemma_created_inside(
        &self,
        after: &Self,
        parent: InodeId,
        name: Seq<char>,
        birth: Birth,
        outcome: Result<FileAttr>,
        names: Names,
    )
        requires
            self.entry_created(after, parent, name, birth, outcome),
        ensures
            extends(self.log(), after.log()),
            self.speaks_by(after, names) ==> {
                &&& outcome matches Ok(attr) ==> {
                    &&& !names.contains_key((parent, name))
                    &&& gained(names, self.names_at(after, names), parent, name, attr.ino)
                }
                &&& outcome is Err && !(birth is Directory) ==> self.names_at(after, names) == names
            },
    {
        let (opened, dir) = choose|opened: Self, dir: Result<InodeRef>|
            {
                &&& #[trigger] self.dir_opened(&opened, parent, dir)
                &&& match dir {
                    Ok(dir) => opened.child_created(after, dir, name, birth, outcome),
                    Err(error) => opened.idle(after) && outcome == Err::<FileAttr, Ext4Error>(
                        error,
                    ),
                }
            };
        self.lemma_dir_opened_keeps_names(&opened, parent, dir, names);
        match dir {
            Err(_) => {
                opened.lemma_quiet_keeps_names(after);
            },
            Ok(dir) => {
                let (made, child) = choose|made: Self, child: Result<InodeRef>|
                    {
                        &&& #[trigger] opened.inode_born(&made, birth, child)
                        &&& match child {
                            Ok(child) => made.child_linked(after, dir, child, name, outcome),
                            Err(error) => made.idle(after) && outcome == Err::<FileAttr, Ext4Error>(
                                error,
                            ),
                        }
                    };
                opened.lemma_born_names(&made, birth, child, names);
                match child {
                    Err(_) => {
                        made.lemma_quiet_keeps_names(after);
                        opened.lemma_kept_on(&made, after);
                    },
                    Ok(child) => {
                        let (child_after, reply) = choose|child_after: InodeRef, reply: Result<()>|
                            {
                                &&& #[trigger] made.new_linked(
                                    after,
                                    dir,
                                    child,
                                    child_after,
                                    name,
                                    reply,
                                )
                                &&& outcome == match reply {
                                    Ok(_) => Ok::<FileAttr, Ext4Error>(
                                        crate::inode::attributes_of(child_after),
                                    ),
                                    Err(error) => Err(error),
                                }
                            };
                        made.lemma_linked_names(
                            after,
                            dir,
                            child,
                            child_after,
                            name,
                            reply,
                            opened.names_at(&made, names),
                        );
                        opened.lemma_joins(&made, after, names);
                    },
                }
            },
        }
        self.lemma_joins(&opened, after, names);
    }

    /// A name under which something was created was free, and stands for what was created; the
    /// other names stand for what they did. Nothing is created under a name that is taken, and what
    /// fails leaves the names as they were, but for that which a directory has for itself.
    pub proof fn lemma_created_name_stands(
        &self,
        after: &Self,
        parent: InodeId,
        name: Seq<char>,
        birth: Birth,
        outcome: Result<FileAttr>,
        names: Names,
    )
        requires
            self.entry_made(after, parent, name, birth, outcome),
            self.speaks_by(after, names),
        ensures
            extends(self.log(), after.log()),
            outcome matches Ok(attr) ==> gained(
                names,
                self.names_at(after, names),
                parent,
                name,
                attr.ino,
            ),
            names.contains_key((parent, name)) ==> outcome is Err,
            outcome is Err && !(birth is Directory) ==> self.names_at(after, names) == names,
    {
        let work = |inside: Self, left: Self, outcome: Result<FileAttr>|
            inside.entry_created(&left, parent, name, birth, outcome);
        if !self.state().mutable() {
            self.lemma_quiet_keeps_names(after);
        } else {
            match self.lemma_direct_work(after, work, outcome) {
                None => {},
                Some((inside, left)) => {
                    inside.lemma_created_inside(&left, parent, name, birth, outcome, names);
                    self.lemma_work_between(&inside, &left, after, names);
                },
            }
        }
    }

    /// A lookup of a name under which something was created finds what was created.
    pub proof fn lemma_created_name_is_looked_up(
        &self,
        made: &Self,
        after: &Self,
        parent: InodeId,
        name: Seq<char>,
        birth: Birth,
        attr: FileAttr,
        outcome: Result<InodeId>,
        names: Names,
    )
        requires
            self.entry_made(made, parent, name, birth, Ok(attr)),
            made.name_looked_up(after, parent, name, outcome),
            self.speaks_by(after, names),
        ensures
            outcome matches Ok(id) ==> id == attr.ino,
            outcome matches Err(error) ==> error.code != ErrCode::ENOENT,
    {
        let there = self.names_at(made, names);
        made.lemma_looked_up(after, parent, name, outcome, there);
        self.lemma_entry_goes_on(made, parent, name, birth, Ok(attr));
        self.lemma_joins(made, after, names);
        self.lemma_created_name_stands(made, parent, name, birth, Ok(attr), names);
    }

    /// The number that creating a name returns is the one that is looked up under it.
    pub proof fn lemma_numbered_name_is_looked_up(
        &self,
        made: &Self,
        after: &Self,
        parent: InodeId,
        name: Seq<char>,
        birth: Birth,
        number: InodeId,
        outcome: Result<InodeId>,
        names: Names,
    )
        requires
            self.entry_numbered(made, parent, name, birth, Ok(number)),
            made.name_looked_up(after, parent, name, outcome),
            self.speaks_by(after, names),
        ensures
            outcome matches Ok(id) ==> id == number,
            outcome matches Err(error) ==> error.code != ErrCode::ENOENT,
    {
        let given = choose|given: Result<FileAttr>|
            {
                &&& #[trigger] self.entry_made(made, parent, name, birth, given)
                &&& Ok::<InodeId, Ext4Error>(number) == number_of(given)
            };
        let attr = given->Ok_0;
        self.lemma_created_name_is_looked_up(
            made,
            after,
            parent,
            name,
            birth,
            attr,
            outcome,
            names,
        );
    }

    /// Creating goes on with the record.
    proof fn lemma_entry_goes_on(
        &self,
        after: &Self,
        parent: InodeId,
        name: Seq<char>,
        birth: Birth,
        outcome: Result<FileAttr>,
    )
        requires
            self.entry_made(after, parent, name, birth, outcome),
        ensures
            extends(self.log(), after.log()),
    {
        let work = |inside: Self, left: Self, outcome: Result<FileAttr>|
            inside.entry_created(&left, parent, name, birth, outcome);
        if !self.state().mutable() {
            self.lemma_quiet_keeps_names(after);
        } else {
            match self.lemma_direct_work(after, work, outcome) {
                None => {},
                Some((inside, left)) => {
                    inside.lemma_created_inside(&left, parent, name, birth, outcome, Map::empty());
                    self.lemma_work_between(&inside, &left, after, Map::empty());
                },
            }
        }
    }
}

/// Names inside a transaction.
impl<D: BlockDevice, V: Volume<D>> Ext4<D, V> {
    /// A name that was taken away stands for nothing.
    pub(crate) proof fn lemma_removed_names(
        &self,
        after: &Self,
        before: Transaction,
        transaction: Transaction,
        dir: InodeRef,
        name: Seq<char>,
        names: Names,
    )
        requires
            self.entry_removed(after, before, transaction, dir, name, Ok(())),
        ensures
            extends(self.log(), after.log()),
            self.names_at(after, names) == names.remove((dir.id, name)),
    {
        let (asked, reply) = choose|asked: Self, reply: Result<Vec<BlockImage>>|
            {
                &&& #[trigger] self.asked(&asked, LayerCall::RemoveImages { dir, name, reply })
                &&& match reply {
                    Ok(images) => asked.images_staged(
                        after,
                        before,
                        transaction,
                        images@,
                        0,
                        Ok(()),
                    ),
                    Err(error) => {
                        &&& asked.idle(after)
                        &&& transaction == before
                        &&& Ok::<(), Ext4Error>(()) == Err::<(), Ext4Error>(error)
                    },
                }
            };
        let images = reply->Ok_0;
        let call = LayerCall::RemoveImages { dir, name, reply };
        self.lemma_one_call(&asked, Event::Layer { call }, names);
        asked.lemma_images_keep_names(after, before, transaction, images@, 0, Ok(()));
        self.lemma_joins(&asked, after, names);
    }

    /// A name that was added stands for its target.
    proof fn lemma_inserted_names(
        &self,
        after: &Self,
        before: Transaction,
        transaction: Transaction,
        dir: InodeRef,
        name: Seq<char>,
        target: InodeId,
        kind: FileType,
        names: Names,
    )
        requires
            self.entry_inserted(after, before, transaction, dir, name, target, kind, Ok(())),
        ensures
            extends(self.log(), after.log()),
            self.names_at(after, names) == names.insert((dir.id, name), target),
    {
        let (asked, reply) = choose|asked: Self, reply: Result<Vec<BlockImage>>|
            {
                &&& #[trigger] self.asked(
                    &asked,
                    LayerCall::InsertImages { dir, name, target, kind, reply },
                )
                &&& match reply {
                    Ok(images) => asked.images_staged(
                        after,
                        before,
                        transaction,
                        images@,
                        0,
                        Ok(()),
                    ),
                    Err(error) => {
                        &&& asked.idle(after)
                        &&& transaction == before
                        &&& Ok::<(), Ext4Error>(()) == Err::<(), Ext4Error>(error)
                    },
                }
            };
        let images = reply->Ok_0;
        let call = LayerCall::InsertImages { dir, name, target, kind, reply };
        self.lemma_one_call(&asked, Event::Layer { call }, names);
        asked.lemma_images_keep_names(after, before, transaction, images@, 0, Ok(()));
        self.lemma_joins(&asked, after, names);
    }

    /// A name that was moved stands for its new target.
    pub(crate) proof fn lemma_replaced_names(
        &self,
        after: &Self,
        before: Transaction,
        transaction: Transaction,
        dir: InodeRef,
        name: Seq<char>,
        target: InodeId,
        kind: FileType,
        names: Names,
    )
        requires
            self.entry_replaced(after, before, transaction, dir, name, target, kind, Ok(())),
        ensures
            extends(self.log(), after.log()),
            self.names_at(after, names) == names.insert((dir.id, name), target),
    {
        let (asked, reply) = choose|asked: Self, reply: Result<Vec<BlockImage>>|
            {
                &&& #[trigger] self.asked(
                    &asked,
                    LayerCall::ReplaceImages { dir, name, target, kind, reply },
                )
                &&& match reply {
                    Ok(images) => asked.images_staged(
                        after,
                        before,
                        transaction,
                        images@,
                        0,
                        Ok(()),
                    ),
                    Err(error) => {
                        &&& asked.idle(after)
                        &&& transaction == before
                        &&& Ok::<(), Ext4Error>(()) == Err::<(), Ext4Error>(error)
                    },
                }
            };
        let images = reply->Ok_0;
        let call = LayerCall::ReplaceImages { dir, name, target, kind, reply };
        self.lemma_one_call(&asked, Event::Layer { call }, names);
        asked.lemma_images_keep_names(after, before, transaction, images@, 0, Ok(()));
        self.lemma_joins(&asked, after, names);
    }
}

/// Linking and unlinking.
impl<D: BlockDevice, V: Volume<D>> Ext4<D, V> {
    /// Taking a name away takes that name and no other.
    proof fn lemma_unlinked_names(
        &self,
        after: &Self,
        parent: InodeRef,
        child: InodeRef,
        name: Seq<char>,
        handle: Option<InodeReclaimHandle>,
        names: Names,
    )
        requires
            self.unlinked(after, parent, child, name, Ok(handle)),
        ensures
            extends(self.log(), after.log()),
            self.names_at(after, names) == names.remove((parent.id, name)),
            handle == handle_of(child, is_last_name(directory(child), links_of(child.inode@))),
    {
        let last = is_last_name(directory(child), links_of(child.inode@));
        let outcome = Ok::<Option<InodeReclaimHandle>, Ext4Error>(handle);
        let (begun, reply) = choose|begun: Self, reply: Result<Transaction>|
            {
                &&& #[trigger] self.begun_with_retry(&begun, self.credits_to_unlink(child), reply)
                &&& match reply {
                    Ok(transaction) => begun.unlink_removed(
                        after,
                        parent,
                        child,
                        name,
                        last,
                        transaction,
                        outcome,
                    ),
                    Err(error) => begun.idle(after) && outcome == Err::<
                        Option<InodeReclaimHandle>,
                        Ext4Error,
                    >(error),
                }
            };
        let transaction = reply->Ok_0;
        self.lemma_begun_keeps_names(&begun, self.credits_to_unlink(child), reply);
        let (removed, grown, said) = choose|removed: Self, grown: Transaction, said: Result<()>|
            {
                &&& #[trigger] begun.entry_removed(
                    &removed,
                    transaction,
                    grown,
                    parent,
                    name,
                    said,
                )
                &&& match said {
                    Ok(_) => removed.unlink_parted(after, parent, child, last, grown, outcome),
                    Err(error) => removed.given_up(after, grown) && outcome == Err::<
                        Option<InodeReclaimHandle>,
                        Ext4Error,
                    >(error),
                }
            };
        match said {
            Ok(done) => {
                assert(done == ());
            },
            Err(_) => {},
        }
        begun.lemma_removed_names(&removed, transaction, grown, parent, name, names);
        removed.lemma_parted_names(after, parent, child, last, grown, handle);
        begun.lemma_joins(&removed, after, names);
        self.lemma_joins(&begun, after, names);
    }

    /// What follows on taking a name away keeps the other names.
    proof fn lemma_parted_names(
        &self,
        after: &Self,
        parent: InodeRef,
        child: InodeRef,
        last: bool,
        transaction: Transaction,
        handle: Option<InodeReclaimHandle>,
    )
        requires
            self.unlink_parted(after, parent, child, last, transaction, Ok(handle)),
        ensures
            self.keeps_names(after),
            handle == handle_of(child, last),
    {
        let outcome = Ok::<Option<InodeReclaimHandle>, Ext4Error>(handle);
        if !directory(child) {
            self.lemma_counted_names(after, child, last, transaction, handle);
        } else {
            let (parted, grown, sealed, reply) = choose|
                parted: Self,
                grown: Transaction,
                sealed: InodeRef,
                reply: Result<()>,
            |
                {
                    &&& #[trigger] self.links_staged(
                        &parted,
                        transaction,
                        grown,
                        parent,
                        links_of(parent.inode@).wrapping_sub(1),
                        sealed,
                        reply,
                    )
                    &&& match reply {
                        Ok(_) => parted.unlink_counted(after, child, last, grown, outcome),
                        Err(error) => parted.given_up(after, grown) && outcome == Err::<
                            Option<InodeReclaimHandle>,
                            Ext4Error,
                        >(error),
                    }
                };
            self.lemma_followed_keeps_names(&parted);
            parted.lemma_counted_names(after, child, last, grown, handle);
            self.lemma_kept_on(&parted, after);
        }
    }

    /// Taking a name from an inode, and ending the change, keeps the other names.
    proof fn lemma_counted_names(
        &self,
        after: &Self,
        child: InodeRef,
        last: bool,
        transaction: Transaction,
        handle: Option<InodeReclaimHandle>,
    )
        requires
            self.unlink_counted(after, child, last, transaction, Ok(handle)),
        ensures
            self.keeps_names(after),
            handle == handle_of(child, last),
    {
        let outcome = Ok::<Option<InodeReclaimHandle>, Ext4Error>(handle);
        let (counted, grown, reply) = choose|counted: Self, grown: Transaction, reply: Result<()>|
            {
                &&& #[trigger] self.name_counted_off(
                    &counted,
                    transaction,
                    grown,
                    child,
                    last,
                    reply,
                )
                &&& match reply {
                    Ok(_) => counted.unlink_ended(after, child, last, grown, outcome),
                    Err(error) => counted.given_up(after, grown) && outcome == Err::<
                        Option<InodeReclaimHandle>,
                        Ext4Error,
                    >(error),
                }
            };
        self.lemma_counting_off_keeps_names(&counted, transaction, grown, child, last, reply);
        let ending = choose|ending: Result<()>|
            {
                &&& #[trigger] counted.names_settled(after, grown, directory(child), ending)
                &&& outcome == match ending {
                    Ok(_) => Ok::<Option<InodeReclaimHandle>, Ext4Error>(handle_of(child, last)),
                    Err(error) => Err(error),
                }
            };
        counted.lemma_settling_keeps_names(after, grown, directory(child), ending);
        self.lemma_kept_on(&counted, after);
    }

    /// A name that was resolved gives its directory and what it stands for.
    pub(crate) proof fn lemma_resolved_names(
        &self,
        after: &Self,
        parent: InodeId,
        name: Seq<char>,
        pair: (InodeRef, InodeRef),
        names: Names,
    )
        requires
            self.name_resolved(after, parent, name, Ok(pair)),
        ensures
            self.keeps_names(after),
            pair.0.id == parent,
            self.speaks_by(after, names) ==> {
                &&& names.contains_key((parent, name))
                &&& names[(parent, name)] == pair.1.id
            },
    {
        let outcome = Ok::<(InodeRef, InodeRef), Ext4Error>(pair);
        let (opened, dir) = choose|opened: Self, dir: Result<InodeRef>|
            {
                &&& #[trigger] self.dir_opened(&opened, parent, dir)
                &&& match dir {
                    Ok(dir) => opened.name_located(after, dir, parent, name, outcome),
                    Err(error) => opened.idle(after) && outcome == Err::<
                        (InodeRef, InodeRef),
                        Ext4Error,
                    >(error),
                }
            };
        let dir = dir->Ok_0;
        self.lemma_dir_opened_keeps_names(&opened, parent, Ok(dir), names);
        let (located, reply) = choose|located: Self, reply: Result<DirEntryLocation>|
            {
                &&& #[trigger] opened.asked(&located, LayerCall::LocateEntry { dir, name, reply })
                &&& match reply {
                    Ok(location) => located.pair_read(after, parent, location.inode_id, outcome),
                    Err(error) => located.idle(after) && outcome == Err::<
                        (InodeRef, InodeRef),
                        Ext4Error,
                    >(error),
                }
            };
        let call = Event::Layer { call: LayerCall::LocateEntry { dir, name, reply } };
        opened.lemma_call_keeps_names(&located, call);
        opened.lemma_one_call(&located, call, names);
        located.lemma_pair_read_keeps_names(after, parent, reply->Ok_0.inode_id, outcome);
        opened.lemma_joins(&located, after, names);
        opened.lemma_kept_on(&located, after);
        self.lemma_joins(&opened, after, names);
        self.lemma_kept_on(&opened, after);
    }

    /// What unlinking a file does to the names, inside the barrier.
    pub(crate) proof fn lemma_unlinked_inside(
        &self,
        after: &Self,
        parent: InodeId,
        name: Seq<char>,
        handle: Option<InodeReclaimHandle>,
        names: Names,
    )
        requires
            self.file_unlinked(after, parent, name, Ok(handle)),
        ensures
            extends(self.log(), after.log()),
            self.names_at(after, names) == names.remove((parent, name)),
            self.speaks_by(after, names) ==> {
                &&& names.contains_key((parent, name))
                &&& handle matches Some(unnamed) ==> unnamed.ino == names[(parent, name)]
            },
    {
        let outcome = Ok::<Option<InodeReclaimHandle>, Ext4Error>(handle);
        let (resolved, pair) = choose|resolved: Self, pair: Result<(InodeRef, InodeRef)>|
            {
                &&& #[trigger] self.name_resolved(&resolved, parent, name, pair)
                &&& match pair {
                    Ok(found) => if directory(found.1) {
                        resolved.idle(after) && outcome == failed::<Option<InodeReclaimHandle>>(
                            ErrCode::EISDIR,
                        )
                    } else {
                        resolved.unlinked(after, found.0, found.1, name, outcome)
                    },
                    Err(error) => resolved.idle(after) && outcome == Err::<
                        Option<InodeReclaimHandle>,
                        Ext4Error,
                    >(error),
                }
            };
        let found = pair->Ok_0;
        self.lemma_resolved_names(&resolved, parent, name, found, names);
        resolved.lemma_unlinked_names(after, found.0, found.1, name, handle, names);
        self.lemma_joins(&resolved, after, names);
    }

    /// A name that was unlinked stood for the file, and stands for nothing; the other names stand
    /// for what they did.
    pub proof fn lemma_unlinked_name_is_gone(
        &self,
        after: &Self,
        parent: InodeId,
        name: Seq<char>,
        handle: Option<InodeReclaimHandle>,
        names: Names,
    )
        requires
            self.name_unlinked(after, parent, name, Ok(handle)),
            self.speaks_by(after, names),
        ensures
            extends(self.log(), after.log()),
            names.contains_key((parent, name)),
            self.names_at(after, names) == names.remove((parent, name)),
            handle matches Some(unnamed) ==> unnamed.ino == names[(parent, name)],
    {
        self.lemma_unlink_goes_on(after, parent, name, handle, names);
    }

    /// What unlinking a file does to the names.
    proof fn lemma_unlink_goes_on(
        &self,
        after: &Self,
        parent: InodeId,
        name: Seq<char>,
        handle: Option<InodeReclaimHandle>,
        names: Names,
    )
        requires
            self.name_unlinked(after, parent, name, Ok(handle)),
        ensures
            extends(self.log(), after.log()),
            self.names_at(after, names) == names.remove((parent, name)),
            self.speaks_by(after, names) ==> {
                &&& names.contains_key((parent, name))
                &&& handle matches Some(unnamed) ==> unnamed.ino == names[(parent, name)]
            },
    {
        let work = |inside: Self, left: Self, outcome: Result<Option<InodeReclaimHandle>>|
            inside.file_unlinked(&left, parent, name, outcome);
        match self.lemma_exclusive_work(after, work, Ok(handle)) {
            None => {},
            Some((inside, left)) => {
                inside.lemma_unlinked_inside(&left, parent, name, handle, names);
                self.lemma_work_between(&inside, &left, after, names);
            },
        }
    }

    /// A lookup of a name that was unlinked does not find it.
    pub proof fn lemma_unlinked_name_is_not_looked_up(
        &self,
        unlinked: &Self,
        after: &Self,
        parent: InodeId,
        name: Seq<char>,
        handle: Option<InodeReclaimHandle>,
        outcome: Result<InodeId>,
        names: Names,
    )
        requires
            self.name_unlinked(unlinked, parent, name, Ok(handle)),
            unlinked.name_looked_up(after, parent, name, outcome),
            self.speaks_by(after, names),
        ensures
            outcome is Err,
    {
        let there = self.names_at(unlinked, names);
        self.lemma_unlink_goes_on(unlinked, parent, name, handle, names);
        unlinked.lemma_looked_up(after, parent, name, outcome, there);
        self.lemma_joins(unlinked, after, names);
    }
}

impl<D: BlockDevice, V: Volume<D>> Ext4<D, V> {
    /// Making sure of room for a name keeps the names, and gives the directory.
    proof fn lemma_room_keeps_names(
        &self,
        after: &Self,
        dir: InodeRef,
        child: InodeRef,
        name: Seq<char>,
        parent: InodeRef,
        names: Names,
    )
        requires
            self.room_made(after, dir, child, name, Ok(parent)),
        ensures
            self.keeps_names(after),
            self.speaks_by(after, names) ==> parent.id == dir.id,
    {
        let outcome = Ok::<InodeRef, Ext4Error>(parent);
        let (asked, reply) = choose|asked: Self, reply: Result<bool>|
            {
                &&& #[trigger] self.asked(&asked, LayerCall::HasSpace { dir, child, name, reply })
                &&& match reply {
                    Ok(room) => if room {
                        asked.idle(after) && outcome == Ok::<InodeRef, Ext4Error>(dir)
                    } else {
                        asked.dir_grown_gated(after, dir, outcome)
                    },
                    Err(error) => asked.idle(after) && outcome == Err::<InodeRef, Ext4Error>(
                        error,
                    ),
                }
            };
        let call = LayerCall::HasSpace { dir, child, name, reply };
        self.lemma_call_keeps_names(&asked, Event::Layer { call });
        if reply->Ok_0 {
            asked.lemma_quiet_keeps_names(after);
        } else {
            let work = |inside: Self, left: Self, outcome: Result<InodeRef>|
                inside.dir_grown(&left, dir, outcome);
            match asked.lemma_direct_work(after, work, outcome) {
                None => {},
                Some((inside, left)) => {
                    let (grown, told) = choose|grown: InodeRef, told: Result<()>|
                        {
                            &&& #[trigger] inside.asked(
                                &left,
                                LayerCall::GrowDirectory { dir, after: grown, reply: told },
                            )
                            &&& outcome == match told {
                                Ok(_) => Ok::<InodeRef, Ext4Error>(grown),
                                Err(error) => Err(error),
                            }
                        };
                    let grow = Event::Layer {
                        call: LayerCall::GrowDirectory { dir, after: grown, reply: told },
                    };
                    inside.lemma_call_keeps_names(&left, grow);
                    inside.lemma_one_call(&left, grow, names);
                    asked.lemma_work_between(&inside, &left, after, names);
                    inside.lemma_kept_on(&left, after);
                    asked.lemma_kept_on(&inside, after);
                },
            }
        }
        self.lemma_joins(&asked, after, names);
        self.lemma_kept_on(&asked, after);
    }

    /// What adding a name to an inode does to the names, inside the barrier.
    pub(crate) proof fn lemma_link_logged_names(
        &self,
        after: &Self,
        parent: InodeRef,
        child: InodeRef,
        name: Seq<char>,
        names: Names,
    )
        requires
            self.link_logged(after, parent, child, name, Ok(())),
        ensures
            extends(self.log(), after.log()),
            self.names_at(after, names) == names.insert((parent.id, name), child.id),
    {
        let outcome = Ok::<(), Ext4Error>(());
        let (begun, reply) = choose|begun: Self, reply: Result<Transaction>|
            {
                &&& #[trigger] self.begun_with_retry(&begun, LINK_CREDITS, reply)
                &&& match reply {
                    Ok(transaction) => begun.link_inserted(
                        after,
                        parent,
                        child,
                        name,
                        transaction,
                        outcome,
                    ),
                    Err(error) => begun.idle(after) && outcome == Err::<(), Ext4Error>(error),
                }
            };
        let transaction = reply->Ok_0;
        self.lemma_begun_keeps_names(&begun, LINK_CREDITS, reply);
        let (inserted, grown, said) = choose|inserted: Self, grown: Transaction, said: Result<()>|
            {
                &&& #[trigger] begun.entry_inserted(
                    &inserted,
                    transaction,
                    grown,
                    parent,
                    name,
                    child.id,
                    child.inode.kind(),
                    said,
                )
                &&& match said {
                    Ok(_) => inserted.link_counted(after, child, grown, outcome),
                    Err(error) => inserted.given_up(after, grown) && outcome == Err::<
                        (),
                        Ext4Error,
                    >(error),
                }
            };
        match said {
            Ok(done) => {
                assert(done == ());
            },
            Err(_) => {},
        }
        begun.lemma_inserted_names(
            &inserted,
            transaction,
            grown,
            parent,
            name,
            child.id,
            child.inode.kind(),
            names,
        );
        let (counted, last, sealed, told) = choose|
            counted: Self,
            last: Transaction,
            sealed: InodeRef,
            told: Result<()>,
        |
            {
                &&& #[trigger] inserted.links_staged(
                    &counted,
                    grown,
                    last,
                    child,
                    links_of(child.inode@).wrapping_add(1),
                    sealed,
                    told,
                )
                &&& match told {
                    Ok(_) => counted.names_settled(after, last, false, outcome),
                    Err(error) => counted.given_up(after, last) && outcome == Err::<
                        (),
                        Ext4Error,
                    >(error),
                }
            };
        inserted.lemma_followed_keeps_names(&counted);
        counted.lemma_settling_keeps_names(after, last, false, outcome);
        inserted.lemma_kept_on(&counted, after);
        begun.lemma_joins(&inserted, after, names);
        self.lemma_joins(&begun, after, names);
    }

    /// What adding a free name to an inode does to the names.
    proof fn lemma_roomed_names(
        &self,
        after: &Self,
        dir: InodeRef,
        child: InodeRef,
        name: Seq<char>,
        names: Names,
    )
        requires
            self.link_roomed(after, dir, child, name, Ok(())),
        ensures
            extends(self.log(), after.log()),
            self.speaks_by(after, names) ==> self.names_at(after, names) == names.insert(
                (dir.id, name),
                child.id,
            ),
    {
        let outcome = Ok::<(), Ext4Error>(());
        let (made, grown) = choose|made: Self, grown: Result<InodeRef>|
            {
                &&& #[trigger] self.room_made(&made, dir, child, name, grown)
                &&& match grown {
                    Ok(parent) => made.link_gated(after, parent, child, name, outcome),
                    Err(error) => made.idle(after) && outcome == Err::<(), Ext4Error>(error),
                }
            };
        let parent = grown->Ok_0;
        self.lemma_room_keeps_names(&made, dir, child, name, parent, names);
        let work = |inside: Self, left: Self, outcome: Result<()>|
            inside.link_logged(&left, parent, child, name, outcome);
        match made.lemma_exclusive_work(after, work, outcome) {
            None => {},
            Some((inside, left)) => {
                inside.lemma_link_logged_names(&left, parent, child, name, names);
                made.lemma_work_between(&inside, &left, after, names);
            },
        }
        self.lemma_joins(&made, after, names);
    }

    /// What linking does to the names.
    proof fn lemma_link_goes_on(
        &self,
        after: &Self,
        child: InodeId,
        parent: InodeId,
        name: Seq<char>,
        names: Names,
    )
        requires
            self.hard_linked(after, child, parent, name, Ok(())),
        ensures
            extends(self.log(), after.log()),
            self.speaks_by(after, names) ==> {
                &&& !names.contains_key((parent, name))
                &&& self.names_at(after, names) == names.insert((parent, name), child)
            },
    {
        let outcome = Ok::<(), Ext4Error>(());
        let (opened, found) = choose|opened: Self, found: Result<InodeRef>|
            {
                &&& #[trigger] self.dir_opened(&opened, parent, found)
                &&& match found {
                    Ok(dir) => opened.link_opened(after, dir, child, name, outcome),
                    Err(error) => opened.idle(after) && outcome == Err::<(), Ext4Error>(error),
                }
            };
        let dir = found->Ok_0;
        self.lemma_dir_opened_keeps_names(&opened, parent, Ok(dir), names);
        let (read, target) = choose|read: Self, target: Result<InodeRef>|
            {
                &&& #[trigger] opened.inode_read(&read, child, target)
                &&& match target {
                    Ok(inode) => read.link_checked(after, dir, inode, name, outcome),
                    Err(error) => read.idle(after) && outcome == Err::<(), Ext4Error>(error),
                }
            };
        let inode = target->Ok_0;
        opened.lemma_inode_read_keeps_names(&read, child, Ok(inode), names);
        let (checked, reply) = choose|checked: Self, reply: Result<()>|
            {
                &&& #[trigger] read.name_checked(&checked, dir, name, reply)
                &&& match reply {
                    Ok(_) => checked.link_roomed(after, dir, inode, name, outcome),
                    Err(error) => checked.idle(after) && outcome == Err::<(), Ext4Error>(error),
                }
            };
        let answer = choose|answer: Result<InodeId>|
            {
                &&& #[trigger] read.asked(
                    &checked,
                    LayerCall::FindEntry { dir, name, reply: answer },
                )
                &&& reply == match answer {
                    Ok(_) => failed::<()>(ErrCode::EEXIST),
                    Err(error) => if error.code == ErrCode::ENOENT {
                        Ok(())
                    } else {
                        Err(error)
                    },
                }
            };
        let find = Event::Layer { call: LayerCall::FindEntry { dir, name, reply: answer } };
        read.lemma_call_keeps_names(&checked, find);
        read.lemma_one_call(&checked, find, names);
        checked.lemma_roomed_names(after, dir, inode, name, names);
        read.lemma_joins(&checked, after, names);
        opened.lemma_joins(&read, after, names);
        self.lemma_joins(&opened, after, names);
    }

    /// A name that was linked was free, and stands for the file; the other names stand for what
    /// they did.
    pub proof fn lemma_linked_name_stands(
        &self,
        after: &Self,
        child: InodeId,
        parent: InodeId,
        name: Seq<char>,
        names: Names,
    )
        requires
            self.hard_linked(after, child, parent, name, Ok(())),
            self.speaks_by(after, names),
        ensures
            extends(self.log(), after.log()),
            !names.contains_key((parent, name)),
            self.names_at(after, names) == names.insert((parent, name), child),
    {
        self.lemma_link_goes_on(after, child, parent, name, names);
    }

    /// A lookup of a name that was linked finds the file.
    pub proof fn lemma_linked_name_is_looked_up(
        &self,
        linked: &Self,
        after: &Self,
        child: InodeId,
        parent: InodeId,
        name: Seq<char>,
        outcome: Result<InodeId>,
        names: Names,
    )
        requires
            self.hard_linked(linked, child, parent, name, Ok(())),
            linked.name_looked_up(after, parent, name, outcome),
            self.speaks_by(after, names),
        ensures
            outcome matches Ok(id) ==> id == child,
            outcome matches Err(error) ==> error.code != ErrCode::ENOENT,
    {
        let there = self.names_at(linked, names);
        self.lemma_link_goes_on(linked, child, parent, name, names);
        linked.lemma_looked_up(after, parent, name, outcome, there);
        self.lemma_joins(linked, after, names);
    }

    /// Unlinking a name that was linked leaves every name as it was before.
    pub proof fn lemma_unlink_undoes_link(
        &self,
        linked: &Self,
        after: &Self,
        child: InodeId,
        parent: InodeId,
        name: Seq<char>,
        handle: Option<InodeReclaimHandle>,
        names: Names,
    )
        requires
            self.hard_linked(linked, child, parent, name, Ok(())),
            linked.name_unlinked(after, parent, name, Ok(handle)),
            self.speaks_by(after, names),
        ensures
            self.names_at(after, names) == names,
            handle matches Some(unnamed) ==> unnamed.ino == child,
    {
        let there = self.names_at(linked, names);
        self.lemma_link_goes_on(linked, child, parent, name, names);
        linked.lemma_unlink_goes_on(after, parent, name, handle, there);
        self.lemma_joins(linked, after, names);
        assert(names.insert((parent, name), child).remove((parent, name)) =~= names);
    }

    /// What removing a directory does to the names, inside the barrier.
    proof fn lemma_dir_removed_inside(
        &self,
        after: &Self,
        parent: InodeId,
        name: Seq<char>,
        handle: Option<InodeReclaimHandle>,
        names: Names,
    )
        requires
            self.dir_removed(after, parent, name, Ok(handle)),
        ensures
            extends(self.log(), after.log()),
            self.names_at(after, names) == names.remove((parent, name)),
            self.speaks_by(after, names) ==> {
                &&& names.contains_key((parent, name))
                &&& handle matches Some(unnamed) && unnamed.ino == names[(parent, name)]
            },
    {
        let outcome = Ok::<Option<InodeReclaimHandle>, Ext4Error>(handle);
        let (flushed, reply) = choose|flushed: Self, reply: Result<()>|
            {
                &&& #[trigger] self.flushed(
                    &flushed,
                    JournalCommitReason::DurabilityBoundary,
                    reply,
                )
                &&& match reply {
                    Ok(_) => flushed.dir_unlinked(after, parent, name, outcome),
                    Err(error) => flushed.idle(after) && outcome == Err::<
                        Option<InodeReclaimHandle>,
                        Ext4Error,
                    >(error),
                }
            };
        self.lemma_flushed_keeps_names(&flushed, JournalCommitReason::DurabilityBoundary, reply);
        let (resolved, pair) = choose|resolved: Self, pair: Result<(InodeRef, InodeRef)>|
            {
                &&& #[trigger] flushed.name_resolved(&resolved, parent, name, pair)
                &&& match pair {
                    Ok(found) => if !directory(found.1) {
                        resolved.idle(after) && outcome == failed::<Option<InodeReclaimHandle>>(
                            ErrCode::ENOTDIR,
                        )
                    } else {
                        resolved.dir_emptied(after, found.0, found.1, name, outcome)
                    },
                    Err(error) => resolved.idle(after) && outcome == Err::<
                        Option<InodeReclaimHandle>,
                        Ext4Error,
                    >(error),
                }
            };
        let found = pair->Ok_0;
        flushed.lemma_resolved_names(&resolved, parent, name, found, names);
        let (listed, entries) = choose|listed: Self, entries: Result<Vec<DirEntry>>|
            {
                &&& #[trigger] resolved.asked(
                    &listed,
                    LayerCall::ListEntries { dir: found.1, reply: entries },
                )
                &&& match entries {
                    Ok(entries) => if entries@.len() > EMPTY_DIR_ENTRIES {
                        listed.idle(after) && outcome == failed::<Option<InodeReclaimHandle>>(
                            ErrCode::ENOTEMPTY,
                        )
                    } else {
                        listed.unlinked(after, found.0, found.1, name, outcome)
                    },
                    Err(error) => listed.idle(after) && outcome == Err::<
                        Option<InodeReclaimHandle>,
                        Ext4Error,
                    >(error),
                }
            };
        let list = LayerCall::ListEntries { dir: found.1, reply: entries };
        resolved.lemma_call_keeps_names(&listed, Event::Layer { call: list });
        listed.lemma_unlinked_names(after, found.0, found.1, name, handle, names);
        resolved.lemma_joins(&listed, after, names);
        flushed.lemma_joins(&resolved, after, names);
        self.lemma_joins(&flushed, after, names);
    }

    /// A directory that was removed stood under its name, and is given out to be reclaimed; the
    /// name stands for nothing, and the other names stand for what they did.
    pub proof fn lemma_removed_dir_is_gone(
        &self,
        after: &Self,
        parent: InodeId,
        name: Seq<char>,
        handle: Option<InodeReclaimHandle>,
        names: Names,
    )
        requires
            self.name_of_dir_removed(after, parent, name, Ok(handle)),
            self.speaks_by(after, names),
        ensures
            extends(self.log(), after.log()),
            names.contains_key((parent, name)),
            self.names_at(after, names) == names.remove((parent, name)),
            handle matches Some(unnamed) && unnamed.ino == names[(parent, name)],
    {
        let work = |inside: Self, left: Self, outcome: Result<Option<InodeReclaimHandle>>|
            inside.dir_removed(&left, parent, name, outcome);
        match self.lemma_exclusive_work(after, work, Ok(handle)) {
            None => {},
            Some((inside, left)) => {
                inside.lemma_dir_removed_inside(&left, parent, name, handle, names);
                self.lemma_work_between(&inside, &left, after, names);
            },
        }
    }
}

} // verus!
