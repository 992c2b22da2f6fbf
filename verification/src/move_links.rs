//! What a rename does to the number of names of directories.

use vstd::prelude::*;
use crate::content::{lemma_extends, Disk};
use crate::device::{extends, BlockDevice, Event};
use crate::dir_links::{
    dotted, inodes_apart, lemma_same_links, lemma_subdirs_of_turned, lemma_subdirs_with,
    lemma_subdirs_without, links_on, own_links, recount, subdirs,
};
use crate::error::{ErrCode, Ext4Error, Result};
use crate::fs::Ext4;
use crate::inode::InodeRef;
use crate::naming::Names;
use crate::rename::{nothing_replaced, target_of, with_target, Move, RenameDirs};
use crate::unlink::{directory, links_of};
use crate::volume::{DirAddFailure, InodeReclaimHandle, LayerCall, Volume};
use crate::InodeId;

verus! {

/// Whether the layers keep the number of names of a directory that they add an entry to.
pub open spec fn link_kept(call: Event) -> bool {
    match call {
        Event::Layer { call: LayerCall::AddEntry { dir, child, name, after, reply } } => links_of(
            after.inode@,
        ) == links_of(dir.inode@),
        _ => true,
    }
}

/// The number of names of an inode after a directory changed its parent, where it did.
pub open spec fn moved_links(
    links: u16,
    id: InodeId,
    parent: InodeId,
    new_parent: InodeId,
    crossing: bool,
) -> u16 {
    if !crossing {
        links
    } else if id == parent {
        recount(links, false, true)
    } else if id == new_parent {
        recount(links, true, false)
    } else {
        links
    }
}

/// Whether a lookup finds a name or says that it is missing.
pub open spec fn decides(call: Event) -> bool {
    match call {
        Event::Layer { call: LayerCall::FindEntry { dir, name, reply: Err(error) } } => error.code
            == ErrCode::ENOENT,
        _ => true,
    }
}

impl<D: BlockDevice, V: Volume<D>> Ext4<D, V> {
    /// Whether each lookup between two states finds its name or says that it is missing.
    pub open spec fn lookups_decide(&self, after: &Self) -> bool {
        forall|k: int|
            self.log().len() <= k < after.log().len() ==> decides(#[trigger] after.log()[k])
    }

    /// Whether the layers keep the numbers of names between two states.
    pub open spec fn links_kept(&self, after: &Self) -> bool {
        forall|k: int|
            self.log().len() <= k < after.log().len() ==> link_kept(#[trigger] after.log()[k])
    }

    /// What holds of calls holds of some of them.
    proof fn lemma_links_kept_between(&self, first: &Self, second: &Self, after: &Self)
        requires
            self.links_kept(after),
            extends(self.log(), first.log()),
            extends(second.log(), after.log()),
        ensures
            first.links_kept(second),
    {
        assert forall|k: int| first.log().len() <= k < second.log().len() implies link_kept(
            #[trigger] second.log()[k],
        ) by {
            assert(after.log().take(second.log().len() as int)[k] == after.log()[k]);
        }
    }

    /// Erasing a name writes nothing.
    proof fn lemma_erasing_only_asks(&self, after: &Self, dir: InodeRef, name: Seq<char>)
        requires
            self.entry_erased(after, dir, name, Ok(())),
        ensures
            self.only_asked(after),
    {
        let (asked, reply) = choose|asked: Self, reply: Result<()>|
            {
                &&& #[trigger] self.asked(&asked, LayerCall::RemoveEntry { dir, name, reply })
                &&& asked.or_gave_out(after, reply, Ok(()))
            };
        let call = LayerCall::RemoveEntry { dir, name, reply };
        self.lemma_call_only_asks(&asked, Event::Layer { call });
        asked.lemma_idle_only_asks(after);
        self.lemma_calls_join(&asked, after);
    }

    /// What moving a name to a free place does to the numbers of names.
    proof fn lemma_move_on_device(
        &self,
        after: &Self,
        dirs: RenameDirs,
        name: Seq<char>,
        new_name: Seq<char>,
        child: InodeRef,
        new_parent: InodeId,
        crossing: bool,
        names: Names,
        disk: Disk,
    )
        requires
            self.name_moved(
                after,
                dirs,
                name,
                new_name,
                child,
                new_parent,
                crossing,
                Ok(()),
            ),
            self.state().batch().len() == 0,
            dirs.1 matches Some(second) ==> dirs.0.id != second.id,
        ensures
            extends(self.log(), after.log()),
            after.state() == self.state(),
            self.speaks_by(after, names) && self.honest(after, disk) && self.links_kept(after)
                && inodes_apart(self.state()) && links_of(dirs.0.inode@) == links_on(
                disk,
                self.state(),
                dirs.0.id,
            ) && links_of(target_of(dirs).inode@) == links_on(
                disk,
                self.state(),
                target_of(dirs).id,
            ) ==> forall|id: InodeId| #[trigger]
                links_on(self.left_on(after, disk), self.state(), id) == moved_links(
                    links_on(disk, self.state(), id),
                    id,
                    dirs.0.id,
                    target_of(dirs).id,
                    crossing,
                ),
    {
        let outcome = Ok::<(), Ext4Error>(());
        let (added, grown, reply) = choose|
            added: Self,
            grown: InodeRef,
            reply: core::result::Result<(), DirAddFailure>,
        |
            {
                &&& #[trigger] self.asked(
                    &added,
                    LayerCall::AddEntry {
                        dir: target_of(dirs),
                        child,
                        name: new_name,
                        after: grown,
                        reply,
                    },
                )
                &&& match reply {
                    Ok(_) => added.move_erased(
                        after,
                        with_target(dirs, grown),
                        name,
                        child,
                        new_parent,
                        crossing,
                        outcome,
                    ),
                    Err(DirAddFailure::Unmodified(error)) => {
                        &&& added.idle(after)
                        &&& outcome == Err::<(), Ext4Error>(error)
                    },
                    Err(DirAddFailure::Indeterminate(error)) => {
                        &&& added.gave_out(after)
                        &&& outcome == Err::<(), Ext4Error>(error)
                    },
                }
            };
        let add = Event::Layer {
            call: LayerCall::AddEntry {
                dir: target_of(dirs),
                child,
                name: new_name,
                after: grown,
                reply,
            },
        };
        self.lemma_call_only_asks(&added, add);
        self.lemma_one_call(&added, add, names);
        let changed = with_target(dirs, grown);
        let (erased, said) = choose|erased: Self, said: Result<()>|
            {
                &&& #[trigger] added.entry_erased(&erased, changed.0, name, said)
                &&& match said {
                    Ok(_) => erased.move_crossed(
                        after,
                        changed,
                        child,
                        new_parent,
                        crossing,
                        outcome,
                    ),
                    Err(error) => erased.idle(after) && outcome == Err::<(), Ext4Error>(error),
                }
            };
        match said {
            Ok(done) => {
                assert(done == ());
            },
            Err(_) => {},
        }
        added.lemma_erasing_only_asks(&erased, changed.0, name);
        self.lemma_calls_join(&added, &erased);
        self.lemma_asking_leaves_device(&erased, disk);
        if crossing {
            let to = changed.1->0;
            let (from_after, to_after) = choose|from_after: InodeRef, to_after: InodeRef| #[trigger]
                erased.dir_crossed(
                    after,
                    child,
                    new_parent,
                    changed.0,
                    from_after,
                    to,
                    to_after,
                    outcome,
                );
            if changed.0.id != to.id {
                erased.lemma_crossing_on_device(
                    after,
                    child,
                    new_parent,
                    changed.0,
                    from_after,
                    to,
                    to_after,
                    disk,
                );
            } else {
                erased.lemma_crossing_keeps_state(
                    after,
                    child,
                    new_parent,
                    changed.0,
                    from_after,
                    to,
                    to_after,
                );
            }
        } else {
            erased.lemma_idle_only_asks(after);
            erased.lemma_asking_leaves_device(after, disk);
        }
        self.lemma_device_joins(&erased, after, disk);
        if self.speaks_by(after, names) && self.links_kept(after) {
            lemma_extends(added.log(), erased.log(), after.log());
            self.lemma_joins(&added, after, names);
            let k = self.log().len() as int;
            assert(after.log().take(added.log().len() as int)[k] == after.log()[k]);
            assert(added.log()[k] == add);
            assert(link_kept(add));
        }
    }

    /// A directory that changes its parent leaves the state as it was.
    proof fn lemma_crossing_keeps_state(
        &self,
        after: &Self,
        child: InodeRef,
        new_parent: InodeId,
        from: InodeRef,
        from_after: InodeRef,
        to: InodeRef,
        to_after: InodeRef,
    )
        requires
            self.dir_crossed(
                after,
                child,
                new_parent,
                from,
                from_after,
                to,
                to_after,
                Ok(()),
            ),
            self.state().batch().len() == 0,
        ensures
            extends(self.log(), after.log()),
            after.state() == self.state(),
    {
        let outcome = Ok::<(), Ext4Error>(());
        let (turned, reply) = choose|turned: Self, reply: Result<()>|
            {
                &&& #[trigger] self.entry_rewritten(
                    &turned,
                    child,
                    ".."@,
                    new_parent,
                    crate::inode::FileType::Directory,
                    reply,
                )
                &&& match reply {
                    Ok(_) => turned.parents_counted(
                        after,
                        from,
                        from_after,
                        to,
                        to_after,
                        outcome,
                    ),
                    Err(error) => {
                        &&& turned.idle(after)
                        &&& from_after == from
                        &&& to_after == to
                        &&& outcome == Err::<(), Ext4Error>(error)
                    },
                }
            };
        match reply {
            Ok(done) => {
                assert(done == ());
            },
            Err(_) => {},
        }
        self.lemma_rewriting_only_asks(
            &turned,
            child,
            ".."@,
            new_parent,
            crate::inode::FileType::Directory,
        );
        let fewer = links_of(from.inode@).wrapping_sub(1);
        let more = links_of(to.inode@).wrapping_add(1);
        let (lost, said) = choose|lost: Self, said: Result<()>|
            {
                &&& #[trigger] turned.links_written(&lost, from, fewer, from_after, said)
                &&& match said {
                    Ok(_) => lost.links_written(after, to, more, to_after, outcome),
                    Err(error) => {
                        &&& lost.idle(after)
                        &&& to_after == to
                        &&& outcome == Err::<(), Ext4Error>(error)
                    },
                }
            };
        match said {
            Ok(done) => {
                assert(done == ());
            },
            Err(_) => {},
        }
        turned.lemma_links_written_on_device(&lost, from, fewer, from_after, Map::empty());
        lost.lemma_links_written_on_device(after, to, more, to_after, Map::empty());
        lemma_extends(turned.log(), lost.log(), after.log());
        lemma_extends(self.log(), turned.log(), after.log());
    }
}

/// Renaming to a name that is free.
impl<D: BlockDevice, V: Volume<D>> Ext4<D, V> {
    /// Where a rename comes to the barrier, with what it then asks for.
    pub(crate) proof fn lemma_rename_start(
        &self,
        after: &Self,
        parent: InodeId,
        name: Seq<char>,
        new_parent: InodeId,
        new_name: Seq<char>,
        handle: Option<InodeReclaimHandle>,
        names: Names,
        kinds: Set<InodeId>,
    ) -> (found: (Self, Move))
        requires
            self.renamed(after, parent, name, new_parent, new_name, Ok(handle)),
        ensures
            ({
                let (asked, request) = found;
                &&& self.only_asked(&asked)
                &&& self.keeps_names(&asked)
                &&& extends(asked.log(), after.log())
                &&& asked.move_gated(after, name, new_name, request, Ok(handle))
                &&& request.parent == parent
                &&& request.new_parent == new_parent
                &&& self.speaks_by(after, names) && self.kinds_told(after, kinds) ==> request.fits(
                    names,
                    kinds,
                    name,
                    new_name,
                )
                &&& self.speaks_by(after, names) && self.lookups_decide(after)
                    && names.contains_key((new_parent, new_name)) ==> request.existing is Some
            }),
    {
        let outcome = Ok::<Option<InodeReclaimHandle>, Ext4Error>(handle);
        let (opened, pair) = choose|opened: Self, pair: Result<RenameDirs>|
            {
                &&& #[trigger] self.dirs_opened(&opened, parent, new_parent, pair)
                &&& match pair {
                    Ok(dirs) => opened.move_found(
                        after,
                        parent,
                        name,
                        new_parent,
                        new_name,
                        dirs,
                        outcome,
                    ),
                    Err(error) => opened.idle(after) && outcome == Err::<
                        Option<InodeReclaimHandle>,
                        Ext4Error,
                    >(error),
                }
            };
        let dirs = pair->Ok_0;
        self.lemma_dirs_opened_keep_names(&opened, parent, new_parent, dirs);
        let (seen, target) = choose|seen: Self, target: Result<InodeRef>|
            {
                &&& #[trigger] opened.child_found(&seen, dirs.0, name, target)
                &&& match target {
                    Ok(child) => seen.move_checked(
                        after,
                        parent,
                        name,
                        new_parent,
                        new_name,
                        dirs,
                        child,
                        outcome,
                    ),
                    Err(error) => seen.idle(after) && outcome == Err::<
                        Option<InodeReclaimHandle>,
                        Ext4Error,
                    >(error),
                }
            };
        let child = target->Ok_0;
        let (found, answer) = choose|found: Self, answer: Result<InodeId>|
            {
                &&& #[trigger] opened.asked(
                    &found,
                    LayerCall::FindEntry { dir: dirs.0, name, reply: answer },
                )
                &&& match answer {
                    Ok(id) => found.inode_read(&seen, id, target),
                    Err(error) => found.idle(&seen) && target == Err::<InodeRef, Ext4Error>(error),
                }
            };
        let find = Event::Layer {
            call: LayerCall::FindEntry { dir: dirs.0, name, reply: answer },
        };
        opened.lemma_call_keeps_names(&found, find);
        opened.lemma_call_only_asks(&found, find);
        opened.lemma_one_call(&found, find, names);
        found.lemma_inode_read_keeps_names(&seen, answer->Ok_0, target, names);
        let (checked, crossing, reply) = choose|checked: Self, crossing: bool, reply: Result<()>|
            {
                &&& #[trigger] seen.cycle_checked(&checked, child, new_parent, crossing, reply)
                &&& crossing == (parent != new_parent)
                &&& match reply {
                    Ok(_) => checked.move_targeted(
                        after,
                        parent,
                        name,
                        new_parent,
                        new_name,
                        dirs,
                        child,
                        outcome,
                    ),
                    Err(error) => checked.idle(after) && outcome == Err::<
                        Option<InodeReclaimHandle>,
                        Ext4Error,
                    >(error),
                }
            };
        seen.lemma_cycle_check_keeps_names(&checked, child, new_parent, crossing, reply);
        let (asked, existing) = choose|asked: Self, existing: Result<InodeId>|
            {
                &&& #[trigger] checked.asked(
                    &asked,
                    LayerCall::FindEntry { dir: target_of(dirs), name: new_name, reply: existing },
                )
                &&& asked.move_gated(
                    after,
                    name,
                    new_name,
                    (Move {
                        parent,
                        new_parent,
                        child: child.id,
                        child_is_dir: directory(child),
                        existing: match existing {
                            Ok(id) => Some(id),
                            Err(_) => None,
                        },
                    }),
                    outcome,
                )
            };
        let find_new = Event::Layer {
            call: LayerCall::FindEntry { dir: target_of(dirs), name: new_name, reply: existing },
        };
        checked.lemma_call_keeps_names(&asked, find_new);
        checked.lemma_call_only_asks(&asked, find_new);
        checked.lemma_one_call(&asked, find_new, names);
        let request = Move {
            parent,
            new_parent,
            child: child.id,
            child_is_dir: directory(child),
            existing: match existing {
                Ok(id) => Some(id),
                Err(_) => None,
            },
        };
        asked.lemma_move_gated_names(after, name, new_name, request, handle, names, kinds);
        self.lemma_kept_on(&opened, &found);
        self.lemma_kept_on(&found, &seen);
        self.lemma_kept_on(&seen, &checked);
        self.lemma_kept_on(&checked, &asked);
        self.lemma_calls_join(&opened, &found);
        self.lemma_calls_join(&found, &seen);
        self.lemma_calls_join(&seen, &checked);
        self.lemma_calls_join(&checked, &asked);
        checked.lemma_joins(&asked, after, names);
        seen.lemma_joins(&checked, after, names);
        found.lemma_joins(&seen, after, names);
        opened.lemma_joins(&found, after, names);
        self.lemma_joins(&opened, after, names);
        if self.kinds_told(after, kinds) {
            self.lemma_kinds_go_on(&found, after, kinds);
            found.lemma_kind_is_told(&seen, after, answer->Ok_0, child, kinds);
        }
        let k = checked.log().len() as int;
        assert(after.log().take(asked.log().len() as int)[k] == after.log()[k]);
        assert(asked.log()[k] == find_new);
        assert(self.lookups_decide(after) ==> decides(after.log()[k]));
        (asked, request)
    }

    /// What moving a name to a free place does to the numbers of names, inside the barrier.
    proof fn lemma_move_recounts_inside(
        &self,
        after: &Self,
        name: Seq<char>,
        new_name: Seq<char>,
        request: Move,
        handle: Option<InodeReclaimHandle>,
        names: Names,
        disk: Disk,
    )
        requires
            self.move_made(after, name, new_name, request, Ok(handle)),
            request.existing is None,
            self.state().batch().len() == 0,
        ensures
            extends(self.log(), after.log()),
            after.state() == self.state(),
            self.speaks_by(after, names) && self.honest(after, disk) && self.links_kept(after)
                && inodes_apart(self.state()) ==> forall|id: InodeId| #[trigger]
                links_on(self.left_on(after, disk), self.state(), id) == moved_links(
                    links_on(disk, self.state(), id),
                    id,
                    request.parent,
                    request.new_parent,
                    request.crossing(),
                ),
    {
        let outcome = Ok::<Option<InodeReclaimHandle>, Ext4Error>(handle);
        let (read, pair) = choose|read: Self, pair: Result<RenameDirs>|
            {
                &&& #[trigger] self.dirs_read(&read, request.parent, request.new_parent, pair)
                &&& match pair {
                    Ok(dirs) => read.move_child_read(
                        after,
                        dirs,
                        name,
                        new_name,
                        request,
                        outcome,
                    ),
                    Err(error) => read.idle(after) && outcome == Err::<
                        Option<InodeReclaimHandle>,
                        Ext4Error,
                    >(error),
                }
            };
        let dirs = pair->Ok_0;
        self.lemma_dirs_read_keep_names(&read, request.parent, request.new_parent, dirs);
        let (seen, found) = choose|seen: Self, found: Result<InodeRef>|
            {
                &&& #[trigger] read.inode_read(&seen, request.child, found)
                &&& match found {
                    Ok(child) => seen.move_decided(
                        after,
                        dirs,
                        name,
                        new_name,
                        request,
                        child,
                        outcome,
                    ),
                    Err(error) => seen.idle(after) && outcome == Err::<
                        Option<InodeReclaimHandle>,
                        Ext4Error,
                    >(error),
                }
            };
        read.lemma_inode_read_keeps_names(&seen, request.child, found, names);
        let child = found->Ok_0;
        let done = choose|done: Result<()>|
            {
                &&& #[trigger] seen.name_moved(
                    after,
                    dirs,
                    name,
                    new_name,
                    child,
                    request.new_parent,
                    request.crossing(),
                    done,
                )
                &&& outcome == nothing_replaced(done)
            };
        match done {
            Ok(nothing) => {
                assert(nothing == ());
            },
            Err(_) => {},
        }
        seen.lemma_move_on_device(
            after,
            dirs,
            name,
            new_name,
            child,
            request.new_parent,
            request.crossing(),
            names,
            disk,
        );
        self.lemma_idle_only_asks(self);
        self.lemma_calls_join(&read, &seen);
        self.lemma_seen_on_the_way(self, &read, &seen, dirs.0);
        self.lemma_seen_on_the_way(self, &read, &seen, target_of(dirs));
        self.lemma_asking_leaves_device(&seen, disk);
        self.lemma_device_joins(&seen, after, disk);
        self.lemma_kept_on(&read, &seen);
        self.lemma_joins(&seen, after, names);
        if self.speaks_by(after, names) && self.honest(after, disk) && self.links_kept(after)
            && inodes_apart(self.state()) {
            self.lemma_seen_is_on_device(&seen, dirs.0, disk);
            self.lemma_seen_is_on_device(&seen, target_of(dirs), disk);
            assert(after.log().take(after.log().len() as int) =~= after.log());
            self.lemma_links_kept_between(&seen, after, after);
        }
    }

    /// A rename to a name that is free changes the numbers of names of the two directories alone: a
    /// directory that changes its parent takes one from the old, and gives one to the new.
    pub proof fn lemma_rename_recounts(
        &self,
        after: &Self,
        parent: InodeId,
        name: Seq<char>,
        new_parent: InodeId,
        new_name: Seq<char>,
        handle: Option<InodeReclaimHandle>,
        names: Names,
        kinds: Set<InodeId>,
        disk: Disk,
    )
        requires
            self.inv(),
            self.renamed(after, parent, name, new_parent, new_name, Ok(handle)),
            self.speaks_by(after, names),
            self.kinds_told(after, kinds),
            self.honest(after, disk),
            self.links_kept(after),
            self.nothing_waits(),
            inodes_apart(self.state()),
            !names.contains_key((new_parent, new_name)),
        ensures
            extends(self.log(), after.log()),
            after.state() == self.state(),
            forall|id: InodeId| #[trigger]
                links_on(self.left_on(after, disk), self.state(), id) == moved_links(
                    links_on(disk, self.state(), id),
                    id,
                    parent,
                    new_parent,
                    parent != new_parent && kinds.contains(names[(parent, name)]),
                ),
    {
        let (asked, request) = self.lemma_rename_start(
            after,
            parent,
            name,
            new_parent,
            new_name,
            handle,
            names,
            kinds,
        );
        let work = |inside: Self, left: Self, outcome: Result<Option<InodeReclaimHandle>>|
            inside.move_made(&left, name, new_name, request, outcome);
        let stages = asked.lemma_direct_work(after, work, Ok(handle));
        let (inside, left) = stages->0;
        asked.lemma_entered_at_rest(&inside);
        inside.lemma_move_recounts_inside(&left, name, new_name, request, handle, names, disk);
        asked.lemma_released(&inside, &left, after, disk);
        self.lemma_asking_leaves_device(&asked, disk);
        self.lemma_device_joins(&asked, after, disk);
        self.lemma_joins(&asked, after, names);
        asked.lemma_work_between(&inside, &left, after, names);
        self.lemma_links_kept_between(&inside, &left, after);
        let last = inside.left_on(&left, disk);
        assert forall|id: InodeId| #[trigger]
            links_on(self.left_on(after, disk), self.state(), id) == moved_links(
                links_on(disk, self.state(), id),
                id,
                parent,
                new_parent,
                parent != new_parent && kinds.contains(names[(parent, name)]),
            ) by {
            lemma_same_links(last, inside.state(), self.state(), id);
            lemma_same_links(disk, inside.state(), self.state(), id);
        }
    }

    /// A rename to a name that is free keeps the names of a directory beyond those that its
    /// subdirectories have for it: a directory has as many names more as it has subdirectories
    /// more. Left out are the names that a directory has for itself and for its parent, and numbers
    /// of names that are full or empty.
    pub proof fn lemma_rename_keeps_own_links(
        &self,
        after: &Self,
        parent: InodeId,
        name: Seq<char>,
        new_parent: InodeId,
        new_name: Seq<char>,
        handle: Option<InodeReclaimHandle>,
        names: Names,
        kinds: Set<InodeId>,
        disk: Disk,
        dir: InodeId,
    )
        requires
            self.inv(),
            self.renamed(after, parent, name, new_parent, new_name, Ok(handle)),
            self.speaks_by(after, names),
            self.kinds_told(after, kinds),
            self.honest(after, disk),
            self.links_kept(after),
            self.nothing_waits(),
            inodes_apart(self.state()),
            !names.contains_key((new_parent, new_name)),
            !dotted(name),
            !dotted(new_name),
            subdirs(names, kinds, dir).finite(),
            0 < links_on(disk, self.state(), dir) < u16::MAX,
        ensures
            own_links(
                self.left_on(after, disk),
                self.state(),
                self.names_at(after, names),
                kinds,
                dir,
            ) == own_links(disk, self.state(), names, kinds, dir),
    {
        self.lemma_rename_recounts(
            after,
            parent,
            name,
            new_parent,
            new_name,
            handle,
            names,
            kinds,
            disk,
        );
        self.lemma_renamed_name_stands(
            after,
            parent,
            name,
            new_parent,
            new_name,
            handle,
            names,
            kinds,
        );
        let child = names[(parent, name)];
        let crossed = parent != new_parent && kinds.contains(child);
        let added = names.insert((new_parent, new_name), child);
        let both = added.remove((parent, name));
        lemma_subdirs_with(names, kinds, new_parent, new_name, child, dir);
        lemma_subdirs_without(added, kinds, parent, name, dir);
        lemma_subdirs_of_turned(both, kinds, child, new_parent, crossed, dir);
        assert(links_on(self.left_on(after, disk), self.state(), dir) == moved_links(
            links_on(disk, self.state(), dir),
            dir,
            parent,
            new_parent,
            crossed,
        ));
    }
}

} // verus!
