//! What moving and exchanging names does to what they stand for.

use vstd::prelude::*;
use crate::device::{extends, Block, BlockDevice, Event};
use crate::error::{failed, ErrCode, Ext4Error, Result};
use crate::fs::{Ext4, EXT4_ROOT_INO};
use crate::inode::{FileType, InodeRef};
use crate::journal_transaction::Transaction;
use crate::naming::Names;
use crate::rename::{
    nothing_replaced, target_of, with_target, Exchange, Move, RenameDirs, Replacement,
    ANCESTOR_MAX_STEPS,
};
use crate::unlink::{directory, handle_of, links_of};
use crate::volume::{DirAddFailure, InodeReclaimHandle, LayerCall, Volume};
use crate::InodeId;

verus! {

/// The names once one was moved. Where a directory changes its parent, so does its own name for
/// that.
pub open spec fn moved(
    names: Names,
    parent: InodeId,
    name: Seq<char>,
    new_parent: InodeId,
    new_name: Seq<char>,
    crossed: bool,
) -> Names {
    let child = names[(parent, name)];
    turned(
        names.insert((new_parent, new_name), child).remove((parent, name)),
        child,
        new_parent,
        crossed,
    )
}

/// The names once a directory changed its parent, where it did.
pub open spec fn turned(names: Names, child: InodeId, parent: InodeId, crossed: bool) -> Names {
    if crossed {
        names.insert((child, ".."@), parent)
    } else {
        names
    }
}

/// The names once two were exchanged.
pub open spec fn exchanged(
    names: Names,
    parent: InodeId,
    name: Seq<char>,
    new_parent: InodeId,
    new_name: Seq<char>,
    gone: bool,
    returned: bool,
) -> Names {
    let source = names[(parent, name)];
    let target = names[(new_parent, new_name)];
    turned(
        turned(
            names.insert((parent, name), target).insert((new_parent, new_name), source),
            source,
            new_parent,
            gone,
        ),
        target,
        parent,
        returned,
    )
}

/// Checks and counts keep the names.
impl<D: BlockDevice, V: Volume<D>> Ext4<D, V> {
    /// Reading the two directories of a move keeps the names, and gives the directories.
    pub(crate) proof fn lemma_dirs_opened_keep_names(
        &self,
        after: &Self,
        parent: InodeId,
        new_parent: InodeId,
        dirs: RenameDirs,
    )
        requires
            self.dirs_opened(after, parent, new_parent, Ok(dirs)),
        ensures
            self.keeps_names(after),
            self.only_asked(after),
            dirs.0.id == parent,
            target_of(dirs).id == new_parent,
            dirs.1 is Some <==> parent != new_parent,
    {
        let outcome = Ok::<RenameDirs, Ext4Error>(dirs);
        let (opened, dir) = choose|opened: Self, dir: Result<InodeRef>|
            {
                &&& #[trigger] self.dir_opened(&opened, parent, dir)
                &&& match dir {
                    Ok(first) => if parent == new_parent {
                        opened.idle(after) && outcome == Ok::<RenameDirs, Ext4Error>((first, None))
                    } else {
                        opened.second_dir_opened(after, first, new_parent, outcome)
                    },
                    Err(error) => opened.idle(after) && outcome == Err::<RenameDirs, Ext4Error>(
                        error,
                    ),
                }
            };
        let first = dir->Ok_0;
        self.lemma_dir_opened_keeps_names(&opened, parent, dir, Map::empty());
        if parent == new_parent {
            opened.lemma_quiet_keeps_names(after);
            opened.lemma_idle_only_asks(after);
        } else {
            let other = choose|other: Result<InodeRef>|
                {
                    &&& #[trigger] opened.dir_opened(after, new_parent, other)
                    &&& outcome == match other {
                        Ok(second) => Ok::<RenameDirs, Ext4Error>((first, Some(second))),
                        Err(error) => Err(error),
                    }
                };
            opened.lemma_dir_opened_keeps_names(after, new_parent, other, Map::empty());
        }
        self.lemma_kept_on(&opened, after);
        self.lemma_calls_join(&opened, after);
    }

    /// Reading the two directories of a move again keeps the names, and gives the directories.
    pub(crate) proof fn lemma_dirs_read_keep_names(
        &self,
        after: &Self,
        parent: InodeId,
        new_parent: InodeId,
        dirs: RenameDirs,
    )
        requires
            self.dirs_read(after, parent, new_parent, Ok(dirs)),
        ensures
            self.keeps_names(after),
            self.only_asked(after),
            dirs.0.id == parent,
            target_of(dirs).id == new_parent,
            dirs.1 is Some <==> parent != new_parent,
            self.sees(after, dirs.0),
            self.sees(after, target_of(dirs)),
    {
        let outcome = Ok::<RenameDirs, Ext4Error>(dirs);
        let (read, dir) = choose|read: Self, dir: Result<InodeRef>|
            {
                &&& #[trigger] self.inode_read(&read, parent, dir)
                &&& match dir {
                    Ok(first) => if parent == new_parent {
                        read.idle(after) && outcome == Ok::<RenameDirs, Ext4Error>((first, None))
                    } else {
                        read.second_dir_read(after, first, new_parent, outcome)
                    },
                    Err(error) => read.idle(after) && outcome == Err::<RenameDirs, Ext4Error>(
                        error,
                    ),
                }
            };
        let first = dir->Ok_0;
        self.lemma_inode_read_keeps_names(&read, parent, dir, Map::empty());
        if parent == new_parent {
            read.lemma_quiet_keeps_names(after);
            read.lemma_idle_only_asks(after);
        } else {
            let other = choose|other: Result<InodeRef>|
                {
                    &&& #[trigger] read.inode_read(after, new_parent, other)
                    &&& outcome == match other {
                        Ok(second) => Ok::<RenameDirs, Ext4Error>((first, Some(second))),
                        Err(error) => Err(error),
                    }
                };
            read.lemma_inode_read_keeps_names(after, new_parent, other, Map::empty());
            self.lemma_read_is_seen(&read, after, after, other->Ok_0);
        }
        self.lemma_kept_on(&read, after);
        self.lemma_calls_join(&read, after);
        self.lemma_read_is_seen(self, &read, after, first);
    }

    /// Going up from a directory keeps the names.
    proof fn lemma_going_up_keeps_names(
        &self,
        after: &Self,
        current: InodeId,
        outcome: Result<Option<InodeId>>,
    )
        requires
            self.gone_up(after, current, outcome),
        ensures
            self.keeps_names(after),
            self.only_asked(after),
    {
        let (read, found) = choose|read: Self, found: Result<InodeRef>|
            {
                &&& #[trigger] self.inode_read(&read, current, found)
                &&& match found {
                    Ok(dir) => read.parent_asked(after, dir, current, outcome),
                    Err(error) => read.idle(after) && outcome == Err::<Option<InodeId>, Ext4Error>(
                        error,
                    ),
                }
            };
        self.lemma_inode_read_keeps_names(&read, current, found, Map::empty());
        match found {
            Ok(dir) => {
                let answer = choose|answer: Result<InodeId>|
                    {
                        &&& #[trigger] read.asked(
                            after,
                            LayerCall::FindEntry { dir, name: ".."@, reply: answer },
                        )
                        &&& outcome == match answer {
                            Ok(parent) => if parent != current {
                                Ok::<Option<InodeId>, Ext4Error>(Some(parent))
                            } else {
                                Ok(None)
                            },
                            Err(_) => Ok(None),
                        }
                    };
                let call = LayerCall::FindEntry { dir, name: ".."@, reply: answer };
                read.lemma_call_keeps_names(after, Event::Layer { call });
                read.lemma_call_only_asks(after, Event::Layer { call });
            },
            Err(_) => {
                read.lemma_quiet_keeps_names(after);
                read.lemma_idle_only_asks(after);
            },
        }
        self.lemma_calls_join(&read, after);
        self.lemma_kept_on(&read, after);
    }

    /// Going up to the root keeps the names.
    proof fn lemma_ancestors_keep_names(
        &self,
        after: &Self,
        dir: InodeId,
        current: InodeId,
        left: nat,
        outcome: Result<()>,
    )
        requires
            self.ancestors_checked(after, dir, current, left, outcome),
        ensures
            self.keeps_names(after),
            self.only_asked(after),
        decreases left,
    {
        if current == dir || current == EXT4_ROOT_INO || left == 0 {
            self.lemma_quiet_keeps_names(after);
            self.lemma_idle_only_asks(after);
        } else {
            let (stepped, reply) = choose|stepped: Self, reply: Result<Option<InodeId>>|
                {
                    &&& #[trigger] self.gone_up(&stepped, current, reply)
                    &&& match reply {
                        Ok(Some(parent)) => stepped.ancestors_checked(
                            after,
                            dir,
                            parent,
                            (left - 1) as nat,
                            outcome,
                        ),
                        Ok(None) => stepped.idle(after) && outcome == Ok::<(), Ext4Error>(()),
                        Err(error) => stepped.idle(after) && outcome == Err::<(), Ext4Error>(
                            error,
                        ),
                    }
                };
            self.lemma_going_up_keeps_names(&stepped, current, reply);
            match reply {
                Ok(Some(parent)) => {
                    stepped.lemma_ancestors_keep_names(
                        after,
                        dir,
                        parent,
                        (left - 1) as nat,
                        outcome,
                    );
                },
                _ => {
                    stepped.lemma_quiet_keeps_names(after);
                    stepped.lemma_idle_only_asks(after);
                },
            }
            self.lemma_calls_join(&stepped, after);
            self.lemma_kept_on(&stepped, after);
        }
    }

    /// Making sure that a directory stays out of itself keeps the names.
    pub(crate) proof fn lemma_cycle_check_keeps_names(
        &self,
        after: &Self,
        child: InodeRef,
        new_parent: InodeId,
        crossing: bool,
        outcome: Result<()>,
    )
        requires
            self.cycle_checked(after, child, new_parent, crossing, outcome),
        ensures
            self.keeps_names(after),
            self.only_asked(after),
    {
        if directory(child) && crossing {
            self.lemma_ancestors_keep_names(
                after,
                child.id,
                new_parent,
                ANCESTOR_MAX_STEPS as nat,
                outcome,
            );
        } else {
            self.lemma_quiet_keeps_names(after);
            self.lemma_idle_only_asks(after);
        }
    }

    /// Checking what is to be replaced keeps the names.
    proof fn lemma_replacement_check_keeps_names(
        &self,
        after: &Self,
        child_is_dir: bool,
        existing: InodeRef,
        outcome: Result<()>,
    )
        requires
            self.replacement_checked(after, child_is_dir, existing, outcome),
        ensures
            self.keeps_names(after),
    {
        if child_is_dir != directory(existing) || !child_is_dir {
            self.lemma_quiet_keeps_names(after);
        } else {
            let reply = choose|reply: Result<bool>|
                {
                    &&& #[trigger] self.asked(after, LayerCall::IsEmpty { dir: existing, reply })
                    &&& outcome == match reply {
                        Ok(empty) => if empty {
                            Ok::<(), Ext4Error>(())
                        } else {
                            failed(ErrCode::ENOTEMPTY)
                        },
                        Err(error) => Err(error),
                    }
                };
            let call = LayerCall::IsEmpty { dir: existing, reply };
            self.lemma_call_keeps_names(after, Event::Layer { call });
        }
    }

    /// Counting names in an inode keeps what they stand for.
    proof fn lemma_links_written_keep_names(
        &self,
        after: &Self,
        inode: InodeRef,
        links: u16,
        sealed: InodeRef,
        outcome: Result<()>,
    )
        requires
            self.links_written(after, inode, links, sealed, outcome),
        ensures
            self.keeps_names(after),
            sealed.id == inode.id,
    {
        let (written, counted, reply) = choose|
            written: Self,
            counted: InodeRef,
            reply: Result<()>,
        |
            {
                &&& #[trigger] self.inode_written(&written, counted, sealed, reply)
                &&& counted.id == inode.id
                &&& written.or_gave_out(after, reply, outcome)
            };
        match self.state().inode_position(counted.id) {
            Some((home, at)) => {
                let (read, found) = choose|read: Self, found: Result<Block>|
                    {
                        &&& #[trigger] self.block_read(&read, home, found)
                        &&& match found {
                            Ok(block) => read.did(
                                &written,
                                Event::WriteBlock {
                                    id: block.id,
                                    data: crate::bytes::splice(block.data@, at, sealed.inode@),
                                    reply,
                                },
                            ),
                            Err(error) => read.idle(&written) && reply == Err::<(), Ext4Error>(
                                error,
                            ),
                        }
                    };
                if crate::staged::holds_home(self.state().batch(), home) {
                    self.lemma_quiet_keeps_names(&read);
                } else {
                    self.lemma_call_keeps_names(&read, Event::ReadBlock { id: home, reply: found });
                }
                match found {
                    Ok(block) => {
                        let write = Event::WriteBlock {
                            id: block.id,
                            data: crate::bytes::splice(block.data@, at, sealed.inode@),
                            reply,
                        };
                        read.lemma_call_keeps_names(&written, write);
                    },
                    Err(_) => {
                        read.lemma_quiet_keeps_names(&written);
                    },
                }
                self.lemma_kept_on(&read, &written);
            },
            None => {
                self.lemma_quiet_keeps_names(&written);
            },
        }
        written.lemma_quiet_keeps_names(after);
        self.lemma_kept_on(&written, after);
    }
}

/// Changes that are written at once.
impl<D: BlockDevice, V: Volume<D>> Ext4<D, V> {
    /// A name that was made to stand for something else does.
    proof fn lemma_rewritten_names(
        &self,
        after: &Self,
        dir: InodeRef,
        name: Seq<char>,
        target: InodeId,
        kind: FileType,
        names: Names,
    )
        requires
            self.entry_rewritten(after, dir, name, target, kind, Ok(())),
        ensures
            extends(self.log(), after.log()),
            self.names_at(after, names) == names.insert((dir.id, name), target),
    {
        let (asked, reply) = choose|asked: Self, reply: Result<()>|
            {
                &&& #[trigger] self.asked(
                    &asked,
                    LayerCall::ReplaceEntry { dir, name, target, kind, reply },
                )
                &&& asked.or_gave_out(after, reply, Ok(()))
            };
        let call = LayerCall::ReplaceEntry { dir, name, target, kind, reply };
        self.lemma_one_call(&asked, Event::Layer { call }, names);
        asked.lemma_quiet_keeps_names(after);
        self.lemma_joins(&asked, after, names);
    }

    /// A name that was erased stands for nothing.
    proof fn lemma_erased_names(
        &self,
        after: &Self,
        dir: InodeRef,
        name: Seq<char>,
        names: Names,
    )
        requires
            self.entry_erased(after, dir, name, Ok(())),
        ensures
            extends(self.log(), after.log()),
            self.names_at(after, names) == names.remove((dir.id, name)),
    {
        let (asked, reply) = choose|asked: Self, reply: Result<()>|
            {
                &&& #[trigger] self.asked(&asked, LayerCall::RemoveEntry { dir, name, reply })
                &&& asked.or_gave_out(after, reply, Ok(()))
            };
        let call = LayerCall::RemoveEntry { dir, name, reply };
        self.lemma_one_call(&asked, Event::Layer { call }, names);
        asked.lemma_quiet_keeps_names(after);
        self.lemma_joins(&asked, after, names);
    }

    /// A directory that changed its parent names the new one; the inodes of both parents keep
    /// their numbers.
    proof fn lemma_crossed_names(
        &self,
        after: &Self,
        child: InodeRef,
        new_parent: InodeId,
        from: InodeRef,
        from_after: InodeRef,
        to: InodeRef,
        to_after: InodeRef,
        names: Names,
    )
        requires
            self.dir_crossed(
                after,
                child,
                new_parent,
                from,
                from_after,
                to,
                to_after,
                Ok(()),
            ),
        ensures
            extends(self.log(), after.log()),
            self.names_at(after, names) == names.insert((child.id, ".."@), new_parent),
    {
        let outcome = Ok::<(), Ext4Error>(());
        let (turned, reply) = choose|turned: Self, reply: Result<()>|
            {
                &&& #[trigger] self.entry_rewritten(
                    &turned,
                    child,
                    ".."@,
                    new_parent,
                    FileType::Directory,
                    reply,
                )
                &&& match reply {
                    Ok(_) => turned.parents_counted(
                        after,
                        from,
                        from_after,
                        to,
                        to_after,
                        outcome,
                    ),
                    Err(error) => {
                        &&& turned.idle(after)
                        &&& from_after == from
                        &&& to_after == to
                        &&& outcome == Err::<(), Ext4Error>(error)
                    },
                }
            };
        match reply {
            Ok(done) => {
                assert(done == ());
            },
            Err(_) => {},
        }
        self.lemma_rewritten_names(
            &turned,
            child,
            ".."@,
            new_parent,
            FileType::Directory,
            names,
        );
        let (lost, said) = choose|lost: Self, said: Result<()>|
            {
                &&& #[trigger] turned.links_written(
                    &lost,
                    from,
                    links_of(from.inode@).wrapping_sub(1),
                    from_after,
                    said,
                )
                &&& match said {
                    Ok(_) => lost.links_written(
                        after,
                        to,
                        links_of(to.inode@).wrapping_add(1),
                        to_after,
                        outcome,
                    ),
                    Err(error) => {
                        &&& lost.idle(after)
                        &&& to_after == to
                        &&& outcome == Err::<(), Ext4Error>(error)
                    },
                }
            };
        turned.lemma_links_written_keep_names(
            &lost,
            from,
            links_of(from.inode@).wrapping_sub(1),
            from_after,
            said,
        );
        lost.lemma_links_written_keep_names(
            after,
            to,
            links_of(to.inode@).wrapping_add(1),
            to_after,
            outcome,
        );
        turned.lemma_kept_on(&lost, after);
        self.lemma_joins(&turned, after, names);
    }

    /// A name that was moved to a free one.
    proof fn lemma_moved_names(
        &self,
        after: &Self,
        dirs: RenameDirs,
        name: Seq<char>,
        new_name: Seq<char>,
        child: InodeRef,
        new_parent: InodeId,
        crossing: bool,
        names: Names,
    )
        requires
            self.name_moved(
                after,
                dirs,
                name,
                new_name,
                child,
                new_parent,
                crossing,
                Ok(()),
            ),
        ensures
            extends(self.log(), after.log()),
            self.speaks_by(after, names) ==> self.names_at(after, names) == turned(
                names.insert((target_of(dirs).id, new_name), child.id).remove((dirs.0.id, name)),
                child.id,
                new_parent,
                crossing,
            ),
    {
        let outcome = Ok::<(), Ext4Error>(());
        let (added, grown, reply) = choose|
            added: Self,
            grown: InodeRef,
            reply: core::result::Result<(), DirAddFailure>,
        |
            {
                &&& #[trigger] self.asked(
                    &added,
                    LayerCall::AddEntry {
                        dir: target_of(dirs),
                        child,
                        name: new_name,
                        after: grown,
                        reply,
                    },
                )
                &&& match reply {
                    Ok(_) => added.move_erased(
                        after,
                        with_target(dirs, grown),
                        name,
                        child,
                        new_parent,
                        crossing,
                        outcome,
                    ),
                    Err(DirAddFailure::Unmodified(error)) => {
                        &&& added.idle(after)
                        &&& outcome == Err::<(), Ext4Error>(error)
                    },
                    Err(DirAddFailure::Indeterminate(error)) => {
                        &&& added.gave_out(after)
                        &&& outcome == Err::<(), Ext4Error>(error)
                    },
                }
            };
        let call = LayerCall::AddEntry {
            dir: target_of(dirs),
            child,
            name: new_name,
            after: grown,
            reply,
        };
        self.lemma_one_call(&added, Event::Layer { call }, names);
        let there = names.insert((target_of(dirs).id, new_name), child.id);
        let changed = with_target(dirs, grown);
        let (erased, said) = choose|erased: Self, said: Result<()>|
            {
                &&& #[trigger] added.entry_erased(&erased, changed.0, name, said)
                &&& match said {
                    Ok(_) => erased.move_crossed(
                        after,
                        changed,
                        child,
                        new_parent,
                        crossing,
                        outcome,
                    ),
                    Err(error) => erased.idle(after) && outcome == Err::<(), Ext4Error>(error),
                }
            };
        match said {
            Ok(done) => {
                assert(done == ());
            },
            Err(_) => {},
        }
        added.lemma_erased_names(&erased, changed.0, name, there);
        let gone = there.remove((changed.0.id, name));
        if crossing {
            let to = changed.1->0;
            let (from_after, to_after) = choose|from_after: InodeRef, to_after: InodeRef| #[trigger]
                erased.dir_crossed(
                    after,
                    child,
                    new_parent,
                    changed.0,
                    from_after,
                    to,
                    to_after,
                    outcome,
                );
            erased.lemma_crossed_names(
                after,
                child,
                new_parent,
                changed.0,
                from_after,
                to,
                to_after,
                gone,
            );
        } else {
            erased.lemma_quiet_keeps_names(after);
        }
        added.lemma_joins(&erased, after, there);
        self.lemma_joins(&added, after, names);
    }
}

/// Changes inside a transaction.
impl<D: BlockDevice, V: Volume<D>> Ext4<D, V> {
    /// Counting what a replacement takes and gives keeps the names.
    proof fn lemma_replace_lost_keeps_names(
        &self,
        after: &Self,
        before: Transaction,
        transaction: Transaction,
        dirs: RenameDirs,
        change: Replacement,
    )
        requires
            self.replace_lost(after, before, transaction, dirs, change, Ok(())),
        ensures
            self.keeps_names(after),
    {
        let outcome = Ok::<(), Ext4Error>(());
        let (lost, grown, sealed, reply) = choose|
            lost: Self,
            grown: Transaction,
            sealed: InodeRef,
            reply: Result<()>,
        |
            {
                &&& #[trigger] self.links_staged(
                    &lost,
                    before,
                    grown,
                    dirs.0,
                    links_of(dirs.0.inode@).wrapping_sub(1),
                    sealed,
                    reply,
                )
                &&& match reply {
                    Ok(_) => lost.replace_gained(
                        after,
                        grown,
                        transaction,
                        dirs,
                        change,
                        outcome,
                    ),
                    Err(error) => {
                        &&& lost.idle(after)
                        &&& transaction == grown
                        &&& outcome == Err::<(), Ext4Error>(error)
                    },
                }
            };
        self.lemma_followed_keeps_names(&lost);
        let dir = dirs.1->0;
        let (staged, more, cover, said) = choose|
            staged: Self,
            more: Transaction,
            cover: InodeRef,
            said: Result<()>,
        |
            {
                &&& #[trigger] lost.links_staged(
                    &staged,
                    grown,
                    more,
                    dir,
                    links_of(dir.inode@).wrapping_add(1),
                    cover,
                    said,
                )
                &&& match said {
                    Ok(_) => staged.name_counted_off(
                        after,
                        more,
                        transaction,
                        change.existing,
                        change.last(),
                        outcome,
                    ),
                    Err(error) => {
                        &&& staged.idle(after)
                        &&& transaction == more
                        &&& outcome == Err::<(), Ext4Error>(error)
                    },
                }
            };
        lost.lemma_followed_keeps_names(&staged);
        staged.lemma_counting_off_keeps_names(
            after,
            more,
            transaction,
            change.existing,
            change.last(),
            outcome,
        );
        lost.lemma_kept_on(&staged, after);
        self.lemma_kept_on(&lost, after);
    }

    /// What follows on taking the old name away.
    proof fn lemma_replace_moved_names(
        &self,
        after: &Self,
        before: Transaction,
        transaction: Transaction,
        dirs: RenameDirs,
        change: Replacement,
        names: Names,
    )
        requires
            self.replace_moved(after, before, transaction, dirs, change, Ok(())),
        ensures
            extends(self.log(), after.log()),
            self.names_at(after, names) == turned(
                names,
                change.child.id,
                change.new_parent,
                change.crossing,
            ),
    {
        let outcome = Ok::<(), Ext4Error>(());
        if !change.crossing {
            self.lemma_counting_off_keeps_names(
                after,
                before,
                transaction,
                change.existing,
                change.last(),
                outcome,
            );
        } else {
            let (staged, grown, reply) = choose|staged: Self, grown: Transaction, reply: Result<()>|
                {
                    &&& #[trigger] self.entry_replaced(
                        &staged,
                        before,
                        grown,
                        change.child,
                        ".."@,
                        change.new_parent,
                        FileType::Directory,
                        reply,
                    )
                    &&& match reply {
                        Ok(_) => staged.replace_lost(
                            after,
                            grown,
                            transaction,
                            dirs,
                            change,
                            outcome,
                        ),
                        Err(error) => {
                            &&& staged.idle(after)
                            &&& transaction == grown
                            &&& outcome == Err::<(), Ext4Error>(error)
                        },
                    }
                };
            match reply {
                Ok(done) => {
                    assert(done == ());
                },
                Err(_) => {},
            }
            self.lemma_replaced_names(
                &staged,
                before,
                grown,
                change.child,
                ".."@,
                change.new_parent,
                FileType::Directory,
                names,
            );
            staged.lemma_replace_lost_keeps_names(after, grown, transaction, dirs, change);
            self.lemma_joins(&staged, after, names);
        }
    }

    /// Taking the old name away, and what follows.
    proof fn lemma_replace_removed_names(
        &self,
        after: &Self,
        before: Transaction,
        transaction: Transaction,
        dirs: RenameDirs,
        name: Seq<char>,
        change: Replacement,
        names: Names,
    )
        requires
            self.replace_removed(after, before, transaction, dirs, name, change, Ok(())),
        ensures
            extends(self.log(), after.log()),
            self.names_at(after, names) == turned(
                names.remove((dirs.0.id, name)),
                change.child.id,
                change.new_parent,
                change.crossing,
            ),
    {
        let outcome = Ok::<(), Ext4Error>(());
        let (staged, grown, reply) = choose|staged: Self, grown: Transaction, reply: Result<()>|
            {
                &&& #[trigger] self.entry_removed(&staged, before, grown, dirs.0, name, reply)
                &&& match reply {
                    Ok(_) => staged.replace_moved(
                        after,
                        grown,
                        transaction,
                        dirs,
                        change,
                        outcome,
                    ),
                    Err(error) => {
                        &&& staged.idle(after)
                        &&& transaction == grown
                        &&& outcome == Err::<(), Ext4Error>(error)
                    },
                }
            };
        match reply {
            Ok(done) => {
                assert(done == ());
            },
            Err(_) => {},
        }
        self.lemma_removed_names(&staged, before, grown, dirs.0, name, names);
        staged.lemma_replace_moved_names(
            after,
            grown,
            transaction,
            dirs,
            change,
            names.remove((dirs.0.id, name)),
        );
        self.lemma_joins(&staged, after, names);
    }

    /// Making the new name stand for what moves, and what follows.
    proof fn lemma_replace_staged_names(
        &self,
        after: &Self,
        before: Transaction,
        transaction: Transaction,
        dirs: RenameDirs,
        name: Seq<char>,
        new_name: Seq<char>,
        change: Replacement,
        names: Names,
    )
        requires
            self.replace_staged(
                after,
                before,
                transaction,
                dirs,
                name,
                new_name,
                change,
                Ok(()),
            ),
        ensures
            extends(self.log(), after.log()),
            self.names_at(after, names) == turned(
                names.insert((target_of(dirs).id, new_name), change.child.id).remove(
                    (dirs.0.id, name),
                ),
                change.child.id,
                change.new_parent,
                change.crossing,
            ),
    {
        let outcome = Ok::<(), Ext4Error>(());
        let (staged, grown, reply) = choose|staged: Self, grown: Transaction, reply: Result<()>|
            {
                &&& #[trigger] self.entry_replaced(
                    &staged,
                    before,
                    grown,
                    target_of(dirs),
                    new_name,
                    change.child.id,
                    change.child.inode.kind(),
                    reply,
                )
                &&& match reply {
                    Ok(_) => staged.replace_parted(
                        after,
                        grown,
                        transaction,
                        dirs,
                        name,
                        change,
                        outcome,
                    ),
                    Err(error) => {
                        &&& staged.idle(after)
                        &&& transaction == grown
                        &&& outcome == Err::<(), Ext4Error>(error)
                    },
                }
            };
        match reply {
            Ok(done) => {
                assert(done == ());
            },
            Err(_) => {},
        }
        self.lemma_replaced_names(
            &staged,
            before,
            grown,
            target_of(dirs),
            new_name,
            change.child.id,
            change.child.inode.kind(),
            names,
        );
        let there = names.insert((target_of(dirs).id, new_name), change.child.id);
        if !directory(change.existing) {
            staged.lemma_replace_removed_names(
                after,
                grown,
                transaction,
                dirs,
                name,
                change,
                there,
            );
        } else {
            let (parted, more, sealed, said) = choose|
                parted: Self,
                more: Transaction,
                sealed: InodeRef,
                said: Result<()>,
            |
                {
                    &&& #[trigger] staged.links_staged(
                        &parted,
                        grown,
                        more,
                        target_of(dirs),
                        links_of(target_of(dirs).inode@).wrapping_sub(1),
                        sealed,
                        said,
                    )
                    &&& match said {
                        Ok(_) => parted.replace_removed(
                            after,
                            more,
                            transaction,
                            with_target(dirs, sealed),
                            name,
                            change,
                            outcome,
                        ),
                        Err(error) => {
                            &&& parted.idle(after)
                            &&& transaction == more
                            &&& outcome == Err::<(), Ext4Error>(error)
                        },
                    }
                };
            staged.lemma_followed_keeps_names(&parted);
            parted.lemma_replace_removed_names(
                after,
                more,
                transaction,
                with_target(dirs, sealed),
                name,
                change,
                there,
            );
            staged.lemma_joins(&parted, after, there);
        }
        self.lemma_joins(&staged, after, names);
    }

    /// A name that took the place of another one.
    proof fn lemma_replacement_names(
        &self,
        after: &Self,
        dirs: RenameDirs,
        name: Seq<char>,
        new_name: Seq<char>,
        change: Replacement,
        handle: Option<InodeReclaimHandle>,
        names: Names,
    )
        requires
            self.target_replaced(after, dirs, name, new_name, change, Ok(handle)),
        ensures
            extends(self.log(), after.log()),
            self.names_at(after, names) == turned(
                names.insert((target_of(dirs).id, new_name), change.child.id).remove(
                    (dirs.0.id, name),
                ),
                change.child.id,
                change.new_parent,
                change.crossing,
            ),
            handle == handle_of(change.existing, change.last()),
    {
        let outcome = Ok::<Option<InodeReclaimHandle>, Ext4Error>(handle);
        let (checked, reply) = choose|checked: Self, reply: Result<()>|
            {
                &&& #[trigger] self.replacement_checked(
                    &checked,
                    change.child_is_dir,
                    change.existing,
                    reply,
                )
                &&& match reply {
                    Ok(_) => checked.replace_begun(after, dirs, name, new_name, change, outcome),
                    Err(error) => checked.idle(after) && outcome == Err::<
                        Option<InodeReclaimHandle>,
                        Ext4Error,
                    >(error),
                }
            };
        self.lemma_replacement_check_keeps_names(
            &checked,
            change.child_is_dir,
            change.existing,
            reply,
        );
        let credits = checked.credits_to_replace(change);
        let (begun, start) = choose|begun: Self, start: Result<Transaction>|
            {
                &&& #[trigger] checked.begun_with_retry(&begun, credits, start)
                &&& match start {
                    Ok(transaction) => begun.replace_run(
                        after,
                        transaction,
                        dirs,
                        name,
                        new_name,
                        change,
                        outcome,
                    ),
                    Err(error) => begun.idle(after) && outcome == Err::<
                        Option<InodeReclaimHandle>,
                        Ext4Error,
                    >(error),
                }
            };
        checked.lemma_begun_keeps_names(&begun, credits, start);
        let transaction = start->Ok_0;
        let (staged, grown, said) = choose|staged: Self, grown: Transaction, said: Result<()>|
            {
                &&& #[trigger] begun.replace_staged(
                    &staged,
                    transaction,
                    grown,
                    dirs,
                    name,
                    new_name,
                    change,
                    said,
                )
                &&& match said {
                    Ok(_) => staged.replace_ended(after, grown, change, outcome),
                    Err(error) => staged.given_up(after, grown) && outcome == Err::<
                        Option<InodeReclaimHandle>,
                        Ext4Error,
                    >(error),
                }
            };
        match said {
            Ok(done) => {
                assert(done == ());
            },
            Err(_) => {},
        }
        begun.lemma_replace_staged_names(
            &staged,
            transaction,
            grown,
            dirs,
            name,
            new_name,
            change,
            names,
        );
        let (ending, at_once) = choose|ending: Result<()>, at_once: bool|
            {
                &&& #[trigger] staged.names_settled(after, grown, at_once, ending)
                &&& outcome == match ending {
                    Ok(_) => Ok::<Option<InodeReclaimHandle>, Ext4Error>(
                        handle_of(change.existing, change.last()),
                    ),
                    Err(error) => Err(error),
                }
            };
        staged.lemma_settling_keeps_names(after, grown, at_once, ending);
        begun.lemma_joins(&staged, after, names);
        checked.lemma_joins(&begun, after, names);
        self.lemma_joins(&checked, after, names);
    }
}

/// Whether the names are those from before with one moved. A directory, which `kinds` has, that
/// changes its parent names the new one. Nothing is moved where both names stand for one inode.
pub open spec fn is_moved(
    names: Names,
    after: Names,
    kinds: Set<InodeId>,
    parent: InodeId,
    name: Seq<char>,
    new_parent: InodeId,
    new_name: Seq<char>,
) -> bool {
    ||| {
        &&& names.contains_key((new_parent, new_name))
        &&& names[(new_parent, new_name)] == names[(parent, name)]
        &&& after == names
    }
    ||| after == moved(
        names,
        parent,
        name,
        new_parent,
        new_name,
        parent != new_parent && kinds.contains(names[(parent, name)]),
    )
}

impl Move {
    /// Whether a move was asked for with what the names stand for, and with what that is.
    pub open spec fn fits(
        &self,
        names: Names,
        kinds: Set<InodeId>,
        name: Seq<char>,
        new_name: Seq<char>,
    ) -> bool {
        &&& names[(self.parent, name)] == self.child
        &&& self.child_is_dir == kinds.contains(self.child)
        &&& self.existing matches Some(existing) ==> {
            &&& names.contains_key((self.new_parent, new_name))
            &&& names[(self.new_parent, new_name)] == existing
        }
    }
}

/// Moving a name.
impl<D: BlockDevice, V: Volume<D>> Ext4<D, V> {
    /// What moving a name does to the names, once both directories were read inside the barrier.
    proof fn lemma_move_child_names(
        &self,
        after: &Self,
        dirs: RenameDirs,
        name: Seq<char>,
        new_name: Seq<char>,
        asked: Move,
        handle: Option<InodeReclaimHandle>,
        names: Names,
        kinds: Set<InodeId>,
    )
        requires
            self.move_child_read(after, dirs, name, new_name, asked, Ok(handle)),
            dirs.0.id == asked.parent,
            target_of(dirs).id == asked.new_parent,
        ensures
            extends(self.log(), after.log()),
            self.speaks_by(after, names) && asked.fits(names, kinds, name, new_name) ==> {
                &&& is_moved(
                    names,
                    self.names_at(after, names),
                    kinds,
                    asked.parent,
                    name,
                    asked.new_parent,
                    new_name,
                )
                &&& handle matches Some(unnamed) ==> asked.existing == Some(unnamed.ino)
            },
    {
        let outcome = Ok::<Option<InodeReclaimHandle>, Ext4Error>(handle);
        let (read, found) = choose|read: Self, found: Result<InodeRef>|
            {
                &&& #[trigger] self.inode_read(&read, asked.child, found)
                &&& match found {
                    Ok(child) => read.move_decided(
                        after,
                        dirs,
                        name,
                        new_name,
                        asked,
                        child,
                        outcome,
                    ),
                    Err(error) => read.idle(after) && outcome == Err::<
                        Option<InodeReclaimHandle>,
                        Ext4Error,
                    >(error),
                }
            };
        self.lemma_inode_read_keeps_names(&read, asked.child, found, names);
        let child = found->Ok_0;
        match asked.existing {
            Some(existing) => {
                if existing == asked.child {
                    read.lemma_quiet_keeps_names(after);
                } else {
                    let (seen, other) = choose|seen: Self, other: Result<InodeRef>|
                        {
                            &&& #[trigger] read.inode_read(&seen, existing, other)
                            &&& match other {
                                Ok(inode) => seen.target_replaced(
                                    after,
                                    dirs,
                                    name,
                                    new_name,
                                    (Replacement {
                                        child,
                                        child_is_dir: asked.child_is_dir,
                                        crossing: asked.crossing(),
                                        new_parent: asked.new_parent,
                                        existing: inode,
                                    }),
                                    outcome,
                                ),
                                Err(error) => seen.idle(after) && outcome == Err::<
                                    Option<InodeReclaimHandle>,
                                    Ext4Error,
                                >(error),
                            }
                        };
                    read.lemma_inode_read_keeps_names(&seen, existing, other, names);
                    let change = Replacement {
                        child,
                        child_is_dir: asked.child_is_dir,
                        crossing: asked.crossing(),
                        new_parent: asked.new_parent,
                        existing: other->Ok_0,
                    };
                    seen.lemma_replacement_names(
                        after,
                        dirs,
                        name,
                        new_name,
                        change,
                        handle,
                        names,
                    );
                    read.lemma_joins(&seen, after, names);
                }
            },
            None => {
                let done = choose|done: Result<()>|
                    {
                        &&& #[trigger] read.name_moved(
                            after,
                            dirs,
                            name,
                            new_name,
                            child,
                            asked.new_parent,
                            asked.crossing(),
                            done,
                        )
                        &&& outcome == nothing_replaced(done)
                    };
                match done {
                    Ok(nothing) => {
                        assert(nothing == ());
                    },
                    Err(_) => {},
                }
                read.lemma_moved_names(
                    after,
                    dirs,
                    name,
                    new_name,
                    child,
                    asked.new_parent,
                    asked.crossing(),
                    names,
                );
            },
        }
        self.lemma_joins(&read, after, names);
    }

    /// What moving a name does to the names, inside the barrier.
    proof fn lemma_move_made_names(
        &self,
        after: &Self,
        name: Seq<char>,
        new_name: Seq<char>,
        asked: Move,
        handle: Option<InodeReclaimHandle>,
        names: Names,
        kinds: Set<InodeId>,
    )
        requires
            self.move_made(after, name, new_name, asked, Ok(handle)),
        ensures
            extends(self.log(), after.log()),
            self.speaks_by(after, names) && asked.fits(names, kinds, name, new_name) ==> {
                &&& is_moved(
                    names,
                    self.names_at(after, names),
                    kinds,
                    asked.parent,
                    name,
                    asked.new_parent,
                    new_name,
                )
                &&& handle matches Some(unnamed) ==> asked.existing == Some(unnamed.ino)
            },
    {
        let outcome = Ok::<Option<InodeReclaimHandle>, Ext4Error>(handle);
        let (read, found) = choose|read: Self, found: Result<RenameDirs>|
            {
                &&& #[trigger] self.dirs_read(&read, asked.parent, asked.new_parent, found)
                &&& match found {
                    Ok(dirs) => read.move_child_read(
                        after,
                        dirs,
                        name,
                        new_name,
                        asked,
                        outcome,
                    ),
                    Err(error) => read.idle(after) && outcome == Err::<
                        Option<InodeReclaimHandle>,
                        Ext4Error,
                    >(error),
                }
            };
        let dirs = found->Ok_0;
        self.lemma_dirs_read_keep_names(&read, asked.parent, asked.new_parent, dirs);
        read.lemma_move_child_names(after, dirs, name, new_name, asked, handle, names, kinds);
        self.lemma_joins(&read, after, names);
    }

    /// What moving a name does to the names, with the barrier.
    pub(crate) proof fn lemma_move_gated_names(
        &self,
        after: &Self,
        name: Seq<char>,
        new_name: Seq<char>,
        asked: Move,
        handle: Option<InodeReclaimHandle>,
        names: Names,
        kinds: Set<InodeId>,
    )
        requires
            self.move_gated(after, name, new_name, asked, Ok(handle)),
        ensures
            extends(self.log(), after.log()),
            self.speaks_by(after, names) && asked.fits(names, kinds, name, new_name) ==> {
                &&& is_moved(
                    names,
                    self.names_at(after, names),
                    kinds,
                    asked.parent,
                    name,
                    asked.new_parent,
                    new_name,
                )
                &&& handle matches Some(unnamed) ==> asked.existing == Some(unnamed.ino)
            },
    {
        let work = |inside: Self, left: Self, outcome: Result<Option<InodeReclaimHandle>>|
            inside.move_made(&left, name, new_name, asked, outcome);
        let stages = if asked.existing is Some {
            self.lemma_exclusive_work(after, work, Ok(handle))
        } else {
            self.lemma_direct_work(after, work, Ok(handle))
        };
        let (inside, left) = stages->0;
        inside.lemma_move_made_names(&left, name, new_name, asked, handle, names, kinds);
        self.lemma_work_between(&inside, &left, after, names);
    }
}

impl<D: BlockDevice, V: Volume<D>> Ext4<D, V> {
    /// What moving a name does to the names, once its inode was read.
    proof fn lemma_move_checked_names(
        &self,
        after: &Self,
        parent: InodeId,
        name: Seq<char>,
        new_parent: InodeId,
        new_name: Seq<char>,
        dirs: RenameDirs,
        child: InodeRef,
        handle: Option<InodeReclaimHandle>,
        names: Names,
        kinds: Set<InodeId>,
    )
        requires
            self.move_checked(
                after,
                parent,
                name,
                new_parent,
                new_name,
                dirs,
                child,
                Ok(handle),
            ),
            target_of(dirs).id == new_parent,
        ensures
            extends(self.log(), after.log()),
            self.speaks_by(after, names) && names[(parent, name)] == child.id && directory(child)
                == kinds.contains(child.id) ==> {
                &&& is_moved(
                    names,
                    self.names_at(after, names),
                    kinds,
                    parent,
                    name,
                    new_parent,
                    new_name,
                )
                &&& handle matches Some(unnamed) ==> {
                    &&& names.contains_key((new_parent, new_name))
                    &&& names[(new_parent, new_name)] == unnamed.ino
                }
            },
    {
        let outcome = Ok::<Option<InodeReclaimHandle>, Ext4Error>(handle);
        let (checked, crossing, reply) = choose|checked: Self, crossing: bool, reply: Result<()>|
            {
                &&& #[trigger] self.cycle_checked(&checked, child, new_parent, crossing, reply)
                &&& crossing == (parent != new_parent)
                &&& match reply {
                    Ok(_) => checked.move_targeted(
                        after,
                        parent,
                        name,
                        new_parent,
                        new_name,
                        dirs,
                        child,
                        outcome,
                    ),
                    Err(error) => checked.idle(after) && outcome == Err::<
                        Option<InodeReclaimHandle>,
                        Ext4Error,
                    >(error),
                }
            };
        self.lemma_cycle_check_keeps_names(&checked, child, new_parent, crossing, reply);
        let (asked, found) = choose|asked: Self, found: Result<InodeId>|
            {
                &&& #[trigger] checked.asked(
                    &asked,
                    LayerCall::FindEntry { dir: target_of(dirs), name: new_name, reply: found },
                )
                &&& asked.move_gated(
                    after,
                    name,
                    new_name,
                    (Move {
                        parent,
                        new_parent,
                        child: child.id,
                        child_is_dir: directory(child),
                        existing: match found {
                            Ok(id) => Some(id),
                            Err(_) => None,
                        },
                    }),
                    outcome,
                )
            };
        let find = Event::Layer {
            call: LayerCall::FindEntry { dir: target_of(dirs), name: new_name, reply: found },
        };
        checked.lemma_call_keeps_names(&asked, find);
        checked.lemma_one_call(&asked, find, names);
        let request = Move {
            parent,
            new_parent,
            child: child.id,
            child_is_dir: directory(child),
            existing: match found {
                Ok(id) => Some(id),
                Err(_) => None,
            },
        };
        asked.lemma_move_gated_names(after, name, new_name, request, handle, names, kinds);
        checked.lemma_joins(&asked, after, names);
        self.lemma_joins(&checked, after, names);
    }

    /// What moving a name does to the names.
    proof fn lemma_rename_goes_on(
        &self,
        after: &Self,
        parent: InodeId,
        name: Seq<char>,
        new_parent: InodeId,
        new_name: Seq<char>,
        handle: Option<InodeReclaimHandle>,
        names: Names,
        kinds: Set<InodeId>,
    )
        requires
            self.renamed(after, parent, name, new_parent, new_name, Ok(handle)),
        ensures
            extends(self.log(), after.log()),
            self.speaks_by(after, names) && self.kinds_told(after, kinds) ==> {
                &&& names.contains_key((parent, name))
                &&& is_moved(
                    names,
                    self.names_at(after, names),
                    kinds,
                    parent,
                    name,
                    new_parent,
                    new_name,
                )
                &&& handle matches Some(unnamed) ==> {
                    &&& names.contains_key((new_parent, new_name))
                    &&& names[(new_parent, new_name)] == unnamed.ino
                }
            },
    {
        let outcome = Ok::<Option<InodeReclaimHandle>, Ext4Error>(handle);
        let (opened, found) = choose|opened: Self, found: Result<RenameDirs>|
            {
                &&& #[trigger] self.dirs_opened(&opened, parent, new_parent, found)
                &&& match found {
                    Ok(dirs) => opened.move_found(
                        after,
                        parent,
                        name,
                        new_parent,
                        new_name,
                        dirs,
                        outcome,
                    ),
                    Err(error) => opened.idle(after) && outcome == Err::<
                        Option<InodeReclaimHandle>,
                        Ext4Error,
                    >(error),
                }
            };
        let dirs = found->Ok_0;
        self.lemma_dirs_opened_keep_names(&opened, parent, new_parent, dirs);
        let (seen, target) = choose|seen: Self, target: Result<InodeRef>|
            {
                &&& #[trigger] opened.child_found(&seen, dirs.0, name, target)
                &&& match target {
                    Ok(child) => seen.move_checked(
                        after,
                        parent,
                        name,
                        new_parent,
                        new_name,
                        dirs,
                        child,
                        outcome,
                    ),
                    Err(error) => seen.idle(after) && outcome == Err::<
                        Option<InodeReclaimHandle>,
                        Ext4Error,
                    >(error),
                }
            };
        let child = target->Ok_0;
        let (asked, answer) = choose|asked: Self, answer: Result<InodeId>|
            {
                &&& #[trigger] opened.asked(
                    &asked,
                    LayerCall::FindEntry { dir: dirs.0, name, reply: answer },
                )
                &&& match answer {
                    Ok(id) => asked.inode_read(&seen, id, target),
                    Err(error) => asked.idle(&seen) && target == Err::<InodeRef, Ext4Error>(error),
                }
            };
        let find = Event::Layer {
            call: LayerCall::FindEntry { dir: dirs.0, name, reply: answer },
        };
        opened.lemma_call_keeps_names(&asked, find);
        opened.lemma_one_call(&asked, find, names);
        asked.lemma_inode_read_keeps_names(&seen, answer->Ok_0, target, names);
        seen.lemma_move_checked_names(
            after,
            parent,
            name,
            new_parent,
            new_name,
            dirs,
            child,
            handle,
            names,
            kinds,
        );
        if self.kinds_told(after, kinds) {
            opened.lemma_call_only_asks(&asked, find);
            self.lemma_calls_join(&opened, &asked);
            self.lemma_kinds_go_on(&asked, after, kinds);
            asked.lemma_kind_is_told(&seen, after, answer->Ok_0, child, kinds);
        }
        asked.lemma_joins(&seen, after, names);
        opened.lemma_joins(&asked, after, names);
        self.lemma_joins(&opened, after, names);
    }

    /// A name that was moved stood for something, for which the new name stands now; the old name
    /// stands for nothing, and the others stand for what they did. What is given out to be
    /// reclaimed is what the new name stood for. Where both names stand for one inode, nothing
    /// changes.
    pub proof fn lemma_renamed_name_stands(
        &self,
        after: &Self,
        parent: InodeId,
        name: Seq<char>,
        new_parent: InodeId,
        new_name: Seq<char>,
        handle: Option<InodeReclaimHandle>,
        names: Names,
        kinds: Set<InodeId>,
    )
        requires
            self.renamed(after, parent, name, new_parent, new_name, Ok(handle)),
            self.speaks_by(after, names),
            self.kinds_told(after, kinds),
        ensures
            extends(self.log(), after.log()),
            names.contains_key((parent, name)),
            is_moved(
                names,
                self.names_at(after, names),
                kinds,
                parent,
                name,
                new_parent,
                new_name,
            ),
            handle matches Some(unnamed) ==> {
                &&& names.contains_key((new_parent, new_name))
                &&& names[(new_parent, new_name)] == unnamed.ino
            },
    {
        self.lemma_rename_goes_on(after, parent, name, new_parent, new_name, handle, names, kinds);
    }

    /// A lookup of the new name of what was renamed finds what the old name stood for. Left out is
    /// a name that a directory has for its own parent.
    pub proof fn lemma_renamed_name_is_looked_up(
        &self,
        renamed: &Self,
        after: &Self,
        parent: InodeId,
        name: Seq<char>,
        new_parent: InodeId,
        new_name: Seq<char>,
        handle: Option<InodeReclaimHandle>,
        outcome: Result<InodeId>,
        names: Names,
        kinds: Set<InodeId>,
    )
        requires
            self.renamed(renamed, parent, name, new_parent, new_name, Ok(handle)),
            renamed.name_looked_up(after, new_parent, new_name, outcome),
            self.speaks_by(after, names),
            self.kinds_told(renamed, kinds),
            (parent, name) != (new_parent, new_name),
            new_name != ".."@,
        ensures
            outcome matches Ok(id) ==> id == names[(parent, name)],
            outcome matches Err(error) ==> error.code != ErrCode::ENOENT,
    {
        let there = self.names_at(renamed, names);
        self.lemma_rename_goes_on(
            renamed,
            parent,
            name,
            new_parent,
            new_name,
            handle,
            names,
            kinds,
        );
        renamed.lemma_looked_up(after, new_parent, new_name, outcome, there);
        self.lemma_joins(renamed, after, names);
    }
}

/// Whether the names are those from before with two exchanged. Directories, which `kinds` has, that
/// change their parents name the new ones. Nothing is exchanged where both stand for one inode.
pub open spec fn is_exchanged(
    names: Names,
    after: Names,
    kinds: Set<InodeId>,
    parent: InodeId,
    name: Seq<char>,
    new_parent: InodeId,
    new_name: Seq<char>,
) -> bool {
    let source = names[(parent, name)];
    let target = names[(new_parent, new_name)];
    after == if source == target {
        names
    } else {
        exchanged(
            names,
            parent,
            name,
            new_parent,
            new_name,
            parent != new_parent && kinds.contains(source),
            parent != new_parent && kinds.contains(target),
        )
    }
}

/// Exchanging names.
impl<D: BlockDevice, V: Volume<D>> Ext4<D, V> {
    /// What the second directory of an exchange does to the names.
    proof fn lemma_swap_returned_names(
        &self,
        after: &Self,
        first: InodeRef,
        second: InodeRef,
        swap: Exchange,
        names: Names,
    )
        requires
            self.swap_returned(after, first, second, swap, Ok(())),
        ensures
            extends(self.log(), after.log()),
            self.names_at(after, names) == turned(
                names,
                swap.target.id,
                swap.parent,
                directory(swap.target),
            ),
    {
        if directory(swap.target) {
            let (from_after, to_after) = choose|from_after: InodeRef, to_after: InodeRef| #[trigger]
                self.dir_crossed(
                    after,
                    swap.target,
                    swap.parent,
                    second,
                    from_after,
                    first,
                    to_after,
                    Ok(()),
                );
            self.lemma_crossed_names(
                after,
                swap.target,
                swap.parent,
                second,
                from_after,
                first,
                to_after,
                names,
            );
        } else {
            self.lemma_quiet_keeps_names(after);
        }
    }

    /// What the directories of an exchange do to the names.
    proof fn lemma_swap_gone_names(
        &self,
        after: &Self,
        first: InodeRef,
        second: InodeRef,
        swap: Exchange,
        names: Names,
    )
        requires
            self.swap_gone(after, first, second, swap, Ok(())),
        ensures
            extends(self.log(), after.log()),
            self.names_at(after, names) == turned(
                turned(names, swap.source.id, swap.new_parent, directory(swap.source)),
                swap.target.id,
                swap.parent,
                directory(swap.target),
            ),
    {
        let outcome = Ok::<(), Ext4Error>(());
        if directory(swap.source) {
            let (crossed, first_after, second_after, reply) = choose|
                crossed: Self,
                first_after: InodeRef,
                second_after: InodeRef,
                reply: Result<()>,
            |
                {
                    &&& #[trigger] self.dir_crossed(
                        &crossed,
                        swap.source,
                        swap.new_parent,
                        first,
                        first_after,
                        second,
                        second_after,
                        reply,
                    )
                    &&& match reply {
                        Ok(_) => crossed.swap_returned(
                            after,
                            first_after,
                            second_after,
                            swap,
                            outcome,
                        ),
                        Err(error) => crossed.idle(after) && outcome == Err::<(), Ext4Error>(error),
                    }
                };
            match reply {
                Ok(done) => {
                    assert(done == ());
                },
                Err(_) => {},
            }
            self.lemma_crossed_names(
                &crossed,
                swap.source,
                swap.new_parent,
                first,
                first_after,
                second,
                second_after,
                names,
            );
            crossed.lemma_swap_returned_names(
                after,
                first_after,
                second_after,
                swap,
                names.insert((swap.source.id, ".."@), swap.new_parent),
            );
            self.lemma_joins(&crossed, after, names);
        } else {
            self.lemma_swap_returned_names(after, first, second, swap, names);
        }
    }

    /// What writing both names of an exchange does to the names.
    proof fn lemma_swap_written_names(
        &self,
        after: &Self,
        dirs: RenameDirs,
        name: Seq<char>,
        new_name: Seq<char>,
        swap: Exchange,
        names: Names,
    )
        requires
            self.swap_written(after, dirs, name, new_name, swap, Ok(())),
        ensures
            extends(self.log(), after.log()),
            ({
                let written = names.insert((dirs.0.id, name), swap.target.id).insert(
                    (target_of(dirs).id, new_name),
                    swap.source.id,
                );
                self.names_at(after, names) == if dirs.1 is Some {
                    turned(
                        turned(written, swap.source.id, swap.new_parent, directory(swap.source)),
                        swap.target.id,
                        swap.parent,
                        directory(swap.target),
                    )
                } else {
                    written
                }
            }),
    {
        let outcome = Ok::<(), Ext4Error>(());
        let (one, reply) = choose|one: Self, reply: Result<()>|
            {
                &&& #[trigger] self.entry_rewritten(
                    &one,
                    dirs.0,
                    name,
                    swap.target.id,
                    swap.target.inode.kind(),
                    reply,
                )
                &&& match reply {
                    Ok(_) => one.swap_second(after, dirs, new_name, swap, outcome),
                    Err(error) => one.idle(after) && outcome == Err::<(), Ext4Error>(error),
                }
            };
        match reply {
            Ok(done) => {
                assert(done == ());
            },
            Err(_) => {},
        }
        self.lemma_rewritten_names(
            &one,
            dirs.0,
            name,
            swap.target.id,
            swap.target.inode.kind(),
            names,
        );
        let first = names.insert((dirs.0.id, name), swap.target.id);
        let (both, said) = choose|both: Self, said: Result<()>|
            {
                &&& #[trigger] one.entry_rewritten(
                    &both,
                    target_of(dirs),
                    new_name,
                    swap.source.id,
                    swap.source.inode.kind(),
                    said,
                )
                &&& match said {
                    Ok(_) => both.swap_crossed(after, dirs, swap, outcome),
                    Err(error) => both.idle(after) && outcome == Err::<(), Ext4Error>(error),
                }
            };
        match said {
            Ok(done) => {
                assert(done == ());
            },
            Err(_) => {},
        }
        one.lemma_rewritten_names(
            &both,
            target_of(dirs),
            new_name,
            swap.source.id,
            swap.source.inode.kind(),
            first,
        );
        let written = first.insert((target_of(dirs).id, new_name), swap.source.id);
        match dirs.1 {
            None => {
                both.lemma_quiet_keeps_names(after);
            },
            Some(second) => {
                both.lemma_swap_gone_names(after, dirs.0, second, swap, written);
            },
        }
        one.lemma_joins(&both, after, first);
        self.lemma_joins(&one, after, names);
    }

    /// What an exchange does to the names, once both inodes were read.
    proof fn lemma_swap_decided_names(
        &self,
        after: &Self,
        dirs: RenameDirs,
        name: Seq<char>,
        new_name: Seq<char>,
        swap: Exchange,
        names: Names,
        kinds: Set<InodeId>,
    )
        requires
            self.swap_decided(after, dirs, name, new_name, swap, Ok(())),
            dirs.0.id == swap.parent,
            target_of(dirs).id == swap.new_parent,
            dirs.1 is Some <==> swap.parent != swap.new_parent,
        ensures
            extends(self.log(), after.log()),
            names[(swap.parent, name)] == swap.source.id && names[(swap.new_parent, new_name)]
                == swap.target.id && directory(swap.source) == kinds.contains(swap.source.id)
                && directory(swap.target) == kinds.contains(swap.target.id) ==> is_exchanged(
                names,
                self.names_at(after, names),
                kinds,
                swap.parent,
                name,
                swap.new_parent,
                new_name,
            ),
    {
        let outcome = Ok::<(), Ext4Error>(());
        if swap.source.id == swap.target.id {
            self.lemma_quiet_keeps_names(after);
        } else {
            let (checked, crossing, reply) = choose|
                checked: Self,
                crossing: bool,
                reply: Result<()>,
            |
                {
                    &&& #[trigger] self.cycle_checked(
                        &checked,
                        swap.source,
                        swap.new_parent,
                        crossing,
                        reply,
                    )
                    &&& crossing == (swap.parent != swap.new_parent)
                    &&& match reply {
                        Ok(_) => checked.swap_back_checked(
                            after,
                            dirs,
                            name,
                            new_name,
                            swap,
                            crossing,
                            outcome,
                        ),
                        Err(error) => checked.idle(after) && outcome == Err::<(), Ext4Error>(
                            error,
                        ),
                    }
                };
            self.lemma_cycle_check_keeps_names(
                &checked,
                swap.source,
                swap.new_parent,
                crossing,
                reply,
            );
            let (back, said) = choose|back: Self, said: Result<()>|
                {
                    &&& #[trigger] checked.cycle_checked(
                        &back,
                        swap.target,
                        swap.parent,
                        crossing,
                        said,
                    )
                    &&& match said {
                        Ok(_) => back.swap_written(after, dirs, name, new_name, swap, outcome),
                        Err(error) => back.idle(after) && outcome == Err::<(), Ext4Error>(error),
                    }
                };
            checked.lemma_cycle_check_keeps_names(
                &back,
                swap.target,
                swap.parent,
                crossing,
                said,
            );
            back.lemma_swap_written_names(after, dirs, name, new_name, swap, names);
            checked.lemma_joins(&back, after, names);
            self.lemma_joins(&checked, after, names);
            let gone = dirs.1 is Some && directory(swap.source);
            let returned = dirs.1 is Some && directory(swap.target);
            assert(names[(swap.parent, name)] == swap.source.id && names[(
                swap.new_parent,
                new_name,
            )] == swap.target.id ==> self.names_at(after, names) == exchanged(
                names,
                swap.parent,
                name,
                swap.new_parent,
                new_name,
                gone,
                returned,
            ));
        }
    }

    /// What an exchange does to the names, once both names were found.
    proof fn lemma_swap_read_names(
        &self,
        after: &Self,
        parent: InodeId,
        name: Seq<char>,
        new_parent: InodeId,
        new_name: Seq<char>,
        old_id: InodeId,
        new_id: InodeId,
        names: Names,
        kinds: Set<InodeId>,
    )
        requires
            self.swap_read(
                after,
                parent,
                name,
                new_parent,
                new_name,
                old_id,
                new_id,
                Ok(()),
            ),
        ensures
            extends(self.log(), after.log()),
            names[(parent, name)] == old_id && names[(new_parent, new_name)] == new_id
                && self.kinds_told(after, kinds) ==> is_exchanged(
                names,
                self.names_at(after, names),
                kinds,
                parent,
                name,
                new_parent,
                new_name,
            ),
    {
        let outcome = Ok::<(), Ext4Error>(());
        let (read, found) = choose|read: Self, found: Result<RenameDirs>|
            {
                &&& #[trigger] self.dirs_read(&read, parent, new_parent, found)
                &&& match found {
                    Ok(dirs) => read.swap_opened(
                        after,
                        dirs,
                        parent,
                        name,
                        new_parent,
                        new_name,
                        old_id,
                        new_id,
                        outcome,
                    ),
                    Err(error) => read.idle(after) && outcome == Err::<(), Ext4Error>(error),
                }
            };
        let dirs = found->Ok_0;
        self.lemma_dirs_read_keep_names(&read, parent, new_parent, dirs);
        let (seen, both) = choose|seen: Self, both: Result<(InodeRef, InodeRef)>|
            {
                &&& #[trigger] read.pair_read(&seen, old_id, new_id, both)
                &&& match both {
                    Ok(found) => seen.swap_decided(
                        after,
                        dirs,
                        name,
                        new_name,
                        (Exchange { parent, new_parent, source: found.0, target: found.1 }),
                        outcome,
                    ),
                    Err(error) => seen.idle(after) && outcome == Err::<(), Ext4Error>(error),
                }
            };
        read.lemma_pair_read_keeps_names(&seen, old_id, new_id, both);
        let pair = both->Ok_0;
        let swap = Exchange { parent, new_parent, source: pair.0, target: pair.1 };
        seen.lemma_swap_decided_names(after, dirs, name, new_name, swap, names, kinds);
        if self.kinds_told(after, kinds) {
            self.lemma_kinds_go_on(&read, after, kinds);
            read.lemma_kind_of_seen(&seen, after, pair.0, kinds);
            read.lemma_kind_of_seen(&seen, after, pair.1, kinds);
        }
        read.lemma_joins(&seen, after, names);
        self.lemma_joins(&read, after, names);
    }

    /// What an exchange does to the names, inside the barrier.
    pub(crate) proof fn lemma_exchanged_inside(
        &self,
        after: &Self,
        parent: InodeId,
        name: Seq<char>,
        new_parent: InodeId,
        new_name: Seq<char>,
        names: Names,
        kinds: Set<InodeId>,
    )
        requires
            self.names_exchanged(after, parent, name, new_parent, new_name, Ok(())),
        ensures
            extends(self.log(), after.log()),
            self.speaks_by(after, names) && self.kinds_told(after, kinds) ==> {
                &&& names.contains_key((parent, name))
                &&& names.contains_key((new_parent, new_name))
                &&& is_exchanged(
                    names,
                    self.names_at(after, names),
                    kinds,
                    parent,
                    name,
                    new_parent,
                    new_name,
                )
            },
    {
        let outcome = Ok::<(), Ext4Error>(());
        let (opened, found) = choose|opened: Self, found: Result<RenameDirs>|
            {
                &&& #[trigger] self.dirs_opened(&opened, parent, new_parent, found)
                &&& match found {
                    Ok(dirs) => opened.swap_found(
                        after,
                        dirs,
                        parent,
                        name,
                        new_parent,
                        new_name,
                        outcome,
                    ),
                    Err(error) => opened.idle(after) && outcome == Err::<(), Ext4Error>(error),
                }
            };
        let dirs = found->Ok_0;
        self.lemma_dirs_opened_keep_names(&opened, parent, new_parent, dirs);
        let (one, old_id) = choose|one: Self, old_id: Result<InodeId>|
            {
                &&& #[trigger] opened.asked(
                    &one,
                    LayerCall::FindEntry { dir: dirs.0, name, reply: old_id },
                )
                &&& match old_id {
                    Ok(old_id) => one.swap_second_found(
                        after,
                        dirs,
                        parent,
                        name,
                        new_parent,
                        new_name,
                        old_id,
                        outcome,
                    ),
                    Err(error) => one.idle(after) && outcome == Err::<(), Ext4Error>(error),
                }
            };
        let first_find = Event::Layer {
            call: LayerCall::FindEntry { dir: dirs.0, name, reply: old_id },
        };
        opened.lemma_call_keeps_names(&one, first_find);
        opened.lemma_one_call(&one, first_find, names);
        let (both, new_id) = choose|both: Self, new_id: Result<InodeId>|
            {
                &&& #[trigger] one.asked(
                    &both,
                    LayerCall::FindEntry { dir: target_of(dirs), name: new_name, reply: new_id },
                )
                &&& match new_id {
                    Ok(new_id) => both.swap_read(
                        after,
                        parent,
                        name,
                        new_parent,
                        new_name,
                        old_id->Ok_0,
                        new_id,
                        outcome,
                    ),
                    Err(error) => both.idle(after) && outcome == Err::<(), Ext4Error>(error),
                }
            };
        let find = Event::Layer {
            call: LayerCall::FindEntry { dir: target_of(dirs), name: new_name, reply: new_id },
        };
        one.lemma_call_keeps_names(&both, find);
        one.lemma_one_call(&both, find, names);
        both.lemma_swap_read_names(
            after,
            parent,
            name,
            new_parent,
            new_name,
            old_id->Ok_0,
            new_id->Ok_0,
            names,
            kinds,
        );
        if self.kinds_told(after, kinds) {
            opened.lemma_call_only_asks(&one, first_find);
            one.lemma_call_only_asks(&both, find);
            self.lemma_calls_join(&opened, &one);
            self.lemma_calls_join(&one, &both);
            self.lemma_kinds_go_on(&both, after, kinds);
        }
        one.lemma_joins(&both, after, names);
        opened.lemma_joins(&one, after, names);
        self.lemma_joins(&opened, after, names);
    }

    /// Two names that were exchanged stood for something, and each stands for what the other one
    /// did; the other names stand for what they did, but for those that directories of the two
    /// have for their parents, which are the new ones.
    pub proof fn lemma_exchanged_names_stand(
        &self,
        after: &Self,
        parent: InodeId,
        name: Seq<char>,
        new_parent: InodeId,
        new_name: Seq<char>,
        names: Names,
        kinds: Set<InodeId>,
    )
        requires
            self.exchange_made(after, parent, name, new_parent, new_name, Ok(())),
            self.speaks_by(after, names),
            self.kinds_told(after, kinds),
        ensures
            extends(self.log(), after.log()),
            names.contains_key((parent, name)),
            names.contains_key((new_parent, new_name)),
            is_exchanged(
                names,
                self.names_at(after, names),
                kinds,
                parent,
                name,
                new_parent,
                new_name,
            ),
    {
        let work = |inside: Self, left: Self, outcome: Result<()>|
            inside.names_exchanged(&left, parent, name, new_parent, new_name, outcome);
        match self.lemma_direct_work(after, work, Ok(())) {
            None => {},
            Some((inside, left)) => {
                inside.lemma_exchanged_inside(
                    &left,
                    parent,
                    name,
                    new_parent,
                    new_name,
                    names,
                    kinds,
                );
                self.lemma_kinds_inside(&inside, after, kinds);
                inside.lemma_kinds_so_far(&left, after, kinds);
                self.lemma_work_between(&inside, &left, after, names);
            },
        }
    }
}

} // verus!
