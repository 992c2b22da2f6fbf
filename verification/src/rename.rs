//! Moving names, replacing what they stand for, and exchanging two of them.

use vstd::prelude::*;
use crate::bytes::{le16, splice};
use crate::device::{BlockDevice, Event};
use crate::error::{failed, ErrCode, Ext4Error, Result};
use crate::fs::{Ext4, EXT4_ROOT_INO};
use crate::inode::{FileType, InodeRef};
use crate::journal_transaction::Transaction;
use crate::unlink::{directory, handle_of, is_last_name, links_of, namespace_removal_is_final};
use crate::volume::{DirAddFailure, InodeReclaimHandle, LayerCall, Volume};
use crate::InodeId;

verus! {

/// The steps after which the way to the root is given up. It would have passed far more directories
/// than there can be inodes, so that it runs in circles.
pub const ANCESTOR_MAX_STEPS: u64 = 0xffff_ffff_ffff_ffff;

/// The directory of a name, and the one that the name moves to, where it is another.
pub type RenameDirs = (InodeRef, Option<InodeRef>);

/// The directory that a name moves to.
pub open spec fn target_of(dirs: RenameDirs) -> InodeRef {
    match dirs.1 {
        Some(dir) => dir,
        None => dirs.0,
    }
}

/// The directories, once the one that the name moves to has changed.
pub open spec fn with_target(dirs: RenameDirs, target: InodeRef) -> RenameDirs {
    match dirs.1 {
        Some(_) => (dirs.0, Some(target)),
        None => (target, None),
    }
}

/// The directory that a name moves to.
fn target_dir(dirs: &RenameDirs) -> (dir: InodeRef)
    ensures
        dir == target_of(*dirs),
{
    match dirs.1 {
        Some(dir) => dir,
        None => dirs.0,
    }
}

/// Puts a changed directory in the place of the one that the name moves to.
fn set_target(dirs: &RenameDirs, target: InodeRef) -> (changed: RenameDirs)
    ensures
        changed == with_target(*dirs, target),
{
    match dirs.1 {
        Some(_) => (dirs.0, Some(target)),
        None => (target, None),
    }
}

/// The blocks that replacing an inode may change: those of both names and of the inode that is
/// replaced; those of the way up and of both parents of a directory that changes its parent; that
/// of the parent of a directory that is replaced; and the superblock where the inode becomes an
/// orphan.
pub open spec fn replace_credits(crossing: bool, replaced_dir: bool, orphaned: bool) -> usize {
    let parents: int = if crossing {
        3
    } else if replaced_dir {
        1
    } else {
        0
    };
    let head: int = if orphaned {
        1
    } else {
        0
    };
    (3 + parents + head) as usize
}

/// A name that takes the place of another one.
pub struct Replacement {
    /// The inode whose name moves.
    pub child: InodeRef,
    /// Whether that is a directory.
    pub child_is_dir: bool,
    /// Whether it is a directory that changes its parent.
    pub crossing: bool,
    /// The number of the directory that the name moves to.
    pub new_parent: InodeId,
    /// The inode that loses its name.
    pub existing: InodeRef,
}

impl Replacement {
    /// Whether the inode that loses its name has no other.
    pub open spec fn last(&self) -> bool {
        is_last_name(directory(self.existing), links_of(self.existing.inode@))
    }
}

impl<D: BlockDevice, V: Volume<D>> Ext4<D, V> {
    /// What reading a second directory calls and returns.
    pub open spec fn second_dir_opened(
        &self,
        after: &Self,
        first: InodeRef,
        id: InodeId,
        outcome: Result<RenameDirs>,
    ) -> bool {
        exists|dir: Result<InodeRef>|
            {
                &&& #[trigger] self.dir_opened(after, id, dir)
                &&& outcome == match dir {
                    Ok(second) => Ok::<RenameDirs, Ext4Error>((first, Some(second))),
                    Err(error) => Err(error),
                }
            }
    }

    /// What reading the directories of a move calls and returns.
    pub open spec fn dirs_opened(
        &self,
        after: &Self,
        parent: InodeId,
        new_parent: InodeId,
        outcome: Result<RenameDirs>,
    ) -> bool {
        exists|opened: Self, dir: Result<InodeRef>|
            {
                &&& #[trigger] self.dir_opened(&opened, parent, dir)
                &&& match dir {
                    Ok(first) => if parent == new_parent {
                        opened.idle(after) && outcome == Ok::<RenameDirs, Ext4Error>((first, None))
                    } else {
                        opened.second_dir_opened(after, first, new_parent, outcome)
                    },
                    Err(error) => opened.idle(after) && outcome == Err::<RenameDirs, Ext4Error>(
                        error,
                    ),
                }
            }
    }

    /// Reads the directories of a move.
    fn read_rename_dirs(&mut self, parent: InodeId, new_parent: InodeId) -> (outcome: Result<
        RenameDirs,
    >)
        requires
            old(self).inv(),
        ensures
            final(self).state() == old(self).state(),
            old(self).dirs_opened(final(self), parent, new_parent, outcome),
            outcome matches Ok(dirs) ==> (dirs.1 is Some == (parent != new_parent)),
    {
        let dir = self.open_dir(parent);
        let ghost opened = *self;
        assert(old(self).dir_opened(&opened, parent, dir));
        let first = match dir {
            Ok(first) => first,
            Err(error) => {
                return Err(error);
            },
        };
        if parent == new_parent {
            return Ok((first, None));
        }
        let dir = self.open_dir(new_parent);
        assert(opened.dir_opened(self, new_parent, dir));
        let outcome: Result<RenameDirs> = match dir {
            Ok(second) => Ok((first, Some(second))),
            Err(error) => Err(error),
        };
        assert(opened.second_dir_opened(self, first, new_parent, outcome));
        outcome
    }

    /// What going up from a directory calls and returns: its parent, or nothing at the top.
    pub open spec fn gone_up(
        &self,
        after: &Self,
        current: InodeId,
        outcome: Result<Option<InodeId>>,
    ) -> bool {
        exists|read: Self, found: Result<InodeRef>|
            {
                &&& #[trigger] self.inode_read(&read, current, found)
                &&& match found {
                    Ok(dir) => read.parent_asked(after, dir, current, outcome),
                    Err(error) => read.idle(after) && outcome == Err::<Option<InodeId>, Ext4Error>(
                        error,
                    ),
                }
            }
    }

    /// What asking for the parent of a directory calls and returns.
    pub open spec fn parent_asked(
        &self,
        after: &Self,
        dir: InodeRef,
        current: InodeId,
        outcome: Result<Option<InodeId>>,
    ) -> bool {
        exists|found: Result<InodeId>|
            {
                &&& #[trigger] self.asked(
                    after,
                    LayerCall::FindEntry { dir, name: ".."@, reply: found },
                )
                &&& outcome == match found {
                    Ok(parent) => if parent != current {
                        Ok::<Option<InodeId>, Ext4Error>(Some(parent))
                    } else {
                        Ok(None)
                    },
                    Err(_) => Ok(None),
                }
            }
    }

    /// Goes up from a directory.
    fn go_up(&mut self, current: InodeId) -> (outcome: Result<Option<InodeId>>)
        requires
            old(self).inv(),
        ensures
            final(self).state() == old(self).state(),
            old(self).gone_up(final(self), current, outcome),
    {
        let found = self.read_inode(current);
        let ghost read = *self;
        assert(old(self).inode_read(&read, current, found));
        let dir = match found {
            Ok(dir) => dir,
            Err(error) => {
                return Err(error);
            },
        };
        let found = self.dir_find_entry(&dir, "..");
        assert(read.asked(
            self,
            LayerCall::FindEntry { dir, name: ".."@, reply: found },
        ));
        let outcome: Result<Option<InodeId>> = match found {
            Ok(parent) => {
                if parent != current {
                    Ok(Some(parent))
                } else {
                    Ok(None)
                }
            },
            Err(_) => Ok(None),
        };
        assert(read.parent_asked(self, dir, current, outcome));
        outcome
    }

    /// What checking that a directory is not on the way from `current` to the root calls and
    /// returns, when `left` more directories may be passed.
    pub open spec fn ancestors_checked(
        &self,
        after: &Self,
        dir: InodeId,
        current: InodeId,
        left: nat,
        outcome: Result<()>,
    ) -> bool
        decreases left,
    {
        if current == dir {
            self.idle(after) && outcome == failed::<()>(ErrCode::EINVAL)
        } else if current == EXT4_ROOT_INO {
            self.idle(after) && outcome == Ok::<(), Ext4Error>(())
        } else if left == 0 {
            self.idle(after) && outcome == failed::<()>(ErrCode::EIO)
        } else {
            exists|stepped: Self, reply: Result<Option<InodeId>>|
                {
                    &&& #[trigger] self.gone_up(&stepped, current, reply)
                    &&& match reply {
                        Ok(Some(parent)) => stepped.ancestors_checked(
                            after,
                            dir,
                            parent,
                            (left - 1) as nat,
                            outcome,
                        ),
                        Ok(None) => stepped.idle(after) && outcome == Ok::<(), Ext4Error>(()),
                        Err(error) => stepped.idle(after) && outcome == Err::<(), Ext4Error>(
                            error,
                        ),
                    }
                }
        }
    }

    /// Fails where a directory is on the way from `target` to the root.
    fn check_ancestor_cycle(&mut self, dir: InodeId, target: InodeId) -> (outcome: Result<()>)
        requires
            old(self).inv(),
        ensures
            final(self).state() == old(self).state(),
            old(self).ancestors_checked(
                final(self),
                dir,
                target,
                ANCESTOR_MAX_STEPS as nat,
                outcome,
            ),
    {
        let mut left: u64 = ANCESTOR_MAX_STEPS;
        let mut current: InodeId = target;
        while current != dir && current != EXT4_ROOT_INO && left > 0
            invariant
                self.inv(),
                self.state() == old(self).state(),
                forall|end: Self, outcome: Result<()>|
                    #[trigger] self.ancestors_checked(&end, dir, current, left as nat, outcome)
                        ==> old(self).ancestors_checked(
                        &end,
                        dir,
                        target,
                        ANCESTOR_MAX_STEPS as nat,
                        outcome,
                    ),
            decreases left,
        {
            let ghost before = *self;
            let ghost tried = (current, left);
            let reply = self.go_up(current);
            let ghost stepped = *self;
            assert(before.gone_up(&stepped, tried.0, reply));
            match reply {
                Ok(Some(parent)) => {
                    current = parent;
                },
                Ok(None) => {
                    assert(before.ancestors_checked(
                        self,
                        dir,
                        tried.0,
                        tried.1 as nat,
                        Ok(()),
                    ));
                    return Ok(());
                },
                Err(error) => {
                    assert(before.ancestors_checked(
                        self,
                        dir,
                        tried.0,
                        tried.1 as nat,
                        Err(error),
                    ));
                    return Err(error);
                },
            }
            left = left - 1;
            assert forall|end: Self, outcome: Result<()>|
                #[trigger] self.ancestors_checked(
                    &end,
                    dir,
                    current,
                    left as nat,
                    outcome,
                ) implies old(self).ancestors_checked(
                &end,
                dir,
                target,
                ANCESTOR_MAX_STEPS as nat,
                outcome,
            ) by {
                assert(before.gone_up(&stepped, tried.0, reply));
                assert(before.ancestors_checked(
                    &end,
                    dir,
                    tried.0,
                    tried.1 as nat,
                    outcome,
                ));
            }
        }
        let outcome: Result<()> = if current == dir {
            Err(Ext4Error::new(ErrCode::EINVAL))
        } else if current == EXT4_ROOT_INO {
            Ok(())
        } else {
            Err(Ext4Error::new(ErrCode::EIO))
        };
        assert(self.ancestors_checked(self, dir, current, left as nat, outcome));
        outcome
    }

    /// What checking whether one inode may take the place of another calls and returns.
    pub open spec fn replacement_checked(
        &self,
        after: &Self,
        child_is_dir: bool,
        existing: InodeRef,
        outcome: Result<()>,
    ) -> bool {
        if child_is_dir != directory(existing) {
            &&& self.idle(after)
            &&& outcome == failed::<()>(
                if child_is_dir {
                    ErrCode::ENOTDIR
                } else {
                    ErrCode::EISDIR
                },
            )
        } else if !child_is_dir {
            self.idle(after) && outcome == Ok::<(), Ext4Error>(())
        } else {
            exists|reply: Result<bool>|
                {
                    &&& #[trigger] self.asked(
                        after,
                        LayerCall::IsEmpty { dir: existing, reply },
                    )
                    &&& outcome == match reply {
                        Ok(empty) => if empty {
                            Ok::<(), Ext4Error>(())
                        } else {
                            failed(ErrCode::ENOTEMPTY)
                        },
                        Err(error) => Err(error),
                    }
                }
        }
    }

    /// Checks whether one inode may take the place of another.
    fn check_replacement(&mut self, child_is_dir: bool, existing: &InodeRef) -> (outcome: Result<()>)
        requires
            old(self).inv(),
        ensures
            final(self).state() == old(self).state(),
            old(self).replacement_checked(final(self), child_is_dir, *existing, outcome),
    {
        let existing_is_dir: bool = existing.inode.is_dir();
        if child_is_dir && !existing_is_dir {
            return Err(Ext4Error::new(ErrCode::ENOTDIR));
        }
        if !child_is_dir && existing_is_dir {
            return Err(Ext4Error::new(ErrCode::EISDIR));
        }
        if !child_is_dir {
            return Ok(());
        }
        let reply = self.dir_is_empty(existing);
        assert(old(self).asked(self, LayerCall::IsEmpty { dir: *existing, reply }));
        match reply {
            Ok(empty) => {
                if empty {
                    Ok(())
                } else {
                    Err(Ext4Error::new(ErrCode::ENOTEMPTY))
                }
            },
            Err(error) => Err(error),
        }
    }

    /// What giving a new parent one name more calls, changes and returns, and what follows.
    pub open spec fn replace_gained(
        &self,
        after: &Self,
        before: Transaction,
        transaction: Transaction,
        dirs: RenameDirs,
        change: Replacement,
        outcome: Result<()>,
    ) -> bool {
        match dirs.1 {
            None => {
                &&& self.idle(after)
                &&& transaction == before
                &&& outcome == failed::<()>(ErrCode::EINVAL)
            },
            Some(dir) => exists|staged: Self, grown: Transaction, sealed: InodeRef, reply: Result<()>|
                {
                    &&& #[trigger] self.links_staged(
                        &staged,
                        before,
                        grown,
                        dir,
                        links_of(dir.inode@).wrapping_add(1),
                        sealed,
                        reply,
                    )
                    &&& match reply {
                        Ok(_) => staged.name_counted_off(
                            after,
                            grown,
                            transaction,
                            change.existing,
                            change.last(),
                            outcome,
                        ),
                        Err(error) => {
                            &&& staged.idle(after)
                            &&& transaction == grown
                            &&& outcome == Err::<(), Ext4Error>(error)
                        },
                    }
                },
        }
    }

    /// What taking a name from an old parent calls, changes and returns, and what follows.
    pub open spec fn replace_lost(
        &self,
        after: &Self,
        before: Transaction,
        transaction: Transaction,
        dirs: RenameDirs,
        change: Replacement,
        outcome: Result<()>,
    ) -> bool {
        exists|staged: Self, grown: Transaction, sealed: InodeRef, reply: Result<()>|
            {
                &&& #[trigger] self.links_staged(
                    &staged,
                    before,
                    grown,
                    dirs.0,
                    links_of(dirs.0.inode@).wrapping_sub(1),
                    sealed,
                    reply,
                )
                &&& match reply {
                    Ok(_) => staged.replace_gained(
                        after,
                        grown,
                        transaction,
                        dirs,
                        change,
                        outcome,
                    ),
                    Err(error) => {
                        &&& staged.idle(after)
                        &&& transaction == grown
                        &&& outcome == Err::<(), Ext4Error>(error)
                    },
                }
            }
    }

    /// What follows on taking the old name away: a directory that changes its parent names the new
    /// one.
    pub open spec fn replace_moved(
        &self,
        after: &Self,
        before: Transaction,
        transaction: Transaction,
        dirs: RenameDirs,
        change: Replacement,
        outcome: Result<()>,
    ) -> bool {
        if !change.crossing {
            self.name_counted_off(
                after,
                before,
                transaction,
                change.existing,
                change.last(),
                outcome,
            )
        } else {
            exists|staged: Self, grown: Transaction, reply: Result<()>|
                {
                    &&& #[trigger] self.entry_replaced(
                        &staged,
                        before,
                        grown,
                        change.child,
                        ".."@,
                        change.new_parent,
                        FileType::Directory,
                        reply,
                    )
                    &&& match reply {
                        Ok(_) => staged.replace_lost(
                            after,
                            grown,
                            transaction,
                            dirs,
                            change,
                            outcome,
                        ),
                        Err(error) => {
                            &&& staged.idle(after)
                            &&& transaction == grown
                            &&& outcome == Err::<(), Ext4Error>(error)
                        },
                    }
                }
        }
    }

    /// Moves a directory to its new parent, and takes a name from the inode that is replaced.
    fn move_replaced(
        &mut self,
        transaction: &mut Transaction,
        dirs: &RenameDirs,
        change: &Replacement,
    ) -> (outcome: Result<()>)
        requires
            old(self).inv(),
            old(transaction).inv(),
        ensures
            final(self).state() == old(self).state(),
            final(transaction).inv(),
            final(transaction).deferred() == old(transaction).deferred(),
            old(self).replace_moved(
                final(self),
                *old(transaction),
                *final(transaction),
                *dirs,
                *change,
                outcome,
            ),
    {
        let last: bool = namespace_removal_is_final(
            change.existing.inode.is_dir(),
            change.existing.inode.link_count(),
        );
        if !change.crossing {
            return self.count_name_off(transaction, &change.existing, last);
        }
        let reply = self.transaction_dir_replace_entry(
            transaction,
            &change.child,
            "..",
            change.new_parent,
            FileType::Directory,
        );
        let ghost turned = *self;
        let ghost turned_tx = *transaction;
        assert(old(self).entry_replaced(
            &turned,
            *old(transaction),
            turned_tx,
            change.child,
            ".."@,
            change.new_parent,
            FileType::Directory,
            reply,
        ));
        match reply {
            Ok(_) => {},
            Err(error) => {
                return Err(error);
            },
        }
        let mut left = dirs.0;
        let links: u16 = left.inode.link_count();
        let reply = self.stage_links(transaction, &mut left, links.wrapping_sub(1));
        let ghost parted = *self;
        let ghost parted_tx = *transaction;
        assert(turned.links_staged(
            &parted,
            turned_tx,
            parted_tx,
            dirs.0,
            links_of(dirs.0.inode@).wrapping_sub(1),
            left,
            reply,
        ));
        match reply {
            Ok(_) => {},
            Err(error) => {
                assert(turned.replace_lost(
                    self,
                    turned_tx,
                    *transaction,
                    *dirs,
                    *change,
                    Err(error),
                ));
                return Err(error);
            },
        }
        let outcome = self.gain_replaced(transaction, dirs, change, last);
        assert(turned.replace_lost(self, turned_tx, *transaction, *dirs, *change, outcome));
        outcome
    }

    /// Gives the new parent one name more, and takes a name from the inode that is replaced.
    fn gain_replaced(
        &mut self,
        transaction: &mut Transaction,
        dirs: &RenameDirs,
        change: &Replacement,
        last: bool,
    ) -> (outcome: Result<()>)
        requires
            old(self).inv(),
            old(transaction).inv(),
            last == change.last(),
        ensures
            final(self).state() == old(self).state(),
            final(transaction).inv(),
            final(transaction).deferred() == old(transaction).deferred(),
            old(self).replace_gained(
                final(self),
                *old(transaction),
                *final(transaction),
                *dirs,
                *change,
                outcome,
            ),
    {
        let dir = match dirs.1 {
            Some(dir) => dir,
            None => {
                return Err(Ext4Error::new(ErrCode::EINVAL));
            },
        };
        let mut gained = dir;
        let links: u16 = dir.inode.link_count();
        let reply = self.stage_links(transaction, &mut gained, links.wrapping_add(1));
        let ghost staged = *self;
        let ghost staged_tx = *transaction;
        assert(old(self).links_staged(
            &staged,
            *old(transaction),
            staged_tx,
            dir,
            links_of(dir.inode@).wrapping_add(1),
            gained,
            reply,
        ));
        match reply {
            Ok(_) => self.count_name_off(transaction, &change.existing, last),
            Err(error) => Err(error),
        }
    }

    /// What taking the old name away calls, changes and returns, and what follows.
    pub open spec fn replace_removed(
        &self,
        after: &Self,
        before: Transaction,
        transaction: Transaction,
        dirs: RenameDirs,
        name: Seq<char>,
        change: Replacement,
        outcome: Result<()>,
    ) -> bool {
        exists|staged: Self, grown: Transaction, reply: Result<()>|
            {
                &&& #[trigger] self.entry_removed(&staged, before, grown, dirs.0, name, reply)
                &&& match reply {
                    Ok(_) => staged.replace_moved(
                        after,
                        grown,
                        transaction,
                        dirs,
                        change,
                        outcome,
                    ),
                    Err(error) => {
                        &&& staged.idle(after)
                        &&& transaction == grown
                        &&& outcome == Err::<(), Ext4Error>(error)
                    },
                }
            }
    }

    /// What follows on making a name stand for another inode: a directory that loses its name no
    /// longer names its parent.
    pub open spec fn replace_parted(
        &self,
        after: &Self,
        before: Transaction,
        transaction: Transaction,
        dirs: RenameDirs,
        name: Seq<char>,
        change: Replacement,
        outcome: Result<()>,
    ) -> bool {
        if !directory(change.existing) {
            self.replace_removed(after, before, transaction, dirs, name, change, outcome)
        } else {
            exists|staged: Self, grown: Transaction, sealed: InodeRef, reply: Result<()>|
                {
                    &&& #[trigger] self.links_staged(
                        &staged,
                        before,
                        grown,
                        target_of(dirs),
                        links_of(target_of(dirs).inode@).wrapping_sub(1),
                        sealed,
                        reply,
                    )
                    &&& match reply {
                        Ok(_) => staged.replace_removed(
                            after,
                            grown,
                            transaction,
                            with_target(dirs, sealed),
                            name,
                            change,
                            outcome,
                        ),
                        Err(error) => {
                            &&& staged.idle(after)
                            &&& transaction == grown
                            &&& outcome == Err::<(), Ext4Error>(error)
                        },
                    }
                }
        }
    }

    /// What staging a replacement calls, changes and returns: all of it belongs to one
    /// transaction.
    pub open spec fn replace_staged(
        &self,
        after: &Self,
        before: Transaction,
        transaction: Transaction,
        dirs: RenameDirs,
        name: Seq<char>,
        new_name: Seq<char>,
        change: Replacement,
        outcome: Result<()>,
    ) -> bool {
        exists|staged: Self, grown: Transaction, reply: Result<()>|
            {
                &&& #[trigger] self.entry_replaced(
                    &staged,
                    before,
                    grown,
                    target_of(dirs),
                    new_name,
                    change.child.id,
                    change.child.inode.kind(),
                    reply,
                )
                &&& match reply {
                    Ok(_) => staged.replace_parted(
                        after,
                        grown,
                        transaction,
                        dirs,
                        name,
                        change,
                        outcome,
                    ),
                    Err(error) => {
                        &&& staged.idle(after)
                        &&& transaction == grown
                        &&& outcome == Err::<(), Ext4Error>(error)
                    },
                }
            }
    }

    /// Stages a replacement.
    fn stage_replacement(
        &mut self,
        transaction: &mut Transaction,
        dirs: &RenameDirs,
        name: &str,
        new_name: &str,
        change: &Replacement,
    ) -> (outcome: Result<()>)
        requires
            old(self).inv(),
            old(transaction).inv(),
        ensures
            final(self).state() == old(self).state(),
            final(transaction).inv(),
            final(transaction).deferred() == old(transaction).deferred(),
            old(self).replace_staged(
                final(self),
                *old(transaction),
                *final(transaction),
                *dirs,
                name@,
                new_name@,
                *change,
                outcome,
            ),
    {
        let target = target_dir(dirs);
        let reply = self.transaction_dir_replace_entry(
            transaction,
            &target,
            new_name,
            change.child.id,
            change.child.inode.file_type(),
        );
        let ghost named = *self;
        let ghost named_tx = *transaction;
        assert(old(self).entry_replaced(
            &named,
            *old(transaction),
            named_tx,
            target_of(*dirs),
            new_name@,
            change.child.id,
            change.child.inode.kind(),
            reply,
        ));
        match reply {
            Ok(_) => {},
            Err(error) => {
                return Err(error);
            },
        }
        if !change.existing.inode.is_dir() {
            return self.stage_removal(transaction, dirs, name, change);
        }
        let mut parted = target;
        let links: u16 = target.inode.link_count();
        let reply = self.stage_links(transaction, &mut parted, links.wrapping_sub(1));
        let ghost counted = *self;
        let ghost counted_tx = *transaction;
        assert(named.links_staged(
            &counted,
            named_tx,
            counted_tx,
            target_of(*dirs),
            links_of(target_of(*dirs).inode@).wrapping_sub(1),
            parted,
            reply,
        ));
        let outcome: Result<()> = match reply {
            Ok(_) => {
                let changed = set_target(dirs, parted);
                self.stage_removal(transaction, &changed, name, change)
            },
            Err(error) => Err(error),
        };
        assert(named.replace_parted(
            self,
            named_tx,
            *transaction,
            *dirs,
            name@,
            *change,
            outcome,
        ));
        outcome
    }

    /// Stages the removal of the old name, and what follows.
    fn stage_removal(
        &mut self,
        transaction: &mut Transaction,
        dirs: &RenameDirs,
        name: &str,
        change: &Replacement,
    ) -> (outcome: Result<()>)
        requires
            old(self).inv(),
            old(transaction).inv(),
        ensures
            final(self).state() == old(self).state(),
            final(transaction).inv(),
            final(transaction).deferred() == old(transaction).deferred(),
            old(self).replace_removed(
                final(self),
                *old(transaction),
                *final(transaction),
                *dirs,
                name@,
                *change,
                outcome,
            ),
    {
        let reply = self.transaction_dir_remove_entry(transaction, &dirs.0, name);
        let ghost removed = *self;
        let ghost removed_tx = *transaction;
        assert(old(self).entry_removed(
            &removed,
            *old(transaction),
            removed_tx,
            dirs.0,
            name@,
            reply,
        ));
        match reply {
            Ok(_) => self.move_replaced(transaction, dirs, change),
            Err(error) => Err(error),
        }
    }

    /// What ending a replacement calls, changes and returns: changes of directories are committed
    /// at once.
    pub open spec fn replace_ended(
        &self,
        after: &Self,
        transaction: Transaction,
        change: Replacement,
        outcome: Result<Option<InodeReclaimHandle>>,
    ) -> bool {
        exists|reply: Result<()>, at_once: bool|
            {
                &&& #[trigger] self.names_settled(after, transaction, at_once, reply)
                &&& at_once == (change.child_is_dir || directory(change.existing))
                &&& outcome == match reply {
                    Ok(_) => Ok::<Option<InodeReclaimHandle>, Ext4Error>(
                        handle_of(change.existing, change.last()),
                    ),
                    Err(error) => Err(error),
                }
            }
    }

    /// What carrying out a replacement calls, changes and returns.
    pub open spec fn replace_run(
        &self,
        after: &Self,
        transaction: Transaction,
        dirs: RenameDirs,
        name: Seq<char>,
        new_name: Seq<char>,
        change: Replacement,
        outcome: Result<Option<InodeReclaimHandle>>,
    ) -> bool {
        exists|staged: Self, grown: Transaction, reply: Result<()>|
            {
                &&& #[trigger] self.replace_staged(
                    &staged,
                    transaction,
                    grown,
                    dirs,
                    name,
                    new_name,
                    change,
                    reply,
                )
                &&& match reply {
                    Ok(_) => staged.replace_ended(after, grown, change, outcome),
                    Err(error) => staged.given_up(after, grown) && outcome == Err::<
                        Option<InodeReclaimHandle>,
                        Ext4Error,
                    >(error),
                }
            }
    }

    /// The blocks that a replacement may change.
    pub open spec fn credits_to_replace(&self, change: Replacement) -> usize {
        replace_credits(
            change.crossing,
            directory(change.existing),
            change.last() && self.state().mode is Journal,
        )
    }

    /// What starting and carrying out a replacement calls, changes and returns.
    pub open spec fn replace_begun(
        &self,
        after: &Self,
        dirs: RenameDirs,
        name: Seq<char>,
        new_name: Seq<char>,
        change: Replacement,
        outcome: Result<Option<InodeReclaimHandle>>,
    ) -> bool {
        exists|begun: Self, reply: Result<Transaction>|
            {
                &&& #[trigger] self.begun_with_retry(
                    &begun,
                    self.credits_to_replace(change),
                    reply,
                )
                &&& match reply {
                    Ok(transaction) => begun.replace_run(
                        after,
                        transaction,
                        dirs,
                        name,
                        new_name,
                        change,
                        outcome,
                    ),
                    Err(error) => begun.idle(after) && outcome == Err::<
                        Option<InodeReclaimHandle>,
                        Ext4Error,
                    >(error),
                }
            }
    }

    /// Starts and carries out a replacement.
    fn run_replacement(
        &mut self,
        dirs: &RenameDirs,
        name: &str,
        new_name: &str,
        change: &Replacement,
    ) -> (outcome: Result<Option<InodeReclaimHandle>>)
        requires
            old(self).inv(),
        ensures
            final(self).inv(),
            final(self).state().gate == old(self).state().gate,
            old(self).replace_begun(
                final(self),
                *dirs,
                name@,
                new_name@,
                *change,
                outcome,
            ),
    {
        let existing_is_dir: bool = change.existing.inode.is_dir();
        let last: bool = namespace_removal_is_final(
            existing_is_dir,
            change.existing.inode.link_count(),
        );
        let parents: usize = if change.crossing {
            3
        } else if existing_is_dir {
            1
        } else {
            0
        };
        let head: usize = if last && self.uses_journal() {
            1
        } else {
            0
        };
        let reply = self.transaction_start_with_deferred_retry(3 + parents + head);
        let ghost begun = *self;
        let ghost answer = reply;
        assert(old(self).begun_with_retry(
            &begun,
            old(self).credits_to_replace(*change),
            answer,
        ));
        let mut transaction = match reply {
            Ok(transaction) => transaction,
            Err(error) => {
                return Err(error);
            },
        };
        let ghost started = transaction;
        let reply = self.stage_replacement(&mut transaction, dirs, name, new_name, change);
        let ghost staged = *self;
        let ghost grown = transaction;
        assert(begun.replace_staged(
            &staged,
            started,
            grown,
            *dirs,
            name@,
            new_name@,
            *change,
            reply,
        ));
        match reply {
            Ok(_) => {},
            Err(error) => {
                self.transaction_abort(transaction);
                assert(begun.replace_run(
                    self,
                    started,
                    *dirs,
                    name@,
                    new_name@,
                    *change,
                    Err(error),
                ));
                return Err(error);
            },
        }
        let at_once: bool = change.child_is_dir || existing_is_dir;
        let reply = self.settle_names(transaction, at_once);
        assert(staged.names_settled(self, grown, at_once, reply));
        let outcome: Result<Option<InodeReclaimHandle>> = match reply {
            Ok(_) => {
                if last {
                    Ok(
                        Some(
                            InodeReclaimHandle::new(
                                change.existing.id,
                                change.existing.inode.generation(),
                            ),
                        ),
                    )
                } else {
                    Ok(None)
                }
            },
            Err(error) => Err(error),
        };
        assert(staged.replace_ended(self, grown, *change, outcome));
        assert(begun.replace_run(
            self,
            started,
            *dirs,
            name@,
            new_name@,
            *change,
            outcome,
        ));
        outcome
    }
}

impl<D: BlockDevice, V: Volume<D>> Ext4<D, V> {
    /// What writing the number of names of an inode calls, changes and returns: when it fails,
    /// nothing may change any more.
    pub open spec fn links_written(
        &self,
        after: &Self,
        inode: InodeRef,
        links: u16,
        sealed: InodeRef,
        outcome: Result<()>,
    ) -> bool {
        exists|written: Self, counted: InodeRef, reply: Result<()>|
            {
                &&& #[trigger] self.inode_written(&written, counted, sealed, reply)
                &&& counted.id == inode.id
                &&& counted.inode@ == splice(inode.inode@, 26, le16(links))
                &&& written.or_gave_out(after, reply, outcome)
            }
    }

    /// A failure stopped every later change of metadata.
    pub open spec fn or_gave_out(
        &self,
        after: &Self,
        reply: Result<()>,
        outcome: Result<()>,
    ) -> bool {
        &&& outcome == reply
        &&& match reply {
            Ok(_) => self.idle(after),
            Err(_) => self.gave_out(after),
        }
    }

    /// Stops every later change of metadata after a failure.
    fn poison_on_error(&mut self, reply: Result<()>) -> (outcome: Result<()>)
        requires
            old(self).inv(),
        ensures
            final(self).inv(),
            old(self).frame_kept(final(self)),
            old(self).or_gave_out(final(self), reply, outcome),
    {
        if reply.is_err() {
            self.poison();
        }
        reply
    }

    /// Writes the number of names of an inode.
    fn write_links(&mut self, inode: &mut InodeRef, links: u16) -> (outcome: Result<()>)
        requires
            old(self).inv(),
        ensures
            final(self).inv(),
            old(self).frame_kept(final(self)),
            old(self).links_written(
                final(self),
                *old(inode),
                links,
                *final(inode),
                outcome,
            ),
    {
        inode.inode.set_link_count(links);
        let ghost counted = *inode;
        let reply = self.write_inode_with_csum(inode);
        let ghost written = *self;
        assert(old(self).inode_written(&written, counted, *inode, reply));
        self.poison_on_error(reply)
    }

    /// What making a name stand for another inode calls, changes and returns.
    pub open spec fn entry_rewritten(
        &self,
        after: &Self,
        dir: InodeRef,
        name: Seq<char>,
        target: InodeId,
        kind: FileType,
        outcome: Result<()>,
    ) -> bool {
        exists|asked: Self, reply: Result<()>|
            {
                &&& #[trigger] self.asked(
                    &asked,
                    LayerCall::ReplaceEntry { dir, name, target, kind, reply },
                )
                &&& asked.or_gave_out(after, reply, outcome)
            }
    }

    /// Makes a name stand for another inode.
    fn rewrite_entry(&mut self, dir: &InodeRef, name: &str, target: InodeId, kind: FileType) -> (
    outcome: Result<()>)
        requires
            old(self).inv(),
        ensures
            final(self).inv(),
            old(self).frame_kept(final(self)),
            old(self).entry_rewritten(final(self), *dir, name@, target, kind, outcome),
    {
        let reply = self.dir_replace_entry(dir, name, target, kind);
        let ghost asked = *self;
        assert(old(self).asked(
            &asked,
            LayerCall::ReplaceEntry { dir: *dir, name: name@, target, kind, reply },
        ));
        self.poison_on_error(reply)
    }

    /// What taking a name away calls, changes and returns.
    pub open spec fn entry_erased(
        &self,
        after: &Self,
        dir: InodeRef,
        name: Seq<char>,
        outcome: Result<()>,
    ) -> bool {
        exists|asked: Self, reply: Result<()>|
            {
                &&& #[trigger] self.asked(&asked, LayerCall::RemoveEntry { dir, name, reply })
                &&& asked.or_gave_out(after, reply, outcome)
            }
    }

    /// Takes a name away.
    fn erase_entry(&mut self, dir: &InodeRef, name: &str) -> (outcome: Result<()>)
        requires
            old(self).inv(),
        ensures
            final(self).inv(),
            old(self).frame_kept(final(self)),
            old(self).entry_erased(final(self), *dir, name@, outcome),
    {
        let reply = self.dir_remove_entry(dir, name);
        let ghost asked = *self;
        assert(old(self).asked(
            &asked,
            LayerCall::RemoveEntry { dir: *dir, name: name@, reply },
        ));
        self.poison_on_error(reply)
    }

    /// What counting the names of both parents of a directory that moved calls, changes and
    /// returns, once the first is counted.
    pub open spec fn parents_counted(
        &self,
        after: &Self,
        from: InodeRef,
        from_after: InodeRef,
        to: InodeRef,
        to_after: InodeRef,
        outcome: Result<()>,
    ) -> bool {
        exists|lost: Self, reply: Result<()>|
            {
                &&& #[trigger] self.links_written(
                    &lost,
                    from,
                    links_of(from.inode@).wrapping_sub(1),
                    from_after,
                    reply,
                )
                &&& match reply {
                    Ok(_) => lost.links_written(
                        after,
                        to,
                        links_of(to.inode@).wrapping_add(1),
                        to_after,
                        outcome,
                    ),
                    Err(error) => {
                        &&& lost.idle(after)
                        &&& to_after == to
                        &&& outcome == Err::<(), Ext4Error>(error)
                    },
                }
            }
    }

    /// What moving a directory from one parent to another calls, changes and returns.
    pub open spec fn dir_crossed(
        &self,
        after: &Self,
        child: InodeRef,
        new_parent: InodeId,
        from: InodeRef,
        from_after: InodeRef,
        to: InodeRef,
        to_after: InodeRef,
        outcome: Result<()>,
    ) -> bool {
        exists|turned: Self, reply: Result<()>|
            {
                &&& #[trigger] self.entry_rewritten(
                    &turned,
                    child,
                    ".."@,
                    new_parent,
                    FileType::Directory,
                    reply,
                )
                &&& match reply {
                    Ok(_) => turned.parents_counted(
                        after,
                        from,
                        from_after,
                        to,
                        to_after,
                        outcome,
                    ),
                    Err(error) => {
                        &&& turned.idle(after)
                        &&& from_after == from
                        &&& to_after == to
                        &&& outcome == Err::<(), Ext4Error>(error)
                    },
                }
            }
    }

    /// Moves a directory from one parent to another.
    fn cross_dir(
        &mut self,
        child: &InodeRef,
        new_parent: InodeId,
        from: &mut InodeRef,
        to: &mut InodeRef,
    ) -> (outcome: Result<()>)
        requires
            old(self).inv(),
        ensures
            final(self).inv(),
            old(self).frame_kept(final(self)),
            old(self).dir_crossed(
                final(self),
                *child,
                new_parent,
                *old(from),
                *final(from),
                *old(to),
                *final(to),
                outcome,
            ),
    {
        let reply = self.rewrite_entry(child, "..", new_parent, FileType::Directory);
        let ghost turned = *self;
        assert(old(self).entry_rewritten(
            &turned,
            *child,
            ".."@,
            new_parent,
            FileType::Directory,
            reply,
        ));
        match reply {
            Ok(_) => {},
            Err(error) => {
                return Err(error);
            },
        }
        let links: u16 = from.inode.link_count();
        let reply = self.write_links(from, links.wrapping_sub(1));
        let ghost lost = *self;
        assert(turned.links_written(
            &lost,
            *old(from),
            links_of(old(from).inode@).wrapping_sub(1),
            *from,
            reply,
        ));
        let outcome: Result<()> = match reply {
            Ok(_) => {
                let links: u16 = to.inode.link_count();
                self.write_links(to, links.wrapping_add(1))
            },
            Err(error) => Err(error),
        };
        assert(turned.parents_counted(
            self,
            *old(from),
            *from,
            *old(to),
            *to,
            outcome,
        ));
        outcome
    }

    /// What follows on taking the old name of an inode away.
    pub open spec fn move_crossed(
        &self,
        after: &Self,
        dirs: RenameDirs,
        child: InodeRef,
        new_parent: InodeId,
        crossing: bool,
        outcome: Result<()>,
    ) -> bool {
        if !crossing {
            self.idle(after) && outcome == Ok::<(), Ext4Error>(())
        } else {
            match dirs.1 {
                None => self.idle(after) && outcome == failed::<()>(ErrCode::EINVAL),
                Some(to) => exists|from_after: InodeRef, to_after: InodeRef| #[trigger]
                    self.dir_crossed(
                        after,
                        child,
                        new_parent,
                        dirs.0,
                        from_after,
                        to,
                        to_after,
                        outcome,
                    ),
            }
        }
    }

    /// What follows on giving an inode its new name.
    pub open spec fn move_erased(
        &self,
        after: &Self,
        dirs: RenameDirs,
        name: Seq<char>,
        child: InodeRef,
        new_parent: InodeId,
        crossing: bool,
        outcome: Result<()>,
    ) -> bool {
        exists|erased: Self, reply: Result<()>|
            {
                &&& #[trigger] self.entry_erased(&erased, dirs.0, name, reply)
                &&& match reply {
                    Ok(_) => erased.move_crossed(
                        after,
                        dirs,
                        child,
                        new_parent,
                        crossing,
                        outcome,
                    ),
                    Err(error) => erased.idle(after) && outcome == Err::<(), Ext4Error>(error),
                }
            }
    }

    /// What moving a name to a place that is free calls, changes and returns: the new name comes
    /// first, and a failure behind it stops every later change of metadata.
    pub open spec fn name_moved(
        &self,
        after: &Self,
        dirs: RenameDirs,
        name: Seq<char>,
        new_name: Seq<char>,
        child: InodeRef,
        new_parent: InodeId,
        crossing: bool,
        outcome: Result<()>,
    ) -> bool {
        exists|added: Self, grown: InodeRef, reply: core::result::Result<(), DirAddFailure>|
            {
                &&& #[trigger] self.asked(
                    &added,
                    LayerCall::AddEntry {
                        dir: target_of(dirs),
                        child,
                        name: new_name,
                        after: grown,
                        reply,
                    },
                )
                &&& match reply {
                    Ok(_) => added.move_erased(
                        after,
                        with_target(dirs, grown),
                        name,
                        child,
                        new_parent,
                        crossing,
                        outcome,
                    ),
                    Err(DirAddFailure::Unmodified(error)) => {
                        &&& added.idle(after)
                        &&& outcome == Err::<(), Ext4Error>(error)
                    },
                    Err(DirAddFailure::Indeterminate(error)) => {
                        &&& added.gave_out(after)
                        &&& outcome == Err::<(), Ext4Error>(error)
                    },
                }
            }
    }

    /// Moves a name to a place that is free.
    fn move_name(
        &mut self,
        dirs: &RenameDirs,
        name: &str,
        new_name: &str,
        child: &InodeRef,
        new_parent: InodeId,
        crossing: bool,
    ) -> (outcome: Result<()>)
        requires
            old(self).inv(),
        ensures
            final(self).inv(),
            old(self).frame_kept(final(self)),
            old(self).name_moved(
                final(self),
                *dirs,
                name@,
                new_name@,
                *child,
                new_parent,
                crossing,
                outcome,
            ),
    {
        let mut target = target_dir(dirs);
        let reply = self.dir_add_entry(&mut target, child, new_name);
        let ghost added = *self;
        assert(old(self).asked(
            &added,
            LayerCall::AddEntry {
                dir: target_of(*dirs),
                child: *child,
                name: new_name@,
                after: target,
                reply,
            },
        ));
        match reply {
            Ok(_) => {},
            Err(DirAddFailure::Unmodified(error)) => {
                return Err(error);
            },
            Err(DirAddFailure::Indeterminate(error)) => {
                self.poison();
                return Err(error);
            },
        }
        let changed = set_target(dirs, target);
        let reply = self.erase_entry(&changed.0, name);
        let ghost erased = *self;
        assert(added.entry_erased(&erased, changed.0, name@, reply));
        let outcome: Result<()> = match reply {
            Ok(_) => {
                if crossing {
                    match changed.1 {
                        Some(dir) => {
                            let mut from = changed.0;
                            let mut to = dir;
                            let outcome = self.cross_dir(child, new_parent, &mut from, &mut to);
                            assert(erased.dir_crossed(
                                self,
                                *child,
                                new_parent,
                                changed.0,
                                from,
                                dir,
                                to,
                                outcome,
                            ));
                            outcome
                        },
                        None => Err(Ext4Error::new(ErrCode::EINVAL)),
                    }
                } else {
                    Ok(())
                }
            },
            Err(error) => Err(error),
        };
        assert(added.move_erased(
            self,
            changed,
            name@,
            *child,
            new_parent,
            crossing,
            outcome,
        ));
        outcome
    }

    /// What reading a second directory anew calls and returns.
    pub open spec fn second_dir_read(
        &self,
        after: &Self,
        first: InodeRef,
        id: InodeId,
        outcome: Result<RenameDirs>,
    ) -> bool {
        exists|dir: Result<InodeRef>|
            {
                &&& #[trigger] self.inode_read(after, id, dir)
                &&& outcome == match dir {
                    Ok(second) => Ok::<RenameDirs, Ext4Error>((first, Some(second))),
                    Err(error) => Err(error),
                }
            }
    }

    /// What reading the directories of a move anew calls and returns.
    pub open spec fn dirs_read(
        &self,
        after: &Self,
        parent: InodeId,
        new_parent: InodeId,
        outcome: Result<RenameDirs>,
    ) -> bool {
        exists|read: Self, dir: Result<InodeRef>|
            {
                &&& #[trigger] self.inode_read(&read, parent, dir)
                &&& match dir {
                    Ok(first) => if parent == new_parent {
                        read.idle(after) && outcome == Ok::<RenameDirs, Ext4Error>((first, None))
                    } else {
                        read.second_dir_read(after, first, new_parent, outcome)
                    },
                    Err(error) => read.idle(after) && outcome == Err::<RenameDirs, Ext4Error>(
                        error,
                    ),
                }
            }
    }

    /// Reads the directories of a move anew.
    fn read_dirs(&mut self, parent: InodeId, new_parent: InodeId) -> (outcome: Result<RenameDirs>)
        requires
            old(self).inv(),
        ensures
            final(self).state() == old(self).state(),
            old(self).dirs_read(final(self), parent, new_parent, outcome),
    {
        let dir = self.read_inode(parent);
        let ghost read = *self;
        assert(old(self).inode_read(&read, parent, dir));
        let first = match dir {
            Ok(first) => first,
            Err(error) => {
                return Err(error);
            },
        };
        if parent == new_parent {
            return Ok((first, None));
        }
        let dir = self.read_inode(new_parent);
        assert(read.inode_read(self, new_parent, dir));
        let outcome: Result<RenameDirs> = match dir {
            Ok(second) => Ok((first, Some(second))),
            Err(error) => Err(error),
        };
        assert(read.second_dir_read(self, first, new_parent, outcome));
        outcome
    }
}

/// A move of a name, as it was asked for, and what was found out about it.
pub struct Move {
    pub parent: InodeId,
    pub new_parent: InodeId,
    /// The inode whose name moves.
    pub child: InodeId,
    /// Whether that is a directory.
    pub child_is_dir: bool,
    /// The inode that the new name stands for.
    pub existing: Option<InodeId>,
}

impl Move {
    /// Whether a directory changes its parent.
    pub open spec fn crossing(&self) -> bool {
        self.child_is_dir && self.parent != self.new_parent
    }
}

/// The outcome of a move that replaces nothing.
pub open spec fn nothing_replaced(outcome: Result<()>) -> Result<Option<InodeReclaimHandle>> {
    match outcome {
        Ok(_) => Ok(None),
        Err(error) => Err(error),
    }
}

impl<D: BlockDevice, V: Volume<D>> Ext4<D, V> {
    /// What replacing an inode that was read calls, changes and returns.
    pub open spec fn target_replaced(
        &self,
        after: &Self,
        dirs: RenameDirs,
        name: Seq<char>,
        new_name: Seq<char>,
        change: Replacement,
        outcome: Result<Option<InodeReclaimHandle>>,
    ) -> bool {
        exists|checked: Self, reply: Result<()>|
            {
                &&& #[trigger] self.replacement_checked(
                    &checked,
                    change.child_is_dir,
                    change.existing,
                    reply,
                )
                &&& match reply {
                    Ok(_) => checked.replace_begun(
                        after,
                        dirs,
                        name,
                        new_name,
                        change,
                        outcome,
                    ),
                    Err(error) => checked.idle(after) && outcome == Err::<
                        Option<InodeReclaimHandle>,
                        Ext4Error,
                    >(error),
                }
            }
    }

    /// What replacing an inode calls, changes and returns.
    pub open spec fn target_opened(
        &self,
        after: &Self,
        dirs: RenameDirs,
        name: Seq<char>,
        new_name: Seq<char>,
        asked: Move,
        child: InodeRef,
        existing: InodeId,
        outcome: Result<Option<InodeReclaimHandle>>,
    ) -> bool {
        exists|read: Self, found: Result<InodeRef>|
            {
                &&& #[trigger] self.inode_read(&read, existing, found)
                &&& match found {
                    Ok(inode) => read.target_replaced(
                        after,
                        dirs,
                        name,
                        new_name,
                        (Replacement {
                            child,
                            child_is_dir: asked.child_is_dir,
                            crossing: asked.crossing(),
                            new_parent: asked.new_parent,
                            existing: inode,
                        }),
                        outcome,
                    ),
                    Err(error) => read.idle(after) && outcome == Err::<
                        Option<InodeReclaimHandle>,
                        Ext4Error,
                    >(error),
                }
            }
    }

    /// What moving the name of an inode that was read calls, changes and returns.
    pub open spec fn move_decided(
        &self,
        after: &Self,
        dirs: RenameDirs,
        name: Seq<char>,
        new_name: Seq<char>,
        asked: Move,
        child: InodeRef,
        outcome: Result<Option<InodeReclaimHandle>>,
    ) -> bool {
        match asked.existing {
            Some(existing) => if existing == asked.child {
                self.idle(after) && outcome == Ok::<Option<InodeReclaimHandle>, Ext4Error>(None)
            } else {
                self.target_opened(
                    after,
                    dirs,
                    name,
                    new_name,
                    asked,
                    child,
                    existing,
                    outcome,
                )
            },
            None => exists|moved: Result<()>|
                {
                    &&& #[trigger] self.name_moved(
                        after,
                        dirs,
                        name,
                        new_name,
                        child,
                        asked.new_parent,
                        asked.crossing(),
                        moved,
                    )
                    &&& outcome == nothing_replaced(moved)
                },
        }
    }

    /// Moves the name of an inode that was read.
    fn decide_move(
        &mut self,
        dirs: &RenameDirs,
        name: &str,
        new_name: &str,
        asked: &Move,
        child: &InodeRef,
    ) -> (outcome: Result<Option<InodeReclaimHandle>>)
        requires
            old(self).inv(),
        ensures
            final(self).inv(),
            final(self).state().gate == old(self).state().gate,
            old(self).move_decided(
                final(self),
                *dirs,
                name@,
                new_name@,
                *asked,
                *child,
                outcome,
            ),
    {
        let crossing: bool = asked.child_is_dir && asked.parent != asked.new_parent;
        match asked.existing {
            Some(existing) => {
                if existing == asked.child {
                    return Ok(None);
                }
                let found = self.read_inode(existing);
                let ghost read = *self;
                assert(old(self).inode_read(&read, existing, found));
                let inode = match found {
                    Ok(inode) => inode,
                    Err(error) => {
                        return Err(error);
                    },
                };
                let change = Replacement {
                    child: *child,
                    child_is_dir: asked.child_is_dir,
                    crossing,
                    new_parent: asked.new_parent,
                    existing: inode,
                };
                let reply = self.check_replacement(asked.child_is_dir, &inode);
                let ghost checked = *self;
                assert(read.replacement_checked(
                    &checked,
                    change.child_is_dir,
                    change.existing,
                    reply,
                ));
                let outcome: Result<Option<InodeReclaimHandle>> = match reply {
                    Ok(_) => self.run_replacement(dirs, name, new_name, &change),
                    Err(error) => Err(error),
                };
                assert(read.target_replaced(
                    self,
                    *dirs,
                    name@,
                    new_name@,
                    change,
                    outcome,
                ));
                outcome
            },
            None => {
                let moved = self.move_name(
                    dirs,
                    name,
                    new_name,
                    child,
                    asked.new_parent,
                    crossing,
                );
                assert(old(self).name_moved(
                    self,
                    *dirs,
                    name@,
                    new_name@,
                    *child,
                    asked.new_parent,
                    asked.crossing(),
                    moved,
                ));
                match moved {
                    Ok(_) => Ok(None),
                    Err(error) => Err(error),
                }
            },
        }
    }

    /// What follows on reading the directories of a move anew.
    pub open spec fn move_child_read(
        &self,
        after: &Self,
        dirs: RenameDirs,
        name: Seq<char>,
        new_name: Seq<char>,
        asked: Move,
        outcome: Result<Option<InodeReclaimHandle>>,
    ) -> bool {
        exists|read: Self, found: Result<InodeRef>|
            {
                &&& #[trigger] self.inode_read(&read, asked.child, found)
                &&& match found {
                    Ok(child) => read.move_decided(
                        after,
                        dirs,
                        name,
                        new_name,
                        asked,
                        child,
                        outcome,
                    ),
                    Err(error) => read.idle(after) && outcome == Err::<
                        Option<InodeReclaimHandle>,
                        Ext4Error,
                    >(error),
                }
            }
    }

    /// What a move calls, changes and returns, inside the barrier.
    pub open spec fn move_made(
        &self,
        after: &Self,
        name: Seq<char>,
        new_name: Seq<char>,
        asked: Move,
        outcome: Result<Option<InodeReclaimHandle>>,
    ) -> bool {
        exists|read: Self, dirs: Result<RenameDirs>|
            {
                &&& #[trigger] self.dirs_read(&read, asked.parent, asked.new_parent, dirs)
                &&& match dirs {
                    Ok(dirs) => read.move_child_read(
                        after,
                        dirs,
                        name,
                        new_name,
                        asked,
                        outcome,
                    ),
                    Err(error) => read.idle(after) && outcome == Err::<
                        Option<InodeReclaimHandle>,
                        Ext4Error,
                    >(error),
                }
            }
    }

    /// Makes a move, inside the barrier.
    fn make_move(&mut self, name: &str, new_name: &str, asked: &Move) -> (outcome: Result<
        Option<InodeReclaimHandle>,
    >)
        requires
            old(self).inv(),
        ensures
            final(self).inv(),
            final(self).state().gate == old(self).state().gate,
            old(self).move_made(final(self), name@, new_name@, *asked, outcome),
    {
        let dirs = self.read_dirs(asked.parent, asked.new_parent);
        let ghost read = *self;
        assert(old(self).dirs_read(&read, asked.parent, asked.new_parent, dirs));
        let dirs = match dirs {
            Ok(dirs) => dirs,
            Err(error) => {
                return Err(error);
            },
        };
        let found = self.read_inode(asked.child);
        let ghost opened = *self;
        assert(read.inode_read(&opened, asked.child, found));
        let outcome: Result<Option<InodeReclaimHandle>> = match found {
            Ok(child) => self.decide_move(&dirs, name, new_name, asked, &child),
            Err(error) => Err(error),
        };
        assert(read.move_child_read(self, dirs, name@, new_name@, *asked, outcome));
        outcome
    }

    /// What a move calls, changes and returns, with the barrier: the journal takes a replacement, and
    /// a move to a free place is made directly.
    pub open spec fn move_gated(
        &self,
        after: &Self,
        name: Seq<char>,
        new_name: Seq<char>,
        asked: Move,
        outcome: Result<Option<InodeReclaimHandle>>,
    ) -> bool {
        if asked.existing is Some {
            self.with_exclusive_gate(
                after,
                |inside: Self, left: Self, outcome: Result<Option<InodeReclaimHandle>>|
                    inside.move_made(&left, name, new_name, asked, outcome),
                outcome,
            )
        } else {
            self.with_direct_gate(
                after,
                |inside: Self, left: Self, outcome: Result<Option<InodeReclaimHandle>>|
                    inside.move_made(&left, name, new_name, asked, outcome),
                outcome,
            )
        }
    }

    /// Makes a move, with the barrier.
    fn gate_move(&mut self, name: &str, new_name: &str, asked: &Move) -> (outcome: Result<
        Option<InodeReclaimHandle>,
    >)
        requires
            old(self).inv(),
        ensures
            final(self).inv(),
            final(self).state().gate == old(self).state().gate,
            old(self).move_gated(final(self), name@, new_name@, *asked, outcome),
    {
        if asked.existing.is_some() {
            let lock = self.lock_transactional_metadata_mutation();
            let ghost inside = *self;
            assert(old(self).exclusive_entered(&inside, lock));
            match lock {
                Ok(_) => {},
                Err(error) => {
                    return Err(error);
                },
            }
            let outcome = self.make_move(name, new_name, asked);
            self.unlock_transactional_metadata_mutation();
            return outcome;
        }
        let lock = self.lock_direct_metadata_mutation();
        let ghost inside = *self;
        assert(old(self).direct_entered(&inside, lock));
        match lock {
            Ok(_) => {},
            Err(error) => {
                return Err(error);
            },
        }
        let outcome = self.make_move(name, new_name, asked);
        self.unlock_direct_metadata_mutation();
        outcome
    }

    /// What asking what the new name stands for, and what follows, calls, changes and returns.
    pub open spec fn move_targeted(
        &self,
        after: &Self,
        parent: InodeId,
        name: Seq<char>,
        new_parent: InodeId,
        new_name: Seq<char>,
        dirs: RenameDirs,
        child: InodeRef,
        outcome: Result<Option<InodeReclaimHandle>>,
    ) -> bool {
        exists|asked: Self, found: Result<InodeId>|
            {
                &&& #[trigger] self.asked(
                    &asked,
                    LayerCall::FindEntry { dir: target_of(dirs), name: new_name, reply: found },
                )
                &&& asked.move_gated(
                    after,
                    name,
                    new_name,
                    (Move {
                        parent,
                        new_parent,
                        child: child.id,
                        child_is_dir: directory(child),
                        existing: match found {
                            Ok(id) => Some(id),
                            Err(_) => None,
                        },
                    }),
                    outcome,
                )
            }
    }

    /// What checking that a directory does not move below itself calls and returns.
    pub open spec fn cycle_checked(
        &self,
        after: &Self,
        child: InodeRef,
        new_parent: InodeId,
        crossing: bool,
        outcome: Result<()>,
    ) -> bool {
        if directory(child) && crossing {
            self.ancestors_checked(
                after,
                child.id,
                new_parent,
                ANCESTOR_MAX_STEPS as nat,
                outcome,
            )
        } else {
            self.idle(after) && outcome == Ok::<(), Ext4Error>(())
        }
    }

    /// Checks that a directory does not move below itself.
    fn check_cycle(&mut self, child: &InodeRef, new_parent: InodeId, crossing: bool) -> (outcome:
        Result<()>)
        requires
            old(self).inv(),
        ensures
            final(self).state() == old(self).state(),
            old(self).cycle_checked(final(self), *child, new_parent, crossing, outcome),
    {
        if child.inode.is_dir() && crossing {
            return self.check_ancestor_cycle(child.id, new_parent);
        }
        Ok(())
    }

    /// What moving a name of an inode that was read calls, changes and returns.
    pub open spec fn move_checked(
        &self,
        after: &Self,
        parent: InodeId,
        name: Seq<char>,
        new_parent: InodeId,
        new_name: Seq<char>,
        dirs: RenameDirs,
        child: InodeRef,
        outcome: Result<Option<InodeReclaimHandle>>,
    ) -> bool {
        exists|checked: Self, crossing: bool, reply: Result<()>|
            {
                &&& #[trigger] self.cycle_checked(&checked, child, new_parent, crossing, reply)
                &&& crossing == (parent != new_parent)
                &&& match reply {
                    Ok(_) => checked.move_targeted(
                        after,
                        parent,
                        name,
                        new_parent,
                        new_name,
                        dirs,
                        child,
                        outcome,
                    ),
                    Err(error) => checked.idle(after) && outcome == Err::<
                        Option<InodeReclaimHandle>,
                        Ext4Error,
                    >(error),
                }
            }
    }

    /// What finding the inode of a name, and what follows, calls, changes and returns.
    pub open spec fn move_found(
        &self,
        after: &Self,
        parent: InodeId,
        name: Seq<char>,
        new_parent: InodeId,
        new_name: Seq<char>,
        dirs: RenameDirs,
        outcome: Result<Option<InodeReclaimHandle>>,
    ) -> bool {
        exists|found: Self, child: Result<InodeRef>|
            {
                &&& #[trigger] self.child_found(&found, dirs.0, name, child)
                &&& match child {
                    Ok(child) => found.move_checked(
                        after,
                        parent,
                        name,
                        new_parent,
                        new_name,
                        dirs,
                        child,
                        outcome,
                    ),
                    Err(error) => found.idle(after) && outcome == Err::<
                        Option<InodeReclaimHandle>,
                        Ext4Error,
                    >(error),
                }
            }
    }

    /// What finding the inode of a name calls and returns.
    pub open spec fn child_found(
        &self,
        after: &Self,
        dir: InodeRef,
        name: Seq<char>,
        outcome: Result<InodeRef>,
    ) -> bool {
        exists|asked: Self, found: Result<InodeId>|
            {
                &&& #[trigger] self.asked(
                    &asked,
                    LayerCall::FindEntry { dir, name, reply: found },
                )
                &&& match found {
                    Ok(id) => asked.inode_read(after, id, outcome),
                    Err(error) => asked.idle(after) && outcome == Err::<InodeRef, Ext4Error>(
                        error,
                    ),
                }
            }
    }

    /// Finds the inode of a name.
    fn find_child(&mut self, dir: &InodeRef, name: &str) -> (outcome: Result<InodeRef>)
        requires
            old(self).inv(),
        ensures
            final(self).state() == old(self).state(),
            old(self).child_found(final(self), *dir, name@, outcome),
    {
        let found = self.dir_find_entry(dir, name);
        let ghost asked = *self;
        assert(old(self).asked(
            &asked,
            LayerCall::FindEntry { dir: *dir, name: name@, reply: found },
        ));
        match found {
            Ok(id) => self.read_inode(id),
            Err(error) => Err(error),
        }
    }

    /// What moving a name calls, changes and returns.
    pub open spec fn renamed(
        &self,
        after: &Self,
        parent: InodeId,
        name: Seq<char>,
        new_parent: InodeId,
        new_name: Seq<char>,
        outcome: Result<Option<InodeReclaimHandle>>,
    ) -> bool {
        if !self.state().mutable() {
            self.idle(after) && outcome == failed::<Option<InodeReclaimHandle>>(ErrCode::EROFS)
        } else {
            exists|opened: Self, dirs: Result<RenameDirs>|
                {
                    &&& #[trigger] self.dirs_opened(&opened, parent, new_parent, dirs)
                    &&& match dirs {
                        Ok(dirs) => opened.move_found(
                            after,
                            parent,
                            name,
                            new_parent,
                            new_name,
                            dirs,
                            outcome,
                        ),
                        Err(error) => opened.idle(after) && outcome == Err::<
                            Option<InodeReclaimHandle>,
                            Ext4Error,
                        >(error),
                    }
                }
        }
    }

    /// Moves a name; an inode that the new name stood for loses it.
    ///
    /// Nothing happens where both names stand for one inode. A directory takes the place of an
    /// empty directory only, and another file that of a file that is no directory.
    pub fn rename(
        &mut self,
        parent: InodeId,
        name: &str,
        new_parent: InodeId,
        new_name: &str,
    ) -> (outcome: Result<Option<InodeReclaimHandle>>)
        requires
            old(self).inv(),
        ensures
            final(self).inv(),
            final(self).state().gate == old(self).state().gate,
            old(self).renamed(
                final(self),
                parent,
                name@,
                new_parent,
                new_name@,
                outcome,
            ),
    {
        match self.ensure_mutable() {
            Ok(_) => {},
            Err(error) => {
                return Err(error);
            },
        }
        let dirs = self.read_rename_dirs(parent, new_parent);
        let ghost opened = *self;
        assert(old(self).dirs_opened(&opened, parent, new_parent, dirs));
        let dirs = match dirs {
            Ok(dirs) => dirs,
            Err(error) => {
                return Err(error);
            },
        };
        let child = self.find_child(&dirs.0, name);
        let ghost found = *self;
        assert(opened.child_found(&found, dirs.0, name@, child));
        let outcome: Result<Option<InodeReclaimHandle>> = match child {
            Ok(child) => self.rename_child(parent, name, new_parent, new_name, &dirs, &child),
            Err(error) => Err(error),
        };
        assert(opened.move_found(
            self,
            parent,
            name@,
            new_parent,
            new_name@,
            dirs,
            outcome,
        ));
        outcome
    }

    /// Moves a name of an inode that was read.
    fn rename_child(
        &mut self,
        parent: InodeId,
        name: &str,
        new_parent: InodeId,
        new_name: &str,
        dirs: &RenameDirs,
        child: &InodeRef,
    ) -> (outcome: Result<Option<InodeReclaimHandle>>)
        requires
            old(self).inv(),
        ensures
            final(self).inv(),
            final(self).state().gate == old(self).state().gate,
            old(self).move_checked(
                final(self),
                parent,
                name@,
                new_parent,
                new_name@,
                *dirs,
                *child,
                outcome,
            ),
    {
        let crossing: bool = parent != new_parent;
        let reply = self.check_cycle(child, new_parent, crossing);
        let ghost checked = *self;
        assert(old(self).cycle_checked(&checked, *child, new_parent, crossing, reply));
        match reply {
            Ok(_) => {},
            Err(error) => {
                return Err(error);
            },
        }
        let target = target_dir(dirs);
        let found = self.dir_find_entry(&target, new_name);
        let ghost looked_up = *self;
        assert(checked.asked(
            &looked_up,
            LayerCall::FindEntry { dir: target_of(*dirs), name: new_name@, reply: found },
        ));
        let asked = Move {
            parent,
            new_parent,
            child: child.id,
            child_is_dir: child.inode.is_dir(),
            existing: match found {
                Ok(id) => Some(id),
                Err(_) => None,
            },
        };
        let outcome = self.gate_move(name, new_name, &asked);
        assert(checked.move_targeted(
            self,
            parent,
            name@,
            new_parent,
            new_name@,
            *dirs,
            *child,
            outcome,
        ));
        outcome
    }
}

/// Two names that are to be exchanged.
pub struct Exchange {
    pub parent: InodeId,
    pub new_parent: InodeId,
    /// The inode of the first name.
    pub source: InodeRef,
    /// The inode of the second name.
    pub target: InodeRef,
}

impl<D: BlockDevice, V: Volume<D>> Ext4<D, V> {
    /// What moving the second inode to the first directory calls, changes and returns.
    pub open spec fn swap_returned(
        &self,
        after: &Self,
        first: InodeRef,
        second: InodeRef,
        swap: Exchange,
        outcome: Result<()>,
    ) -> bool {
        if directory(swap.target) {
            exists|from_after: InodeRef, to_after: InodeRef| #[trigger]
                self.dir_crossed(
                    after,
                    swap.target,
                    swap.parent,
                    second,
                    from_after,
                    first,
                    to_after,
                    outcome,
                )
        } else {
            self.idle(after) && outcome == Ok::<(), Ext4Error>(())
        }
    }

    /// What moving the first inode to the second directory, and what follows, calls, changes and
    /// returns.
    pub open spec fn swap_gone(
        &self,
        after: &Self,
        first: InodeRef,
        second: InodeRef,
        swap: Exchange,
        outcome: Result<()>,
    ) -> bool {
        if directory(swap.source) {
            exists|moved: Self, first_after: InodeRef, second_after: InodeRef, reply: Result<()>|
                {
                    &&& #[trigger] self.dir_crossed(
                        &moved,
                        swap.source,
                        swap.new_parent,
                        first,
                        first_after,
                        second,
                        second_after,
                        reply,
                    )
                    &&& match reply {
                        Ok(_) => moved.swap_returned(
                            after,
                            first_after,
                            second_after,
                            swap,
                            outcome,
                        ),
                        Err(error) => moved.idle(after) && outcome == Err::<(), Ext4Error>(error),
                    }
                }
        } else {
            self.swap_returned(after, first, second, swap, outcome)
        }
    }

    /// What follows on exchanging two names: directories that change their parent.
    pub open spec fn swap_crossed(
        &self,
        after: &Self,
        dirs: RenameDirs,
        swap: Exchange,
        outcome: Result<()>,
    ) -> bool {
        match dirs.1 {
            None => self.idle(after) && outcome == Ok::<(), Ext4Error>(()),
            Some(second) => self.swap_gone(after, dirs.0, second, swap, outcome),
        }
    }

    /// Moves directories that change their parent.
    fn cross_swap(&mut self, dirs: &RenameDirs, swap: &Exchange) -> (outcome: Result<()>)
        requires
            old(self).inv(),
        ensures
            final(self).inv(),
            old(self).frame_kept(final(self)),
            old(self).swap_crossed(final(self), *dirs, *swap, outcome),
    {
        let mut second = match dirs.1 {
            Some(second) => second,
            None => {
                return Ok(());
            },
        };
        let mut first = dirs.0;
        if swap.source.inode.is_dir() {
            let ghost earlier = (first, second);
            let reply = self.cross_dir(&swap.source, swap.new_parent, &mut first, &mut second);
            assert(old(self).dir_crossed(
                self,
                swap.source,
                swap.new_parent,
                earlier.0,
                first,
                earlier.1,
                second,
                reply,
            ));
            match reply {
                Ok(_) => {},
                Err(error) => {
                    return Err(error);
                },
            }
        }
        let ghost moved = *self;
        let ghost between = (first, second);
        let outcome: Result<()> = if swap.target.inode.is_dir() {
            let outcome = self.cross_dir(&swap.target, swap.parent, &mut second, &mut first);
            assert(moved.dir_crossed(
                self,
                swap.target,
                swap.parent,
                between.1,
                second,
                between.0,
                first,
                outcome,
            ));
            outcome
        } else {
            Ok(())
        };
        assert(moved.swap_returned(self, between.0, between.1, *swap, outcome));
        outcome
    }

    /// What making the second name stand for the first inode, and what follows, calls, changes and
    /// returns.
    pub open spec fn swap_second(
        &self,
        after: &Self,
        dirs: RenameDirs,
        new_name: Seq<char>,
        swap: Exchange,
        outcome: Result<()>,
    ) -> bool {
        exists|rewritten: Self, reply: Result<()>|
            {
                &&& #[trigger] self.entry_rewritten(
                    &rewritten,
                    target_of(dirs),
                    new_name,
                    swap.source.id,
                    swap.source.inode.kind(),
                    reply,
                )
                &&& match reply {
                    Ok(_) => rewritten.swap_crossed(after, dirs, swap, outcome),
                    Err(error) => rewritten.idle(after) && outcome == Err::<(), Ext4Error>(error),
                }
            }
    }

    /// What exchanging two names calls, changes and returns: neither is ever missing.
    pub open spec fn swap_written(
        &self,
        after: &Self,
        dirs: RenameDirs,
        name: Seq<char>,
        new_name: Seq<char>,
        swap: Exchange,
        outcome: Result<()>,
    ) -> bool {
        exists|rewritten: Self, reply: Result<()>|
            {
                &&& #[trigger] self.entry_rewritten(
                    &rewritten,
                    dirs.0,
                    name,
                    swap.target.id,
                    swap.target.inode.kind(),
                    reply,
                )
                &&& match reply {
                    Ok(_) => rewritten.swap_second(after, dirs, new_name, swap, outcome),
                    Err(error) => rewritten.idle(after) && outcome == Err::<(), Ext4Error>(error),
                }
            }
    }

    /// Exchanges two names.
    fn write_swap(&mut self, dirs: &RenameDirs, name: &str, new_name: &str, swap: &Exchange) -> (
    outcome: Result<()>)
        requires
            old(self).inv(),
        ensures
            final(self).inv(),
            old(self).frame_kept(final(self)),
            old(self).swap_written(final(self), *dirs, name@, new_name@, *swap, outcome),
    {
        let reply = self.rewrite_entry(&dirs.0, name, swap.target.id, swap.target.inode.file_type());
        let ghost first = *self;
        assert(old(self).entry_rewritten(
            &first,
            dirs.0,
            name@,
            swap.target.id,
            swap.target.inode.kind(),
            reply,
        ));
        match reply {
            Ok(_) => {},
            Err(error) => {
                return Err(error);
            },
        }
        let target = target_dir(dirs);
        let reply = self.rewrite_entry(
            &target,
            new_name,
            swap.source.id,
            swap.source.inode.file_type(),
        );
        let ghost second = *self;
        assert(first.entry_rewritten(
            &second,
            target_of(*dirs),
            new_name@,
            swap.source.id,
            swap.source.inode.kind(),
            reply,
        ));
        let outcome: Result<()> = match reply {
            Ok(_) => self.cross_swap(dirs, swap),
            Err(error) => Err(error),
        };
        assert(first.swap_second(self, *dirs, new_name@, *swap, outcome));
        outcome
    }

    /// What checking that the second directory does not move below itself, and what follows,
    /// calls, changes and returns.
    pub open spec fn swap_back_checked(
        &self,
        after: &Self,
        dirs: RenameDirs,
        name: Seq<char>,
        new_name: Seq<char>,
        swap: Exchange,
        crossing: bool,
        outcome: Result<()>,
    ) -> bool {
        exists|checked: Self, reply: Result<()>|
            {
                &&& #[trigger] self.cycle_checked(
                    &checked,
                    swap.target,
                    swap.parent,
                    crossing,
                    reply,
                )
                &&& match reply {
                    Ok(_) => checked.swap_written(after, dirs, name, new_name, swap, outcome),
                    Err(error) => checked.idle(after) && outcome == Err::<(), Ext4Error>(error),
                }
            }
    }

    /// What exchanging the names of two inodes calls, changes and returns.
    pub open spec fn swap_decided(
        &self,
        after: &Self,
        dirs: RenameDirs,
        name: Seq<char>,
        new_name: Seq<char>,
        swap: Exchange,
        outcome: Result<()>,
    ) -> bool {
        if swap.source.id == swap.target.id {
            self.idle(after) && outcome == Ok::<(), Ext4Error>(())
        } else {
            exists|checked: Self, crossing: bool, reply: Result<()>|
                {
                    &&& #[trigger] self.cycle_checked(
                        &checked,
                        swap.source,
                        swap.new_parent,
                        crossing,
                        reply,
                    )
                    &&& crossing == (swap.parent != swap.new_parent)
                    &&& match reply {
                        Ok(_) => checked.swap_back_checked(
                            after,
                            dirs,
                            name,
                            new_name,
                            swap,
                            crossing,
                            outcome,
                        ),
                        Err(error) => checked.idle(after) && outcome == Err::<(), Ext4Error>(
                            error,
                        ),
                    }
                }
        }
    }

    /// Exchanges the names of two inodes.
    fn decide_swap(&mut self, dirs: &RenameDirs, name: &str, new_name: &str, swap: &Exchange) -> (
    outcome: Result<()>)
        requires
            old(self).inv(),
        ensures
            final(self).inv(),
            old(self).frame_kept(final(self)),
            old(self).swap_decided(final(self), *dirs, name@, new_name@, *swap, outcome),
    {
        if swap.source.id == swap.target.id {
            return Ok(());
        }
        let crossing: bool = swap.parent != swap.new_parent;
        let reply = self.check_cycle(&swap.source, swap.new_parent, crossing);
        let ghost there = *self;
        assert(old(self).cycle_checked(&there, swap.source, swap.new_parent, crossing, reply));
        match reply {
            Ok(_) => {},
            Err(error) => {
                return Err(error);
            },
        }
        let reply = self.check_cycle(&swap.target, swap.parent, crossing);
        let ghost back = *self;
        assert(there.cycle_checked(&back, swap.target, swap.parent, crossing, reply));
        let outcome: Result<()> = match reply {
            Ok(_) => self.write_swap(dirs, name, new_name, swap),
            Err(error) => Err(error),
        };
        assert(there.swap_back_checked(
            self,
            *dirs,
            name@,
            new_name@,
            *swap,
            crossing,
            outcome,
        ));
        outcome
    }

    /// What reading the inodes of both names, and what follows, calls, changes and returns.
    pub open spec fn swap_opened(
        &self,
        after: &Self,
        dirs: RenameDirs,
        parent: InodeId,
        name: Seq<char>,
        new_parent: InodeId,
        new_name: Seq<char>,
        old_id: InodeId,
        new_id: InodeId,
        outcome: Result<()>,
    ) -> bool {
        exists|read: Self, pair: Result<(InodeRef, InodeRef)>|
            {
                &&& #[trigger] self.pair_read(&read, old_id, new_id, pair)
                &&& match pair {
                    Ok(found) => read.swap_decided(
                        after,
                        dirs,
                        name,
                        new_name,
                        (Exchange { parent, new_parent, source: found.0, target: found.1 }),
                        outcome,
                    ),
                    Err(error) => read.idle(after) && outcome == Err::<(), Ext4Error>(error),
                }
            }
    }

    /// What follows once both names were found.
    pub open spec fn swap_read(
        &self,
        after: &Self,
        parent: InodeId,
        name: Seq<char>,
        new_parent: InodeId,
        new_name: Seq<char>,
        old_id: InodeId,
        new_id: InodeId,
        outcome: Result<()>,
    ) -> bool {
        exists|read: Self, dirs: Result<RenameDirs>|
            {
                &&& #[trigger] self.dirs_read(&read, parent, new_parent, dirs)
                &&& match dirs {
                    Ok(dirs) => read.swap_opened(
                        after,
                        dirs,
                        parent,
                        name,
                        new_parent,
                        new_name,
                        old_id,
                        new_id,
                        outcome,
                    ),
                    Err(error) => read.idle(after) && outcome == Err::<(), Ext4Error>(error),
                }
            }
    }

    /// Reads directories and inodes anew, and exchanges the names.
    fn read_swap(
        &mut self,
        parent: InodeId,
        name: &str,
        new_parent: InodeId,
        new_name: &str,
        old_id: InodeId,
        new_id: InodeId,
    ) -> (outcome: Result<()>)
        requires
            old(self).inv(),
        ensures
            final(self).inv(),
            old(self).frame_kept(final(self)),
            old(self).swap_read(
                final(self),
                parent,
                name@,
                new_parent,
                new_name@,
                old_id,
                new_id,
                outcome,
            ),
    {
        let dirs = self.read_dirs(parent, new_parent);
        let ghost read = *self;
        assert(old(self).dirs_read(&read, parent, new_parent, dirs));
        let dirs = match dirs {
            Ok(dirs) => dirs,
            Err(error) => {
                return Err(error);
            },
        };
        let pair = self.read_pair(old_id, new_id);
        let ghost opened = *self;
        assert(read.pair_read(&opened, old_id, new_id, pair));
        let outcome: Result<()> = match pair {
            Ok((first, second)) => {
                let swap = Exchange { parent, new_parent, source: first, target: second };
                self.decide_swap(&dirs, name, new_name, &swap)
            },
            Err(error) => Err(error),
        };
        assert(read.swap_opened(
            self,
            dirs,
            parent,
            name@,
            new_parent,
            new_name@,
            old_id,
            new_id,
            outcome,
        ));
        outcome
    }

    /// What finding the second name, and what follows, calls, changes and returns.
    pub open spec fn swap_second_found(
        &self,
        after: &Self,
        dirs: RenameDirs,
        parent: InodeId,
        name: Seq<char>,
        new_parent: InodeId,
        new_name: Seq<char>,
        old_id: InodeId,
        outcome: Result<()>,
    ) -> bool {
        exists|asked: Self, found: Result<InodeId>|
            {
                &&& #[trigger] self.asked(
                    &asked,
                    LayerCall::FindEntry { dir: target_of(dirs), name: new_name, reply: found },
                )
                &&& match found {
                    Ok(new_id) => asked.swap_read(
                        after,
                        parent,
                        name,
                        new_parent,
                        new_name,
                        old_id,
                        new_id,
                        outcome,
                    ),
                    Err(error) => asked.idle(after) && outcome == Err::<(), Ext4Error>(error),
                }
            }
    }

    /// What finding both names, and what follows, calls, changes and returns.
    pub open spec fn swap_found(
        &self,
        after: &Self,
        dirs: RenameDirs,
        parent: InodeId,
        name: Seq<char>,
        new_parent: InodeId,
        new_name: Seq<char>,
        outcome: Result<()>,
    ) -> bool {
        exists|asked: Self, found: Result<InodeId>|
            {
                &&& #[trigger] self.asked(
                    &asked,
                    LayerCall::FindEntry { dir: dirs.0, name, reply: found },
                )
                &&& match found {
                    Ok(old_id) => asked.swap_second_found(
                        after,
                        dirs,
                        parent,
                        name,
                        new_parent,
                        new_name,
                        old_id,
                        outcome,
                    ),
                    Err(error) => asked.idle(after) && outcome == Err::<(), Ext4Error>(error),
                }
            }
    }

    /// What exchanging two names calls, changes and returns, inside the barrier.
    pub open spec fn names_exchanged(
        &self,
        after: &Self,
        parent: InodeId,
        name: Seq<char>,
        new_parent: InodeId,
        new_name: Seq<char>,
        outcome: Result<()>,
    ) -> bool {
        exists|opened: Self, dirs: Result<RenameDirs>|
            {
                &&& #[trigger] self.dirs_opened(&opened, parent, new_parent, dirs)
                &&& match dirs {
                    Ok(dirs) => opened.swap_found(
                        after,
                        dirs,
                        parent,
                        name,
                        new_parent,
                        new_name,
                        outcome,
                    ),
                    Err(error) => opened.idle(after) && outcome == Err::<(), Ext4Error>(error),
                }
            }
    }

    /// Exchanges two names, inside the barrier.
    fn exchange_locked(
        &mut self,
        parent: InodeId,
        name: &str,
        new_parent: InodeId,
        new_name: &str,
    ) -> (outcome: Result<()>)
        requires
            old(self).inv(),
        ensures
            final(self).inv(),
            old(self).frame_kept(final(self)),
            old(self).names_exchanged(
                final(self),
                parent,
                name@,
                new_parent,
                new_name@,
                outcome,
            ),
    {
        let dirs = self.read_rename_dirs(parent, new_parent);
        let ghost opened = *self;
        assert(old(self).dirs_opened(&opened, parent, new_parent, dirs));
        let dirs = match dirs {
            Ok(dirs) => dirs,
            Err(error) => {
                return Err(error);
            },
        };
        let found = self.dir_find_entry(&dirs.0, name);
        let ghost first = *self;
        assert(opened.asked(
            &first,
            LayerCall::FindEntry { dir: dirs.0, name: name@, reply: found },
        ));
        let old_id: InodeId = match found {
            Ok(id) => id,
            Err(error) => {
                assert(opened.swap_found(
                    self,
                    dirs,
                    parent,
                    name@,
                    new_parent,
                    new_name@,
                    Err(error),
                ));
                return Err(error);
            },
        };
        let target = target_dir(&dirs);
        let found = self.dir_find_entry(&target, new_name);
        let ghost second = *self;
        assert(first.asked(
            &second,
            LayerCall::FindEntry { dir: target_of(dirs), name: new_name@, reply: found },
        ));
        let outcome: Result<()> = match found {
            Ok(new_id) => self.read_swap(parent, name, new_parent, new_name, old_id, new_id),
            Err(error) => Err(error),
        };
        assert(first.swap_second_found(
            self,
            dirs,
            parent,
            name@,
            new_parent,
            new_name@,
            old_id,
            outcome,
        ));
        assert(opened.swap_found(
            self,
            dirs,
            parent,
            name@,
            new_parent,
            new_name@,
            outcome,
        ));
        outcome
    }

    /// What exchanging what two names stand for calls, changes and returns, with the barrier.
    pub open spec fn exchange_made(
        &self,
        after: &Self,
        parent: InodeId,
        name: Seq<char>,
        new_parent: InodeId,
        new_name: Seq<char>,
        outcome: Result<()>,
    ) -> bool {
        self.changed_directly(
            after,
            |inside: Self, left: Self, outcome: Result<()>|
                inside.names_exchanged(&left, parent, name, new_parent, new_name, outcome),
            outcome,
        )
    }

    /// Exchanges what two names stand for.
    pub fn rename_exchange(
        &mut self,
        parent: InodeId,
        name: &str,
        new_parent: InodeId,
        new_name: &str,
    ) -> (outcome: Result<()>)
        requires
            old(self).inv(),
        ensures
            final(self).inv(),
            final(self).state().gate == old(self).state().gate,
            old(self).exchange_made(
                final(self),
                parent,
                name@,
                new_parent,
                new_name@,
                outcome,
            ),
    {
        match self.ensure_mutable() {
            Ok(_) => {},
            Err(error) => {
                return Err(error);
            },
        }
        let lock = self.lock_direct_metadata_mutation();
        let ghost inside = *self;
        assert(old(self).direct_entered(&inside, lock));
        match lock {
            Ok(_) => {},
            Err(error) => {
                return Err(error);
            },
        }
        let outcome = self.exchange_locked(parent, name, new_parent, new_name);
        self.unlock_direct_metadata_mutation();
        outcome
    }
}

impl<D: BlockDevice, V: Volume<D>> Ext4<D, V> {
    /// Reading an inode writes nothing.
    proof fn lemma_inode_read_asks(&self, after: &Self, id: InodeId, outcome: Result<InodeRef>)
        requires
            self.inode_read(after, id, outcome),
        ensures
            self.only_asked(after),
    {
        assert(self.log().take(self.log().len() as int) =~= self.log());
        assert(after.log().take(self.log().len() as int) =~= self.log());
    }

    /// Giving a file the name of a link to the same file changes nothing.
    pub proof fn lemma_rename_to_itself_changes_nothing(
        &self,
        after: &Self,
        name: Seq<char>,
        new_name: Seq<char>,
        asked: Move,
        outcome: Result<Option<InodeReclaimHandle>>,
    )
        requires
            self.move_made(after, name, new_name, asked, outcome),
            asked.existing == Some(asked.child),
        ensures
            self.only_asked(after),
            outcome matches Ok(handle) ==> handle is None,
    {
        let (read, dirs) = choose|read: Self, dirs: Result<RenameDirs>|
            {
                &&& #[trigger] self.dirs_read(&read, asked.parent, asked.new_parent, dirs)
                &&& match dirs {
                    Ok(dirs) => read.move_child_read(
                        after,
                        dirs,
                        name,
                        new_name,
                        asked,
                        outcome,
                    ),
                    Err(error) => read.idle(after) && outcome == Err::<
                        Option<InodeReclaimHandle>,
                        Ext4Error,
                    >(error),
                }
            };
        let (first, dir) = choose|first: Self, dir: Result<InodeRef>|
            {
                &&& #[trigger] self.inode_read(&first, asked.parent, dir)
                &&& match dir {
                    Ok(one) => if asked.parent == asked.new_parent {
                        first.idle(&read) && dirs == Ok::<RenameDirs, Ext4Error>((one, None))
                    } else {
                        first.second_dir_read(&read, one, asked.new_parent, dirs)
                    },
                    Err(error) => first.idle(&read) && dirs == Err::<RenameDirs, Ext4Error>(error),
                }
            };
        self.lemma_inode_read_asks(&first, asked.parent, dir);
        if dir is Ok && asked.parent != asked.new_parent {
            let second = choose|second: Result<InodeRef>|
                {
                    &&& #[trigger] first.inode_read(&read, asked.new_parent, second)
                    &&& dirs == match second {
                        Ok(other) => Ok::<RenameDirs, Ext4Error>((dir->Ok_0, Some(other))),
                        Err(error) => Err(error),
                    }
                };
            first.lemma_inode_read_asks(&read, asked.new_parent, second);
        } else {
            assert(first.log().take(first.log().len() as int) =~= first.log());
        }
        self.lemma_calls_join(&first, &read);
        if let Ok(found) = dirs {
            let (opened, child) = choose|opened: Self, child: Result<InodeRef>|
                {
                    &&& #[trigger] read.inode_read(&opened, asked.child, child)
                    &&& match child {
                        Ok(child) => opened.move_decided(
                            after,
                            found,
                            name,
                            new_name,
                            asked,
                            child,
                            outcome,
                        ),
                        Err(error) => opened.idle(after) && outcome == Err::<
                            Option<InodeReclaimHandle>,
                            Ext4Error,
                        >(error),
                    }
                };
            read.lemma_inode_read_asks(&opened, asked.child, child);
            self.lemma_calls_join(&read, &opened);
        }
    }

    /// What takes the place of another inode is of its kind, and a directory takes the place of an
    /// empty directory alone.
    pub proof fn lemma_replacement_fits(
        &self,
        after: &Self,
        dirs: RenameDirs,
        name: Seq<char>,
        new_name: Seq<char>,
        change: Replacement,
        handle: Option<InodeReclaimHandle>,
    )
        requires
            self.target_replaced(after, dirs, name, new_name, change, Ok(handle)),
        ensures
            change.child_is_dir == directory(change.existing),
            change.child_is_dir ==> exists|checked: Self| #[trigger]
                self.asked(
                    &checked,
                    LayerCall::IsEmpty { dir: change.existing, reply: Ok(true) },
                ),
    {
        let (checked, reply) = choose|checked: Self, reply: Result<()>|
            {
                &&& #[trigger] self.replacement_checked(
                    &checked,
                    change.child_is_dir,
                    change.existing,
                    reply,
                )
                &&& match reply {
                    Ok(_) => checked.replace_begun(
                        after,
                        dirs,
                        name,
                        new_name,
                        change,
                        Ok(handle),
                    ),
                    Err(error) => checked.idle(after) && Ok::<
                        Option<InodeReclaimHandle>,
                        Ext4Error,
                    >(handle) == Err::<Option<InodeReclaimHandle>, Ext4Error>(error),
                }
            };
        assert(reply is Ok);
        if change.child_is_dir {
            let empty = choose|empty: Result<bool>|
                {
                    &&& #[trigger] self.asked(
                        &checked,
                        LayerCall::IsEmpty { dir: change.existing, reply: empty },
                    )
                    &&& reply == match empty {
                        Ok(empty) => if empty {
                            Ok::<(), Ext4Error>(())
                        } else {
                            failed(ErrCode::ENOTEMPTY)
                        },
                        Err(error) => Err(error),
                    }
                };
            assert(empty == Ok::<bool, Ext4Error>(true));
        }
    }

    /// Whether every question for the parent of a directory is answered by `parents`.
    pub open spec fn parents_told(&self, after: &Self, parents: Map<InodeId, InodeId>) -> bool {
        forall|k: int|
            self.log().len() <= k < after.log().len() ==> tells_parent(
                #[trigger] after.log()[k],
                parents,
            )
    }

    /// Going up from a directory writes nothing, and gives its parent.
    proof fn lemma_gone_up(
        &self,
        after: &Self,
        current: InodeId,
        outcome: Result<Option<InodeId>>,
        parents: Map<InodeId, InodeId>,
    )
        requires
            self.gone_up(after, current, outcome),
        ensures
            self.only_asked(after),
            self.parents_told(after, parents) ==> (outcome matches Ok(found) ==> found == if parents[current]
                != current {
                Some(parents[current])
            } else {
                None
            }),
    {
        let (read, found) = choose|read: Self, found: Result<InodeRef>|
            {
                &&& #[trigger] self.inode_read(&read, current, found)
                &&& match found {
                    Ok(dir) => read.parent_asked(after, dir, current, outcome),
                    Err(error) => read.idle(after) && outcome == Err::<Option<InodeId>, Ext4Error>(
                        error,
                    ),
                }
            };
        self.lemma_inode_read_asks(&read, current, found);
        assert(read.log().take(read.log().len() as int) =~= read.log());
        if let Ok(dir) = found {
            let reply = choose|reply: Result<InodeId>|
                {
                    &&& #[trigger] read.asked(
                        after,
                        LayerCall::FindEntry { dir, name: ".."@, reply },
                    )
                    &&& outcome == match reply {
                        Ok(parent) => if parent != current {
                            Ok::<Option<InodeId>, Ext4Error>(Some(parent))
                        } else {
                            Ok(None)
                        },
                        Err(_) => Ok(None),
                    }
                };
            assert(after.log().take(read.log().len() as int) =~= read.log());
            assert(after.log()[read.log().len() as int] == (Event::Layer {
                call: LayerCall::FindEntry { dir, name: ".."@, reply },
            }));
            if self.parents_told(after, parents) {
                assert(tells_parent(after.log()[read.log().len() as int], parents));
                assert(dir.id == current);
            }
        }
        self.lemma_calls_join(&read, after);
    }

    /// Checking the way to the root writes nothing.
    proof fn lemma_ancestors_ask(
        &self,
        after: &Self,
        dir: InodeId,
        current: InodeId,
        left: nat,
        outcome: Result<()>,
    )
        requires
            self.ancestors_checked(after, dir, current, left, outcome),
        ensures
            self.only_asked(after),
        decreases left,
    {
        assert(self.log().take(self.log().len() as int) =~= self.log());
        if current != dir && current != EXT4_ROOT_INO && left > 0 {
            let (stepped, reply) = choose|stepped: Self, reply: Result<Option<InodeId>>|
                {
                    &&& #[trigger] self.gone_up(&stepped, current, reply)
                    &&& match reply {
                        Ok(Some(parent)) => stepped.ancestors_checked(
                            after,
                            dir,
                            parent,
                            (left - 1) as nat,
                            outcome,
                        ),
                        Ok(None) => stepped.idle(after) && outcome == Ok::<(), Ext4Error>(()),
                        Err(error) => stepped.idle(after) && outcome == Err::<(), Ext4Error>(
                            error,
                        ),
                    }
                };
            self.lemma_gone_up(&stepped, current, reply, Map::empty());
            assert(stepped.log().take(stepped.log().len() as int) =~= stepped.log());
            if let Ok(Some(parent)) = reply {
                stepped.lemma_ancestors_ask(after, dir, parent, (left - 1) as nat, outcome);
            }
            self.lemma_calls_join(&stepped, after);
        }
    }

    /// A directory cannot move below itself: the check passes only where the new parent is not
    /// below the directory.
    pub proof fn lemma_directory_stays_out_of_itself(
        &self,
        after: &Self,
        dir: InodeId,
        current: InodeId,
        left: nat,
        parents: Map<InodeId, InodeId>,
    )
        requires
            self.ancestors_checked(after, dir, current, left, Ok(())),
            self.parents_told(after, parents),
        ensures
            !below(parents, current, dir, left),
        decreases left,
    {
        if current != dir && current != EXT4_ROOT_INO && left > 0 {
            let (stepped, reply) = choose|stepped: Self, reply: Result<Option<InodeId>>|
                {
                    &&& #[trigger] self.gone_up(&stepped, current, reply)
                    &&& match reply {
                        Ok(Some(parent)) => stepped.ancestors_checked(
                            after,
                            dir,
                            parent,
                            (left - 1) as nat,
                            Ok(()),
                        ),
                        Ok(None) => stepped.idle(after) && Ok::<(), Ext4Error>(()) == Ok::<
                            (),
                            Ext4Error,
                        >(()),
                        Err(error) => stepped.idle(after) && Ok::<(), Ext4Error>(()) == Err::<
                            (),
                            Ext4Error,
                        >(error),
                    }
                };
            self.lemma_gone_up(&stepped, current, reply, parents);
            if let Ok(Some(parent)) = reply {
                stepped.lemma_ancestors_ask(after, dir, parent, (left - 1) as nat, Ok(()));
                assert forall|k: int|
                    self.log().len() <= k < stepped.log().len() implies tells_parent(
                    #[trigger] stepped.log()[k],
                    parents,
                ) by {
                    assert(after.log().take(stepped.log().len() as int)[k] == after.log()[k]);
                }
                stepped.lemma_directory_stays_out_of_itself(
                    after,
                    dir,
                    parent,
                    (left - 1) as nat,
                    parents,
                );
            }
        }
    }

    /// Once the new name of a file stands, a failure stops every later change of metadata.
    pub proof fn lemma_partial_move_stops_changes(
        &self,
        after: &Self,
        dirs: RenameDirs,
        name: Seq<char>,
        new_name: Seq<char>,
        child: InodeRef,
        new_parent: InodeId,
        crossing: bool,
        error: Ext4Error,
    )
        requires
            self.name_moved(
                after,
                dirs,
                name,
                new_name,
                child,
                new_parent,
                crossing,
                Err(error),
            ),
            crossing ==> dirs.1 is Some,
        ensures
            after.state().poisoned || exists|grown: InodeRef|
                after.log() == self.log().push(
                    Event::Layer {
                        call: #[trigger] refused_entry(
                            target_of(dirs),
                            child,
                            new_name,
                            grown,
                            error,
                        ),
                    },
                ),
    {
        let (added, grown, reply) = choose|
            added: Self,
            grown: InodeRef,
            reply: core::result::Result<(), DirAddFailure>,
        |
            {
                &&& #[trigger] self.asked(
                    &added,
                    LayerCall::AddEntry {
                        dir: target_of(dirs),
                        child,
                        name: new_name,
                        after: grown,
                        reply,
                    },
                )
                &&& match reply {
                    Ok(_) => added.move_erased(
                        after,
                        with_target(dirs, grown),
                        name,
                        child,
                        new_parent,
                        crossing,
                        Err(error),
                    ),
                    Err(DirAddFailure::Unmodified(fault)) => {
                        &&& added.idle(after)
                        &&& Err::<(), Ext4Error>(error) == Err::<(), Ext4Error>(fault)
                    },
                    Err(DirAddFailure::Indeterminate(fault)) => {
                        &&& added.gave_out(after)
                        &&& Err::<(), Ext4Error>(error) == Err::<(), Ext4Error>(fault)
                    },
                }
            };
        match reply {
            Ok(_) => {
                added.lemma_failed_erasure_stops_changes(
                    after,
                    with_target(dirs, grown),
                    name,
                    child,
                    new_parent,
                    crossing,
                    error,
                );
            },
            Err(DirAddFailure::Unmodified(_)) => {
                assert(after.log() == self.log().push(
                    Event::Layer {
                        call: refused_entry(target_of(dirs), child, new_name, grown, error),
                    },
                ));
            },
            Err(DirAddFailure::Indeterminate(_)) => {},
        }
    }

    /// A failure behind the new name of a file stops every later change of metadata.
    proof fn lemma_failed_erasure_stops_changes(
        &self,
        after: &Self,
        dirs: RenameDirs,
        name: Seq<char>,
        child: InodeRef,
        new_parent: InodeId,
        crossing: bool,
        error: Ext4Error,
    )
        requires
            self.move_erased(after, dirs, name, child, new_parent, crossing, Err(error)),
            crossing ==> dirs.1 is Some,
        ensures
            after.state().poisoned,
    {
        let (erased, reply) = choose|erased: Self, reply: Result<()>|
            {
                &&& #[trigger] self.entry_erased(&erased, dirs.0, name, reply)
                &&& match reply {
                    Ok(_) => erased.move_crossed(
                        after,
                        dirs,
                        child,
                        new_parent,
                        crossing,
                        Err(error),
                    ),
                    Err(fault) => erased.idle(after) && Err::<(), Ext4Error>(error) == Err::<
                        (),
                        Ext4Error,
                    >(fault),
                }
            };
        if reply is Ok {
            let to = dirs.1->0;
            let (from_after, to_after) = choose|from_after: InodeRef, to_after: InodeRef| #[trigger]
                erased.dir_crossed(
                    after,
                    child,
                    new_parent,
                    dirs.0,
                    from_after,
                    to,
                    to_after,
                    Err(error),
                );
            let (turned, answer) = choose|turned: Self, answer: Result<()>|
                {
                    &&& #[trigger] erased.entry_rewritten(
                        &turned,
                        child,
                        ".."@,
                        new_parent,
                        FileType::Directory,
                        answer,
                    )
                    &&& match answer {
                        Ok(_) => turned.parents_counted(
                            after,
                            dirs.0,
                            from_after,
                            to,
                            to_after,
                            Err(error),
                        ),
                        Err(fault) => {
                            &&& turned.idle(after)
                            &&& from_after == dirs.0
                            &&& to_after == to
                            &&& Err::<(), Ext4Error>(error) == Err::<(), Ext4Error>(fault)
                        },
                    }
                };
            if answer is Ok {
                let (lost, said) = choose|lost: Self, said: Result<()>|
                    {
                        &&& #[trigger] turned.links_written(
                            &lost,
                            dirs.0,
                            links_of(dirs.0.inode@).wrapping_sub(1),
                            from_after,
                            said,
                        )
                        &&& match said {
                            Ok(_) => lost.links_written(
                                after,
                                to,
                                links_of(to.inode@).wrapping_add(1),
                                to_after,
                                Err(error),
                            ),
                            Err(fault) => {
                                &&& lost.idle(after)
                                &&& to_after == to
                                &&& Err::<(), Ext4Error>(error) == Err::<(), Ext4Error>(fault)
                            },
                        }
                    };
                assert(said is Err ==> lost.state().poisoned);
            }
        }
    }
}

/// Whether a question for the parent of a directory is answered by `parents`.
pub open spec fn tells_parent(call: Event, parents: Map<InodeId, InodeId>) -> bool {
    match call {
        Event::Layer { call: LayerCall::FindEntry { dir, name, reply } } => name == ".."@
            ==> reply == Ok::<InodeId, Ext4Error>(parents[dir.id]),
        _ => true,
    }
}

/// Whether the way up from `current` passes `dir` within some steps.
pub open spec fn below(
    parents: Map<InodeId, InodeId>,
    current: InodeId,
    dir: InodeId,
    steps: nat,
) -> bool
    decreases steps,
{
    if current == dir {
        true
    } else if current == EXT4_ROOT_INO || parents[current] == current || steps == 0 {
        false
    } else {
        below(parents, parents[current], dir, (steps - 1) as nat)
    }
}

/// A call to add an entry that left the directory as it was.
pub open spec fn refused_entry(
    dir: InodeRef,
    child: InodeRef,
    name: Seq<char>,
    grown: InodeRef,
    error: Ext4Error,
) -> LayerCall {
    LayerCall::AddEntry {
        dir,
        child,
        name,
        after: grown,
        reply: Err(DirAddFailure::Unmodified(error)),
    }
}

} // verus!
