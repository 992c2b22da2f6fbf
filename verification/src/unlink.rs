//! Hard links: adding a name to a file, and taking one away.

use vstd::prelude::*;
use crate::bytes::{le16, le16_at, le32, le32_at, splice};
use crate::device::{BlockDevice, JournalCommitReason};
use crate::error::{failed, ErrCode, Ext4Error, Result};
use crate::fs::Ext4;
use crate::inode::{FileType, InodeRef};
use crate::journal_transaction::{CommitError, Transaction};
use crate::superblock::{sealed_superblock, SuperBlock, BASE_OFFSET, ORPHAN_HEAD};
use crate::volume::{
    BlockImage, DirEntry, DirEntryLocation, InodeReclaimHandle, LayerCall, Volume,
};
use crate::InodeId;

verus! {

/// The blocks of changed names that may wait for a commit before one is made.
pub const MAX_DEFERRED_NAMESPACE_BLOCKS: usize = 256;

/// The blocks that adding a name may change.
pub const LINK_CREDITS: usize = 3;

/// The entries of a directory without files: itself and its parent.
pub const EMPTY_DIR_ENTRIES: usize = 2;

/// The names that an inode has.
pub open spec fn links_of(raw: Seq<u8>) -> u16 {
    le16_at(raw, 26)
}

/// Whether an inode is a directory.
pub open spec fn directory(inode: InodeRef) -> bool {
    inode.inode.kind() == FileType::Directory
}

/// Whether taking a name away leaves none: a directory has but one.
pub open spec fn is_last_name(is_dir: bool, links: u16) -> bool {
    is_dir || links <= 1
}

/// Whether taking a name away leaves none.
pub fn namespace_removal_is_final(is_dir: bool, links: u16) -> (last: bool)
    ensures
        last == is_last_name(is_dir, links),
{
    is_dir || links <= 1
}

/// The blocks that taking a name away may change: those of the name and of the inode, the inode of
/// the parent of a directory, and the superblock where the inode becomes an orphan.
pub open spec fn unlink_credits(is_dir: bool, orphaned: bool) -> usize {
    if is_dir && orphaned {
        4
    } else if is_dir || orphaned {
        3
    } else {
        2
    }
}

/// The inode that nobody names any more.
pub open spec fn handle_of(inode: InodeRef, last: bool) -> Option<InodeReclaimHandle> {
    if last {
        Some(InodeReclaimHandle { ino: inode.id, generation: le32_at(inode.inode@, 100) })
    } else {
        None
    }
}

impl<D: BlockDevice, V: Volume<D>> Ext4<D, V> {
    /// What making a name stand for another inode calls, changes and returns, inside a transaction.
    pub open spec fn entry_replaced(
        &self,
        after: &Self,
        before: Transaction,
        transaction: Transaction,
        dir: InodeRef,
        name: Seq<char>,
        target: InodeId,
        kind: FileType,
        outcome: Result<()>,
    ) -> bool {
        exists|asked: Self, reply: Result<Vec<BlockImage>>|
            {
                &&& #[trigger] self.asked(
                    &asked,
                    LayerCall::ReplaceImages { dir, name, target, kind, reply },
                )
                &&& match reply {
                    Ok(images) => asked.images_staged(
                        after,
                        before,
                        transaction,
                        images@,
                        0,
                        outcome,
                    ),
                    Err(error) => {
                        &&& asked.idle(after)
                        &&& transaction == before
                        &&& outcome == Err::<(), Ext4Error>(error)
                    },
                }
            }
    }

    /// Makes a name stand for another inode, inside a transaction.
    pub(crate) fn transaction_dir_replace_entry(
        &mut self,
        transaction: &mut Transaction,
        dir: &InodeRef,
        name: &str,
        target: InodeId,
        kind: FileType,
    ) -> (outcome: Result<()>)
        requires
            old(self).inv(),
            old(transaction).inv(),
        ensures
            final(self).state() == old(self).state(),
            final(transaction).inv(),
            final(transaction).deferred() == old(transaction).deferred(),
            old(self).entry_replaced(
                final(self),
                *old(transaction),
                *final(transaction),
                *dir,
                name@,
                target,
                kind,
                outcome,
            ),
    {
        let reply = self.dir_replace_images(transaction, dir, name, target, kind);
        let ghost asked = *self;
        let ghost answer = reply;
        assert(old(self).asked(
            &asked,
            LayerCall::ReplaceImages { dir: *dir, name: name@, target, kind, reply: answer },
        ));
        match reply {
            Ok(images) => self.stage_images(transaction, &images),
            Err(error) => Err(error),
        }
    }

    /// What adding a name calls, changes and returns, inside a transaction.
    pub open spec fn entry_inserted(
        &self,
        after: &Self,
        before: Transaction,
        transaction: Transaction,
        dir: InodeRef,
        name: Seq<char>,
        target: InodeId,
        kind: FileType,
        outcome: Result<()>,
    ) -> bool {
        exists|asked: Self, reply: Result<Vec<BlockImage>>|
            {
                &&& #[trigger] self.asked(
                    &asked,
                    LayerCall::InsertImages { dir, name, target, kind, reply },
                )
                &&& match reply {
                    Ok(images) => asked.images_staged(
                        after,
                        before,
                        transaction,
                        images@,
                        0,
                        outcome,
                    ),
                    Err(error) => {
                        &&& asked.idle(after)
                        &&& transaction == before
                        &&& outcome == Err::<(), Ext4Error>(error)
                    },
                }
            }
    }

    /// Adds a name, inside a transaction.
    fn transaction_dir_insert_entry(
        &mut self,
        transaction: &mut Transaction,
        dir: &InodeRef,
        name: &str,
        target: InodeId,
        kind: FileType,
    ) -> (outcome: Result<()>)
        requires
            old(self).inv(),
            old(transaction).inv(),
        ensures
            final(self).state() == old(self).state(),
            final(transaction).inv(),
            final(transaction).deferred() == old(transaction).deferred(),
            old(self).entry_inserted(
                final(self),
                *old(transaction),
                *final(transaction),
                *dir,
                name@,
                target,
                kind,
                outcome,
            ),
    {
        let reply = self.dir_insert_images(transaction, dir, name, target, kind);
        let ghost asked = *self;
        let ghost answer = reply;
        assert(old(self).asked(
            &asked,
            LayerCall::InsertImages { dir: *dir, name: name@, target, kind, reply: answer },
        ));
        match reply {
            Ok(images) => self.stage_images(transaction, &images),
            Err(error) => Err(error),
        }
    }

    /// What taking a name away calls, changes and returns, inside a transaction.
    pub open spec fn entry_removed(
        &self,
        after: &Self,
        before: Transaction,
        transaction: Transaction,
        dir: InodeRef,
        name: Seq<char>,
        outcome: Result<()>,
    ) -> bool {
        exists|asked: Self, reply: Result<Vec<BlockImage>>|
            {
                &&& #[trigger] self.asked(&asked, LayerCall::RemoveImages { dir, name, reply })
                &&& match reply {
                    Ok(images) => asked.images_staged(
                        after,
                        before,
                        transaction,
                        images@,
                        0,
                        outcome,
                    ),
                    Err(error) => {
                        &&& asked.idle(after)
                        &&& transaction == before
                        &&& outcome == Err::<(), Ext4Error>(error)
                    },
                }
            }
    }

    /// Takes a name away, inside a transaction.
    pub(crate) fn transaction_dir_remove_entry(
        &mut self,
        transaction: &mut Transaction,
        dir: &InodeRef,
        name: &str,
    ) -> (outcome: Result<()>)
        requires
            old(self).inv(),
            old(transaction).inv(),
        ensures
            final(self).state() == old(self).state(),
            final(transaction).inv(),
            final(transaction).deferred() == old(transaction).deferred(),
            old(self).entry_removed(
                final(self),
                *old(transaction),
                *final(transaction),
                *dir,
                name@,
                outcome,
            ),
    {
        let reply = self.dir_remove_images(transaction, dir, name);
        let ghost asked = *self;
        let ghost answer = reply;
        assert(old(self).asked(
            &asked,
            LayerCall::RemoveImages { dir: *dir, name: name@, reply: answer },
        ));
        match reply {
            Ok(images) => self.stage_images(transaction, &images),
            Err(error) => Err(error),
        }
    }

    /// What setting the number of names of an inode calls, changes and returns, inside a
    /// transaction.
    pub open spec fn links_staged(
        &self,
        after: &Self,
        before: Transaction,
        transaction: Transaction,
        inode: InodeRef,
        links: u16,
        sealed: InodeRef,
        outcome: Result<()>,
    ) -> bool {
        exists|counted: InodeRef|
            {
                &&& counted.id == inode.id
                &&& counted.inode@ == splice(inode.inode@, 26, le16(links))
                &&& #[trigger] self.inode_staged(
                    after,
                    before,
                    transaction,
                    counted,
                    sealed,
                    outcome,
                )
            }
    }

    /// Sets the number of names of an inode, inside a transaction.
    pub(crate) fn stage_links(
        &mut self,
        transaction: &mut Transaction,
        inode: &mut InodeRef,
        links: u16,
    ) -> (outcome: Result<()>)
        requires
            old(self).inv(),
            old(transaction).inv(),
        ensures
            final(self).state() == old(self).state(),
            final(transaction).inv(),
            final(transaction).deferred() == old(transaction).deferred(),
            final(inode).id == old(inode).id,
            old(self).links_staged(
                final(self),
                *old(transaction),
                *final(transaction),
                *old(inode),
                links,
                *final(inode),
                outcome,
            ),
    {
        inode.inode.set_link_count(links);
        let ghost counted = *inode;
        let outcome = self.transaction_stage_inode_with_csum(transaction, inode);
        assert(old(self).inode_staged(
            self,
            *old(transaction),
            *transaction,
            counted,
            *inode,
            outcome,
        ));
        outcome
    }

    /// What putting an inode at the head of the list of orphans calls, changes and returns, once it
    /// names the orphan behind it.
    pub open spec fn orphan_headed(
        &self,
        after: &Self,
        before: Transaction,
        transaction: Transaction,
        id: InodeId,
        outcome: Result<()>,
    ) -> bool {
        self.block_staged(
            after,
            before,
            transaction,
            0,
            BASE_OFFSET as int,
            sealed_superblock(splice(self.state().superblock, ORPHAN_HEAD as int, le32(id))),
            outcome,
        )
    }

    /// What adding an inode without names to the list of orphans calls, changes and returns, inside
    /// a transaction.
    pub open spec fn orphan_added(
        &self,
        after: &Self,
        before: Transaction,
        transaction: Transaction,
        inode: InodeRef,
        outcome: Result<()>,
    ) -> bool {
        let head = le32_at(self.state().superblock, ORPHAN_HEAD as int);
        exists|staged: Self, grown: Transaction, chained: InodeRef, sealed: InodeRef, reply: Result<()>|
            {
                &&& #[trigger] self.inode_staged(
                    &staged,
                    before,
                    grown,
                    chained,
                    sealed,
                    reply,
                )
                &&& chained.id == inode.id
                &&& chained.inode@ == splice(
                    splice(inode.inode@, 26, le16(0)),
                    20,
                    le32(head),
                )
                &&& match reply {
                    Ok(_) => staged.orphan_headed(
                        after,
                        grown,
                        transaction,
                        inode.id,
                        outcome,
                    ),
                    Err(error) => {
                        &&& staged.idle(after)
                        &&& transaction == grown
                        &&& outcome == Err::<(), Ext4Error>(error)
                    },
                }
            }
    }

    /// Adds an inode without names to the list of orphans, inside a transaction.
    fn transaction_orphan_add(&mut self, transaction: &mut Transaction, inode: &InodeRef) -> (
    outcome: Result<()>)
        requires
            old(self).inv(),
            old(transaction).inv(),
        ensures
            final(self).state() == old(self).state(),
            final(transaction).inv(),
            final(transaction).deferred() == old(transaction).deferred(),
            old(self).orphan_added(
                final(self),
                *old(transaction),
                *final(transaction),
                *inode,
                outcome,
            ),
    {
        let mut superblock: SuperBlock = self.read_super_block_cached();
        let mut chained = *inode;
        chained.inode.set_link_count(0);
        chained.inode.set_next_orphan(superblock.last_orphan());
        let ghost linked = chained;
        let reply = self.transaction_stage_inode_with_csum(transaction, &mut chained);
        let ghost staged = *self;
        assert(old(self).inode_staged(
            &staged,
            *old(transaction),
            *transaction,
            linked,
            chained,
            reply,
        ));
        match reply {
            Ok(_) => {
                superblock.set_last_orphan(inode.id);
                superblock.seal();
                self.transaction_patch(transaction, 0, BASE_OFFSET, superblock.raw.as_slice())
            },
            Err(error) => Err(error),
        }
    }

    /// What ending the list of orphans with an inode without names calls, changes and returns.
    pub open spec fn orphan_alone(
        &self,
        after: &Self,
        before: Transaction,
        transaction: Transaction,
        inode: InodeRef,
        outcome: Result<()>,
    ) -> bool {
        exists|alone: InodeRef, sealed: InodeRef|
            {
                &&& #[trigger] self.inode_staged(
                    after,
                    before,
                    transaction,
                    alone,
                    sealed,
                    outcome,
                )
                &&& alone.id == inode.id
                &&& alone.inode@ == splice(splice(inode.inode@, 26, le16(0)), 20, le32(0))
            }
    }

    /// What taking a name from an inode calls, changes and returns, inside a transaction: the
    /// journal keeps a list of the inodes that nobody names.
    pub open spec fn name_counted_off(
        &self,
        after: &Self,
        before: Transaction,
        transaction: Transaction,
        inode: InodeRef,
        last: bool,
        outcome: Result<()>,
    ) -> bool {
        if !last {
            exists|sealed: InodeRef| #[trigger]
                self.links_staged(
                    after,
                    before,
                    transaction,
                    inode,
                    links_of(inode.inode@).wrapping_sub(1),
                    sealed,
                    outcome,
                )
        } else if self.state().mode is Journal {
            self.orphan_added(after, before, transaction, inode, outcome)
        } else {
            self.orphan_alone(after, before, transaction, inode, outcome)
        }
    }

    /// Takes a name from an inode, inside a transaction.
    pub(crate) fn count_name_off(
        &mut self,
        transaction: &mut Transaction,
        inode: &InodeRef,
        last: bool,
    ) -> (outcome: Result<()>)
        requires
            old(self).inv(),
            old(transaction).inv(),
        ensures
            final(self).state() == old(self).state(),
            final(transaction).inv(),
            final(transaction).deferred() == old(transaction).deferred(),
            old(self).name_counted_off(
                final(self),
                *old(transaction),
                *final(transaction),
                *inode,
                last,
                outcome,
            ),
    {
        if !last {
            let mut counted = *inode;
            let links: u16 = inode.inode.link_count();
            let outcome = self.stage_links(transaction, &mut counted, links.wrapping_sub(1));
            assert(old(self).links_staged(
                self,
                *old(transaction),
                *transaction,
                *inode,
                links_of(inode.inode@).wrapping_sub(1),
                counted,
                outcome,
            ));
            return outcome;
        }
        if self.uses_journal() {
            return self.transaction_orphan_add(transaction, inode);
        }
        let mut alone = *inode;
        alone.inode.set_link_count(0);
        alone.inode.set_next_orphan(0);
        let ghost ended = alone;
        let outcome = self.transaction_stage_inode_with_csum(transaction, &mut alone);
        assert(old(self).inode_staged(
            self,
            *old(transaction),
            *transaction,
            ended,
            alone,
            outcome,
        ));
        outcome
    }

    /// What ending a change of names calls and changes: at once, or when more has gathered.
    pub open spec fn names_ended(
        &self,
        after: &Self,
        transaction: Transaction,
        at_once: bool,
        outcome: core::result::Result<(), CommitError>,
    ) -> bool {
        if at_once {
            self.committed(after, transaction, outcome)
        } else {
            self.deferred(after, transaction, MAX_DEFERRED_NAMESPACE_BLOCKS, outcome)
        }
    }

    /// What ending a change of names calls, changes and returns: when it fails, nothing may change
    /// any more.
    pub open spec fn names_settled(
        &self,
        after: &Self,
        transaction: Transaction,
        at_once: bool,
        outcome: Result<()>,
    ) -> bool {
        exists|done: Self, reply: core::result::Result<(), CommitError>|
            {
                &&& #[trigger] self.names_ended(&done, transaction, at_once, reply)
                &&& match reply {
                    Ok(_) => done.idle(after) && outcome == Ok::<(), Ext4Error>(()),
                    Err(stop) => done.gave_out(after) && outcome == Err::<(), Ext4Error>(
                        stop.error,
                    ),
                }
            }
    }

    /// Ends a change of names.
    pub(crate) fn settle_names(&mut self, transaction: Transaction, at_once: bool) -> (outcome:
        Result<()>)
        requires
            old(self).inv(),
            transaction.inv(),
        ensures
            final(self).inv(),
            final(self).state().gate == old(self).state().gate,
            old(self).names_settled(final(self), transaction, at_once, outcome),
    {
        let reply = if at_once {
            self.transaction_commit(transaction)
        } else {
            self.transaction_defer_or_commit(transaction, MAX_DEFERRED_NAMESPACE_BLOCKS)
        };
        let ghost done = *self;
        assert(old(self).names_ended(&done, transaction, at_once, reply));
        match reply {
            Ok(_) => Ok(()),
            Err(stop) => {
                self.poison();
                Err(stop.error)
            },
        }
    }

    /// What ending the removal of a name calls, changes and returns.
    pub open spec fn unlink_ended(
        &self,
        after: &Self,
        child: InodeRef,
        last: bool,
        transaction: Transaction,
        outcome: Result<Option<InodeReclaimHandle>>,
    ) -> bool {
        exists|reply: Result<()>|
            {
                &&& #[trigger] self.names_settled(
                    after,
                    transaction,
                    directory(child),
                    reply,
                )
                &&& outcome == match reply {
                    Ok(_) => Ok::<Option<InodeReclaimHandle>, Ext4Error>(handle_of(child, last)),
                    Err(error) => Err(error),
                }
            }
    }

    /// What taking a name from an inode, and what follows, calls, changes and returns.
    pub open spec fn unlink_counted(
        &self,
        after: &Self,
        child: InodeRef,
        last: bool,
        transaction: Transaction,
        outcome: Result<Option<InodeReclaimHandle>>,
    ) -> bool {
        exists|counted: Self, grown: Transaction, reply: Result<()>|
            {
                &&& #[trigger] self.name_counted_off(
                    &counted,
                    transaction,
                    grown,
                    child,
                    last,
                    reply,
                )
                &&& match reply {
                    Ok(_) => counted.unlink_ended(after, child, last, grown, outcome),
                    Err(error) => counted.given_up(after, grown) && outcome == Err::<
                        Option<InodeReclaimHandle>,
                        Ext4Error,
                    >(error),
                }
            }
    }

    /// What follows on taking a name out of a directory: a directory that goes no longer names its
    /// parent.
    pub open spec fn unlink_parted(
        &self,
        after: &Self,
        parent: InodeRef,
        child: InodeRef,
        last: bool,
        transaction: Transaction,
        outcome: Result<Option<InodeReclaimHandle>>,
    ) -> bool {
        if !directory(child) {
            self.unlink_counted(after, child, last, transaction, outcome)
        } else {
            exists|parted: Self, grown: Transaction, sealed: InodeRef, reply: Result<()>|
                {
                    &&& #[trigger] self.links_staged(
                        &parted,
                        transaction,
                        grown,
                        parent,
                        links_of(parent.inode@).wrapping_sub(1),
                        sealed,
                        reply,
                    )
                    &&& match reply {
                        Ok(_) => parted.unlink_counted(after, child, last, grown, outcome),
                        Err(error) => parted.given_up(after, grown) && outcome == Err::<
                            Option<InodeReclaimHandle>,
                            Ext4Error,
                        >(error),
                    }
                }
        }
    }

    /// What taking a name out of a directory, and what follows, calls, changes and returns.
    pub open spec fn unlink_removed(
        &self,
        after: &Self,
        parent: InodeRef,
        child: InodeRef,
        name: Seq<char>,
        last: bool,
        transaction: Transaction,
        outcome: Result<Option<InodeReclaimHandle>>,
    ) -> bool {
        exists|removed: Self, grown: Transaction, reply: Result<()>|
            {
                &&& #[trigger] self.entry_removed(
                    &removed,
                    transaction,
                    grown,
                    parent,
                    name,
                    reply,
                )
                &&& match reply {
                    Ok(_) => removed.unlink_parted(after, parent, child, last, grown, outcome),
                    Err(error) => removed.given_up(after, grown) && outcome == Err::<
                        Option<InodeReclaimHandle>,
                        Ext4Error,
                    >(error),
                }
            }
    }

    /// The blocks that taking a name from an inode may change.
    pub open spec fn credits_to_unlink(&self, child: InodeRef) -> usize {
        unlink_credits(
            directory(child),
            is_last_name(directory(child), links_of(child.inode@)) && self.state().mode is Journal,
        )
    }

    /// What taking a name away calls, changes and returns.
    pub open spec fn unlinked(
        &self,
        after: &Self,
        parent: InodeRef,
        child: InodeRef,
        name: Seq<char>,
        outcome: Result<Option<InodeReclaimHandle>>,
    ) -> bool {
        let last = is_last_name(directory(child), links_of(child.inode@));
        exists|begun: Self, reply: Result<Transaction>|
            {
                &&& #[trigger] self.begun_with_retry(
                    &begun,
                    self.credits_to_unlink(child),
                    reply,
                )
                &&& match reply {
                    Ok(transaction) => begun.unlink_removed(
                        after,
                        parent,
                        child,
                        name,
                        last,
                        transaction,
                        outcome,
                    ),
                    Err(error) => begun.idle(after) && outcome == Err::<
                        Option<InodeReclaimHandle>,
                        Ext4Error,
                    >(error),
                }
            }
    }

    /// Takes a name away.
    fn unlink_inode(&mut self, parent: &InodeRef, child: &InodeRef, name: &str) -> (outcome: Result<
        Option<InodeReclaimHandle>,
    >)
        requires
            old(self).inv(),
        ensures
            final(self).inv(),
            final(self).state().gate == old(self).state().gate,
            old(self).unlinked(final(self), *parent, *child, name@, outcome),
    {
        let is_dir: bool = child.inode.is_dir();
        let last: bool = namespace_removal_is_final(is_dir, child.inode.link_count());
        let orphaned: bool = last && self.uses_journal();
        let credits: usize = if is_dir && orphaned {
            4
        } else if is_dir || orphaned {
            3
        } else {
            2
        };
        let reply = self.transaction_start_with_deferred_retry(credits);
        let ghost begun = *self;
        let ghost answer = reply;
        assert(old(self).begun_with_retry(
            &begun,
            old(self).credits_to_unlink(*child),
            answer,
        ));
        match reply {
            Ok(transaction) => self.remove_name(parent, child, name, last, transaction),
            Err(error) => Err(error),
        }
    }

    /// Takes a name out of a directory, and from its inode.
    fn remove_name(
        &mut self,
        parent: &InodeRef,
        child: &InodeRef,
        name: &str,
        last: bool,
        transaction: Transaction,
    ) -> (outcome: Result<Option<InodeReclaimHandle>>)
        requires
            old(self).inv(),
            transaction.inv(),
        ensures
            final(self).inv(),
            final(self).state().gate == old(self).state().gate,
            old(self).unlink_removed(
                final(self),
                *parent,
                *child,
                name@,
                last,
                transaction,
                outcome,
            ),
    {
        let ghost started = transaction;
        let mut transaction = transaction;
        let reply = self.transaction_dir_remove_entry(&mut transaction, parent, name);
        let ghost removed = *self;
        let ghost named = transaction;
        assert(old(self).entry_removed(&removed, started, named, *parent, name@, reply));
        match reply {
            Ok(_) => {},
            Err(error) => {
                self.transaction_abort(transaction);
                return Err(error);
            },
        }
        if child.inode.is_dir() {
            let mut counted = *parent;
            let links: u16 = parent.inode.link_count();
            let reply = self.stage_links(&mut transaction, &mut counted, links.wrapping_sub(1));
            let ghost parted = *self;
            assert(removed.links_staged(
                &parted,
                named,
                transaction,
                *parent,
                links_of(parent.inode@).wrapping_sub(1),
                counted,
                reply,
            ));
            match reply {
                Ok(_) => {},
                Err(error) => {
                    self.transaction_abort(transaction);
                    assert(removed.unlink_parted(
                        self,
                        *parent,
                        *child,
                        last,
                        named,
                        Err(error),
                    ));
                    return Err(error);
                },
            }
        }
        let outcome = self.count_child_off(child, last, transaction);
        assert(removed.unlink_parted(self, *parent, *child, last, named, outcome));
        outcome
    }

    /// Takes a name from an inode, and ends the change.
    fn count_child_off(&mut self, child: &InodeRef, last: bool, transaction: Transaction) -> (
    outcome: Result<Option<InodeReclaimHandle>>)
        requires
            old(self).inv(),
            transaction.inv(),
        ensures
            final(self).inv(),
            final(self).state().gate == old(self).state().gate,
            old(self).unlink_counted(final(self), *child, last, transaction, outcome),
    {
        let ghost started = transaction;
        let mut transaction = transaction;
        let reply = self.count_name_off(&mut transaction, child, last);
        let ghost counted = *self;
        let ghost grown = transaction;
        assert(old(self).name_counted_off(&counted, started, grown, *child, last, reply));
        match reply {
            Ok(_) => {},
            Err(error) => {
                self.transaction_abort(transaction);
                return Err(error);
            },
        }
        let reply = self.settle_names(transaction, child.inode.is_dir());
        assert(counted.names_settled(
            self,
            grown,
            directory(*child),
            reply,
        ));
        let outcome: Result<Option<InodeReclaimHandle>> = match reply {
            Ok(_) => {
                if last {
                    Ok(Some(InodeReclaimHandle::new(child.id, child.inode.generation())))
                } else {
                    Ok(None)
                }
            },
            Err(error) => Err(error),
        };
        assert(counted.unlink_ended(self, *child, last, grown, outcome));
        outcome
    }
}

impl<D: BlockDevice, V: Volume<D>> Ext4<D, V> {
    /// What reading two inodes calls and returns.
    pub open spec fn pair_read(
        &self,
        after: &Self,
        first: InodeId,
        second: InodeId,
        outcome: Result<(InodeRef, InodeRef)>,
    ) -> bool {
        exists|read: Self, found: Result<InodeRef>|
            {
                &&& #[trigger] self.inode_read(&read, first, found)
                &&& match found {
                    Ok(one) => read.other_read(after, one, second, outcome),
                    Err(error) => read.idle(after) && outcome == Err::<
                        (InodeRef, InodeRef),
                        Ext4Error,
                    >(error),
                }
            }
    }

    /// What reading a second inode calls and returns.
    pub open spec fn other_read(
        &self,
        after: &Self,
        first: InodeRef,
        second: InodeId,
        outcome: Result<(InodeRef, InodeRef)>,
    ) -> bool {
        exists|found: Result<InodeRef>|
            {
                &&& #[trigger] self.inode_read(after, second, found)
                &&& outcome == match found {
                    Ok(other) => Ok::<(InodeRef, InodeRef), Ext4Error>((first, other)),
                    Err(error) => Err(error),
                }
            }
    }

    /// Reads two inodes.
    pub(crate) fn read_pair(&mut self, first: InodeId, second: InodeId) -> (outcome: Result<
        (InodeRef, InodeRef),
    >)
        requires
            old(self).inv(),
        ensures
            final(self).state() == old(self).state(),
            old(self).pair_read(final(self), first, second, outcome),
    {
        let found = self.read_inode(first);
        let ghost read = *self;
        assert(old(self).inode_read(&read, first, found));
        let one = match found {
            Ok(one) => one,
            Err(error) => {
                return Err(error);
            },
        };
        let found = self.read_inode(second);
        assert(read.inode_read(self, second, found));
        let outcome: Result<(InodeRef, InodeRef)> = match found {
            Ok(other) => Ok((one, other)),
            Err(error) => Err(error),
        };
        assert(read.other_read(self, one, second, outcome));
        outcome
    }

    /// What finding a name, its directory and its inode calls and returns.
    pub open spec fn name_resolved(
        &self,
        after: &Self,
        parent: InodeId,
        name: Seq<char>,
        outcome: Result<(InodeRef, InodeRef)>,
    ) -> bool {
        exists|opened: Self, dir: Result<InodeRef>|
            {
                &&& #[trigger] self.dir_opened(&opened, parent, dir)
                &&& match dir {
                    Ok(dir) => opened.name_located(after, dir, parent, name, outcome),
                    Err(error) => opened.idle(after) && outcome == Err::<
                        (InodeRef, InodeRef),
                        Ext4Error,
                    >(error),
                }
            }
    }

    /// What finding a name of a directory, and reading both inodes, calls and returns.
    pub open spec fn name_located(
        &self,
        after: &Self,
        dir: InodeRef,
        parent: InodeId,
        name: Seq<char>,
        outcome: Result<(InodeRef, InodeRef)>,
    ) -> bool {
        exists|located: Self, reply: Result<DirEntryLocation>|
            {
                &&& #[trigger] self.asked(&located, LayerCall::LocateEntry { dir, name, reply })
                &&& match reply {
                    Ok(location) => located.pair_read(after, parent, location.inode_id, outcome),
                    Err(error) => located.idle(after) && outcome == Err::<
                        (InodeRef, InodeRef),
                        Ext4Error,
                    >(error),
                }
            }
    }

    /// Finds a name, its directory and its inode.
    fn resolve_name(&mut self, parent: InodeId, name: &str) -> (outcome: Result<(InodeRef, InodeRef)>)
        requires
            old(self).inv(),
        ensures
            final(self).state() == old(self).state(),
            old(self).name_resolved(final(self), parent, name@, outcome),
    {
        let dir = self.open_dir(parent);
        let ghost opened = *self;
        assert(old(self).dir_opened(&opened, parent, dir));
        let dir = match dir {
            Ok(dir) => dir,
            Err(error) => {
                return Err(error);
            },
        };
        let reply = self.dir_find_entry_location(&dir, name);
        let ghost located = *self;
        assert(opened.asked(&located, LayerCall::LocateEntry { dir, name: name@, reply }));
        let outcome: Result<(InodeRef, InodeRef)> = match reply {
            Ok(location) => self.read_pair(parent, location.inode_id),
            Err(error) => Err(error),
        };
        assert(opened.name_located(self, dir, parent, name@, outcome));
        outcome
    }

    /// What unlinking a file calls, changes and returns, inside the barrier.
    pub open spec fn file_unlinked(
        &self,
        after: &Self,
        parent: InodeId,
        name: Seq<char>,
        outcome: Result<Option<InodeReclaimHandle>>,
    ) -> bool {
        exists|resolved: Self, pair: Result<(InodeRef, InodeRef)>|
            {
                &&& #[trigger] self.name_resolved(&resolved, parent, name, pair)
                &&& match pair {
                    Ok(found) => if directory(found.1) {
                        resolved.idle(after) && outcome == failed::<Option<InodeReclaimHandle>>(
                            ErrCode::EISDIR,
                        )
                    } else {
                        resolved.unlinked(after, found.0, found.1, name, outcome)
                    },
                    Err(error) => resolved.idle(after) && outcome == Err::<
                        Option<InodeReclaimHandle>,
                        Ext4Error,
                    >(error),
                }
            }
    }

    /// Unlinks a file, inside the barrier.
    fn unlink_locked(&mut self, parent: InodeId, name: &str) -> (outcome: Result<
        Option<InodeReclaimHandle>,
    >)
        requires
            old(self).inv(),
        ensures
            final(self).inv(),
            final(self).state().gate == old(self).state().gate,
            old(self).file_unlinked(final(self), parent, name@, outcome),
    {
        let pair = self.resolve_name(parent, name);
        let ghost resolved = *self;
        assert(old(self).name_resolved(&resolved, parent, name@, pair));
        match pair {
            Ok((dir, child)) => {
                if child.inode.is_dir() {
                    return Err(Ext4Error::new(ErrCode::EISDIR));
                }
                self.unlink_inode(&dir, &child, name)
            },
            Err(error) => Err(error),
        }
    }

    /// What taking the name of a file away calls, changes and returns.
    pub open spec fn name_unlinked(
        &self,
        after: &Self,
        parent: InodeId,
        name: Seq<char>,
        outcome: Result<Option<InodeReclaimHandle>>,
    ) -> bool {
        self.changed_exclusively(
            after,
            |inside: Self, left: Self, outcome: Result<Option<InodeReclaimHandle>>|
                inside.file_unlinked(&left, parent, name, outcome),
            outcome,
        )
    }

    /// Takes the name of a file away. An inode without names is left for its blocks to be released.
    pub fn unlink(&mut self, parent: InodeId, name: &str) -> (outcome: Result<
        Option<InodeReclaimHandle>,
    >)
        requires
            old(self).inv(),
        ensures
            final(self).inv(),
            final(self).state().gate == old(self).state().gate,
            old(self).name_unlinked(final(self), parent, name@, outcome),
    {
        match self.ensure_mutable() {
            Ok(_) => {},
            Err(error) => {
                return Err(error);
            },
        }
        let lock = self.lock_transactional_metadata_mutation();
        let ghost inside = *self;
        assert(old(self).exclusive_entered(&inside, lock));
        match lock {
            Ok(_) => {},
            Err(error) => {
                return Err(error);
            },
        }
        let outcome = self.unlink_locked(parent, name);
        self.unlock_transactional_metadata_mutation();
        outcome
    }

    /// What removing a directory that was found calls, changes and returns: it must be empty.
    pub open spec fn dir_emptied(
        &self,
        after: &Self,
        parent: InodeRef,
        child: InodeRef,
        name: Seq<char>,
        outcome: Result<Option<InodeReclaimHandle>>,
    ) -> bool {
        exists|listed: Self, reply: Result<Vec<DirEntry>>|
            {
                &&& #[trigger] self.asked(&listed, LayerCall::ListEntries { dir: child, reply })
                &&& match reply {
                    Ok(entries) => if entries@.len() > EMPTY_DIR_ENTRIES {
                        listed.idle(after) && outcome == failed::<Option<InodeReclaimHandle>>(
                            ErrCode::ENOTEMPTY,
                        )
                    } else {
                        listed.unlinked(after, parent, child, name, outcome)
                    },
                    Err(error) => listed.idle(after) && outcome == Err::<
                        Option<InodeReclaimHandle>,
                        Ext4Error,
                    >(error),
                }
            }
    }

    /// What removing a directory calls, changes and returns, once no images wait for a commit.
    pub open spec fn dir_unlinked(
        &self,
        after: &Self,
        parent: InodeId,
        name: Seq<char>,
        outcome: Result<Option<InodeReclaimHandle>>,
    ) -> bool {
        exists|resolved: Self, pair: Result<(InodeRef, InodeRef)>|
            {
                &&& #[trigger] self.name_resolved(&resolved, parent, name, pair)
                &&& match pair {
                    Ok(found) => if !directory(found.1) {
                        resolved.idle(after) && outcome == failed::<Option<InodeReclaimHandle>>(
                            ErrCode::ENOTDIR,
                        )
                    } else {
                        resolved.dir_emptied(after, found.0, found.1, name, outcome)
                    },
                    Err(error) => resolved.idle(after) && outcome == Err::<
                        Option<InodeReclaimHandle>,
                        Ext4Error,
                    >(error),
                }
            }
    }

    /// What removing a directory calls, changes and returns, inside the barrier.
    pub open spec fn dir_removed(
        &self,
        after: &Self,
        parent: InodeId,
        name: Seq<char>,
        outcome: Result<Option<InodeReclaimHandle>>,
    ) -> bool {
        exists|flushed: Self, reply: Result<()>|
            {
                &&& #[trigger] self.flushed(
                    &flushed,
                    JournalCommitReason::DurabilityBoundary,
                    reply,
                )
                &&& match reply {
                    Ok(_) => flushed.dir_unlinked(after, parent, name, outcome),
                    Err(error) => flushed.idle(after) && outcome == Err::<
                        Option<InodeReclaimHandle>,
                        Ext4Error,
                    >(error),
                }
            }
    }

    /// Removes a directory, inside the barrier.
    fn rmdir_locked(&mut self, parent: InodeId, name: &str) -> (outcome: Result<
        Option<InodeReclaimHandle>,
    >)
        requires
            old(self).inv(),
        ensures
            final(self).inv(),
            final(self).state().gate == old(self).state().gate,
            old(self).dir_removed(final(self), parent, name@, outcome),
    {
        let reply = self.flush_deferred_journal(JournalCommitReason::DurabilityBoundary);
        let ghost flushed = *self;
        assert(old(self).flushed(&flushed, JournalCommitReason::DurabilityBoundary, reply));
        match reply {
            Ok(_) => {},
            Err(error) => {
                return Err(error);
            },
        }
        let pair = self.resolve_name(parent, name);
        let ghost resolved = *self;
        assert(flushed.name_resolved(&resolved, parent, name@, pair));
        let (dir, child) = match pair {
            Ok(found) => found,
            Err(error) => {
                assert(flushed.dir_unlinked(self, parent, name@, Err(error)));
                return Err(error);
            },
        };
        if !child.inode.is_dir() {
            assert(flushed.dir_unlinked(self, parent, name@, failed(ErrCode::ENOTDIR)));
            return Err(Ext4Error::new(ErrCode::ENOTDIR));
        }
        let reply = self.dir_list_entries(&child);
        let ghost listed = *self;
        let ghost answer = reply;
        assert(resolved.asked(&listed, LayerCall::ListEntries { dir: child, reply: answer }));
        let outcome: Result<Option<InodeReclaimHandle>> = match reply {
            Ok(entries) => {
                if entries.len() > EMPTY_DIR_ENTRIES {
                    Err(Ext4Error::new(ErrCode::ENOTEMPTY))
                } else {
                    self.unlink_inode(&dir, &child, name)
                }
            },
            Err(error) => Err(error),
        };
        assert(resolved.dir_emptied(self, dir, child, name@, outcome));
        assert(flushed.dir_unlinked(self, parent, name@, outcome));
        outcome
    }

    /// What removing an empty directory calls, changes and returns, with the barrier.
    pub open spec fn name_of_dir_removed(
        &self,
        after: &Self,
        parent: InodeId,
        name: Seq<char>,
        outcome: Result<Option<InodeReclaimHandle>>,
    ) -> bool {
        self.changed_exclusively(
            after,
            |inside: Self, left: Self, outcome: Result<Option<InodeReclaimHandle>>|
                inside.dir_removed(&left, parent, name, outcome),
            outcome,
        )
    }

    /// Removes an empty directory.
    pub fn rmdir(&mut self, parent: InodeId, name: &str) -> (outcome: Result<
        Option<InodeReclaimHandle>,
    >)
        requires
            old(self).inv(),
        ensures
            final(self).inv(),
            final(self).state().gate == old(self).state().gate,
            old(self).name_of_dir_removed(final(self), parent, name@, outcome),
    {
        match self.ensure_mutable() {
            Ok(_) => {},
            Err(error) => {
                return Err(error);
            },
        }
        let lock = self.lock_transactional_metadata_mutation();
        let ghost inside = *self;
        assert(old(self).exclusive_entered(&inside, lock));
        match lock {
            Ok(_) => {},
            Err(error) => {
                return Err(error);
            },
        }
        let outcome = self.rmdir_locked(parent, name);
        self.unlock_transactional_metadata_mutation();
        outcome
    }

    /// What counting a new name of an inode, and what follows, calls, changes and returns.
    pub open spec fn link_counted(
        &self,
        after: &Self,
        child: InodeRef,
        transaction: Transaction,
        outcome: Result<()>,
    ) -> bool {
        exists|counted: Self, grown: Transaction, sealed: InodeRef, reply: Result<()>|
            {
                &&& #[trigger] self.links_staged(
                    &counted,
                    transaction,
                    grown,
                    child,
                    links_of(child.inode@).wrapping_add(1),
                    sealed,
                    reply,
                )
                &&& match reply {
                    Ok(_) => counted.names_settled(after, grown, false, outcome),
                    Err(error) => counted.given_up(after, grown) && outcome == Err::<
                        (),
                        Ext4Error,
                    >(error),
                }
            }
    }

    /// What adding a name to a directory, and what follows, calls, changes and returns.
    pub open spec fn link_inserted(
        &self,
        after: &Self,
        parent: InodeRef,
        child: InodeRef,
        name: Seq<char>,
        transaction: Transaction,
        outcome: Result<()>,
    ) -> bool {
        exists|inserted: Self, grown: Transaction, reply: Result<()>|
            {
                &&& #[trigger] self.entry_inserted(
                    &inserted,
                    transaction,
                    grown,
                    parent,
                    name,
                    child.id,
                    child.inode.kind(),
                    reply,
                )
                &&& match reply {
                    Ok(_) => inserted.link_counted(after, child, grown, outcome),
                    Err(error) => inserted.given_up(after, grown) && outcome == Err::<
                        (),
                        Ext4Error,
                    >(error),
                }
            }
    }

    /// What adding a name to an inode calls, changes and returns, inside the barrier.
    pub open spec fn link_logged(
        &self,
        after: &Self,
        parent: InodeRef,
        child: InodeRef,
        name: Seq<char>,
        outcome: Result<()>,
    ) -> bool {
        exists|begun: Self, reply: Result<Transaction>|
            {
                &&& #[trigger] self.begun_with_retry(&begun, LINK_CREDITS, reply)
                &&& match reply {
                    Ok(transaction) => begun.link_inserted(
                        after,
                        parent,
                        child,
                        name,
                        transaction,
                        outcome,
                    ),
                    Err(error) => begun.idle(after) && outcome == Err::<(), Ext4Error>(error),
                }
            }
    }

    /// Adds a name to an inode, inside the barrier.
    fn link_inode_transactional(&mut self, parent: &InodeRef, child: &InodeRef, name: &str) -> (
    outcome: Result<()>)
        requires
            old(self).inv(),
        ensures
            final(self).inv(),
            final(self).state().gate == old(self).state().gate,
            old(self).link_logged(final(self), *parent, *child, name@, outcome),
    {
        let reply = self.transaction_start_with_deferred_retry(LINK_CREDITS);
        let ghost begun = *self;
        let ghost answer = reply;
        assert(old(self).begun_with_retry(&begun, LINK_CREDITS, answer));
        let mut transaction = match reply {
            Ok(transaction) => transaction,
            Err(error) => {
                return Err(error);
            },
        };
        let ghost started = transaction;
        let reply = self.transaction_dir_insert_entry(
            &mut transaction,
            parent,
            name,
            child.id,
            child.inode.file_type(),
        );
        let ghost inserted = *self;
        let ghost named = transaction;
        assert(begun.entry_inserted(
            &inserted,
            started,
            named,
            *parent,
            name@,
            child.id,
            child.inode.kind(),
            reply,
        ));
        match reply {
            Ok(_) => {},
            Err(error) => {
                self.transaction_abort(transaction);
                assert(begun.link_inserted(self, *parent, *child, name@, started, Err(error)));
                return Err(error);
            },
        }
        let mut counted = *child;
        let links: u16 = child.inode.link_count();
        let reply = self.stage_links(&mut transaction, &mut counted, links.wrapping_add(1));
        let ghost staged = *self;
        assert(inserted.links_staged(
            &staged,
            named,
            transaction,
            *child,
            links_of(child.inode@).wrapping_add(1),
            counted,
            reply,
        ));
        let outcome: Result<()> = match reply {
            Ok(_) => self.settle_names(transaction, false),
            Err(error) => {
                self.transaction_abort(transaction);
                Err(error)
            },
        };
        assert(inserted.link_counted(self, *child, named, outcome));
        assert(begun.link_inserted(self, *parent, *child, name@, started, outcome));
        outcome
    }

    /// What adding a name to an inode calls, changes and returns, with the barrier.
    pub open spec fn link_gated(
        &self,
        after: &Self,
        parent: InodeRef,
        child: InodeRef,
        name: Seq<char>,
        outcome: Result<()>,
    ) -> bool {
        self.with_exclusive_gate(
            after,
            |inside: Self, left: Self, outcome: Result<()>|
                inside.link_logged(&left, parent, child, name, outcome),
            outcome,
        )
    }

    /// What giving a directory room calls and returns, inside the barrier.
    pub open spec fn dir_grown(
        &self,
        after: &Self,
        dir: InodeRef,
        outcome: Result<InodeRef>,
    ) -> bool {
        exists|grown: InodeRef, reply: Result<()>|
            {
                &&& #[trigger] self.asked(
                    after,
                    LayerCall::GrowDirectory { dir, after: grown, reply },
                )
                &&& outcome == match reply {
                    Ok(_) => Ok::<InodeRef, Ext4Error>(grown),
                    Err(error) => Err(error),
                }
            }
    }

    /// What giving a directory room calls, changes and returns, with the barrier.
    pub open spec fn dir_grown_gated(
        &self,
        after: &Self,
        dir: InodeRef,
        outcome: Result<InodeRef>,
    ) -> bool {
        self.with_direct_gate(
            after,
            |inside: Self, left: Self, outcome: Result<InodeRef>|
                inside.dir_grown(&left, dir, outcome),
            outcome,
        )
    }

    /// Gives a directory room.
    fn grow_dir(&mut self, dir: &InodeRef) -> (outcome: Result<InodeRef>)
        requires
            old(self).inv(),
        ensures
            final(self).inv(),
            final(self).state().gate == old(self).state().gate,
            old(self).dir_grown_gated(final(self), *dir, outcome),
    {
        let lock = self.lock_direct_metadata_mutation();
        let ghost inside = *self;
        assert(old(self).direct_entered(&inside, lock));
        match lock {
            Ok(_) => {},
            Err(error) => {
                return Err(error);
            },
        }
        let mut grown = *dir;
        let reply = self.prepare_empty_dir_slot(&mut grown);
        assert(inside.asked(self, LayerCall::GrowDirectory { dir: *dir, after: grown, reply }));
        let outcome: Result<InodeRef> = match reply {
            Ok(_) => Ok(grown),
            Err(error) => Err(error),
        };
        assert(inside.dir_grown(self, *dir, outcome));
        self.unlock_direct_metadata_mutation();
        outcome
    }

    /// What making sure of room for a name calls, changes and returns.
    pub open spec fn room_made(
        &self,
        after: &Self,
        dir: InodeRef,
        child: InodeRef,
        name: Seq<char>,
        outcome: Result<InodeRef>,
    ) -> bool {
        exists|asked: Self, reply: Result<bool>|
            {
                &&& #[trigger] self.asked(&asked, LayerCall::HasSpace { dir, child, name, reply })
                &&& match reply {
                    Ok(room) => if room {
                        asked.idle(after) && outcome == Ok::<InodeRef, Ext4Error>(dir)
                    } else {
                        asked.dir_grown_gated(after, dir, outcome)
                    },
                    Err(error) => asked.idle(after) && outcome == Err::<InodeRef, Ext4Error>(
                        error,
                    ),
                }
            }
    }

    /// Makes sure of room for a name.
    fn make_room(&mut self, dir: &InodeRef, child: &InodeRef, name: &str) -> (outcome: Result<
        InodeRef,
    >)
        requires
            old(self).inv(),
        ensures
            final(self).inv(),
            final(self).state().gate == old(self).state().gate,
            old(self).room_made(final(self), *dir, *child, name@, outcome),
    {
        let reply = self.dir_has_insert_space(dir, child, name);
        let ghost asked = *self;
        assert(old(self).asked(
            &asked,
            LayerCall::HasSpace { dir: *dir, child: *child, name: name@, reply },
        ));
        match reply {
            Ok(room) => {
                if room {
                    Ok(*dir)
                } else {
                    self.grow_dir(dir)
                }
            },
            Err(error) => Err(error),
        }
    }

    /// What checking that a name is free calls and returns.
    pub open spec fn name_checked(
        &self,
        after: &Self,
        dir: InodeRef,
        name: Seq<char>,
        outcome: Result<()>,
    ) -> bool {
        exists|found: Result<InodeId>|
            {
                &&& #[trigger] self.asked(
                    after,
                    LayerCall::FindEntry { dir, name, reply: found },
                )
                &&& outcome == match found {
                    Ok(_) => failed::<()>(ErrCode::EEXIST),
                    Err(error) => if error.code == ErrCode::ENOENT {
                        Ok(())
                    } else {
                        Err(error)
                    },
                }
            }
    }

    /// What adding a free name calls, changes and returns.
    pub open spec fn link_roomed(
        &self,
        after: &Self,
        dir: InodeRef,
        child: InodeRef,
        name: Seq<char>,
        outcome: Result<()>,
    ) -> bool {
        exists|made: Self, grown: Result<InodeRef>|
            {
                &&& #[trigger] self.room_made(&made, dir, child, name, grown)
                &&& made.inv()
                &&& match grown {
                    Ok(parent) => made.link_gated(after, parent, child, name, outcome),
                    Err(error) => made.idle(after) && outcome == Err::<(), Ext4Error>(error),
                }
            }
    }

    /// What adding a name to an inode of a directory calls, changes and returns.
    pub open spec fn link_checked(
        &self,
        after: &Self,
        dir: InodeRef,
        child: InodeRef,
        name: Seq<char>,
        outcome: Result<()>,
    ) -> bool {
        if directory(child) {
            self.idle(after) && outcome == failed::<()>(ErrCode::EISDIR)
        } else {
            exists|checked: Self, reply: Result<()>|
                {
                    &&& #[trigger] self.name_checked(&checked, dir, name, reply)
                    &&& match reply {
                        Ok(_) => checked.link_roomed(after, dir, child, name, outcome),
                        Err(error) => checked.idle(after) && outcome == Err::<(), Ext4Error>(
                            error,
                        ),
                    }
                }
        }
    }

    /// What reading the inode that gets a name, and what follows, calls, changes and returns.
    pub open spec fn link_opened(
        &self,
        after: &Self,
        dir: InodeRef,
        child: InodeId,
        name: Seq<char>,
        outcome: Result<()>,
    ) -> bool {
        exists|read: Self, found: Result<InodeRef>|
            {
                &&& #[trigger] self.inode_read(&read, child, found)
                &&& match found {
                    Ok(inode) => read.link_checked(after, dir, inode, name, outcome),
                    Err(error) => read.idle(after) && outcome == Err::<(), Ext4Error>(error),
                }
            }
    }

    /// What adding a hard link calls, changes and returns.
    pub open spec fn hard_linked(
        &self,
        after: &Self,
        child: InodeId,
        parent: InodeId,
        name: Seq<char>,
        outcome: Result<()>,
    ) -> bool {
        if !self.state().mutable() {
            self.idle(after) && outcome == failed::<()>(ErrCode::EROFS)
        } else {
            exists|opened: Self, dir: Result<InodeRef>|
                {
                    &&& #[trigger] self.dir_opened(&opened, parent, dir)
                    &&& match dir {
                        Ok(dir) => opened.link_opened(after, dir, child, name, outcome),
                        Err(error) => opened.idle(after) && outcome == Err::<(), Ext4Error>(
                            error,
                        ),
                    }
                }
        }
    }

    /// Adds a name to a file.
    pub fn link(&mut self, child: InodeId, parent: InodeId, name: &str) -> (outcome: Result<()>)
        requires
            old(self).inv(),
        ensures
            final(self).inv(),
            final(self).state().gate == old(self).state().gate,
            old(self).hard_linked(final(self), child, parent, name@, outcome),
    {
        match self.ensure_mutable() {
            Ok(_) => {},
            Err(error) => {
                return Err(error);
            },
        }
        let dir = self.open_dir(parent);
        let ghost opened = *self;
        assert(old(self).dir_opened(&opened, parent, dir));
        let dir = match dir {
            Ok(dir) => dir,
            Err(error) => {
                return Err(error);
            },
        };
        let found = self.read_inode(child);
        let ghost read = *self;
        assert(opened.inode_read(&read, child, found));
        let outcome: Result<()> = match found {
            Ok(inode) => self.link_into(&dir, &inode, name),
            Err(error) => Err(error),
        };
        assert(opened.link_opened(self, dir, child, name@, outcome));
        outcome
    }

    /// Adds a name to an inode of a directory.
    fn link_into(&mut self, dir: &InodeRef, child: &InodeRef, name: &str) -> (outcome: Result<()>)
        requires
            old(self).inv(),
        ensures
            final(self).inv(),
            final(self).state().gate == old(self).state().gate,
            old(self).link_checked(final(self), *dir, *child, name@, outcome),
    {
        if child.inode.is_dir() {
            return Err(Ext4Error::new(ErrCode::EISDIR));
        }
        let found = self.dir_find_entry(dir, name);
        let ghost checked = *self;
        assert(old(self).asked(
            &checked,
            LayerCall::FindEntry { dir: *dir, name: name@, reply: found },
        ));
        match found {
            Ok(_) => {
                assert(old(self).name_checked(
                    &checked,
                    *dir,
                    name@,
                    failed(ErrCode::EEXIST),
                ));
                return Err(Ext4Error::new(ErrCode::EEXIST));
            },
            Err(error) => {
                if error.code() != ErrCode::ENOENT {
                    assert(old(self).name_checked(&checked, *dir, name@, Err(error)));
                    return Err(error);
                }
            },
        }
        assert(old(self).name_checked(&checked, *dir, name@, Ok(())));
        let room = self.make_room(dir, child, name);
        let ghost made = *self;
        assert(checked.room_made(&made, *dir, *child, name@, room));
        let outcome: Result<()> = match room {
            Ok(parent) => self.gate_link(&parent, child, name),
            Err(error) => Err(error),
        };
        assert(checked.link_roomed(self, *dir, *child, name@, outcome));
        outcome
    }

    /// Adds a name to an inode, with the barrier.
    fn gate_link(&mut self, parent: &InodeRef, child: &InodeRef, name: &str) -> (outcome: Result<()>)
        requires
            old(self).inv(),
        ensures
            final(self).inv(),
            final(self).state().gate == old(self).state().gate,
            old(self).link_gated(final(self), *parent, *child, name@, outcome),
    {
        let lock = self.lock_transactional_metadata_mutation();
        let ghost inside = *self;
        assert(old(self).exclusive_entered(&inside, lock));
        match lock {
            Ok(_) => {},
            Err(error) => {
                return Err(error);
            },
        }
        let outcome = self.link_inode_transactional(parent, child, name);
        self.unlock_transactional_metadata_mutation();
        outcome
    }
}

impl<D: BlockDevice, V: Volume<D>> Ext4<D, V> {
    /// Taking the last name of an inode away gives the inode out to be reclaimed, and taking
    /// another name away does not.
    pub proof fn lemma_last_name_gives_the_inode_out(
        &self,
        after: &Self,
        parent: InodeRef,
        child: InodeRef,
        name: Seq<char>,
        handle: Option<InodeReclaimHandle>,
    )
        requires
            self.unlinked(after, parent, child, name, Ok(handle)),
        ensures
            handle == handle_of(child, is_last_name(directory(child), links_of(child.inode@))),
    {
        let last = is_last_name(directory(child), links_of(child.inode@));
        let (begun, start) = choose|begun: Self, start: Result<Transaction>|
            {
                &&& #[trigger] self.begun_with_retry(
                    &begun,
                    self.credits_to_unlink(child),
                    start,
                )
                &&& match start {
                    Ok(transaction) => begun.unlink_removed(
                        after,
                        parent,
                        child,
                        name,
                        last,
                        transaction,
                        Ok(handle),
                    ),
                    Err(error) => begun.idle(after) && Ok::<
                        Option<InodeReclaimHandle>,
                        Ext4Error,
                    >(handle) == Err::<Option<InodeReclaimHandle>, Ext4Error>(error),
                }
            };
        let transaction = start->Ok_0;
        let (removed, first, reply) = choose|
            removed: Self,
            first: Transaction,
            reply: Result<()>,
        |
            {
                &&& #[trigger] begun.entry_removed(
                    &removed,
                    transaction,
                    first,
                    parent,
                    name,
                    reply,
                )
                &&& match reply {
                    Ok(_) => removed.unlink_parted(after, parent, child, last, first, Ok(handle)),
                    Err(error) => removed.given_up(after, first) && Ok::<
                        Option<InodeReclaimHandle>,
                        Ext4Error,
                    >(handle) == Err::<Option<InodeReclaimHandle>, Ext4Error>(error),
                }
            };
        if !directory(child) {
            removed.lemma_counted_handle(after, child, last, first, handle);
        } else {
            let (parted, second, sealed, told) = choose|
                parted: Self,
                second: Transaction,
                sealed: InodeRef,
                told: Result<()>,
            |
                {
                    &&& #[trigger] removed.links_staged(
                        &parted,
                        first,
                        second,
                        parent,
                        links_of(parent.inode@).wrapping_sub(1),
                        sealed,
                        told,
                    )
                    &&& match told {
                        Ok(_) => parted.unlink_counted(after, child, last, second, Ok(handle)),
                        Err(error) => parted.given_up(after, second) && Ok::<
                            Option<InodeReclaimHandle>,
                            Ext4Error,
                        >(handle) == Err::<Option<InodeReclaimHandle>, Ext4Error>(error),
                    }
                };
            parted.lemma_counted_handle(after, child, last, second, handle);
        }
    }

    /// Counting a name off gives the handle of the inode.
    proof fn lemma_counted_handle(
        &self,
        after: &Self,
        child: InodeRef,
        last: bool,
        transaction: Transaction,
        handle: Option<InodeReclaimHandle>,
    )
        requires
            self.unlink_counted(after, child, last, transaction, Ok(handle)),
        ensures
            handle == handle_of(child, last),
    {
        let (counted, grown, reply) = choose|
            counted: Self,
            grown: Transaction,
            reply: Result<()>,
        |
            {
                &&& #[trigger] self.name_counted_off(
                    &counted,
                    transaction,
                    grown,
                    child,
                    last,
                    reply,
                )
                &&& match reply {
                    Ok(_) => counted.unlink_ended(after, child, last, grown, Ok(handle)),
                    Err(error) => counted.given_up(after, grown) && Ok::<
                        Option<InodeReclaimHandle>,
                        Ext4Error,
                    >(handle) == Err::<Option<InodeReclaimHandle>, Ext4Error>(error),
                }
            };
        assert(counted.unlink_ended(after, child, last, grown, Ok(handle)));
    }
}

} // verus!
