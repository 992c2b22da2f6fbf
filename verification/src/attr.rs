//! Reading and changing the attributes of a file.

use vstd::prelude::*;
use crate::content::{
    held, lemma_extends, lemma_held_joins, lemma_held_without_writes, told, told_all, Disk,
};
use crate::device::{extends, since, Block, BlockDevice, Event};
use crate::error::{failed, ErrCode, Ext4Error, Result};
use crate::fs::{bytes_read, inode_found, Ext4, MetadataMutationMode};
use crate::grow::is_free;
use crate::inode::{
    attributes_of, attributes_with, file_attr, lemma_attributes_read_back, FileAttr, InodeRef, SetAttr,
    SB_GOOD_INODE_SIZE,
};
use crate::journal_transaction::{CommitError, Transaction};
use crate::prepare_journal::MAX_DEFERRED_JOURNAL_BLOCKS;
use crate::readback::lemma_patch_waits;
use crate::staged::{block_of, holds_home, overlay, without_originals, StagedBlock};
use crate::superblock::{lemma_checksum_keeps_inode, sealed_inode};
use crate::volume::Volume;
use crate::{InodeId, BLOCK_SIZE};

verus! {

/// The blocks that changing attributes changes.
pub const ATTR_CREDITS: usize = 1;

/// The attributes that a commit of cached metadata sets.
pub open spec fn metadata_attr(size: Option<u64>, atime: Option<u32>, mtime: Option<u32>) -> SetAttr {
    SetAttr {
        mode: None,
        uid: None,
        gid: None,
        size,
        atime,
        mtime,
        ctime: None,
        crtime: None,
    }
}

impl<D: BlockDevice, V: Volume<D>> Ext4<D, V> {
    /// What reading the attributes of a file calls and returns.
    pub open spec fn attributes_read(
        &self,
        after: &Self,
        id: InodeId,
        outcome: Result<FileAttr>,
    ) -> bool {
        exists|found: Result<InodeRef>|
            {
                &&& #[trigger] self.inode_read(after, id, found)
                &&& outcome == match found {
                    Ok(inode) => if is_free(inode.inode) {
                        failed::<FileAttr>(ErrCode::EINVAL)
                    } else {
                        Ok(attributes_of(inode))
                    },
                    Err(error) => Err(error),
                }
            }
    }

    /// Reads the attributes of a file.
    pub fn getattr(&mut self, id: InodeId) -> (outcome: Result<FileAttr>)
        requires
            old(self).inv(),
        ensures
            final(self).state() == old(self).state(),
            old(self).attributes_read(final(self), id, outcome),
    {
        let found = self.read_inode(id);
        assert(old(self).inode_read(self, id, found));
        match found {
            Ok(inode) => {
                if inode.inode.mode().bits() == 0 {
                    return Err(Ext4Error::new(ErrCode::EINVAL));
                }
                Ok(file_attr(&inode))
            },
            Err(error) => Err(error),
        }
    }

    /// What finishing a change of attributes inside a transaction calls, changes and returns.
    pub open spec fn attr_joined(
        &self,
        after: &Self,
        transaction: Transaction,
        outcome: Result<bool>,
    ) -> bool {
        exists|done: Self, reply: core::result::Result<(), CommitError>, result: Result<()>|
            {
                &&& #[trigger] self.deferred(
                    &done,
                    transaction,
                    MAX_DEFERRED_JOURNAL_BLOCKS,
                    reply,
                )
                &&& #[trigger] done.settled(after, reply, result)
                &&& outcome == match result {
                    Ok(_) => Ok::<bool, Ext4Error>(true),
                    Err(error) => Err(error),
                }
            }
    }

    /// What staging changed attributes, and what follows, calls, changes and returns.
    pub open spec fn attr_staged(
        &self,
        after: &Self,
        inode: InodeRef,
        attr: SetAttr,
        transaction: Transaction,
        outcome: Result<bool>,
    ) -> bool {
        exists|staged: Self, grown: Transaction, changed: InodeRef, sealed: InodeRef, reply: Result<()>|
            {
                &&& #[trigger] self.inode_staged(
                    &staged,
                    transaction,
                    grown,
                    changed,
                    sealed,
                    reply,
                )
                &&& changed.id == inode.id
                &&& changed.inode@ == attr.applied(inode.inode@)
                &&& match reply {
                    Ok(_) => staged.attr_joined(after, grown, outcome),
                    Err(error) => staged.given_up(after, grown) && outcome == Err::<
                        bool,
                        Ext4Error,
                    >(error),
                }
            }
    }

    /// What changing attributes inside a transaction calls, changes and returns.
    pub open spec fn attr_opened(
        &self,
        after: &Self,
        id: InodeId,
        attr: SetAttr,
        transaction: Transaction,
        outcome: Result<bool>,
    ) -> bool {
        exists|read: Self, found: Result<InodeRef>|
            {
                &&& #[trigger] self.staged_inode_read(&read, transaction, id, found)
                &&& match found {
                    Ok(inode) => if is_free(inode.inode) {
                        read.given_up(after, transaction) && outcome == failed::<bool>(
                            ErrCode::EINVAL,
                        )
                    } else {
                        read.attr_staged(after, inode, attr, transaction, outcome)
                    },
                    Err(error) => read.given_up(after, transaction) && outcome == Err::<
                        bool,
                        Ext4Error,
                    >(error),
                }
            }
    }

    /// What changing attributes on top of images that wait calls, changes and returns, inside the
    /// barrier; without such images nothing is done.
    pub open spec fn attr_extended(
        &self,
        after: &Self,
        id: InodeId,
        attr: SetAttr,
        outcome: Result<bool>,
    ) -> bool {
        exists|begun: Self, reply: Result<Option<Transaction>>|
            {
                &&& #[trigger] self.begun_if_deferred(&begun, ATTR_CREDITS, reply)
                &&& match reply {
                    Ok(Some(transaction)) => begun.attr_opened(
                        after,
                        id,
                        attr,
                        transaction,
                        outcome,
                    ),
                    Ok(None) => begun.idle(after) && outcome == Ok::<bool, Ext4Error>(false),
                    Err(error) => begun.idle(after) && outcome == Err::<bool, Ext4Error>(error),
                }
            }
    }

    /// Changes attributes on top of images that wait, inside the barrier.
    fn extend_attr(&mut self, id: InodeId, attr: &SetAttr) -> (outcome: Result<bool>)
        requires
            old(self).inv(),
        ensures
            final(self).inv(),
            final(self).state().gate == old(self).state().gate,
            old(self).attr_extended(final(self), id, *attr, outcome),
    {
        let reply = self.transaction_start_if_deferred(ATTR_CREDITS);
        let ghost begun = *self;
        let ghost answer = reply;
        assert(old(self).begun_if_deferred(&begun, ATTR_CREDITS, answer));
        let mut transaction = match reply {
            Ok(Some(transaction)) => transaction,
            Ok(None) => {
                return Ok(false);
            },
            Err(error) => {
                return Err(error);
            },
        };
        let ghost started = transaction;
        let found = self.transaction_read_inode(&transaction, id);
        let ghost read = *self;
        assert(begun.staged_inode_read(&read, started, id, found));
        let inode = match found {
            Ok(inode) => inode,
            Err(error) => {
                self.transaction_abort(transaction);
                assert(begun.attr_opened(self, id, *attr, started, Err(error)));
                return Err(error);
            },
        };
        if inode.inode.mode().bits() == 0 {
            self.transaction_abort(transaction);
            assert(begun.attr_opened(self, id, *attr, started, failed(ErrCode::EINVAL)));
            return Err(Ext4Error::new(ErrCode::EINVAL));
        }
        let mut changed = inode;
        attr.apply_to(&mut changed.inode);
        let ghost applied = changed;
        let reply = self.transaction_stage_inode_with_csum(&mut transaction, &mut changed);
        let ghost staged = *self;
        assert(read.inode_staged(&staged, started, transaction, applied, changed, reply));
        let outcome: Result<bool> = match reply {
            Ok(_) => self.join_attr(transaction),
            Err(error) => {
                self.transaction_abort(transaction);
                Err(error)
            },
        };
        assert(read.attr_staged(self, inode, *attr, started, outcome));
        assert(begun.attr_opened(self, id, *attr, started, outcome));
        outcome
    }

    /// Finishes a change of attributes inside a transaction.
    fn join_attr(&mut self, transaction: Transaction) -> (outcome: Result<bool>)
        requires
            old(self).inv(),
            transaction.inv(),
        ensures
            final(self).inv(),
            final(self).state().gate == old(self).state().gate,
            old(self).attr_joined(final(self), transaction, outcome),
    {
        let reply = self.transaction_defer_or_commit(transaction, MAX_DEFERRED_JOURNAL_BLOCKS);
        let ghost done = *self;
        assert(old(self).deferred(&done, transaction, MAX_DEFERRED_JOURNAL_BLOCKS, reply));
        let result = self.settle(reply);
        assert(done.settled(self, reply, result));
        match result {
            Ok(_) => Ok(true),
            Err(error) => Err(error),
        }
    }

    /// What changing attributes on top of images that wait calls, changes and returns.
    pub open spec fn attr_deferred(
        &self,
        after: &Self,
        id: InodeId,
        attr: SetAttr,
        outcome: Result<bool>,
    ) -> bool {
        if !(self.state().mode is Journal) {
            self.idle(after) && outcome == Ok::<bool, Ext4Error>(false)
        } else {
            self.with_exclusive_gate(
                after,
                |inside: Self, left: Self, outcome: Result<bool>|
                    inside.attr_extended(&left, id, attr, outcome),
                outcome,
            )
        }
    }

    /// Changes attributes on top of images that wait for a commit, if there are any.
    fn defer_inode_metadata_if_pending(&mut self, id: InodeId, attr: &SetAttr) -> (outcome: Result<
        bool,
    >)
        requires
            old(self).inv(),
        ensures
            final(self).inv(),
            final(self).state().gate == old(self).state().gate,
            old(self).attr_deferred(final(self), id, *attr, outcome),
    {
        if !self.uses_journal() {
            return Ok(false);
        }
        let lock = self.lock_transactional_metadata_mutation();
        let ghost inside = *self;
        assert(old(self).exclusive_entered(&inside, lock));
        match lock {
            Ok(_) => {},
            Err(error) => {
                return Err(error);
            },
        }
        let outcome = self.extend_attr(id, attr);
        self.unlock_transactional_metadata_mutation();
        outcome
    }

    /// What writing changed attributes calls and returns.
    pub open spec fn attr_stored(
        &self,
        after: &Self,
        inode: InodeRef,
        attr: SetAttr,
        outcome: Result<()>,
    ) -> bool {
        exists|changed: InodeRef, sealed: InodeRef|
            {
                &&& #[trigger] self.inode_written(after, changed, sealed, outcome)
                &&& changed.id == inode.id
                &&& changed.inode@ == attr.applied(inode.inode@)
            }
    }

    /// What changing attributes in place calls and returns, inside the barrier.
    pub open spec fn attr_written(
        &self,
        after: &Self,
        id: InodeId,
        attr: SetAttr,
        outcome: Result<()>,
    ) -> bool {
        exists|read: Self, found: Result<InodeRef>|
            {
                &&& #[trigger] self.inode_read(&read, id, found)
                &&& match found {
                    Ok(inode) => if is_free(inode.inode) {
                        read.idle(after) && outcome == failed::<()>(ErrCode::EINVAL)
                    } else {
                        read.attr_stored(after, inode, attr, outcome)
                    },
                    Err(error) => read.idle(after) && outcome == Err::<(), Ext4Error>(error),
                }
            }
    }

    /// Changes attributes in place, inside the barrier.
    fn write_attr(&mut self, id: InodeId, attr: &SetAttr) -> (outcome: Result<()>)
        requires
            old(self).inv(),
        ensures
            final(self).state() == old(self).state(),
            old(self).attr_written(final(self), id, *attr, outcome),
    {
        let found = self.read_inode(id);
        let ghost read = *self;
        assert(old(self).inode_read(&read, id, found));
        let mut inode = match found {
            Ok(inode) => inode,
            Err(error) => {
                return Err(error);
            },
        };
        if inode.inode.mode().bits() == 0 {
            return Err(Ext4Error::new(ErrCode::EINVAL));
        }
        let ghost original = inode;
        attr.apply_to(&mut inode.inode);
        let ghost changed = inode;
        let outcome = self.write_inode_with_csum(&mut inode);
        assert(read.inode_written(self, changed, inode, outcome));
        assert(read.attr_stored(self, original, *attr, outcome));
        outcome
    }

    /// What changing attributes in place calls, changes and returns, with the barrier.
    pub open spec fn attr_gated(
        &self,
        after: &Self,
        id: InodeId,
        attr: SetAttr,
        outcome: Result<()>,
    ) -> bool {
        self.with_direct_gate(
            after,
            |inside: Self, left: Self, outcome: Result<()>|
                inside.attr_written(&left, id, attr, outcome),
            outcome,
        )
    }

    /// What changing attributes calls, changes and returns: sizes and times that writeback leaves
    /// join the images that wait for a commit.
    pub open spec fn attr_changed(
        &self,
        after: &Self,
        id: InodeId,
        attr: SetAttr,
        outcome: Result<()>,
    ) -> bool {
        if !self.state().mutable() {
            self.idle(after) && outcome == failed::<()>(ErrCode::EROFS)
        } else if !attr.writeback_only() {
            self.attr_gated(after, id, attr, outcome)
        } else {
            exists|tried: Self, reply: Result<bool>|
                {
                    &&& #[trigger] self.attr_deferred(&tried, id, attr, reply)
                    &&& match reply {
                        Ok(joined) => if joined {
                            tried.idle(after) && outcome == Ok::<(), Ext4Error>(())
                        } else {
                            tried.attr_gated(after, id, attr, outcome)
                        },
                        Err(error) => tried.idle(after) && outcome == Err::<(), Ext4Error>(error),
                    }
                }
        }
    }

    /// Changes the attributes of a file.
    pub fn setattr(&mut self, id: InodeId, attr: SetAttr) -> (outcome: Result<()>)
        requires
            old(self).inv(),
        ensures
            final(self).inv(),
            final(self).state().gate == old(self).state().gate,
            old(self).attr_changed(final(self), id, attr, outcome),
    {
        match self.ensure_mutable() {
            Ok(_) => {},
            Err(error) => {
                return Err(error);
            },
        }
        if attr.is_writeback_metadata_only() {
            let reply = self.defer_inode_metadata_if_pending(id, &attr);
            let ghost tried = *self;
            assert(old(self).attr_deferred(&tried, id, attr, reply));
            return match reply {
                Ok(joined) => {
                    if joined {
                        Ok(())
                    } else {
                        self.gate_attr(id, &attr)
                    }
                },
                Err(error) => Err(error),
            };
        }
        self.gate_attr(id, &attr)
    }

    /// Changes attributes in place.
    fn gate_attr(&mut self, id: InodeId, attr: &SetAttr) -> (outcome: Result<()>)
        requires
            old(self).inv(),
        ensures
            final(self).inv(),
            final(self).state().gate == old(self).state().gate,
            old(self).attr_gated(final(self), id, *attr, outcome),
    {
        let lock = self.lock_direct_metadata_mutation();
        let ghost inside = *self;
        assert(old(self).direct_entered(&inside, lock));
        match lock {
            Ok(_) => {},
            Err(error) => {
                return Err(error);
            },
        }
        let outcome = self.write_attr(id, attr);
        self.unlock_direct_metadata_mutation();
        outcome
    }

    /// Writes cached metadata, without allocating blocks.
    pub fn commit_inode_metadata(
        &mut self,
        id: InodeId,
        size: Option<u64>,
        atime: Option<u32>,
        mtime: Option<u32>,
    ) -> (outcome: Result<()>)
        requires
            old(self).inv(),
        ensures
            final(self).inv(),
            final(self).state().gate == old(self).state().gate,
            old(self).attr_changed(
                final(self),
                id,
                metadata_attr(size, atime, mtime),
                outcome,
            ),
    {
        let mut attr = SetAttr::new();
        attr.size = size;
        attr.atime = atime;
        attr.mtime = mtime;
        assert(attr == metadata_attr(size, atime, mtime));
        self.setattr(id, attr)
    }

    /// Writes the size of a file, and the time of its last change, without allocating blocks.
    pub fn commit_inode_size(&mut self, id: InodeId, size: u64, mtime: Option<u32>) -> (outcome:
        Result<()>)
        requires
            old(self).inv(),
        ensures
            final(self).inv(),
            final(self).state().gate == old(self).state().gate,
            old(self).attr_changed(
                final(self),
                id,
                metadata_attr(Some(size), None, mtime),
                outcome,
            ),
    {
        self.commit_inode_metadata(id, Some(size), None, mtime)
    }
}

impl<D: BlockDevice, V: Volume<D>> Ext4<D, V> {
    /// Attributes that were set in place are the attributes that are read afterwards, and the
    /// others are as before.
    pub proof fn lemma_set_attributes_are_read(
        &self,
        written: &Self,
        later: &Self,
        after: &Self,
        before: InodeRef,
        attr: SetAttr,
        outcome: FileAttr,
        disk: Disk,
    )
        requires
            self.attr_written(written, before.id, attr, Ok(())),
            later.attributes_read(after, before.id, Ok(outcome)),
            self.inode_held(disk, before.id, before.inode@),
            told_all(since(self.log(), written.log()), disk),
            later.state() == self.state(),
            told_all(
                since(later.log(), after.log()),
                held(disk, since(self.log(), written.log())),
            ),
        ensures
            outcome == attributes_with(
                attributes_of(before),
                before.inode.device_number(),
                attr,
            ),
    {
        let id = before.id;
        let (read, found) = choose|read: Self, found: Result<InodeRef>|
            {
                &&& #[trigger] self.inode_read(&read, id, found)
                &&& match found {
                    Ok(inode) => if is_free(inode.inode) {
                        read.idle(written) && Ok::<(), Ext4Error>(()) == failed::<()>(
                            ErrCode::EINVAL,
                        )
                    } else {
                        read.attr_stored(written, inode, attr, Ok(()))
                    },
                    Err(error) => read.idle(written) && Ok::<(), Ext4Error>(()) == Err::<
                        (),
                        Ext4Error,
                    >(error),
                }
            };
        let inode = found->Ok_0;
        let (changed, sealed) = choose|changed: InodeRef, sealed: InodeRef|
            {
                &&& #[trigger] read.inode_written(written, changed, sealed, Ok(()))
                &&& changed.id == inode.id
                &&& changed.inode@ == attr.applied(inode.inode@)
            };
        let calls = since(self.log(), written.log());
        lemma_inode_calls(self, &read, written, id, found, changed, sealed, Ok(()));
        let first = since(self.log(), read.log());
        let rest = since(read.log(), written.log());
        assert(calls =~= first + rest) by {
            assert(written.log().take(read.log().len() as int) == read.log());
        }
        assert(told_all(first, disk)) by {
            assert forall|k: int| 0 <= k < first.len() implies told(#[trigger] first[k], disk) by {
                assert(calls[k] == first[k]);
            }
        }
        assert(told_all(rest, disk)) by {
            assert forall|k: int| 0 <= k < rest.len() implies told(#[trigger] rest[k], disk) by {
                assert(calls[k + first.len()] == rest[k]);
            }
        }
        self.lemma_inode_read_is_held(&read, id, inode, disk, before.inode@);
        lemma_held_joins(disk, first, rest);
        lemma_held_without_writes(disk, first);
        read.lemma_inode_written_is_held(written, changed, sealed, disk, before.inode@);
        let last = held(disk, calls);
        let raw = sealed_inode(changed.inode@, id, self.state().superblock);
        assert(later.inode_held(last, id, raw));
        let reply = choose|reply: Result<InodeRef>|
            {
                &&& #[trigger] later.inode_read(after, id, reply)
                &&& Ok::<FileAttr, Ext4Error>(outcome) == match reply {
                    Ok(inode) => if is_free(inode.inode) {
                        failed::<FileAttr>(ErrCode::EINVAL)
                    } else {
                        Ok(attributes_of(inode))
                    },
                    Err(error) => Err(error),
                }
            };
        later.lemma_inode_read_is_held(after, id, reply->Ok_0, last, raw);
        lemma_checksum_keeps_inode(changed, reply->Ok_0, self.state().superblock);
        lemma_attributes_read_back(before, changed, attr);
    }
}

impl<D: BlockDevice, V: Volume<D>> Ext4<D, V> {
    /// Whether an inode is what an image that waits for a commit holds, or else a device.
    pub open spec fn inode_seen(&self, disk: Disk, id: InodeId, raw: Seq<u8>) -> bool {
        match self.state().inode_position(id) {
            Some((home, at)) => {
                &&& at + SB_GOOD_INODE_SIZE <= BLOCK_SIZE
                &&& raw == if holds_home(self.state().batch(), home) {
                    block_of(self.state().batch(), home).image@.subrange(
                        at,
                        at + SB_GOOD_INODE_SIZE,
                    )
                } else {
                    disk[home].subrange(at, at + SB_GOOD_INODE_SIZE)
                }
            },
            None => false,
        }
    }

    /// Whether an inode stands neither with the superblock nor with a block group descriptor.
    pub open spec fn inode_uncached(&self, id: InodeId) -> bool {
        self.state().inode_position(id) matches Some((home, _)) ==> {
            &&& home != 0
            &&& forall|i: int|
                0 <= i < self.state().groups.len() ==> (#[trigger] self.state().group_position(i)).0
                    != home
        }
    }

    /// Changed attributes that were staged on top of images that wait are in the image that waits.
    proof fn lemma_staged_attributes_wait(
        &self,
        left: &Self,
        inode: InodeRef,
        attr: SetAttr,
        transaction: Transaction,
    )
        requires
            self.attr_staged(left, inode, attr, transaction, Ok(true)),
            self.state().mode matches MetadataMutationMode::Journal(journal)
                && journal.context().deferred_transaction is None,
            transaction.inv(),
            left.state().batch().len() > 0,
            transaction.staged() == Seq::<StagedBlock>::empty(),
            self.state().inode_position(inode.id) matches Some((_, at)) && at + SB_GOOD_INODE_SIZE
                <= BLOCK_SIZE,
            self.inode_uncached(inode.id),
        ensures
            extends(self.log(), left.log()),
            exists|changed: InodeRef|
                changed.id == inode.id && changed.inode@ == attr.applied(inode.inode@),
            self.state().inode_position(inode.id) matches Some((home, at)) && {
                &&& left.state().superblock == self.state().superblock
                &&& left.state().groups == self.state().groups
                &&& holds_home(left.state().batch(), home)
                &&& block_of(left.state().batch(), home).image@.subrange(
                    at,
                    at + SB_GOOD_INODE_SIZE,
                ) == sealed_inode(
                    attr.applied(inode.inode@),
                    inode.id,
                    self.state().superblock,
                )
            },
    {
        let (staged, grown, changed, sealed, answer) = choose|
            staged: Self,
            grown: Transaction,
            changed: InodeRef,
            sealed: InodeRef,
            answer: Result<()>,
        |
            {
                &&& #[trigger] self.inode_staged(
                    &staged,
                    transaction,
                    grown,
                    changed,
                    sealed,
                    answer,
                )
                &&& changed.id == inode.id
                &&& changed.inode@ == attr.applied(inode.inode@)
                &&& match answer {
                    Ok(_) => staged.attr_joined(left, grown, Ok(true)),
                    Err(error) => staged.given_up(left, grown) && Ok::<bool, Ext4Error>(true)
                        == Err::<bool, Ext4Error>(error),
                }
            };
        match answer {
            Ok(done) => {
                assert(done == ());
            },
            Err(_) => {},
        }
        let (done, ending, result) = choose|
            done: Self,
            ending: core::result::Result<(), CommitError>,
            result: Result<()>,
        |
            {
                &&& #[trigger] staged.deferred(
                    &done,
                    grown,
                    MAX_DEFERRED_JOURNAL_BLOCKS,
                    ending,
                )
                &&& #[trigger] done.settled(left, ending, result)
                &&& Ok::<bool, Ext4Error>(true) == match result {
                    Ok(_) => Ok::<bool, Ext4Error>(true),
                    Err(error) => Err(error),
                }
            };
        let (home, at) = self.state().inode_position(inode.id)->0;
        self.lemma_followed_is_recorded(&staged);
        staged.lemma_followed_is_recorded(&done);
        lemma_extends(self.log(), staged.log(), done.log());
        lemma_patch_waits(
            transaction,
            grown,
            self.log(),
            staged.log(),
            home,
            at,
            sealed.inode@,
        );
        assert(left.state().batch() == without_originals(
            overlay(grown.batch(), grown.staged()),
        ));
        assert(!holds_home(grown.staged(), 0));
        assert forall|i: int| 0 <= i < self.state().groups.len() implies !holds_home(
            grown.staged(),
            (#[trigger] staged.state().group_position(i)).0,
        ) by {
            assert(self.state().group_position(i) == staged.state().group_position(i));
        }
        assert(staged.state().refreshed_groups(grown.staged()) =~= self.state().groups);
    }

    /// Attributes that were set on top of images that wait are read from the image that waits, and
    /// the others are as before.
    pub proof fn lemma_waiting_attributes_are_read(
        &self,
        left: &Self,
        later: &Self,
        after: &Self,
        before: InodeRef,
        attr: SetAttr,
        outcome: FileAttr,
        disk: Disk,
    )
        requires
            self.inv(),
            self.attr_extended(left, before.id, attr, Ok(true)),
            self.inode_seen(disk, before.id, before.inode@),
            self.inode_uncached(before.id),
            told_all(since(self.log(), left.log()), disk),
            left.state().batch().len() > 0,
            later.state() == left.state(),
            later.attributes_read(after, before.id, Ok(outcome)),
        ensures
            later.idle(after),
            outcome == attributes_with(
                attributes_of(before),
                before.inode.device_number(),
                attr,
            ),
    {
        let id = before.id;
        let (begun, reply) = choose|begun: Self, reply: Result<Option<Transaction>>|
            {
                &&& #[trigger] self.begun_if_deferred(&begun, ATTR_CREDITS, reply)
                &&& match reply {
                    Ok(Some(transaction)) => begun.attr_opened(
                        left,
                        id,
                        attr,
                        transaction,
                        Ok(true),
                    ),
                    Ok(None) => begun.idle(left) && Ok::<bool, Ext4Error>(true) == Ok::<
                        bool,
                        Ext4Error,
                    >(false),
                    Err(error) => begun.idle(left) && Ok::<bool, Ext4Error>(true) == Err::<
                        bool,
                        Ext4Error,
                    >(error),
                }
            };
        let transaction = reply->Ok_0->0;
        let journal = self.state().mode->Journal_0;
        assert(transaction.batch() == self.state().batch());
        assert(transaction.staged() == Seq::<StagedBlock>::empty());
        let (read, found) = choose|read: Self, found: Result<InodeRef>|
            {
                &&& #[trigger] begun.staged_inode_read(&read, transaction, id, found)
                &&& match found {
                    Ok(inode) => if is_free(inode.inode) {
                        read.given_up(left, transaction) && Ok::<bool, Ext4Error>(true) == failed::<
                            bool,
                        >(ErrCode::EINVAL)
                    } else {
                        read.attr_staged(left, inode, attr, transaction, Ok(true))
                    },
                    Err(error) => read.given_up(left, transaction) && Ok::<bool, Ext4Error>(true)
                        == Err::<bool, Ext4Error>(error),
                }
            };
        let inode = found->Ok_0;
        let (home, at) = self.state().inode_position(id)->0;
        let bytes = choose|bytes: Result<Seq<u8>>|
            {
                &&& #[trigger] begun.staged_read(&read, transaction, home, bytes)
                &&& inode_found(bytes, at, id, found)
            };
        assert(read.inode_uncached(id)) by {
            assert forall|i: int| 0 <= i < read.state().groups.len() implies (
            #[trigger] read.state().group_position(i)).0 != home by {
                assert(self.state().group_position(i) == read.state().group_position(i));
            }
        }
        read.lemma_staged_attributes_wait(left, inode, attr, transaction);
        assert(inode.inode@ == before.inode@) by {
            if !transaction.covers(home) {
                assert(!holds_home(self.state().batch(), home));
                let reply = choose|reply: Result<Block>|
                    {
                        &&& #[trigger] begun.did(&read, Event::ReadBlock { id: home, reply })
                        &&& bytes == bytes_read(reply)
                    };
                let calls = since(self.log(), left.log());
                assert(read.log()[self.log().len() as int] == (Event::ReadBlock {
                    id: home,
                    reply,
                }));
                assert(left.log().take(read.log().len() as int)[self.log().len() as int]
                    == read.log()[self.log().len() as int]);
                assert(calls[0] == left.log()[self.log().len() as int]);
                assert(told(calls[0], disk));
            }
        }
        let reread = choose|reread: Result<InodeRef>|
            {
                &&& #[trigger] later.inode_read(after, id, reread)
                &&& Ok::<FileAttr, Ext4Error>(outcome) == match reread {
                    Ok(inode) => if is_free(inode.inode) {
                        failed::<FileAttr>(ErrCode::EINVAL)
                    } else {
                        Ok(attributes_of(inode))
                    },
                    Err(error) => Err(error),
                }
            };
        let changed = choose|changed: InodeRef|
            changed.id == inode.id && changed.inode@ == attr.applied(inode.inode@);
        lemma_checksum_keeps_inode(changed, reread->Ok_0, self.state().superblock);
        lemma_attributes_read_back(before, changed, attr);
    }
}

impl<D: BlockDevice, V: Volume<D>> Ext4<D, V> {
    /// The attributes that creating something returns are those that are read of it, where the
    /// layers leave the new inode on the device.
    pub proof fn lemma_created_attributes_are_read(
        &self,
        made: &Self,
        later: &Self,
        after: &Self,
        parent: InodeRef,
        child: InodeRef,
        name: Seq<char>,
        attr: FileAttr,
        outcome: FileAttr,
        disk: Disk,
    )
        requires
            self.child_linked(made, parent, child, name, Ok(attr)),
            forall|inode: InodeRef| #[trigger]
                self.new_linked(made, parent, child, inode, name, Ok(())) ==> later.inode_seen(
                    disk,
                    inode.id,
                    inode.inode@,
                ),
            later.attributes_read(after, attr.ino, Ok(outcome)),
            told_all(since(later.log(), after.log()), disk),
        ensures
            outcome == attr,
    {
        let (named, reply) = choose|named: InodeRef, reply: Result<()>|
            {
                &&& #[trigger] self.new_linked(made, parent, child, named, name, reply)
                &&& Ok::<FileAttr, Ext4Error>(attr) == match reply {
                    Ok(_) => Ok::<FileAttr, Ext4Error>(attributes_of(named)),
                    Err(error) => Err(error),
                }
            };
        match reply {
            Ok(done) => {
                assert(done == ());
            },
            Err(_) => {},
        }
        let found = choose|found: Result<InodeRef>|
            {
                &&& #[trigger] later.inode_read(after, attr.ino, found)
                &&& Ok::<FileAttr, Ext4Error>(outcome) == match found {
                    Ok(inode) => if is_free(inode.inode) {
                        failed::<FileAttr>(ErrCode::EINVAL)
                    } else {
                        Ok(attributes_of(inode))
                    },
                    Err(error) => Err(error),
                }
            };
        let (home, at) = later.state().inode_position(attr.ino)->0;
        let block = choose|block: Result<Block>|
            {
                &&& #[trigger] later.block_read(after, home, block)
                &&& inode_found(bytes_read(block), at, attr.ino, found)
            };
        if !holds_home(later.state().batch(), home) {
            assert(since(later.log(), after.log())[0] == Event::ReadBlock {
                id: home,
                reply: block,
            });
        }
        assert(found->Ok_0.inode@ == named.inode@);
    }
}

/// Reading and writing an inode continues the record of calls.
proof fn lemma_inode_calls<D: BlockDevice, V: Volume<D>>(
    start: &Ext4<D, V>,
    read: &Ext4<D, V>,
    written: &Ext4<D, V>,
    id: InodeId,
    found: Result<InodeRef>,
    changed: InodeRef,
    sealed: InodeRef,
    outcome: Result<()>,
)
    requires
        start.inode_read(read, id, found),
        read.inode_written(written, changed, sealed, outcome),
    ensures
        extends(start.log(), read.log()),
        extends(read.log(), written.log()),
{
    assert(read.log().take(start.log().len() as int) =~= start.log());
    assert(written.log().take(read.log().len() as int) =~= read.log());
}

} // verus!
