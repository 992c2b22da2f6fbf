//! Attributes that were changed are the attributes that are read, and nothing else changes.

use vstd::prelude::*;
use crate::attr::{metadata_attr, ATTR_CREDITS};
use crate::bytes::splice;
use crate::content::{
    lemma_extends, lemma_held_without_writes, told, told_all, writes, Disk,
};
use crate::device::{extends, since, Block, BlockDevice, Event};
use crate::error::{failed, ErrCode, Ext4Error, Result};
use crate::fs::{bytes_read, inode_found, Ext4, FsState};
use crate::grow::is_free;
use crate::inode::{
    attributes_of, attributes_with, lemma_attributes_read_back, FileAttr, InodeRef, SetAttr,
    SB_GOOD_INODE_SIZE,
};
use crate::journal_transaction::{CommitError, Transaction};
use crate::prepare_journal::MAX_DEFERRED_JOURNAL_BLOCKS;
use crate::readback::{lemma_patch_is_shown, lemma_patch_waits, shown_by};
use crate::sight::lemma_told_before_writing;
use crate::staged::{holds_home, ordered, StagedBlock};
use crate::superblock::{lemma_checksum_keeps_inode, sealed_inode};
use crate::tree::lemma_inode_stays_in_its_block;
use crate::volume::{LayerCall, Volume};
use crate::{InodeId, PBlockId, BLOCK_SIZE};

verus! {

/// Whether an inode is another one with attributes set.
pub open spec fn is_set(set: InodeRef, before: InodeRef, attr: SetAttr) -> bool {
    set.id == before.id && set.inode@ == attr.applied(before.inode@)
}

impl<D: BlockDevice, V: Volume<D>> Ext4<D, V> {
    /// Whether an inode stands in a block of its own kind: neither with the superblock or a block
    /// group descriptor, nor in the journal.
    pub open spec fn inode_settled(&self, id: InodeId) -> bool {
        &&& self.inode_uncached(id)
        &&& self.state().inode_position(id) matches Some((home, _)) ==> !self.logs_to(home)
    }

    /// Whether of all that is seen of a device, but for the blocks of the journal, only the bytes
    /// of one inode may have changed.
    pub open spec fn changes_inode_alone(&self, after: &Self, disk: Disk, id: InodeId) -> bool {
        let now = after.sight(self.left_on(after, disk));
        let then = self.sight(disk);
        self.state().inode_position(id) matches Some((home, at)) && {
            &&& forall|block: PBlockId|
                block != home && !self.logs_to(block) ==> #[trigger] now[block] == then[block]
            &&& forall|k: int|
                0 <= k < BLOCK_SIZE && !(at <= k < at + SB_GOOD_INODE_SIZE) ==> #[trigger] now[home][k]
                    == then[home][k]
        }
    }

    /// An inode that is read is the one that is seen.
    pub(crate) proof fn lemma_seen_inode_is_read(
        &self,
        after: &Self,
        id: InodeId,
        found: InodeRef,
        disk: Disk,
        raw: Seq<u8>,
    )
        requires
            self.inode_read(after, id, Ok(found)),
            self.inode_seen(disk, id, raw),
            told_all(since(self.log(), after.log()), disk),
        ensures
            self.only_asked(after),
            found.id == id,
            found.inode@ == raw,
    {
        let (home, at) = self.state().inode_position(id)->0;
        let reply = choose|reply: Result<Block>|
            {
                &&& #[trigger] self.block_read(after, home, reply)
                &&& inode_found(bytes_read(reply), at, id, Ok(found))
            };
        assert(after.log().take(self.log().len() as int) =~= self.log());
        if !holds_home(self.state().batch(), home) {
            assert(since(self.log(), after.log())[0] == Event::ReadBlock { id: home, reply });
            assert(told(since(self.log(), after.log())[0], disk));
        }
    }

    /// Attributes that are read are those of the inode that is seen.
    pub(crate) proof fn lemma_seen_attributes_are_read(
        &self,
        after: &Self,
        id: InodeId,
        outcome: FileAttr,
        disk: Disk,
        raw: Seq<u8>,
    ) -> (found: InodeRef)
        requires
            self.attributes_read(after, id, Ok(outcome)),
            self.inode_seen(disk, id, raw),
            told_all(since(self.log(), after.log()), disk),
        ensures
            found.id == id,
            found.inode@ == raw,
            outcome == attributes_of(found),
    {
        let found = choose|found: Result<InodeRef>|
            {
                &&& #[trigger] self.inode_read(after, id, found)
                &&& Ok::<FileAttr, Ext4Error>(outcome) == match found {
                    Ok(inode) => if is_free(inode.inode) {
                        failed::<FileAttr>(ErrCode::EINVAL)
                    } else {
                        Ok(attributes_of(inode))
                    },
                    Err(error) => Err(error),
                }
            };
        self.lemma_seen_inode_is_read(after, id, found->Ok_0, disk, raw);
        found->Ok_0
    }

    /// Attributes that were changed in place are seen.
    proof fn lemma_written_attr_is_seen(
        &self,
        after: &Self,
        before: InodeRef,
        attr: SetAttr,
        disk: Disk,
    )
        requires
            self.attr_written(after, before.id, attr, Ok(())),
            self.state().batch() == Seq::<StagedBlock>::empty(),
            self.inode_seen(disk, before.id, before.inode@),
            self.answered_by(after, disk),
        ensures
            extends(self.log(), after.log()),
            after.state() == self.state(),
            after.inode_seen(
                self.left_on(after, disk),
                before.id,
                sealed_inode(
                    attr.applied(before.inode@),
                    before.id,
                    self.state().superblock,
                ),
            ),
            exists|set: InodeRef| #[trigger] is_set(set, before, attr),
            self.changes_inode_alone(after, disk, before.id),
    {
        let id = before.id;
        let (read, found) = choose|read: Self, found: Result<InodeRef>|
            {
                &&& #[trigger] self.inode_read(&read, id, found)
                &&& match found {
                    Ok(inode) => if is_free(inode.inode) {
                        read.idle(after) && Ok::<(), Ext4Error>(()) == failed::<()>(
                            ErrCode::EINVAL,
                        )
                    } else {
                        read.attr_stored(after, inode, attr, Ok(()))
                    },
                    Err(error) => read.idle(after) && Ok::<(), Ext4Error>(()) == Err::<
                        (),
                        Ext4Error,
                    >(error),
                }
            };
        let inode = found->Ok_0;
        let (changed, sealed) = choose|changed: InodeRef, sealed: InodeRef|
            {
                &&& #[trigger] read.inode_written(after, changed, sealed, Ok(()))
                &&& changed.id == inode.id
                &&& changed.inode@ == attr.applied(inode.inode@)
            };
        let (home, at) = self.state().inode_position(id)->0;
        lemma_inode_stays_in_its_block(self.state(), id);
        let first = choose|reply: Result<Block>|
            {
                &&& #[trigger] self.block_read(&read, home, reply)
                &&& inode_found(bytes_read(reply), at, id, found)
            };
        let (again, second) = choose|again: Self, reply: Result<Block>|
            {
                &&& #[trigger] read.block_read(&again, home, reply)
                &&& match reply {
                    Ok(block) => again.did(
                        after,
                        Event::WriteBlock {
                            id: block.id,
                            data: splice(block.data@, at, sealed.inode@),
                            reply: Ok(()),
                        },
                    ),
                    Err(error) => again.idle(after) && Ok::<(), Ext4Error>(()) == Err::<
                        (),
                        Ext4Error,
                    >(error),
                }
            };
        let block = second->Ok_0;
        let data = splice(block.data@, at, sealed.inode@);
        let calls = since(self.log(), after.log());
        assert(calls =~= seq![
            Event::ReadBlock { id: home, reply: first },
            Event::ReadBlock { id: home, reply: second },
            Event::WriteBlock { id: block.id, data, reply: Ok(()) },
        ]);
        assert(after.log().take(self.log().len() as int) =~= self.log());
        lemma_told_before_writing(disk, calls);
        assert(told(calls[0], disk) && told(calls[1], disk));
        reveal_with_fuel(crate::content::held, 4);
        assert(calls.skip(1).skip(1).skip(1) =~= Seq::<Event>::empty());
        assert(calls.skip(1).skip(1)[0] == calls[2]);
        assert(self.left_on(after, disk) == disk.insert(home, data));
        assert(inode.inode@ == before.inode@);
        assert(data.subrange(at, at + SB_GOOD_INODE_SIZE) =~= sealed.inode@);
        assert(is_set(changed, before, attr));
    }

    /// An inode that is read through a transaction is the one that the transaction shows.
    pub(crate) proof fn lemma_shown_inode_is_read(
        &self,
        after: &Self,
        transaction: Transaction,
        id: InodeId,
        found: InodeRef,
        disk: Disk,
    )
        requires
            self.staged_inode_read(after, transaction, id, Ok(found)),
        ensures
            self.only_asked(after),
            found.id == id,
            self.state().inode_position(id) matches Some((home, at)) && (told_all(
                since(self.log(), after.log()),
                disk,
            ) ==> found.inode@ == shown_by(transaction, disk)[home].subrange(
                at,
                at + SB_GOOD_INODE_SIZE,
            )),
    {
        let (home, at) = self.state().inode_position(id)->0;
        let bytes = choose|bytes: Result<Seq<u8>>|
            {
                &&& #[trigger] self.staged_read(after, transaction, home, bytes)
                &&& inode_found(bytes, at, id, Ok(found))
            };
        if transaction.covers(home) {
            self.lemma_idle_only_asks(after);
        } else {
            let reply = choose|reply: Result<Block>|
                {
                    &&& #[trigger] self.did(after, Event::ReadBlock { id: home, reply })
                    &&& bytes == bytes_read(reply)
                };
            self.lemma_call_only_asks(after, Event::ReadBlock { id: home, reply });
            assert(since(self.log(), after.log())[0] == (Event::ReadBlock { id: home, reply }));
        }
    }

    /// An inode that was staged is seen once the transaction is committed or waits, and of all
    /// else what the transaction showed before.
    pub(crate) proof fn lemma_staged_inode_is_seen(
        &self,
        staged: &Self,
        done: &Self,
        transaction: Transaction,
        grown: Transaction,
        changed: InodeRef,
        sealed: InodeRef,
        max_deferred_blocks: usize,
        disk: Disk,
    )
        requires
            self.inv(),
            self.inode_staged(staged, transaction, grown, changed, sealed, Ok(())),
            staged.deferred(done, grown, max_deferred_blocks, Ok(())),
            ordered(transaction.staged()),
            ordered(transaction.batch()),
            self.nothing_waits(),
            self.state().mode is Direct ==> transaction.deferred() is None,
            self.answered_by(done, disk),
        ensures
            extends(self.log(), done.log()),
            forall|block: PBlockId| #[trigger] done.logs_to(block) == self.logs_to(block),
            self.state().inode_position(changed.id) matches Some((home, at)) && {
                &&& shown_by(transaction, disk)[home].len() == BLOCK_SIZE
                &&& forall|block: PBlockId|
                    !self.logs_to(block) ==> #[trigger] done.sight(self.left_on(done, disk))[block]
                        == if block == home {
                        splice(shown_by(transaction, disk)[home], at, sealed.inode@)
                    } else {
                        shown_by(transaction, disk)[block]
                    }
            },
    {
        let (home, at) = self.state().inode_position(changed.id)->0;
        self.lemma_followed_is_recorded(staged);
        staged.lemma_followed_is_recorded(done);
        lemma_patch_is_shown(
            transaction,
            grown,
            self.log(),
            staged.log(),
            home,
            at,
            sealed.inode@,
            disk,
        );
        self.lemma_device_joins(staged, done, disk);
        self.lemma_answers_split(staged, done, disk);
        let quiet = since(self.log(), staged.log());
        assert forall|k: int| 0 <= k < quiet.len() implies !writes(#[trigger] quiet[k]) by {}
        lemma_held_without_writes(disk, quiet);
        lemma_told_before_writing(disk, quiet);
        staged.lemma_deferral_is_seen(done, grown, max_deferred_blocks, disk);
        assert forall|block: PBlockId| !self.logs_to(block) implies #[trigger] done.sight(
            self.left_on(done, disk),
        )[block] == shown_by(grown, disk)[block] by {
            assert(!staged.logs_to(block));
            assert(done.sight(staged.left_on(done, disk))[block] == shown_by(grown, disk)[block]);
        }
        assert forall|block: PBlockId| #[trigger] done.logs_to(block) == self.logs_to(block) by {
            assert(staged.logs_to(block) == self.logs_to(block));
        }
    }

    /// Staging an inode as the first thing in a transaction leaves the caches as they were.
    pub(crate) proof fn lemma_staged_inode_keeps_caches(
        &self,
        staged: &Self,
        done: &Self,
        transaction: Transaction,
        grown: Transaction,
        changed: InodeRef,
        sealed: InodeRef,
        max_deferred_blocks: usize,
    )
        requires
            self.inode_staged(staged, transaction, grown, changed, sealed, Ok(())),
            staged.deferred(done, grown, max_deferred_blocks, Ok(())),
            transaction.inv(),
            transaction.staged() == Seq::<StagedBlock>::empty(),
            self.inode_uncached(changed.id),
        ensures
            done.state().superblock == self.state().superblock,
            done.state().groups == self.state().groups,
    {
        let (home, at) = self.state().inode_position(changed.id)->0;
        lemma_inode_stays_in_its_block(self.state(), changed.id);
        lemma_patch_waits(
            transaction,
            grown,
            self.log(),
            staged.log(),
            home,
            at,
            sealed.inode@,
        );
        assert(!holds_home(grown.staged(), 0));
        assert forall|i: int| 0 <= i < self.state().groups.len() implies !holds_home(
            grown.staged(),
            (#[trigger] staged.state().group_position(i)).0,
        ) by {
            assert(self.state().group_position(i) == staged.state().group_position(i));
        }
        assert(staged.state().refreshed_groups(grown.staged()) =~= self.state().groups);
    }

    /// Attributes that were changed on top of images that wait are seen.
    proof fn lemma_extended_attr_is_seen(
        &self,
        after: &Self,
        before: InodeRef,
        attr: SetAttr,
        disk: Disk,
    )
        requires
            self.inv(),
            self.attr_extended(after, before.id, attr, Ok(true)),
            self.inode_seen(disk, before.id, before.inode@),
            self.inode_settled(before.id),
            self.answered_by(after, disk),
        ensures
            extends(self.log(), after.log()),
            after.state().superblock == self.state().superblock,
            after.state().groups == self.state().groups,
            forall|block: PBlockId| #[trigger] after.logs_to(block) == self.logs_to(block),
            after.inode_seen(
                self.left_on(after, disk),
                before.id,
                sealed_inode(
                    attr.applied(before.inode@),
                    before.id,
                    self.state().superblock,
                ),
            ),
            exists|set: InodeRef| #[trigger] is_set(set, before, attr),
            self.changes_inode_alone(after, disk, before.id),
    {
        let id = before.id;
        let (begun, reply) = choose|begun: Self, reply: Result<Option<Transaction>>|
            {
                &&& #[trigger] self.begun_if_deferred(&begun, ATTR_CREDITS, reply)
                &&& match reply {
                    Ok(Some(transaction)) => begun.attr_opened(
                        after,
                        id,
                        attr,
                        transaction,
                        Ok(true),
                    ),
                    Ok(None) => begun.idle(after) && Ok::<bool, Ext4Error>(true) == Ok::<
                        bool,
                        Ext4Error,
                    >(false),
                    Err(error) => begun.idle(after) && Ok::<bool, Ext4Error>(true) == Err::<
                        bool,
                        Ext4Error,
                    >(error),
                }
            };
        let transaction = reply->Ok_0->0;
        assert(transaction.batch() == self.state().batch());
        assert(transaction.staged() == Seq::<StagedBlock>::empty());
        assert(begun.inv());
        assert(begun.nothing_waits());
        let (home, at) = self.state().inode_position(id)->0;
        assert(begun.inode_uncached(id)) by {
            assert forall|i: int| 0 <= i < begun.state().groups.len() implies (
            #[trigger] begun.state().group_position(i)).0 != home by {
                assert(self.state().group_position(i) == begun.state().group_position(i));
            }
        }
        assert(since(self.log(), after.log()) == since(begun.log(), after.log()));
        assert(shown_by(transaction, disk) =~= self.sight(disk));
        begun.lemma_opened_attr_is_seen(after, before, attr, transaction, disk);
        assert forall|block: PBlockId| #[trigger] after.logs_to(block) == self.logs_to(block) by {
            assert(begun.logs_to(block) == self.logs_to(block));
        }
        let now = after.sight(self.left_on(after, disk));
        assert forall|block: PBlockId| block != home && !self.logs_to(block) implies
        #[trigger] now[block] == self.sight(disk)[block] by {
            assert(!begun.logs_to(block));
        }
    }

    /// Attributes that were changed inside a transaction are seen.
    proof fn lemma_opened_attr_is_seen(
        &self,
        after: &Self,
        before: InodeRef,
        attr: SetAttr,
        transaction: Transaction,
        disk: Disk,
    )
        requires
            self.inv(),
            self.state().mode is Journal,
            self.nothing_waits(),
            self.attr_opened(after, before.id, attr, transaction, Ok(true)),
            transaction.inv(),
            transaction.staged() == Seq::<StagedBlock>::empty(),
            self.state().inode_position(before.id) matches Some((home, at)) && before.inode@
                == shown_by(transaction, disk)[home].subrange(at, at + SB_GOOD_INODE_SIZE)
                && !self.logs_to(home),
            self.inode_uncached(before.id),
            self.answered_by(after, disk),
        ensures
            extends(self.log(), after.log()),
            after.state().superblock == self.state().superblock,
            after.state().groups == self.state().groups,
            forall|block: PBlockId| #[trigger] after.logs_to(block) == self.logs_to(block),
            after.inode_seen(
                self.left_on(after, disk),
                before.id,
                sealed_inode(
                    attr.applied(before.inode@),
                    before.id,
                    self.state().superblock,
                ),
            ),
            exists|set: InodeRef| #[trigger] is_set(set, before, attr),
            self.state().inode_position(before.id) matches Some((home, at)) && {
                let now = after.sight(self.left_on(after, disk));
                let then = shown_by(transaction, disk);
                &&& forall|block: PBlockId|
                    block != home && !self.logs_to(block) ==> #[trigger] now[block] == then[block]
                &&& forall|k: int|
                    0 <= k < BLOCK_SIZE && !(at <= k < at + SB_GOOD_INODE_SIZE)
                        ==> #[trigger] now[home][k] == then[home][k]
            },
    {
        let id = before.id;
        let (read, found) = choose|read: Self, found: Result<InodeRef>|
            {
                &&& #[trigger] self.staged_inode_read(&read, transaction, id, found)
                &&& match found {
                    Ok(inode) => if is_free(inode.inode) {
                        read.given_up(after, transaction) && Ok::<bool, Ext4Error>(true)
                            == failed::<bool>(ErrCode::EINVAL)
                    } else {
                        read.attr_staged(after, inode, attr, transaction, Ok(true))
                    },
                    Err(error) => read.given_up(after, transaction) && Ok::<bool, Ext4Error>(true)
                        == Err::<bool, Ext4Error>(error),
                }
            };
        let inode = found->Ok_0;
        let (home, at) = self.state().inode_position(id)->0;
        lemma_inode_stays_in_its_block(self.state(), id);
        let (staged, grown, changed, sealed, answer) = choose|
            staged: Self,
            grown: Transaction,
            changed: InodeRef,
            sealed: InodeRef,
            answer: Result<()>,
        |
            {
                &&& #[trigger] read.inode_staged(
                    &staged,
                    transaction,
                    grown,
                    changed,
                    sealed,
                    answer,
                )
                &&& changed.id == inode.id
                &&& changed.inode@ == attr.applied(inode.inode@)
                &&& match answer {
                    Ok(_) => staged.attr_joined(after, grown, Ok(true)),
                    Err(error) => staged.given_up(after, grown) && Ok::<bool, Ext4Error>(true)
                        == Err::<bool, Ext4Error>(error),
                }
            };
        match answer {
            Ok(done) => {
                assert(done == ());
            },
            Err(_) => {},
        }
        let (done, ending, result) = choose|
            done: Self,
            ending: core::result::Result<(), CommitError>,
            result: Result<()>,
        |
            {
                &&& #[trigger] staged.deferred(
                    &done,
                    grown,
                    MAX_DEFERRED_JOURNAL_BLOCKS,
                    ending,
                )
                &&& #[trigger] done.settled(after, ending, result)
                &&& Ok::<bool, Ext4Error>(true) == match result {
                    Ok(_) => Ok::<bool, Ext4Error>(true),
                    Err(error) => Err(error),
                }
            };
        match ending {
            Ok(done) => {
                assert(done == ());
            },
            Err(_) => {},
        }
        self.lemma_shown_inode_is_read(&read, transaction, id, inode, disk);
        read.lemma_followed_is_recorded(&staged);
        staged.lemma_followed_is_recorded(&done);
        lemma_extends(read.log(), staged.log(), done.log());
        self.lemma_device_joins(&read, &done, disk);
        self.lemma_answers_split(&read, &done, disk);
        self.lemma_asking_leaves_device(&read, disk);
        let early = since(self.log(), read.log());
        assert(told_all(early, disk)) by {
            assert forall|k: int| 0 <= k < early.len() - 1 implies !writes(
                #[trigger] early[k],
            ) by {
                assert(early[k] == read.log()[self.log().len() + k]);
            }
            lemma_told_before_writing(disk, early);
        }
        read.lemma_staged_inode_is_seen(
            &staged,
            &done,
            transaction,
            grown,
            changed,
            sealed,
            MAX_DEFERRED_JOURNAL_BLOCKS,
            disk,
        );
        read.lemma_staged_inode_keeps_caches(
            &staged,
            &done,
            transaction,
            grown,
            changed,
            sealed,
            MAX_DEFERRED_JOURNAL_BLOCKS,
        );
        let now = after.sight(self.left_on(after, disk));
        let last = done.sight(read.left_on(&done, disk));
        assert forall|block: PBlockId| #[trigger] now[block] == last[block] by {}
        assert forall|block: PBlockId| #[trigger] after.logs_to(block) == self.logs_to(block) by {
            assert(done.logs_to(block) == read.logs_to(block));
        }
        assert(!read.logs_to(home));
        assert(is_set(changed, before, attr));
        assert(now[home].subrange(at, at + SB_GOOD_INODE_SIZE) =~= sealed.inode@);
        assert forall|block: PBlockId| block != home && !self.logs_to(block) implies
        #[trigger] now[block] == shown_by(transaction, disk)[block] by {
            assert(!read.logs_to(block));
        }
    }
}

/// Laws of what setting attributes does.
impl<D: BlockDevice, V: Volume<D>> Ext4<D, V> {
    /// Changing attributes in place goes on with the record.
    proof fn lemma_written_attr_goes_on(
        &self,
        after: &Self,
        id: InodeId,
        attr: SetAttr,
        outcome: Result<()>,
    )
        requires
            self.attr_written(after, id, attr, outcome),
        ensures
            extends(self.log(), after.log()),
    {
        let (read, found) = choose|read: Self, found: Result<InodeRef>|
            {
                &&& #[trigger] self.inode_read(&read, id, found)
                &&& match found {
                    Ok(inode) => if is_free(inode.inode) {
                        read.idle(after) && outcome == failed::<()>(ErrCode::EINVAL)
                    } else {
                        read.attr_stored(after, inode, attr, outcome)
                    },
                    Err(error) => read.idle(after) && outcome == Err::<(), Ext4Error>(error),
                }
            };
        assert(read.log().take(self.log().len() as int) =~= self.log());
        if found is Ok && !is_free(found->Ok_0.inode) {
            let (changed, sealed) = choose|changed: InodeRef, sealed: InodeRef| #[trigger]
                read.inode_written(after, changed, sealed, outcome);
            if let Some((home, at)) = read.state().inode_position(changed.id) {
                let (again, reply) = choose|again: Self, reply: Result<Block>|
                    {
                        &&& #[trigger] read.block_read(&again, home, reply)
                        &&& match reply {
                            Ok(block) => again.did(
                                after,
                                Event::WriteBlock {
                                    id: block.id,
                                    data: splice(block.data@, at, sealed.inode@),
                                    reply: outcome,
                                },
                            ),
                            Err(error) => again.idle(after) && outcome == Err::<(), Ext4Error>(
                                error,
                            ),
                        }
                    };
            }
        }
        assert(after.log().take(self.log().len() as int) =~= self.log());
    }

    /// Attributes that were changed in place are seen, whatever waited before.
    proof fn lemma_gated_attr_is_seen(
        &self,
        after: &Self,
        before: InodeRef,
        attr: SetAttr,
        disk: Disk,
    )
        requires
            self.inv(),
            self.attr_gated(after, before.id, attr, Ok(())),
            self.inode_seen(disk, before.id, before.inode@),
            self.inode_settled(before.id),
            self.answered_by(after, disk),
        ensures
            self.seen_with(after, before, attr, disk),
    {
        let id = before.id;
        let work = |inside: Self, left: Self, outcome: Result<()>|
            inside.attr_written(&left, id, attr, outcome);
        assert forall|inside: Self, left: Self| #[trigger] work(inside, left, Ok(())) implies extends(
            inside.log(),
            left.log(),
        ) by {
            inside.lemma_written_attr_goes_on(&left, id, attr, Ok(()));
        }
        let (inside, left) = self.lemma_direct_writer(after, work, Ok(()), disk);
        let start = self.left_on(&inside, disk);
        let (home, at) = self.state().inode_position(id)->0;
        assert(inside.sight(start)[home] == self.sight(disk)[home]);
        inside.lemma_written_attr_is_seen(&left, before, attr, start);
        let now = after.sight(self.left_on(after, disk));
        assert forall|block: PBlockId| block != home && !self.logs_to(block) implies
        #[trigger] now[block] == self.sight(disk)[block] by {
            assert(!inside.logs_to(block));
            assert(inside.sight(start)[block] == self.sight(disk)[block]);
            assert(left.sight(inside.left_on(&left, start))[block] == inside.sight(start)[block]);
        }
        assert forall|k: int| 0 <= k < BLOCK_SIZE && !(at <= k < at + SB_GOOD_INODE_SIZE) implies
        #[trigger] now[home][k] == self.sight(disk)[home][k] by {
            assert(left.sight(inside.left_on(&left, start))[home][k] == inside.sight(
                start,
            )[home][k]);
        }
    }

    /// Whether an inode is seen with attributes set in it, and nothing else changed.
    pub open spec fn seen_with(
        &self,
        after: &Self,
        before: InodeRef,
        attr: SetAttr,
        disk: Disk,
    ) -> bool {
        &&& extends(self.log(), after.log())
        &&& after.state().superblock == self.state().superblock
        &&& after.state().groups == self.state().groups
        &&& after.inode_seen(
            self.left_on(after, disk),
            before.id,
            sealed_inode(attr.applied(before.inode@), before.id, self.state().superblock),
        )
        &&& exists|set: InodeRef| #[trigger] is_set(set, before, attr)
        &&& self.changes_inode_alone(after, disk, before.id)
    }

    /// Trying to set attributes on top of images that wait goes on with the record.
    proof fn lemma_extended_attr_goes_on(
        &self,
        after: &Self,
        id: InodeId,
        attr: SetAttr,
        outcome: Result<bool>,
    )
        requires
            self.attr_extended(after, id, attr, outcome),
        ensures
            extends(self.log(), after.log()),
            outcome == Ok::<bool, Ext4Error>(false) ==> after.log() == self.log() && after.state()
                == self.state(),
    {
        let (begun, reply) = choose|begun: Self, reply: Result<Option<Transaction>>|
            {
                &&& #[trigger] self.begun_if_deferred(&begun, ATTR_CREDITS, reply)
                &&& match reply {
                    Ok(Some(transaction)) => begun.attr_opened(
                        after,
                        id,
                        attr,
                        transaction,
                        outcome,
                    ),
                    Ok(None) => begun.idle(after) && outcome == Ok::<bool, Ext4Error>(false),
                    Err(error) => begun.idle(after) && outcome == Err::<bool, Ext4Error>(error),
                }
            };
        assert(begun.log().take(self.log().len() as int) =~= self.log());
        if let Ok(Some(transaction)) = reply {
            let (read, found) = choose|read: Self, found: Result<InodeRef>|
                {
                    &&& #[trigger] begun.staged_inode_read(&read, transaction, id, found)
                    &&& match found {
                        Ok(inode) => if is_free(inode.inode) {
                            read.given_up(after, transaction) && outcome == failed::<bool>(
                                ErrCode::EINVAL,
                            )
                        } else {
                            read.attr_staged(after, inode, attr, transaction, outcome)
                        },
                        Err(error) => read.given_up(after, transaction) && outcome == Err::<
                            bool,
                            Ext4Error,
                        >(error),
                    }
                };
            assert(read.log().take(self.log().len() as int) =~= self.log());
            if found is Ok && !is_free(found->Ok_0.inode) {
                let inode = found->Ok_0;
                let (staged, grown, changed, sealed, answer) = choose|
                    staged: Self,
                    grown: Transaction,
                    changed: InodeRef,
                    sealed: InodeRef,
                    answer: Result<()>,
                |
                    {
                        &&& #[trigger] read.inode_staged(
                            &staged,
                            transaction,
                            grown,
                            changed,
                            sealed,
                            answer,
                        )
                        &&& match answer {
                            Ok(_) => staged.attr_joined(after, grown, outcome),
                            Err(error) => staged.given_up(after, grown) && outcome == Err::<
                                bool,
                                Ext4Error,
                            >(error),
                        }
                    };
                read.lemma_followed_is_recorded(&staged);
                lemma_extends(self.log(), read.log(), staged.log());
                if answer is Ok {
                    let (done, ending, result) = choose|
                        done: Self,
                        ending: core::result::Result<(), CommitError>,
                        result: Result<()>,
                    |
                        {
                            &&& #[trigger] staged.deferred(
                                &done,
                                grown,
                                MAX_DEFERRED_JOURNAL_BLOCKS,
                                ending,
                            )
                            &&& #[trigger] done.settled(after, ending, result)
                            &&& outcome == match result {
                                Ok(_) => Ok::<bool, Ext4Error>(true),
                                Err(error) => Err(error),
                            }
                        };
                    if !(staged.state().mode is ReadOnly) {
                        staged.lemma_followed_is_recorded(&done);
                        lemma_extends(self.log(), staged.log(), done.log());
                    }
                }
            }
        }
    }

    /// Where nothing waits on top of which attributes could be set, nothing happens.
    proof fn lemma_untried_attr(&self, tried: &Self, id: InodeId, attr: SetAttr, disk: Disk)
        requires
            self.inv(),
            self.state().mode is Journal,
            self.attr_deferred(tried, id, attr, Ok(false)),
        ensures
            tried.inv(),
            extends(self.log(), tried.log()),
            self.left_on(tried, disk) == disk,
            tried.state() == (FsState { gate: tried.state().gate, ..self.state() }),
            self.inode_settled(id) ==> tried.inode_settled(id),
    {
        let work = |inside: Self, left: Self, outcome: Result<bool>|
            inside.attr_extended(&left, id, attr, outcome);
        let stages = self.lemma_exclusive_work(tried, work, Ok(false));
        let (inside, left) = stages->0;
        inside.lemma_extended_attr_goes_on(&left, id, attr, Ok(false));
        let calls = since(self.log(), tried.log());
        assert(calls =~= seq![Event::Layer { call: LayerCall::Released }]);
        lemma_held_without_writes(disk, calls);
        assert(tried.log().take(self.log().len() as int) =~= self.log());
        if self.inode_settled(id) && self.state().inode_position(id) is Some {
            let (home, at) = self.state().inode_position(id)->0;
            assert forall|i: int| 0 <= i < tried.state().groups.len() implies (
            #[trigger] tried.state().group_position(i)).0 != home by {
                assert(self.state().group_position(i) == tried.state().group_position(i));
            }
        }
    }

    /// Attributes that joined the images that wait are seen.
    proof fn lemma_joined_attr_is_seen(
        &self,
        after: &Self,
        tried: &Self,
        before: InodeRef,
        attr: SetAttr,
        disk: Disk,
    )
        requires
            self.inv(),
            self.state().mode is Journal,
            self.attr_deferred(tried, before.id, attr, Ok(true)),
            tried.idle(after),
            self.inode_seen(disk, before.id, before.inode@),
            self.inode_settled(before.id),
            self.answered_by(after, disk),
        ensures
            self.seen_with(after, before, attr, disk),
    {
        let id = before.id;
        let work = |inside: Self, left: Self, outcome: Result<bool>|
            inside.attr_extended(&left, id, attr, outcome);
        assert forall|inside: Self, left: Self| #[trigger] work(inside, left, Ok(true)) implies extends(
            inside.log(),
            left.log(),
        ) by {
            inside.lemma_extended_attr_goes_on(&left, id, attr, Ok(true));
        }
        let (inside, left) = self.lemma_exclusive_writer(tried, work, Ok(true), disk);
        let (home, at) = self.state().inode_position(id)->0;
        assert(inside.inode_settled(id)) by {
            assert forall|i: int| 0 <= i < inside.state().groups.len() implies (
            #[trigger] inside.state().group_position(i)).0 != home by {
                assert(self.state().group_position(i) == inside.state().group_position(i));
            }
            assert(inside.logs_to(home) == self.logs_to(home));
        }
        inside.lemma_extended_attr_is_seen(&left, before, attr, disk);
        let now = after.sight(self.left_on(after, disk));
        let last = left.sight(inside.left_on(&left, disk));
        assert(now == last);
        assert(self.sight(disk) == inside.sight(disk));
        assert forall|block: PBlockId| block != home && !self.logs_to(block) implies
        #[trigger] now[block] == self.sight(disk)[block] by {
            assert(!inside.logs_to(block));
            assert(last[block] == inside.sight(disk)[block]);
        }
    }

    /// Attributes that could not join any images that wait are changed in place, and seen.
    proof fn lemma_gated_later_attr_is_seen(
        &self,
        after: &Self,
        tried: &Self,
        before: InodeRef,
        attr: SetAttr,
        disk: Disk,
    )
        requires
            self.inv(),
            self.state().mode is Journal,
            self.attr_deferred(tried, before.id, attr, Ok(false)),
            tried.attr_gated(after, before.id, attr, Ok(())),
            self.inode_seen(disk, before.id, before.inode@),
            self.inode_settled(before.id),
            self.answered_by(after, disk),
        ensures
            self.seen_with(after, before, attr, disk),
    {
        let id = before.id;
        let gated = |inside: Self, left: Self, outcome: Result<()>|
            inside.attr_written(&left, id, attr, outcome);
        assert forall|inside: Self, left: Self| #[trigger]
            gated(inside, left, Ok(())) implies extends(inside.log(), left.log()) by {
            inside.lemma_written_attr_goes_on(&left, id, attr, Ok(()));
        }
        tried.lemma_direct_writer_goes_on(after, gated, Ok(()));
        self.lemma_untried_attr(tried, id, attr, disk);
        self.lemma_answers_split(tried, after, disk);
        self.lemma_device_joins(tried, after, disk);
        tried.lemma_gated_attr_is_seen(after, before, attr, disk);
        let (home, at) = self.state().inode_position(id)->0;
        let now = after.sight(self.left_on(after, disk));
        assert forall|block: PBlockId| block != home && !self.logs_to(block) implies
        #[trigger] now[block] == self.sight(disk)[block] by {
            assert(!tried.logs_to(block));
            assert(now[block] == tried.sight(disk)[block]);
        }
    }

    /// Changed attributes are seen: the inode is the one that was seen, with the attributes set.
    pub(crate) proof fn lemma_changed_attr_is_seen(
        &self,
        after: &Self,
        before: InodeRef,
        attr: SetAttr,
        disk: Disk,
    )
        requires
            self.inv(),
            self.attr_changed(after, before.id, attr, Ok(())),
            self.inode_seen(disk, before.id, before.inode@),
            self.inode_settled(before.id),
            self.answered_by(after, disk),
        ensures
            self.seen_with(after, before, attr, disk),
    {
        let id = before.id;
        if !attr.writeback_only() {
            self.lemma_gated_attr_is_seen(after, before, attr, disk);
        } else {
            let (tried, reply) = choose|tried: Self, reply: Result<bool>|
                {
                    &&& #[trigger] self.attr_deferred(&tried, id, attr, reply)
                    &&& match reply {
                        Ok(joined) => if joined {
                            tried.idle(after)
                        } else {
                            tried.attr_gated(after, id, attr, Ok(()))
                        },
                        Err(error) => tried.idle(after) && Ok::<(), Ext4Error>(()) == Err::<
                            (),
                            Ext4Error,
                        >(error),
                    }
                };
            if !(self.state().mode is Journal) {
                assert(tried.inode_settled(id)) by {
                    assert(tried.state() == self.state());
                }
                tried.lemma_gated_attr_is_seen(after, before, attr, disk);
            } else {
                if reply->Ok_0 {
                    self.lemma_joined_attr_is_seen(after, &tried, before, attr, disk);
                } else {
                    self.lemma_gated_later_attr_is_seen(after, &tried, before, attr, disk);
                }
            }
        }
    }

    /// The attributes that are read after they were changed are those that were set, and the others
    /// as they were; of all else that is seen, nothing changes.
    pub proof fn lemma_changed_attributes_are_read(
        &self,
        changed: &Self,
        later: &Self,
        after: &Self,
        before: InodeRef,
        attr: SetAttr,
        outcome: FileAttr,
        disk: Disk,
    )
        requires
            self.inv(),
            self.attr_changed(changed, before.id, attr, Ok(())),
            self.inode_seen(disk, before.id, before.inode@),
            self.inode_settled(before.id),
            self.answered_by(changed, disk),
            later.state() == changed.state(),
            later.attributes_read(after, before.id, Ok(outcome)),
            told_all(since(later.log(), after.log()), self.left_on(changed, disk)),
        ensures
            outcome == attributes_with(
                attributes_of(before),
                before.inode.device_number(),
                attr,
            ),
            self.changes_inode_alone(changed, disk, before.id),
    {
        self.lemma_changed_attr_is_seen(changed, before, attr, disk);
        let raw = sealed_inode(
            attr.applied(before.inode@),
            before.id,
            self.state().superblock,
        );
        let found = later.lemma_seen_attributes_are_read(
            after,
            before.id,
            outcome,
            self.left_on(changed, disk),
            raw,
        );
        let set = choose|set: InodeRef| #[trigger] is_set(set, before, attr);
        lemma_checksum_keeps_inode(set, found, self.state().superblock);
        lemma_attributes_read_back(before, set, attr);
    }

    /// A size and times that were committed are the ones that are read, and all other attributes
    /// are as they were.
    pub proof fn lemma_committed_metadata_is_read(
        &self,
        changed: &Self,
        later: &Self,
        after: &Self,
        before: InodeRef,
        size: Option<u64>,
        atime: Option<u32>,
        mtime: Option<u32>,
        outcome: FileAttr,
        disk: Disk,
    )
        requires
            self.inv(),
            self.attr_changed(changed, before.id, metadata_attr(size, atime, mtime), Ok(())),
            self.inode_seen(disk, before.id, before.inode@),
            self.inode_settled(before.id),
            self.answered_by(changed, disk),
            later.state() == changed.state(),
            later.attributes_read(after, before.id, Ok(outcome)),
            told_all(since(later.log(), after.log()), self.left_on(changed, disk)),
        ensures
            outcome == (FileAttr {
                size: size.unwrap_or(attributes_of(before).size),
                atime: atime.unwrap_or(attributes_of(before).atime),
                mtime: mtime.unwrap_or(attributes_of(before).mtime),
                ..attributes_of(before)
            }),
    {
        self.lemma_changed_attributes_are_read(
            changed,
            later,
            after,
            before,
            metadata_attr(size, atime, mtime),
            outcome,
            disk,
        );
    }
}

} // verus!
