//! The number of names of a file, from one operation to the next.

use vstd::prelude::*;
use crate::bytes::{le16, splice};
use crate::content::{held, lemma_held_joins, told_all, Disk};
use crate::device::{since, Block, BlockDevice};
use crate::error::{Ext4Error, Result};
use crate::fs::{bytes_read, inode_found, Ext4, MetadataMutationMode};
use crate::inode::{InodeRef, SB_GOOD_INODE_SIZE};
use crate::journal_transaction::{CommitError, Transaction};
use crate::readback::{lemma_direct_commit_is_held, lemma_patch_waits};
use crate::staged::{block_of, holds_home};
use crate::superblock::lemma_checksum_keeps_inode;
use crate::unlink::{directory, links_of};
use crate::volume::{InodeReclaimHandle, Volume};
use crate::BLOCK_SIZE;

verus! {

impl<D: BlockDevice, V: Volume<D>> Ext4<D, V> {
    /// A file that got a further name while images wait for a commit has one name more in the
    /// image that waits.
    proof fn lemma_counted_name_waits(
        &self,
        left: &Self,
        child: InodeRef,
        transaction: Transaction,
    ) -> (sealed: InodeRef)
        requires
            self.link_counted(left, child, transaction, Ok(())),
            transaction.inv(),
            self.state().mode matches MetadataMutationMode::Journal(journal)
                && journal.context().deferred_transaction is None,
            left.state().batch().len() > 0,
            self.state().inode_position(child.id) matches Some((_, at)) && 0 <= at && at
                + SB_GOOD_INODE_SIZE <= BLOCK_SIZE,
            child.inode@.len() == SB_GOOD_INODE_SIZE,
        ensures
            sealed.id == child.id,
            links_of(sealed.inode@) == links_of(child.inode@).wrapping_add(1),
            self.state().inode_position(child.id) matches Some((home, at)) && {
                &&& holds_home(left.state().batch(), home)
                &&& block_of(left.state().batch(), home).image@.subrange(
                    at,
                    at + SB_GOOD_INODE_SIZE,
                ) == sealed.inode@
            },
    {
        broadcast use crate::bytes::lemma_le16_round_trip;

        let links = links_of(child.inode@).wrapping_add(1);
        let (counted, grown, sealed, reply) = choose|
            counted: Self,
            grown: Transaction,
            sealed: InodeRef,
            reply: Result<()>,
        |
            {
                &&& #[trigger] self.links_staged(
                    &counted,
                    transaction,
                    grown,
                    child,
                    links,
                    sealed,
                    reply,
                )
                &&& match reply {
                    Ok(_) => counted.names_settled(left, grown, false, Ok(())),
                    Err(error) => counted.given_up(left, grown) && Ok::<(), Ext4Error>(()) == Err::<
                        (),
                        Ext4Error,
                    >(error),
                }
            };
        match reply {
            Ok(done) => {
                assert(done == ());
            },
            Err(_) => {},
        }
        let named = choose|named: InodeRef|
            {
                &&& named.id == child.id
                &&& named.inode@ == splice(child.inode@, 26, le16(links))
                &&& #[trigger] self.inode_staged(
                    &counted,
                    transaction,
                    grown,
                    named,
                    sealed,
                    reply,
                )
            };
        let (home, at) = self.state().inode_position(child.id)->0;
        lemma_patch_waits(
            transaction,
            grown,
            self.log(),
            counted.log(),
            home,
            at,
            sealed.inode@,
        );
        lemma_checksum_keeps_inode(named, sealed, self.state().superblock);
        let (done, ending) = choose|done: Self, ending: core::result::Result<(), CommitError>|
            {
                &&& #[trigger] counted.names_ended(&done, grown, false, ending)
                &&& match ending {
                    Ok(_) => done.idle(left) && Ok::<(), Ext4Error>(()) == Ok::<(), Ext4Error>(()),
                    Err(stop) => done.gave_out(left) && Ok::<(), Ext4Error>(()) == Err::<
                        (),
                        Ext4Error,
                    >(stop.error),
                }
            };
        assert(crate::inode::attributes_of(sealed).links == crate::inode::attributes_of(
            named,
        ).links);
        sealed
    }

    /// A file that got a further name while images wait for a commit is found to have one name
    /// more, and taking a name away from it then gives no inode out to be reclaimed. `later` is a
    /// state in which the images still wait and the inode stands where it did.
    pub proof fn lemma_linked_file_is_not_given_out(
        &self,
        left: &Self,
        later: &Self,
        read: &Self,
        resolved: &Self,
        after: &Self,
        parent: InodeRef,
        child: InodeRef,
        again: InodeRef,
        transaction: Transaction,
        name: Seq<char>,
        handle: Option<InodeReclaimHandle>,
    )
        requires
            self.link_counted(left, child, transaction, Ok(())),
            transaction.inv(),
            self.state().mode matches MetadataMutationMode::Journal(journal)
                && journal.context().deferred_transaction is None,
            left.state().batch().len() > 0,
            self.state().inode_position(child.id) matches Some((_, at)) && 0 <= at && at
                + SB_GOOD_INODE_SIZE <= BLOCK_SIZE,
            child.inode@.len() == SB_GOOD_INODE_SIZE,
            later.state().batch() == left.state().batch(),
            later.state().inode_position(child.id) == self.state().inode_position(child.id),
            later.inode_read(read, child.id, Ok(again)),
            !directory(again),
            1 <= links_of(child.inode@) < u16::MAX,
            resolved.unlinked(after, parent, again, name, Ok(handle)),
        ensures
            links_of(again.inode@) == links_of(child.inode@) + 1,
            handle is None,
    {
        let sealed = self.lemma_counted_name_waits(left, child, transaction);
        let (home, at) = self.state().inode_position(child.id)->0;
        let reply = choose|reply: Result<Block>|
            {
                &&& #[trigger] later.block_read(read, home, reply)
                &&& inode_found(bytes_read(reply), at, child.id, Ok(again))
            };
        assert(again.inode@ == sealed.inode@);
        resolved.lemma_last_name_gives_the_inode_out(after, parent, again, name, handle);
    }

    /// A file that got a further name without a journal has one name more on the device.
    proof fn lemma_counted_name_is_held(
        &self,
        left: &Self,
        child: InodeRef,
        transaction: Transaction,
        disk: Disk,
    ) -> (sealed: InodeRef)
        requires
            self.link_counted(left, child, transaction, Ok(())),
            transaction.inv(),
            self.state().mode is Direct,
            self.state().inode_position(child.id) matches Some((_, at)) && 0 <= at && at
                + SB_GOOD_INODE_SIZE <= BLOCK_SIZE,
            child.inode@.len() == SB_GOOD_INODE_SIZE,
        ensures
            sealed.id == child.id,
            links_of(sealed.inode@) == links_of(child.inode@).wrapping_add(1),
            self.state().inode_position(child.id) matches Some((home, at)) && held(
                disk,
                since(self.log(), left.log()),
            )[home].subrange(at, at + SB_GOOD_INODE_SIZE) == sealed.inode@,
    {
        broadcast use crate::bytes::lemma_le16_round_trip;

        let links = links_of(child.inode@).wrapping_add(1);
        let (counted, grown, sealed, reply) = choose|
            counted: Self,
            grown: Transaction,
            sealed: InodeRef,
            reply: Result<()>,
        |
            {
                &&& #[trigger] self.links_staged(
                    &counted,
                    transaction,
                    grown,
                    child,
                    links,
                    sealed,
                    reply,
                )
                &&& match reply {
                    Ok(_) => counted.names_settled(left, grown, false, Ok(())),
                    Err(error) => counted.given_up(left, grown) && Ok::<(), Ext4Error>(()) == Err::<
                        (),
                        Ext4Error,
                    >(error),
                }
            };
        match reply {
            Ok(done) => {
                assert(done == ());
            },
            Err(_) => {},
        }
        let named = choose|named: InodeRef|
            {
                &&& named.id == child.id
                &&& named.inode@ == splice(child.inode@, 26, le16(links))
                &&& #[trigger] self.inode_staged(
                    &counted,
                    transaction,
                    grown,
                    named,
                    sealed,
                    reply,
                )
            };
        let (home, at) = self.state().inode_position(child.id)->0;
        lemma_patch_waits(
            transaction,
            grown,
            self.log(),
            counted.log(),
            home,
            at,
            sealed.inode@,
        );
        lemma_checksum_keeps_inode(named, sealed, self.state().superblock);
        assert(crate::inode::attributes_of(sealed).links == crate::inode::attributes_of(
            named,
        ).links);
        let (done, ending) = choose|done: Self, ending: core::result::Result<(), CommitError>|
            {
                &&& #[trigger] counted.names_ended(&done, grown, false, ending)
                &&& match ending {
                    Ok(_) => done.idle(left) && Ok::<(), Ext4Error>(()) == Ok::<(), Ext4Error>(()),
                    Err(stop) => done.gave_out(left) && Ok::<(), Ext4Error>(()) == Err::<
                        (),
                        Ext4Error,
                    >(stop.error),
                }
            };
        match ending {
            Ok(nothing) => {
                assert(nothing == ());
            },
            Err(_) => {},
        }
        self.lemma_followed_is_recorded(&counted);
        let first = since(self.log(), counted.log());
        let second = since(counted.log(), left.log());
        let middle = held(disk, first);
        lemma_direct_commit_is_held(
            grown,
            counted.state().mode->Direct_0,
            done.state().mode->Direct_0,
            counted.log(),
            done.log(),
            middle,
        );
        assert(since(self.log(), left.log()) =~= first + second) by {
            assert(left.log().take(counted.log().len() as int) == counted.log());
        }
        lemma_held_joins(disk, first, second);
        let i = choose|i: int|
            {
                &&& 0 <= i < grown.staged().len()
                &&& (#[trigger] grown.staged()[i]).home == home
                &&& grown.staged()[i].image@.subrange(at, at + sealed.inode@.len())
                    == sealed.inode@
            };
        assert(held(middle, second)[grown.staged()[i].home] == grown.staged()[i].image@);
        sealed
    }

    /// A file that got a further name without a journal is found to have one name more, and taking
    /// a name away from it then gives no inode out to be reclaimed. `later` is a state in which
    /// the inode stands where it did.
    pub proof fn lemma_linked_file_is_not_given_out_directly(
        &self,
        left: &Self,
        later: &Self,
        read: &Self,
        resolved: &Self,
        after: &Self,
        parent: InodeRef,
        child: InodeRef,
        again: InodeRef,
        transaction: Transaction,
        name: Seq<char>,
        handle: Option<InodeReclaimHandle>,
        disk: Disk,
    )
        requires
            self.link_counted(left, child, transaction, Ok(())),
            transaction.inv(),
            self.state().mode is Direct,
            later.state().mode is Direct,
            self.state().inode_position(child.id) matches Some((_, at)) && 0 <= at && at
                + SB_GOOD_INODE_SIZE <= BLOCK_SIZE,
            child.inode@.len() == SB_GOOD_INODE_SIZE,
            later.state().inode_position(child.id) == self.state().inode_position(child.id),
            later.inode_read(read, child.id, Ok(again)),
            told_all(
                since(later.log(), read.log()),
                held(disk, since(self.log(), left.log())),
            ),
            !directory(again),
            1 <= links_of(child.inode@) < u16::MAX,
            resolved.unlinked(after, parent, again, name, Ok(handle)),
        ensures
            links_of(again.inode@) == links_of(child.inode@) + 1,
            handle is None,
    {
        let sealed = self.lemma_counted_name_is_held(left, child, transaction, disk);
        let last = held(disk, since(self.log(), left.log()));
        assert(later.inode_held(last, child.id, sealed.inode@));
        later.lemma_inode_read_is_held(read, child.id, again, last, sealed.inode@);
        resolved.lemma_last_name_gives_the_inode_out(after, parent, again, name, handle);
    }
}

} // verus!
