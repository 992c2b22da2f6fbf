//! What a rename that replaces a name does to the number of names of directories.

use vstd::prelude::*;
use crate::bytes::{le16, le16_at, le32, splice};
use crate::content::{held, lemma_extends, lemma_held_joins, told, told_all, Disk};
use crate::device::{extends, since, Block, BlockDevice, Event, JournalCommitReason};
use crate::dir_links::{
    dotted, inodes_apart, lemma_same_links, lemma_subdirs_of_turned, lemma_subdirs_with,
    lemma_subdirs_without, links_on, own_links, recount, subdirs, tells_links,
};
use crate::error::{ErrCode, Ext4Error, Result};
use crate::fs::{Ext4, FsState};
use crate::inode::{FileType, InodeRef, SB_GOOD_INODE_SIZE};
use crate::journal_transaction::{CommitError, Transaction};
use crate::naming::Names;
use crate::readback::{lemma_direct_commit_is_held, lemma_patch_is_shown, shown_by};
use crate::rename::{target_of, with_target, Move, RenameDirs, Replacement};
use crate::staged::{holds_home, is_slot, lemma_slot_unique, ordered, StagedBlock};
use crate::superblock::lemma_checksum_keeps_inode;
use crate::tree::lemma_inode_stays_in_its_block;
use crate::unlink::{directory, handle_of, links_of};
use crate::volume::{BlockImage, InodeReclaimHandle, LayerCall, Volume};
use crate::{InodeId, PBlockId};

verus! {

/// Whether no inode stands in a block.
pub open spec fn free_of_inodes(places: FsState, home: PBlockId) -> bool {
    forall|id: InodeId|
        match #[trigger] places.inode_position(id) {
            Some((table, _)) => table != home,
            None => true,
        }
}

/// Whether no inode stands in any of the blocks of which images were made.
pub open spec fn images_apart(places: FsState, images: Seq<BlockImage>) -> bool {
    forall|i: int| 0 <= i < images.len() ==> free_of_inodes(places, (#[trigger] images[i]).home)
}

/// Whether the entries of directories stand in blocks without inodes.
pub open spec fn entries_apart(places: FsState, call: Event) -> bool {
    match call {
        Event::Layer { call: LayerCall::ReplaceImages { dir, name, target, kind, reply } } => reply
            matches Ok(images) ==> images_apart(places, images@),
        Event::Layer { call: LayerCall::RemoveImages { dir, name, reply } } => reply matches Ok(
            images,
        ) ==> images_apart(places, images@),
        _ => true,
    }
}

/// Whether reads are answered, one after another, with what a device holds by then.
pub open spec fn faithful(disk: Disk, calls: Seq<Event>) -> bool {
    forall|k: int|
        0 <= k < calls.len() ==> told(#[trigger] calls[k], held(disk, calls.take(k)))
}

/// Calls that follow on calls are answered with what these left.
proof fn lemma_faithful_splits(disk: Disk, first: Seq<Event>, second: Seq<Event>)
    requires
        faithful(disk, first + second),
    ensures
        faithful(disk, first),
        faithful(held(disk, first), second),
{
    let all = first + second;
    assert forall|k: int| 0 <= k < first.len() implies told(
        #[trigger] first[k],
        held(disk, first.take(k)),
    ) by {
        assert(all[k] == first[k]);
        assert(all.take(k) =~= first.take(k));
    }
    assert forall|k: int| 0 <= k < second.len() implies told(
        #[trigger] second[k],
        held(held(disk, first), second.take(k)),
    ) by {
        assert(all[first.len() + k] == second[k]);
        assert(all.take(first.len() + k) =~= first + second.take(k));
        lemma_held_joins(disk, first, second.take(k));
    }
}

/// The number of names of an inode after a replacement: a directory that loses its name takes one
/// from the parent that it had, and one that changes its parent takes one from the old and gives
/// one to the new.
pub open spec fn replaced_links(
    links: u16,
    id: InodeId,
    parent: InodeId,
    new_parent: InodeId,
    crossing: bool,
    lost_dir: bool,
) -> u16 {
    if crossing && id == parent {
        recount(links, false, true)
    } else if id == new_parent {
        recount(links, crossing, lost_dir)
    } else {
        links
    }
}

impl<D: BlockDevice, V: Volume<D>> Ext4<D, V> {
    /// Whether the entries of directories stand in blocks without inodes, and the superblock too.
    pub open spec fn blocks_apart(&self, after: &Self) -> bool {
        &&& free_of_inodes(self.state(), 0)
        &&& forall|k: int|
            self.log().len() <= k < after.log().len() ==> entries_apart(
                self.state(),
                #[trigger] after.log()[k],
            )
    }

    /// Whether the reads that led to a later state are answered with what a device holds.
    pub open spec fn answered_by(&self, after: &Self, disk: Disk) -> bool {
        faithful(disk, since(self.log(), after.log()))
    }

    /// What led from one state to the next, and from there on, is answered as the whole is.
    pub(crate) proof fn lemma_answers_split(&self, middle: &Self, after: &Self, disk: Disk)
        requires
            extends(self.log(), middle.log()),
            extends(middle.log(), after.log()),
            self.answered_by(after, disk),
        ensures
            self.answered_by(middle, disk),
            middle.answered_by(after, self.left_on(middle, disk)),
    {
        let first = since(self.log(), middle.log());
        let second = since(middle.log(), after.log());
        assert(since(self.log(), after.log()) =~= first + second) by {
            assert(after.log().take(middle.log().len() as int) == middle.log());
            lemma_extends(self.log(), middle.log(), after.log());
        }
        lemma_faithful_splits(disk, first, second);
    }

    /// Reads that are answered with what a device holds tell how many names inodes have on it.
    proof fn lemma_answers_tell_links(&self, after: &Self, disk: Disk)
        requires
            self.answered_by(after, disk),
        ensures
            self.honest(after, disk),
    {
        let calls = since(self.log(), after.log());
        assert forall|k: int| 0 <= k < calls.len() implies tells_links(
            self.state(),
            #[trigger] calls[k],
            held(disk, calls.take(k)),
        ) by {
            assert(told(calls[k], held(disk, calls.take(k))));
        }
    }

    /// Whether a transaction grew without writing anything.
    pub open spec fn stages(&self, after: &Self, before: Transaction, grown: Transaction) -> bool {
        &&& self.only_asked(after)
        &&& ordered(grown.staged())
        &&& grown.deferred() == before.deferred()
    }

    /// Whether what led to a later state is answered as it should be: reads with what the device
    /// holds, and requests for images of entries with images of blocks without inodes.
    pub open spec fn sound_to(&self, after: &Self, disk: Disk) -> bool {
        &&& self.answered_by(after, disk)
        &&& self.blocks_apart(after)
        &&& inodes_apart(self.state())
    }

    /// The parts of what is answered as it should be.
    pub(crate) proof fn lemma_sound_parts(&self, middle: &Self, after: &Self, disk: Disk)
        requires
            self.only_asked(middle),
            extends(middle.log(), after.log()),
        ensures
            extends(self.log(), after.log()),
            self.sound_to(after, disk) ==> {
                &&& self.sound_to(middle, disk)
                &&& middle.sound_to(after, disk)
            },
    {
        self.lemma_asking_leaves_device(middle, disk);
        self.lemma_device_joins(middle, after, disk);
        if self.sound_to(after, disk) {
            self.lemma_answers_split(middle, after, disk);
            assert forall|k: int| self.log().len() <= k < middle.log().len() implies entries_apart(
                self.state(),
                #[trigger] middle.log()[k],
            ) by {
                assert(after.log().take(middle.log().len() as int)[k] == after.log()[k]);
            }
        }
    }

    /// Staging bytes of a block writes nothing.
    proof fn lemma_patch_stages(
        &self,
        after: &Self,
        before: Transaction,
        grown: Transaction,
        home: PBlockId,
        at: int,
        patch: Seq<u8>,
        disk: Disk,
    )
        requires
            before.patched(&grown, self.log(), after.log(), home, at, patch, Ok(())),
            after.state() == self.state(),
            ordered(before.staged()),
        ensures
            self.stages(after, before, grown),
            self.answered_by(after, disk) ==> told_all(since(self.log(), after.log()), disk),
    {
        lemma_patch_is_shown(before, grown, self.log(), after.log(), home, at, patch, disk);
        let calls = since(self.log(), after.log());
        if after.log() == self.log() {
            assert(after.log().take(self.log().len() as int) =~= self.log());
        } else {
            let read = choose|read: Block|
                after.log() == #[trigger] self.log().push(
                    Event::ReadBlock { id: home, reply: Ok(read) },
                );
            let call = Event::ReadBlock { id: home, reply: Ok(read) };
            self.lemma_call_only_asks(after, call);
            assert(calls =~= seq![call]);
            assert(calls.take(0) =~= Seq::<Event>::empty());
            assert(self.answered_by(after, disk) ==> told(
                calls[0],
                held(disk, calls.take(0)),
            ));
        }
    }

    /// Staging an inode changes the number of names of that inode alone.
    pub(crate) proof fn lemma_inode_staged_links(
        &self,
        after: &Self,
        before: Transaction,
        grown: Transaction,
        inode: InodeRef,
        sealed: InodeRef,
        disk: Disk,
    )
        requires
            self.inode_staged(after, before, grown, inode, sealed, Ok(())),
            ordered(before.staged()),
        ensures
            self.stages(after, before, grown),
            links_of(sealed.inode@) == links_of(inode.inode@),
            sealed.id == inode.id,
            self.sound_to(after, disk) ==> forall|id: InodeId| #[trigger]
                links_on(shown_by(grown, disk), self.state(), id) == if id == inode.id {
                    links_of(inode.inode@)
                } else {
                    links_on(shown_by(before, disk), self.state(), id)
                },
    {
        lemma_checksum_keeps_inode(inode, sealed, self.state().superblock);
        assert(crate::inode::attributes_of(sealed).links == crate::inode::attributes_of(
            inode,
        ).links);
        lemma_inode_stays_in_its_block(self.state(), inode.id);
        let (home, at) = self.state().inode_position(inode.id)->0;
        self.lemma_patch_stages(after, before, grown, home, at, sealed.inode@, disk);
        lemma_patch_is_shown(
            before,
            grown,
            self.log(),
            after.log(),
            home,
            at,
            sealed.inode@,
            disk,
        );
        if self.sound_to(after, disk) {
            let old = shown_by(before, disk);
            let new = shown_by(grown, disk);
            assert forall|id: InodeId| #[trigger] links_on(new, self.state(), id) == if id
                == inode.id {
                links_of(inode.inode@)
            } else {
                links_on(old, self.state(), id)
            } by {
                lemma_inode_stays_in_its_block(self.state(), id);
                assert(new[home] == splice(old[home], at, sealed.inode@));
                if id == inode.id {
                    assert(le16_at(new[home], at + 26) == le16_at(sealed.inode@, 26));
                } else if let Some((table, there)) = self.state().inode_position(id) {
                    if table == home {
                        assert(self.state().inode_position(inode.id) is Some);
                        assert(le16_at(new[home], there + 26) == le16_at(old[home], there + 26));
                    } else {
                        assert(new[table] == old[table]);
                    }
                }
            }
        }
    }

    /// Staging bytes of a block without inodes changes no number of names.
    pub(crate) proof fn lemma_block_staged_links(
        &self,
        after: &Self,
        before: Transaction,
        grown: Transaction,
        home: PBlockId,
        at: int,
        patch: Seq<u8>,
        disk: Disk,
    )
        requires
            self.block_staged(after, before, grown, home, at, patch, Ok(())),
            ordered(before.staged()),
        ensures
            self.stages(after, before, grown),
            self.answered_by(after, disk) && free_of_inodes(self.state(), home) ==> forall|id: InodeId|
                #[trigger] links_on(shown_by(grown, disk), self.state(), id) == links_on(
                    shown_by(before, disk),
                    self.state(),
                    id,
                ),
    {
        self.lemma_patch_stages(after, before, grown, home, at, patch, disk);
        lemma_patch_is_shown(
            before,
            grown,
            self.log(),
            after.log(),
            home,
            at,
            patch,
            disk,
        );
        if self.answered_by(after, disk) && free_of_inodes(self.state(), home) {
            assert forall|id: InodeId| #[trigger]
                links_on(shown_by(grown, disk), self.state(), id) == links_on(
                    shown_by(before, disk),
                    self.state(),
                    id,
                ) by {
                if let Some((table, _)) = self.state().inode_position(id) {
                    assert(shown_by(grown, disk)[table] == shown_by(before, disk)[table]);
                }
            }
        }
    }

    /// Staging images of blocks without inodes changes no number of names.
    pub(crate) proof fn lemma_images_staged_links(
        &self,
        after: &Self,
        before: Transaction,
        grown: Transaction,
        images: Seq<BlockImage>,
        at: int,
        disk: Disk,
    )
        requires
            self.images_staged(after, before, grown, images, at, Ok(())),
            ordered(before.staged()),
            0 <= at,
        ensures
            self.stages(after, before, grown),
            self.answered_by(after, disk) && images_apart(self.state(), images) ==> forall|id: InodeId|
                #[trigger] links_on(shown_by(grown, disk), self.state(), id) == links_on(
                    shown_by(before, disk),
                    self.state(),
                    id,
                ),
        decreases images.len() - at,
    {
        if at >= images.len() {
            self.lemma_idle_only_asks(after);
        } else {
            let outcome = Ok::<(), Ext4Error>(());
            let (staged, next, reply) = choose|staged: Self, next: Transaction, reply: Result<()>|
                {
                    &&& #[trigger] self.block_staged(
                        &staged,
                        before,
                        next,
                        images[at].home,
                        0,
                        images[at].data@,
                        reply,
                    )
                    &&& match reply {
                        Ok(_) => staged.images_staged(
                            after,
                            next,
                            grown,
                            images,
                            at + 1,
                            outcome,
                        ),
                        Err(error) => {
                            &&& staged.idle(after)
                            &&& grown == next
                            &&& outcome == Err::<(), Ext4Error>(error)
                        },
                    }
                };
            match reply {
                Ok(done) => {
                    assert(done == ());
                },
                Err(_) => {},
            }
            self.lemma_block_staged_links(
                &staged,
                before,
                next,
                images[at].home,
                0,
                images[at].data@,
                disk,
            );
            staged.lemma_images_staged_links(after, next, grown, images, at + 1, disk);
            self.lemma_calls_join(&staged, after);
            self.lemma_asking_leaves_device(&staged, disk);
            self.lemma_device_joins(&staged, after, disk);
            if self.answered_by(after, disk) {
                self.lemma_answers_split(&staged, after, disk);
            }
            if self.answered_by(after, disk) && images_apart(self.state(), images) {
                assert(free_of_inodes(self.state(), images[at].home));
                assert forall|id: InodeId| #[trigger]
                    links_on(shown_by(grown, disk), self.state(), id) == links_on(
                        shown_by(before, disk),
                        self.state(),
                        id,
                    ) by {
                    assert(links_on(shown_by(next, disk), self.state(), id) == links_on(
                        shown_by(before, disk),
                        self.state(),
                        id,
                    ));
                }
            }
        }
    }

    /// Making a name stand for something else changes no number of names.
    proof fn lemma_entry_replaced_links(
        &self,
        after: &Self,
        before: Transaction,
        grown: Transaction,
        dir: InodeRef,
        name: Seq<char>,
        target: InodeId,
        kind: FileType,
        disk: Disk,
    )
        requires
            self.entry_replaced(after, before, grown, dir, name, target, kind, Ok(())),
            ordered(before.staged()),
        ensures
            self.stages(after, before, grown),
            self.sound_to(after, disk) ==> forall|id: InodeId| #[trigger]
                links_on(shown_by(grown, disk), self.state(), id) == links_on(
                    shown_by(before, disk),
                    self.state(),
                    id,
                ),
    {
        let outcome = Ok::<(), Ext4Error>(());
        let (asked, reply) = choose|asked: Self, reply: Result<Vec<BlockImage>>|
            {
                &&& #[trigger] self.asked(
                    &asked,
                    LayerCall::ReplaceImages { dir, name, target, kind, reply },
                )
                &&& match reply {
                    Ok(images) => asked.images_staged(
                        after,
                        before,
                        grown,
                        images@,
                        0,
                        outcome,
                    ),
                    Err(error) => {
                        &&& asked.idle(after)
                        &&& grown == before
                        &&& outcome == Err::<(), Ext4Error>(error)
                    },
                }
            };
        let call = Event::Layer {
            call: LayerCall::ReplaceImages { dir, name, target, kind, reply },
        };
        self.lemma_call_only_asks(&asked, call);
        let images = reply->Ok_0@;
        asked.lemma_images_staged_links(after, before, grown, images, 0, disk);
        self.lemma_calls_join(&asked, after);
        self.lemma_sound_parts(&asked, after, disk);
        if self.sound_to(after, disk) {
            let k = self.log().len() as int;
            assert(asked.log()[k] == call);
            assert(entries_apart(self.state(), asked.log()[k]));
        }
    }

    /// Taking a name away changes no number of names.
    pub(crate) proof fn lemma_entry_removed_links(
        &self,
        after: &Self,
        before: Transaction,
        grown: Transaction,
        dir: InodeRef,
        name: Seq<char>,
        disk: Disk,
    )
        requires
            self.entry_removed(after, before, grown, dir, name, Ok(())),
            ordered(before.staged()),
        ensures
            self.stages(after, before, grown),
            self.sound_to(after, disk) ==> forall|id: InodeId| #[trigger]
                links_on(shown_by(grown, disk), self.state(), id) == links_on(
                    shown_by(before, disk),
                    self.state(),
                    id,
                ),
    {
        let outcome = Ok::<(), Ext4Error>(());
        let (asked, reply) = choose|asked: Self, reply: Result<Vec<BlockImage>>|
            {
                &&& #[trigger] self.asked(&asked, LayerCall::RemoveImages { dir, name, reply })
                &&& match reply {
                    Ok(images) => asked.images_staged(
                        after,
                        before,
                        grown,
                        images@,
                        0,
                        outcome,
                    ),
                    Err(error) => {
                        &&& asked.idle(after)
                        &&& grown == before
                        &&& outcome == Err::<(), Ext4Error>(error)
                    },
                }
            };
        let call = Event::Layer { call: LayerCall::RemoveImages { dir, name, reply } };
        self.lemma_call_only_asks(&asked, call);
        let images = reply->Ok_0@;
        asked.lemma_images_staged_links(after, before, grown, images, 0, disk);
        self.lemma_calls_join(&asked, after);
        self.lemma_sound_parts(&asked, after, disk);
        if self.sound_to(after, disk) {
            let k = self.log().len() as int;
            assert(asked.log()[k] == call);
            assert(entries_apart(self.state(), asked.log()[k]));
        }
    }

    /// Setting the number of names of an inode sets that number alone.
    pub(crate) proof fn lemma_links_staged_links(
        &self,
        after: &Self,
        before: Transaction,
        grown: Transaction,
        inode: InodeRef,
        links: u16,
        sealed: InodeRef,
        disk: Disk,
    )
        requires
            self.links_staged(after, before, grown, inode, links, sealed, Ok(())),
            ordered(before.staged()),
        ensures
            self.stages(after, before, grown),
            links_of(sealed.inode@) == links,
            sealed.id == inode.id,
            self.sound_to(after, disk) ==> forall|id: InodeId| #[trigger]
                links_on(shown_by(grown, disk), self.state(), id) == if id == inode.id {
                    links
                } else {
                    links_on(shown_by(before, disk), self.state(), id)
                },
    {
        broadcast use crate::bytes::lemma_le16_round_trip;

        let counted = choose|counted: InodeRef|
            {
                &&& counted.id == inode.id
                &&& counted.inode@ == splice(inode.inode@, 26, le16(links))
                &&& #[trigger] self.inode_staged(after, before, grown, counted, sealed, Ok(()))
            };
        self.lemma_inode_staged_links(after, before, grown, counted, sealed, disk);
    }

    /// Taking a name from an inode changes the number of names of no other.
    pub(crate) proof fn lemma_counted_off_links(
        &self,
        after: &Self,
        before: Transaction,
        grown: Transaction,
        inode: InodeRef,
        last: bool,
        disk: Disk,
    )
        requires
            self.name_counted_off(after, before, grown, inode, last, Ok(())),
            ordered(before.staged()),
        ensures
            self.stages(after, before, grown),
            self.sound_to(after, disk) ==> forall|id: InodeId|
                id != inode.id ==> #[trigger] links_on(shown_by(grown, disk), self.state(), id)
                    == links_on(shown_by(before, disk), self.state(), id),
            self.sound_to(after, disk) ==> links_on(
                shown_by(grown, disk),
                self.state(),
                inode.id,
            ) == if last {
                0
            } else {
                links_of(inode.inode@).wrapping_sub(1)
            },
    {
        broadcast use crate::bytes::lemma_le16_round_trip;

        let outcome = Ok::<(), Ext4Error>(());
        if !last {
            let sealed = choose|sealed: InodeRef| #[trigger]
                self.links_staged(
                    after,
                    before,
                    grown,
                    inode,
                    links_of(inode.inode@).wrapping_sub(1),
                    sealed,
                    outcome,
                );
            self.lemma_links_staged_links(
                after,
                before,
                grown,
                inode,
                links_of(inode.inode@).wrapping_sub(1),
                sealed,
                disk,
            );
        } else if self.state().mode is Journal {
            let head = crate::bytes::le32_at(
                self.state().superblock,
                crate::superblock::ORPHAN_HEAD as int,
            );
            let (staged, next, chained, sealed, reply) = choose|
                staged: Self,
                next: Transaction,
                chained: InodeRef,
                sealed: InodeRef,
                reply: Result<()>,
            |
                {
                    &&& #[trigger] self.inode_staged(
                        &staged,
                        before,
                        next,
                        chained,
                        sealed,
                        reply,
                    )
                    &&& chained.id == inode.id
                    &&& chained.inode@ == splice(
                        splice(inode.inode@, 26, le16(0)),
                        20,
                        le32(head),
                    )
                    &&& match reply {
                        Ok(_) => staged.orphan_headed(after, next, grown, inode.id, outcome),
                        Err(error) => {
                            &&& staged.idle(after)
                            &&& grown == next
                            &&& outcome == Err::<(), Ext4Error>(error)
                        },
                    }
                };
            match reply {
                Ok(done) => {
                    assert(done == ());
                },
                Err(_) => {},
            }
            self.lemma_inode_staged_links(&staged, before, next, chained, sealed, disk);
            lemma_orphan_has_no_names(inode.inode@, head);
            let patch = crate::superblock::sealed_superblock(
                splice(
                    staged.state().superblock,
                    crate::superblock::ORPHAN_HEAD as int,
                    le32(inode.id),
                ),
            );
            staged.lemma_block_staged_links(
                after,
                next,
                grown,
                0,
                crate::superblock::BASE_OFFSET as int,
                patch,
                disk,
            );
            self.lemma_calls_join(&staged, after);
            self.lemma_sound_parts(&staged, after, disk);
            if self.sound_to(after, disk) {
                assert forall|id: InodeId| id != inode.id implies #[trigger]
                    links_on(shown_by(grown, disk), self.state(), id) == links_on(
                    shown_by(before, disk),
                    self.state(),
                    id,
                ) by {
                    assert(links_on(shown_by(next, disk), self.state(), id) == links_on(
                        shown_by(before, disk),
                        self.state(),
                        id,
                    ));
                }
            }
        } else {
            let (alone, sealed) = choose|alone: InodeRef, sealed: InodeRef|
                {
                    &&& #[trigger] self.inode_staged(
                        after,
                        before,
                        grown,
                        alone,
                        sealed,
                        outcome,
                    )
                    &&& alone.id == inode.id
                    &&& alone.inode@ == splice(splice(inode.inode@, 26, le16(0)), 20, le32(0))
                };
            self.lemma_inode_staged_links(after, before, grown, alone, sealed, disk);
            lemma_orphan_has_no_names(inode.inode@, 0);
        }
    }
}

/// An orphan has no names, whatever it is chained to.
proof fn lemma_orphan_has_no_names(raw: Seq<u8>, head: u32)
    requires
        raw.len() == SB_GOOD_INODE_SIZE,
    ensures
        links_of(splice(splice(raw, 26, le16(0)), 20, le32(head))) == 0,
{
    broadcast use crate::bytes::lemma_le16_round_trip;

    let cleared = splice(raw, 26, le16(0));
    let chained = splice(cleared, 20, le32(head));
    assert(le16_at(cleared, 26) == 0);
    assert(chained[26] == cleared[26] && chained[27] == cleared[27]);
}

/// The steps of a replacement.
impl<D: BlockDevice, V: Volume<D>> Ext4<D, V> {
    /// The new parent has one name more, and no other but the inode that loses its name changes.
    proof fn lemma_gained_links(
        &self,
        after: &Self,
        before: Transaction,
        transaction: Transaction,
        dirs: RenameDirs,
        change: Replacement,
        disk: Disk,
    )
        requires
            self.replace_gained(after, before, transaction, dirs, change, Ok(())),
            ordered(before.staged()),
        ensures
            self.stages(after, before, transaction),
            dirs.1 is Some,
            self.sound_to(after, disk) ==> forall|id: InodeId|
                id != change.existing.id ==> #[trigger] links_on(
                    shown_by(transaction, disk),
                    self.state(),
                    id,
                ) == if id == target_of(dirs).id {
                    links_of(target_of(dirs).inode@).wrapping_add(1)
                } else {
                    links_on(shown_by(before, disk), self.state(), id)
                },
    {
        let outcome = Ok::<(), Ext4Error>(());
        let dir = target_of(dirs);
        let more = links_of(dir.inode@).wrapping_add(1);
        let (staged, grown, sealed, reply) = choose|
            staged: Self,
            grown: Transaction,
            sealed: InodeRef,
            reply: Result<()>,
        |
            {
                &&& #[trigger] self.links_staged(
                    &staged,
                    before,
                    grown,
                    dir,
                    more,
                    sealed,
                    reply,
                )
                &&& match reply {
                    Ok(_) => staged.name_counted_off(
                        after,
                        grown,
                        transaction,
                        change.existing,
                        change.last(),
                        outcome,
                    ),
                    Err(error) => {
                        &&& staged.idle(after)
                        &&& transaction == grown
                        &&& outcome == Err::<(), Ext4Error>(error)
                    },
                }
            };
        match reply {
            Ok(done) => {
                assert(done == ());
            },
            Err(_) => {},
        }
        self.lemma_links_staged_links(&staged, before, grown, dir, more, sealed, disk);
        staged.lemma_counted_off_links(
            after,
            grown,
            transaction,
            change.existing,
            change.last(),
            disk,
        );
        self.lemma_calls_join(&staged, after);
        self.lemma_sound_parts(&staged, after, disk);
        if self.sound_to(after, disk) {
            assert forall|id: InodeId| id != change.existing.id implies #[trigger]
                links_on(shown_by(transaction, disk), self.state(), id) == if id == dir.id {
                more
            } else {
                links_on(shown_by(before, disk), self.state(), id)
            } by {
                assert(links_on(shown_by(grown, disk), self.state(), id) == if id == dir.id {
                    more
                } else {
                    links_on(shown_by(before, disk), self.state(), id)
                });
            }
        }
    }

    /// The old parent has one name fewer, and the new parent one more.
    proof fn lemma_lost_links(
        &self,
        after: &Self,
        before: Transaction,
        transaction: Transaction,
        dirs: RenameDirs,
        change: Replacement,
        disk: Disk,
    )
        requires
            self.replace_lost(after, before, transaction, dirs, change, Ok(())),
            ordered(before.staged()),
        ensures
            self.stages(after, before, transaction),
            dirs.1 is Some,
            self.sound_to(after, disk) ==> forall|id: InodeId|
                id != change.existing.id ==> #[trigger] links_on(
                    shown_by(transaction, disk),
                    self.state(),
                    id,
                ) == if id == target_of(dirs).id {
                    links_of(target_of(dirs).inode@).wrapping_add(1)
                } else if id == dirs.0.id {
                    links_of(dirs.0.inode@).wrapping_sub(1)
                } else {
                    links_on(shown_by(before, disk), self.state(), id)
                },
    {
        let outcome = Ok::<(), Ext4Error>(());
        let fewer = links_of(dirs.0.inode@).wrapping_sub(1);
        let (staged, grown, sealed, reply) = choose|
            staged: Self,
            grown: Transaction,
            sealed: InodeRef,
            reply: Result<()>,
        |
            {
                &&& #[trigger] self.links_staged(
                    &staged,
                    before,
                    grown,
                    dirs.0,
                    fewer,
                    sealed,
                    reply,
                )
                &&& match reply {
                    Ok(_) => staged.replace_gained(
                        after,
                        grown,
                        transaction,
                        dirs,
                        change,
                        outcome,
                    ),
                    Err(error) => {
                        &&& staged.idle(after)
                        &&& transaction == grown
                        &&& outcome == Err::<(), Ext4Error>(error)
                    },
                }
            };
        match reply {
            Ok(done) => {
                assert(done == ());
            },
            Err(_) => {},
        }
        self.lemma_links_staged_links(&staged, before, grown, dirs.0, fewer, sealed, disk);
        staged.lemma_gained_links(after, grown, transaction, dirs, change, disk);
        self.lemma_calls_join(&staged, after);
        self.lemma_sound_parts(&staged, after, disk);
        if self.sound_to(after, disk) {
            assert forall|id: InodeId| id != change.existing.id implies #[trigger]
                links_on(shown_by(transaction, disk), self.state(), id) == if id == target_of(
                dirs,
            ).id {
                links_of(target_of(dirs).inode@).wrapping_add(1)
            } else if id == dirs.0.id {
                fewer
            } else {
                links_on(shown_by(before, disk), self.state(), id)
            } by {
                assert(links_on(shown_by(grown, disk), self.state(), id) == if id == dirs.0.id {
                    fewer
                } else {
                    links_on(shown_by(before, disk), self.state(), id)
                });
            }
        }
    }

    /// A directory that changes its parent takes a name from the old, and gives one to the new.
    proof fn lemma_replace_moved_links(
        &self,
        after: &Self,
        before: Transaction,
        transaction: Transaction,
        dirs: RenameDirs,
        change: Replacement,
        disk: Disk,
    )
        requires
            self.replace_moved(after, before, transaction, dirs, change, Ok(())),
            ordered(before.staged()),
        ensures
            self.stages(after, before, transaction),
            change.crossing ==> dirs.1 is Some,
            self.sound_to(after, disk) ==> forall|id: InodeId|
                id != change.existing.id ==> #[trigger] links_on(
                    shown_by(transaction, disk),
                    self.state(),
                    id,
                ) == if change.crossing && id == target_of(dirs).id {
                    links_of(target_of(dirs).inode@).wrapping_add(1)
                } else if change.crossing && id == dirs.0.id {
                    links_of(dirs.0.inode@).wrapping_sub(1)
                } else {
                    links_on(shown_by(before, disk), self.state(), id)
                },
    {
        let outcome = Ok::<(), Ext4Error>(());
        if !change.crossing {
            self.lemma_counted_off_links(
                after,
                before,
                transaction,
                change.existing,
                change.last(),
                disk,
            );
        } else {
            let (staged, grown, reply) = choose|
                staged: Self,
                grown: Transaction,
                reply: Result<()>,
            |
                {
                    &&& #[trigger] self.entry_replaced(
                        &staged,
                        before,
                        grown,
                        change.child,
                        ".."@,
                        change.new_parent,
                        FileType::Directory,
                        reply,
                    )
                    &&& match reply {
                        Ok(_) => staged.replace_lost(
                            after,
                            grown,
                            transaction,
                            dirs,
                            change,
                            outcome,
                        ),
                        Err(error) => {
                            &&& staged.idle(after)
                            &&& transaction == grown
                            &&& outcome == Err::<(), Ext4Error>(error)
                        },
                    }
                };
            match reply {
                Ok(done) => {
                    assert(done == ());
                },
                Err(_) => {},
            }
            self.lemma_entry_replaced_links(
                &staged,
                before,
                grown,
                change.child,
                ".."@,
                change.new_parent,
                FileType::Directory,
                disk,
            );
            staged.lemma_lost_links(after, grown, transaction, dirs, change, disk);
            self.lemma_calls_join(&staged, after);
            self.lemma_sound_parts(&staged, after, disk);
            if self.sound_to(after, disk) {
                assert forall|id: InodeId| id != change.existing.id implies #[trigger]
                    links_on(shown_by(transaction, disk), self.state(), id) == if id == target_of(
                    dirs,
                ).id {
                    links_of(target_of(dirs).inode@).wrapping_add(1)
                } else if id == dirs.0.id {
                    links_of(dirs.0.inode@).wrapping_sub(1)
                } else {
                    links_on(shown_by(before, disk), self.state(), id)
                } by {
                    assert(links_on(shown_by(grown, disk), self.state(), id) == links_on(
                        shown_by(before, disk),
                        self.state(),
                        id,
                    ));
                }
            }
        }
    }

    /// Taking the old name away, and what follows.
    proof fn lemma_replace_removed_links(
        &self,
        after: &Self,
        before: Transaction,
        transaction: Transaction,
        dirs: RenameDirs,
        name: Seq<char>,
        change: Replacement,
        disk: Disk,
    )
        requires
            self.replace_removed(after, before, transaction, dirs, name, change, Ok(())),
            ordered(before.staged()),
        ensures
            self.stages(after, before, transaction),
            change.crossing ==> dirs.1 is Some,
            self.sound_to(after, disk) ==> forall|id: InodeId|
                id != change.existing.id ==> #[trigger] links_on(
                    shown_by(transaction, disk),
                    self.state(),
                    id,
                ) == if change.crossing && id == target_of(dirs).id {
                    links_of(target_of(dirs).inode@).wrapping_add(1)
                } else if change.crossing && id == dirs.0.id {
                    links_of(dirs.0.inode@).wrapping_sub(1)
                } else {
                    links_on(shown_by(before, disk), self.state(), id)
                },
    {
        let outcome = Ok::<(), Ext4Error>(());
        let (staged, grown, reply) = choose|staged: Self, grown: Transaction, reply: Result<()>|
            {
                &&& #[trigger] self.entry_removed(&staged, before, grown, dirs.0, name, reply)
                &&& match reply {
                    Ok(_) => staged.replace_moved(
                        after,
                        grown,
                        transaction,
                        dirs,
                        change,
                        outcome,
                    ),
                    Err(error) => {
                        &&& staged.idle(after)
                        &&& transaction == grown
                        &&& outcome == Err::<(), Ext4Error>(error)
                    },
                }
            };
        match reply {
            Ok(done) => {
                assert(done == ());
            },
            Err(_) => {},
        }
        self.lemma_entry_removed_links(&staged, before, grown, dirs.0, name, disk);
        staged.lemma_replace_moved_links(after, grown, transaction, dirs, change, disk);
        self.lemma_calls_join(&staged, after);
        self.lemma_sound_parts(&staged, after, disk);
        if self.sound_to(after, disk) {
            assert forall|id: InodeId| id != change.existing.id implies #[trigger]
                links_on(shown_by(transaction, disk), self.state(), id) == if change.crossing && id
                == target_of(dirs).id {
                links_of(target_of(dirs).inode@).wrapping_add(1)
            } else if change.crossing && id == dirs.0.id {
                links_of(dirs.0.inode@).wrapping_sub(1)
            } else {
                links_on(shown_by(before, disk), self.state(), id)
            } by {
                assert(links_on(shown_by(grown, disk), self.state(), id) == links_on(
                    shown_by(before, disk),
                    self.state(),
                    id,
                ));
            }
        }
    }

    /// A directory that loses its name takes one from its parent, and what follows.
    proof fn lemma_replace_parted_links(
        &self,
        after: &Self,
        before: Transaction,
        transaction: Transaction,
        dirs: RenameDirs,
        name: Seq<char>,
        change: Replacement,
        disk: Disk,
    )
        requires
            self.replace_parted(after, before, transaction, dirs, name, change, Ok(())),
            ordered(before.staged()),
            dirs.1 matches Some(second) ==> dirs.0.id != second.id,
        ensures
            self.stages(after, before, transaction),
            self.sound_to(after, disk) && links_of(dirs.0.inode@) == links_on(
                shown_by(before, disk),
                self.state(),
                dirs.0.id,
            ) && links_of(target_of(dirs).inode@) == links_on(
                shown_by(before, disk),
                self.state(),
                target_of(dirs).id,
            ) ==> forall|id: InodeId|
                id != change.existing.id ==> #[trigger] links_on(
                    shown_by(transaction, disk),
                    self.state(),
                    id,
                ) == replaced_links(
                    links_on(shown_by(before, disk), self.state(), id),
                    id,
                    dirs.0.id,
                    target_of(dirs).id,
                    change.crossing,
                    directory(change.existing),
                ),
    {
        let outcome = Ok::<(), Ext4Error>(());
        let dir = target_of(dirs);
        if !directory(change.existing) {
            self.lemma_replace_removed_links(
                after,
                before,
                transaction,
                dirs,
                name,
                change,
                disk,
            );
        } else {
            let fewer = links_of(dir.inode@).wrapping_sub(1);
            let (staged, grown, sealed, reply) = choose|
                staged: Self,
                grown: Transaction,
                sealed: InodeRef,
                reply: Result<()>,
            |
                {
                    &&& #[trigger] self.links_staged(
                        &staged,
                        before,
                        grown,
                        dir,
                        fewer,
                        sealed,
                        reply,
                    )
                    &&& match reply {
                        Ok(_) => staged.replace_removed(
                            after,
                            grown,
                            transaction,
                            with_target(dirs, sealed),
                            name,
                            change,
                            outcome,
                        ),
                        Err(error) => {
                            &&& staged.idle(after)
                            &&& transaction == grown
                            &&& outcome == Err::<(), Ext4Error>(error)
                        },
                    }
                };
            match reply {
                Ok(done) => {
                    assert(done == ());
                },
                Err(_) => {},
            }
            self.lemma_links_staged_links(&staged, before, grown, dir, fewer, sealed, disk);
            staged.lemma_replace_removed_links(
                after,
                grown,
                transaction,
                with_target(dirs, sealed),
                name,
                change,
                disk,
            );
            self.lemma_calls_join(&staged, after);
            self.lemma_sound_parts(&staged, after, disk);
            if self.sound_to(after, disk) {
                assert forall|id: InodeId|
                    id != change.existing.id && links_of(dirs.0.inode@) == links_on(
                        shown_by(before, disk),
                        self.state(),
                        dirs.0.id,
                    ) && links_of(dir.inode@) == links_on(
                        shown_by(before, disk),
                        self.state(),
                        dir.id,
                    ) implies #[trigger] links_on(
                    shown_by(transaction, disk),
                    self.state(),
                    id,
                ) == replaced_links(
                    links_on(shown_by(before, disk), self.state(), id),
                    id,
                    dirs.0.id,
                    dir.id,
                    change.crossing,
                    true,
                ) by {
                    assert(links_on(shown_by(grown, disk), self.state(), id) == if id == dir.id {
                        fewer
                    } else {
                        links_on(shown_by(before, disk), self.state(), id)
                    });
                }
            }
        }
    }

    /// What staging a replacement does to the numbers of names.
    proof fn lemma_replacement_staged_links(
        &self,
        after: &Self,
        before: Transaction,
        transaction: Transaction,
        dirs: RenameDirs,
        name: Seq<char>,
        new_name: Seq<char>,
        change: Replacement,
        disk: Disk,
    )
        requires
            self.replace_staged(
                after,
                before,
                transaction,
                dirs,
                name,
                new_name,
                change,
                Ok(()),
            ),
            ordered(before.staged()),
            dirs.1 matches Some(second) ==> dirs.0.id != second.id,
        ensures
            self.stages(after, before, transaction),
            self.sound_to(after, disk) && links_of(dirs.0.inode@) == links_on(
                shown_by(before, disk),
                self.state(),
                dirs.0.id,
            ) && links_of(target_of(dirs).inode@) == links_on(
                shown_by(before, disk),
                self.state(),
                target_of(dirs).id,
            ) ==> forall|id: InodeId|
                id != change.existing.id ==> #[trigger] links_on(
                    shown_by(transaction, disk),
                    self.state(),
                    id,
                ) == replaced_links(
                    links_on(shown_by(before, disk), self.state(), id),
                    id,
                    dirs.0.id,
                    target_of(dirs).id,
                    change.crossing,
                    directory(change.existing),
                ),
    {
        let outcome = Ok::<(), Ext4Error>(());
        let (staged, grown, reply) = choose|staged: Self, grown: Transaction, reply: Result<()>|
            {
                &&& #[trigger] self.entry_replaced(
                    &staged,
                    before,
                    grown,
                    target_of(dirs),
                    new_name,
                    change.child.id,
                    change.child.inode.kind(),
                    reply,
                )
                &&& match reply {
                    Ok(_) => staged.replace_parted(
                        after,
                        grown,
                        transaction,
                        dirs,
                        name,
                        change,
                        outcome,
                    ),
                    Err(error) => {
                        &&& staged.idle(after)
                        &&& transaction == grown
                        &&& outcome == Err::<(), Ext4Error>(error)
                    },
                }
            };
        match reply {
            Ok(done) => {
                assert(done == ());
            },
            Err(_) => {},
        }
        self.lemma_entry_replaced_links(
            &staged,
            before,
            grown,
            target_of(dirs),
            new_name,
            change.child.id,
            change.child.inode.kind(),
            disk,
        );
        staged.lemma_replace_parted_links(after, grown, transaction, dirs, name, change, disk);
        self.lemma_calls_join(&staged, after);
        self.lemma_sound_parts(&staged, after, disk);
        if self.sound_to(after, disk) {
            assert(links_on(shown_by(grown, disk), self.state(), dirs.0.id) == links_on(
                shown_by(before, disk),
                self.state(),
                dirs.0.id,
            ));
            assert(links_on(shown_by(grown, disk), self.state(), target_of(dirs).id) == links_on(
                shown_by(before, disk),
                self.state(),
                target_of(dirs).id,
            ));
            assert forall|id: InodeId|
                id != change.existing.id && links_of(dirs.0.inode@) == links_on(
                    shown_by(before, disk),
                    self.state(),
                    dirs.0.id,
                ) && links_of(target_of(dirs).inode@) == links_on(
                    shown_by(before, disk),
                    self.state(),
                    target_of(dirs).id,
                ) implies #[trigger] links_on(shown_by(transaction, disk), self.state(), id)
                == replaced_links(
                links_on(shown_by(before, disk), self.state(), id),
                id,
                dirs.0.id,
                target_of(dirs).id,
                change.crossing,
                directory(change.existing),
            ) by {
                assert(links_on(shown_by(grown, disk), self.state(), id) == links_on(
                    shown_by(before, disk),
                    self.state(),
                    id,
                ));
            }
        }
    }
}

/// Renaming to a name that stands for another inode.
impl<D: BlockDevice, V: Volume<D>> Ext4<D, V> {
    /// Whether a transaction was ended, with success, on the way out of the barrier.
    pub open spec fn ends_with(&self, after: &Self, transaction: Transaction) -> bool {
        exists|staged: Self, left: Self, at_once: bool|
            {
                &&& #[trigger] staged.names_settled(&left, transaction, at_once, Ok(()))
                &&& left.exclusive_left(after)
                &&& extends(self.log(), staged.log())
            }
    }

    /// What is answered as it should be does not depend on the backend.
    pub(crate) proof fn lemma_sound_elsewhere(&self, other: &Self, after: &Self, disk: Disk)
        requires
            self.sound_to(after, disk),
            other.log() == self.log(),
            other.state().superblock == self.state().superblock,
            other.state().groups == self.state().groups,
        ensures
            other.sound_to(after, disk),
    {
        assert forall|home: PBlockId| free_of_inodes(self.state(), home) implies #[trigger]
            free_of_inodes(other.state(), home) by {
            lemma_free_elsewhere(self.state(), other.state(), home);
        }
        assert forall|k: int| other.log().len() <= k < after.log().len() implies entries_apart(
            other.state(),
            #[trigger] after.log()[k],
        ) by {
            assert(entries_apart(self.state(), after.log()[k]));
        }
        lemma_free_elsewhere(self.state(), other.state(), 0);
        lemma_apart_elsewhere(self.state(), other.state());
    }

    /// A transaction that starts where nothing waits holds nothing, and nothing is called for it.
    proof fn lemma_begun_at_rest(
        &self,
        begun: &Self,
        credits: usize,
        transaction: Transaction,
    )
        requires
            self.begun_with_retry(begun, credits, Ok(transaction)),
            self.nothing_waits(),
        ensures
            begun.log() == self.log(),
            begun.state() == (FsState { mode: begun.state().mode, ..self.state() }),
            begun.state().mode is Direct == self.state().mode is Direct,
            transaction.staged() == Seq::<StagedBlock>::empty(),
            transaction.deferred() is None,
    {
        let (tried, first) = choose|tried: Self, first: Result<Transaction>|
            {
                &&& #[trigger] self.begun(&tried, credits, first)
                &&& if first matches Err(error) && error.code == ErrCode::E2BIG
                    && self.state().mode is Journal {
                    exists|flushed: Self, reply: Result<()>|
                        {
                            &&& #[trigger] tried.flushed(
                                &flushed,
                                JournalCommitReason::DurabilityBoundary,
                                reply,
                            )
                            &&& match reply {
                                Ok(_) => flushed.begun(begun, credits, Ok(transaction)),
                                Err(error) => flushed.idle(begun) && Ok::<Transaction, Ext4Error>(
                                    transaction,
                                ) == Err::<Transaction, Ext4Error>(error),
                            }
                        }
                } else {
                    tried.idle(begun) && Ok::<Transaction, Ext4Error>(transaction) == first
                }
            };
        if first is Err {
            let (flushed, reply) = choose|flushed: Self, reply: Result<()>|
                {
                    &&& #[trigger] tried.flushed(
                        &flushed,
                        JournalCommitReason::DurabilityBoundary,
                        reply,
                    )
                    &&& match reply {
                        Ok(_) => flushed.begun(begun, credits, Ok(transaction)),
                        Err(error) => flushed.idle(begun) && Ok::<Transaction, Ext4Error>(
                            transaction,
                        ) == Err::<Transaction, Ext4Error>(error),
                    }
                };
        }
    }

    /// What replacing an inode that was read does to the numbers of names in the transaction that
    /// it ends with.
    proof fn lemma_replacement_links(
        &self,
        after: &Self,
        dirs: RenameDirs,
        name: Seq<char>,
        new_name: Seq<char>,
        change: Replacement,
        handle: Option<InodeReclaimHandle>,
        disk: Disk,
    ) -> (ended: (Self, Transaction, bool))
        requires
            self.target_replaced(after, dirs, name, new_name, change, Ok(handle)),
            self.nothing_waits(),
            dirs.1 matches Some(second) ==> dirs.0.id != second.id,
        ensures
            ({
                let (staged, grown, at_once) = ended;
                &&& extends(self.log(), staged.log())
                &&& extends(staged.log(), after.log())
                &&& staged.names_settled(after, grown, at_once, Ok(()))
                &&& staged.state().mode is Direct == self.state().mode is Direct
                &&& ordered(grown.staged())
                &&& grown.deferred() is None
                &&& self.left_on(&staged, disk) == disk
                &&& change.child_is_dir == directory(change.existing)
                &&& self.sound_to(after, disk) && links_of(dirs.0.inode@) == links_on(
                    disk,
                    self.state(),
                    dirs.0.id,
                ) && links_of(target_of(dirs).inode@) == links_on(
                    disk,
                    self.state(),
                    target_of(dirs).id,
                ) ==> forall|id: InodeId|
                    id != change.existing.id ==> #[trigger] links_on(
                        shown_by(grown, disk),
                        self.state(),
                        id,
                    ) == replaced_links(
                        links_on(disk, self.state(), id),
                        id,
                        dirs.0.id,
                        target_of(dirs).id,
                        change.crossing,
                        directory(change.existing),
                    )
            }),
    {
        let outcome = Ok::<Option<InodeReclaimHandle>, Ext4Error>(handle);
        let (checked, reply) = choose|checked: Self, reply: Result<()>|
            {
                &&& #[trigger] self.replacement_checked(
                    &checked,
                    change.child_is_dir,
                    change.existing,
                    reply,
                )
                &&& match reply {
                    Ok(_) => checked.replace_begun(
                        after,
                        dirs,
                        name,
                        new_name,
                        change,
                        outcome,
                    ),
                    Err(error) => checked.idle(after) && outcome == Err::<
                        Option<InodeReclaimHandle>,
                        Ext4Error,
                    >(error),
                }
            };
        self.lemma_replacement_check_only_asks(
            &checked,
            change.child_is_dir,
            change.existing,
            reply,
        );
        let credits = checked.credits_to_replace(change);
        let (begun, start) = choose|begun: Self, start: Result<Transaction>|
            {
                &&& #[trigger] checked.begun_with_retry(&begun, credits, start)
                &&& match start {
                    Ok(transaction) => begun.replace_run(
                        after,
                        transaction,
                        dirs,
                        name,
                        new_name,
                        change,
                        outcome,
                    ),
                    Err(error) => begun.idle(after) && outcome == Err::<
                        Option<InodeReclaimHandle>,
                        Ext4Error,
                    >(error),
                }
            };
        let transaction = start->Ok_0;
        checked.lemma_begun_at_rest(&begun, credits, transaction);
        let (staged, grown, said) = choose|staged: Self, grown: Transaction, said: Result<()>|
            {
                &&& #[trigger] begun.replace_staged(
                    &staged,
                    transaction,
                    grown,
                    dirs,
                    name,
                    new_name,
                    change,
                    said,
                )
                &&& match said {
                    Ok(_) => staged.replace_ended(after, grown, change, outcome),
                    Err(error) => staged.given_up(after, grown) && outcome == Err::<
                        Option<InodeReclaimHandle>,
                        Ext4Error,
                    >(error),
                }
            };
        match said {
            Ok(done) => {
                assert(done == ());
            },
            Err(_) => {},
        }
        begun.lemma_replacement_staged_links(
            &staged,
            transaction,
            grown,
            dirs,
            name,
            new_name,
            change,
            disk,
        );
        let (ending, at_once) = choose|ending: Result<()>, at_once: bool|
            {
                &&& #[trigger] staged.names_settled(after, grown, at_once, ending)
                &&& at_once == (change.child_is_dir || directory(change.existing))
                &&& outcome == match ending {
                    Ok(_) => Ok::<Option<InodeReclaimHandle>, Ext4Error>(
                        handle_of(change.existing, change.last()),
                    ),
                    Err(error) => Err(error),
                }
            };
        match ending {
            Ok(done) => {
                assert(done == ());
            },
            Err(_) => {},
        }
        staged.lemma_settling_keeps_names(after, grown, at_once, ending);
        begun.lemma_asking_leaves_device(&staged, disk);
        self.lemma_asking_leaves_device(&checked, disk);
        checked.lemma_device_joins(&staged, after, disk);
        self.lemma_device_joins(&checked, &staged, disk);
        self.lemma_device_joins(&checked, after, disk);
        if self.sound_to(after, disk) {
            self.lemma_sound_parts(&checked, after, disk);
            checked.lemma_sound_elsewhere(&begun, after, disk);
            begun.lemma_sound_parts(&staged, after, disk);
            assert forall|id: InodeId| #[trigger]
                links_on(shown_by(transaction, disk), begun.state(), id) == links_on(
                    disk,
                    self.state(),
                    id,
                ) by {
                lemma_same_links(disk, begun.state(), self.state(), id);
            }
            assert(links_on(shown_by(transaction, disk), begun.state(), dirs.0.id) == links_on(
                disk,
                self.state(),
                dirs.0.id,
            ));
            assert(links_on(shown_by(transaction, disk), begun.state(), target_of(dirs).id)
                == links_on(disk, self.state(), target_of(dirs).id));
            assert forall|id: InodeId|
                id != change.existing.id && links_of(dirs.0.inode@) == links_on(
                    disk,
                    self.state(),
                    dirs.0.id,
                ) && links_of(target_of(dirs).inode@) == links_on(
                    disk,
                    self.state(),
                    target_of(dirs).id,
                ) implies #[trigger] links_on(shown_by(grown, disk), self.state(), id)
                == replaced_links(
                links_on(disk, self.state(), id),
                id,
                dirs.0.id,
                target_of(dirs).id,
                change.crossing,
                directory(change.existing),
            ) by {
                lemma_same_links(shown_by(grown, disk), begun.state(), self.state(), id);
            }
        }
        (staged, grown, at_once)
    }

    /// What is answered as it should be up to a state is so up to an earlier one.
    pub(crate) proof fn lemma_sound_so_far(&self, middle: &Self, after: &Self, disk: Disk)
        requires
            self.sound_to(after, disk),
            extends(self.log(), middle.log()),
            extends(middle.log(), after.log()),
        ensures
            self.sound_to(middle, disk),
    {
        self.lemma_answers_split(middle, after, disk);
        assert forall|k: int| self.log().len() <= k < middle.log().len() implies entries_apart(
            self.state(),
            #[trigger] middle.log()[k],
        ) by {
            assert(after.log().take(middle.log().len() as int)[k] == after.log()[k]);
        }
    }

    /// What a rename that replaces a name does to the numbers of names, inside the barrier: in the
    /// transaction that it ends with.
    proof fn lemma_move_replaces(
        &self,
        after: &Self,
        name: Seq<char>,
        new_name: Seq<char>,
        request: Move,
        handle: Option<InodeReclaimHandle>,
        kinds: Set<InodeId>,
        disk: Disk,
    ) -> (ended: (Self, Transaction, bool))
        requires
            self.move_made(after, name, new_name, request, Ok(handle)),
            request.existing matches Some(existing) && existing != request.child,
            self.nothing_waits(),
            self.state().batch().len() == 0,
        ensures
            ({
                let (staged, grown, at_once) = ended;
                &&& extends(self.log(), staged.log())
                &&& extends(staged.log(), after.log())
                &&& staged.names_settled(after, grown, at_once, Ok(()))
                &&& staged.state().mode is Direct == self.state().mode is Direct
                &&& ordered(grown.staged())
                &&& grown.deferred() is None
                &&& self.left_on(&staged, disk) == disk
                &&& self.kinds_told(after, kinds) ==> kinds.contains(request.existing->0)
                    == request.child_is_dir
                &&& self.sound_to(after, disk) ==> forall|id: InodeId|
                    id != request.existing->0 ==> #[trigger] links_on(
                        shown_by(grown, disk),
                        self.state(),
                        id,
                    ) == replaced_links(
                        links_on(disk, self.state(), id),
                        id,
                        request.parent,
                        request.new_parent,
                        request.crossing(),
                        request.child_is_dir,
                    )
            }),
    {
        let outcome = Ok::<Option<InodeReclaimHandle>, Ext4Error>(handle);
        let existing = request.existing->0;
        let (read, pair) = choose|read: Self, pair: Result<RenameDirs>|
            {
                &&& #[trigger] self.dirs_read(&read, request.parent, request.new_parent, pair)
                &&& match pair {
                    Ok(dirs) => read.move_child_read(
                        after,
                        dirs,
                        name,
                        new_name,
                        request,
                        outcome,
                    ),
                    Err(error) => read.idle(after) && outcome == Err::<
                        Option<InodeReclaimHandle>,
                        Ext4Error,
                    >(error),
                }
            };
        let dirs = pair->Ok_0;
        self.lemma_dirs_read_keep_names(&read, request.parent, request.new_parent, dirs);
        let (seen, found) = choose|seen: Self, found: Result<InodeRef>|
            {
                &&& #[trigger] read.inode_read(&seen, request.child, found)
                &&& match found {
                    Ok(child) => seen.move_decided(
                        after,
                        dirs,
                        name,
                        new_name,
                        request,
                        child,
                        outcome,
                    ),
                    Err(error) => seen.idle(after) && outcome == Err::<
                        Option<InodeReclaimHandle>,
                        Ext4Error,
                    >(error),
                }
            };
        read.lemma_inode_read_keeps_names(&seen, request.child, found, Map::empty());
        let child = found->Ok_0;
        let (opened, other) = choose|opened: Self, other: Result<InodeRef>|
            {
                &&& #[trigger] seen.inode_read(&opened, existing, other)
                &&& match other {
                    Ok(inode) => opened.target_replaced(
                        after,
                        dirs,
                        name,
                        new_name,
                        (Replacement {
                            child,
                            child_is_dir: request.child_is_dir,
                            crossing: request.crossing(),
                            new_parent: request.new_parent,
                            existing: inode,
                        }),
                        outcome,
                    ),
                    Err(error) => opened.idle(after) && outcome == Err::<
                        Option<InodeReclaimHandle>,
                        Ext4Error,
                    >(error),
                }
            };
        seen.lemma_inode_read_keeps_names(&opened, existing, other, Map::empty());
        let change = Replacement {
            child,
            child_is_dir: request.child_is_dir,
            crossing: request.crossing(),
            new_parent: request.new_parent,
            existing: other->Ok_0,
        };
        let (staged, grown, at_once) = opened.lemma_replacement_links(
            after,
            dirs,
            name,
            new_name,
            change,
            handle,
            disk,
        );
        self.lemma_idle_only_asks(self);
        self.lemma_calls_join(&read, &seen);
        self.lemma_calls_join(&seen, &opened);
        read.lemma_calls_join(&seen, &opened);
        self.lemma_asking_leaves_device(&opened, disk);
        self.lemma_device_joins(&opened, &staged, disk);
        opened.lemma_device_joins(&staged, after, disk);
        if self.kinds_told(after, kinds) {
            self.lemma_kinds_go_on(&seen, after, kinds);
            seen.lemma_kind_is_told(&opened, after, existing, change.existing, kinds);
        }
        if self.sound_to(after, disk) {
            self.lemma_sound_parts(&opened, after, disk);
            self.lemma_seen_on_the_way(self, &read, &opened, dirs.0);
            self.lemma_seen_on_the_way(self, &read, &opened, target_of(dirs));
            self.lemma_answers_tell_links(&opened, disk);
            self.lemma_seen_is_on_device(&opened, dirs.0, disk);
            self.lemma_seen_is_on_device(&opened, target_of(dirs), disk);
        }
        (staged, grown, at_once)
    }

    /// A transaction that was ended without a journal is what the device holds.
    proof fn lemma_ended_on_device(
        &self,
        after: &Self,
        transaction: Transaction,
        at_once: bool,
        disk: Disk,
    )
        requires
            self.names_settled(after, transaction, at_once, Ok(())),
            self.state().mode is Direct,
            ordered(transaction.staged()),
            transaction.deferred() is None,
        ensures
            forall|home: PBlockId| #[trigger]
                self.left_on(after, disk)[home] == shown_by(transaction, disk)[home],
    {
        let (done, reply) = choose|done: Self, reply: core::result::Result<(), CommitError>|
            {
                &&& #[trigger] self.names_ended(&done, transaction, at_once, reply)
                &&& match reply {
                    Ok(_) => done.idle(after) && Ok::<(), Ext4Error>(()) == Ok::<(), Ext4Error>(()),
                    Err(stop) => done.gave_out(after) && Ok::<(), Ext4Error>(()) == Err::<
                        (),
                        Ext4Error,
                    >(stop.error),
                }
            };
        match reply {
            Ok(nothing) => {
                assert(nothing == ());
            },
            Err(_) => {},
        }
        lemma_direct_commit_is_held(
            transaction,
            self.state().mode->Direct_0,
            done.state().mode->Direct_0,
            self.log(),
            done.log(),
            disk,
        );
        let blocks = transaction.staged();
        let last = self.left_on(after, disk);
        assert forall|home: PBlockId| #[trigger] last[home] == shown_by(transaction, disk)[home] by {
            if holds_home(blocks, home) {
                let i = choose|i: int| 0 <= i < blocks.len() && blocks[i].home == home;
                assert(is_slot(blocks, home, i));
                lemma_slot_unique(blocks, home, i);
                assert(last[blocks[i].home] == blocks[i].image@);
            } else {
                assert forall|i: int| 0 <= i < blocks.len() implies (#[trigger] blocks[i]).home
                    != home by {}
            }
        }
    }

    /// A rename that replaces a name keeps, in the transaction that it ends with, the names of a
    /// directory beyond those that its subdirectories have for it: a directory has as many names
    /// more or fewer as it has subdirectories. Without a journal this is what the device then
    /// holds. Left out are the inode that loses its name, the names that a directory has for itself
    /// and for its parent, and numbers of names that are full or empty.
    pub proof fn lemma_replacement_keeps_own_links(
        &self,
        after: &Self,
        parent: InodeId,
        name: Seq<char>,
        new_parent: InodeId,
        new_name: Seq<char>,
        handle: Option<InodeReclaimHandle>,
        names: Names,
        kinds: Set<InodeId>,
        disk: Disk,
        dir: InodeId,
    ) -> (grown: Transaction)
        requires
            self.renamed(after, parent, name, new_parent, new_name, Ok(handle)),
            self.speaks_by(after, names),
            self.lookups_decide(after),
            self.kinds_told(after, kinds),
            self.sound_to(after, disk),
            self.nothing_waits(),
            names.contains_key((new_parent, new_name)),
            names[(new_parent, new_name)] != names[(parent, name)],
            dir != names[(new_parent, new_name)],
            !dotted(name),
            !dotted(new_name),
            subdirs(names, kinds, dir).finite(),
            0 < links_on(disk, self.state(), dir) < u16::MAX,
        ensures
            self.ends_with(after, grown),
            own_links(
                shown_by(grown, disk),
                self.state(),
                self.names_at(after, names),
                kinds,
                dir,
            ) == own_links(disk, self.state(), names, kinds, dir),
            self.state().mode is Direct ==> own_links(
                self.left_on(after, disk),
                self.state(),
                self.names_at(after, names),
                kinds,
                dir,
            ) == own_links(disk, self.state(), names, kinds, dir),
    {
        let (asked, request) = self.lemma_rename_start(
            after,
            parent,
            name,
            new_parent,
            new_name,
            handle,
            names,
            kinds,
        );
        let work = |inside: Self, left: Self, outcome: Result<Option<InodeReclaimHandle>>|
            inside.move_made(&left, name, new_name, request, outcome);
        let stages = asked.lemma_exclusive_work(after, work, Ok(handle));
        let (inside, left) = stages->0;
        let (staged, grown, at_once) = inside.lemma_move_replaces(
            &left,
            name,
            new_name,
            request,
            handle,
            kinds,
            disk,
        );
        let leave = Event::Layer { call: LayerCall::Released };
        assert(after.log() == left.log().push(leave));
        assert(after.log().take(left.log().len() as int) =~= left.log());
        lemma_extends(inside.log(), staged.log(), left.log());
        self.lemma_sound_parts(&asked, after, disk);
        asked.lemma_sound_elsewhere(&inside, after, disk);
        inside.lemma_sound_so_far(&left, after, disk);
        self.lemma_kinds_go_on(&asked, after, kinds);
        asked.lemma_kinds_elsewhere(&inside, after, kinds);
        inside.lemma_kinds_so_far(&left, after, kinds);
        lemma_extends(self.log(), inside.log(), staged.log());
        assert(self.ends_with(after, grown)) by {
            assert(staged.names_settled(&left, grown, at_once, Ok(())));
        }
        self.lemma_renamed_name_stands(
            after,
            parent,
            name,
            new_parent,
            new_name,
            handle,
            names,
            kinds,
        );
        let child = names[(parent, name)];
        let crossed = parent != new_parent && kinds.contains(child);
        let added = names.insert((new_parent, new_name), child);
        let both = added.remove((parent, name));
        lemma_subdirs_with(names, kinds, new_parent, new_name, child, dir);
        lemma_subdirs_without(added, kinds, parent, name, dir);
        lemma_subdirs_of_turned(both, kinds, child, new_parent, crossed, dir);
        lemma_same_links(shown_by(grown, disk), inside.state(), self.state(), dir);
        lemma_same_links(disk, inside.state(), self.state(), dir);
        assert(links_on(shown_by(grown, disk), inside.state(), dir) == replaced_links(
            links_on(disk, self.state(), dir),
            dir,
            parent,
            new_parent,
            crossed,
            kinds.contains(child),
        ));
        if self.state().mode is Direct {
            self.lemma_asking_leaves_device(&asked, disk);
            self.lemma_device_joins(&asked, after, disk);
            inside.lemma_device_joins(&left, after, disk);
            inside.lemma_device_joins(&staged, &left, disk);
            staged.lemma_ended_on_device(&left, grown, at_once, disk);
            let last = inside.left_on(&left, disk);
            assert(left.left_on(after, last) == last) by {
                let calls = since(left.log(), after.log());
                assert(calls =~= seq![leave]);
                assert(calls.skip(1) =~= Seq::<Event>::empty());
                reveal_with_fuel(held, 2);
            }
            assert(links_on(last, self.state(), dir) == links_on(
                shown_by(grown, disk),
                self.state(),
                dir,
            ));
        }
        grown
    }

    /// Checking what is to be replaced writes nothing, and finds both inodes to be directories, or
    /// none of them.
    proof fn lemma_replacement_check_only_asks(
        &self,
        after: &Self,
        child_is_dir: bool,
        existing: InodeRef,
        outcome: Result<()>,
    )
        requires
            self.replacement_checked(after, child_is_dir, existing, outcome),
        ensures
            self.only_asked(after),
            outcome is Ok ==> child_is_dir == directory(existing),
    {
        if child_is_dir != directory(existing) || !child_is_dir {
            self.lemma_idle_only_asks(after);
        } else {
            let reply = choose|reply: Result<bool>| #[trigger]
                self.asked(after, LayerCall::IsEmpty { dir: existing, reply });
            let call = LayerCall::IsEmpty { dir: existing, reply };
            self.lemma_call_only_asks(after, Event::Layer { call });
        }
    }
}

/// Where inodes stand is all that matters of a state for which blocks are free of them.
pub(crate) proof fn lemma_free_elsewhere(places: FsState, others: FsState, home: PBlockId)
    requires
        places.superblock == others.superblock,
        places.groups == others.groups,
        free_of_inodes(places, home),
    ensures
        free_of_inodes(others, home),
{
    assert forall|id: InodeId|
        match #[trigger] others.inode_position(id) {
            Some((table, _)) => table != home,
            None => true,
        } by {
        assert(places.inode_position(id) == others.inode_position(id));
    }
}

/// Where inodes stand is all that matters of a state for whether they stand apart.
pub(crate) proof fn lemma_apart_elsewhere(places: FsState, others: FsState)
    requires
        places.superblock == others.superblock,
        places.groups == others.groups,
        inodes_apart(places),
    ensures
        inodes_apart(others),
{
    assert forall|one: InodeId, other: InodeId|
        match (#[trigger] others.inode_position(one), #[trigger] others.inode_position(other)) {
            (Some((home, at)), Some((table, there))) => one != other && home == table ==> at
                + SB_GOOD_INODE_SIZE <= there || there + SB_GOOD_INODE_SIZE <= at,
            _ => true,
        } by {
        assert(places.inode_position(one) == others.inode_position(one));
        assert(places.inode_position(other) == others.inode_position(other));
    }
}

} // verus!
