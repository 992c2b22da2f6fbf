//! What setting and removing an extended attribute does to what is read of a file's attributes.

use vstd::prelude::*;
use crate::balloc::{bit_set, clear_bit, with_bit};
use crate::bytes::{le32_at, splice};
use crate::content::{held, lemma_extends, told, writes, Disk};
use crate::device::{extends, since, Block, BlockDevice, Event, JournalCommitReason};
use crate::error::{failed, ErrCode, Ext4Error, Result};
use crate::file_xattr::{
    attributes_sound, first_attribute, lemma_first_attribute_is_read,
    lemma_removed_attribute_is_gone, lemma_sealed_attributes_are_sound, lemma_set_attribute_is_read,
    sealed_attributes, with_attribute, without_attribute,
};
use crate::fs::{bytes_read, inode_found, Ext4, FsState, MetadataMutationMode};
use crate::gate::METADATA_GATE_DIRECT_MAX;
use crate::inode::{halves32, halves64, wide48, with_wide48, InodeRef};
use crate::sight::{lemma_faithful_reads, lemma_told_before_writing};
use crate::staged::StagedBlock;
use crate::superblock::{BlockGroupId, BASE_OFFSET, SB_GOOD_DESC_SIZE, SUPER_BLOCK_BYTES};
use crate::tree::lemma_inode_stays_in_its_block;
use crate::volume::Volume;
use crate::xattr::{
    attributes_in, decoded, encoded, fits, lemma_attributes_read_back, lemma_placed,
    lemma_remove_keeps_others, tidy, value_of, without, Attribute,
};
use crate::xattr_readback::{serves, value_found};
use crate::{InodeId, PBlockId};

verus! {

/// Whether a device fails no call.
pub open spec fn no_faults(calls: Seq<Event>) -> bool {
    forall|k: int|
        0 <= k < calls.len() ==> match #[trigger] calls[k] {
            Event::ReadBlock { id, reply } => reply is Ok,
            Event::WriteBlock { id, data, reply } => reply is Ok,
            _ => true,
        }
}

impl<D: BlockDevice, V: Volume<D>> Ext4<D, V> {
    /// Whether a direct writer is let into the barrier at once.
    pub open spec fn admits_writers(&self) -> bool {
        &&& self.state().mutable()
        &&& !self.state().gate.exclusive
        &&& self.state().gate.direct < METADATA_GATE_DIRECT_MAX
        &&& self.state().mode matches MetadataMutationMode::Journal(journal) ==> !journal.writing()
        &&& self.nothing_waits()
    }

    /// A writer that is let in at once does its work, and nothing else happens.
    pub(crate) proof fn lemma_admitted<T>(
        &self,
        after: &Self,
        work: spec_fn(Self, Self, Result<T>) -> bool,
        outcome: Result<T>,
    ) -> (stages: (Self, Self))
        requires
            self.changed_directly(after, work, outcome),
            self.admits_writers(),
        ensures
            work(stages.0, stages.1, outcome),
            stages.1.direct_left(after),
            stages.0.log() == self.log(),
            stages.0.state() == (FsState { gate: stages.0.state().gate, ..self.state() }),
    {
        let (inside, lock) = choose|inside: Self, lock: Result<()>|
            {
                &&& #[trigger] self.direct_entered(&inside, lock)
                &&& match lock {
                    Err(error) => inside.idle(after) && outcome == Err::<T, Ext4Error>(error),
                    Ok(_) => exists|left: Self|
                        {
                            &&& work(inside, left, outcome)
                            &&& #[trigger] left.direct_left(after)
                        },
                }
            };
        let (waiting, flushed) = choose|waiting: Self, flushed: Self|
            {
                &&& self.direct_inside(&waiting)
                &&& #[trigger] waiting.flushed(
                    &flushed,
                    JournalCommitReason::DirectMetadataBarrier,
                    lock,
                )
                &&& match lock {
                    Ok(_) => flushed.idle(&inside),
                    Err(_) => flushed.direct_left(&inside),
                }
            };
        assert(lock is Ok);
        let left = choose|left: Self|
            {
                &&& work(inside, left, outcome)
                &&& #[trigger] left.direct_left(after)
            };
        (inside, left)
    }

    /// Whether an inode is seen, and its attribute block, where it has one, is a sound block of its
    /// own; neither belongs to the journal.
    pub open spec fn attributes_seen(&self, disk: Disk, inode: InodeRef) -> bool {
        let home = inode.inode.attribute_block();
        let bytes = self.sight(disk)[home];
        &&& self.inode_seen(disk, inode.id, inode.inode@)
        &&& self.state().inode_position(inode.id) matches Some((table, _)) ==> !self.logs_to(table)
            && table != home
        &&& home != 0 ==> {
            &&& !self.logs_to(home)
            &&& attributes_sound(self.state().superblock, bytes, home)
            &&& decoded(bytes) is Some
            &&& tidy(attributes_in(bytes))
        }
    }

    /// The attributes of a file.
    pub open spec fn attributes_of_file(&self, disk: Disk, inode: InodeRef) -> Seq<Attribute> {
        if inode.inode.attribute_block() == 0 {
            Seq::empty()
        } else {
            attributes_in(self.sight(disk)[inode.inode.attribute_block()])
        }
    }

    /// What setting an attribute comes to where a file has a block for them, and what the device
    /// then holds.
    pub open spec fn assigns(
        &self,
        after: &Self,
        home: PBlockId,
        name: Seq<u8>,
        value: Seq<u8>,
        create: bool,
        replace: bool,
        outcome: Result<()>,
        disk: Disk,
    ) -> bool {
        let entries = attributes_in(disk[home]);
        let present = value_of(entries, name) is Some;
        let bytes = with_attribute(disk[home], name, value);
        let stored = sealed_attributes(self.state().superblock, bytes->0, home);
        &&& no_faults(since(self.log(), after.log())) ==> outcome == if present && create {
            failed::<()>(ErrCode::EEXIST)
        } else if !present && replace {
            failed::<()>(ErrCode::ENODATA)
        } else if bytes is Some {
            Ok(())
        } else {
            failed::<()>(ErrCode::ENOSPC)
        }
        &&& outcome is Ok ==> {
            &&& !(present && create)
            &&& !(!present && replace)
            &&& bytes is Some
            &&& self.left_on(after, disk) == disk.insert(home, stored)
        }
        &&& outcome is Err ==> self.left_on(after, disk) == disk
    }

    /// Setting an attribute in the block that a file has for them.
    proof fn lemma_changed_inside(
        &self,
        after: &Self,
        inode: InodeRef,
        name: Seq<u8>,
        value: Seq<u8>,
        create: bool,
        replace: bool,
        outcome: Result<()>,
        disk: Disk,
    )
        requires
            self.attribute_changed(after, inode, name, value, create, replace, outcome),
            self.state().batch() == Seq::<StagedBlock>::empty(),
            inode.inode.attribute_block() != 0,
            attributes_sound(
                self.state().superblock,
                disk[inode.inode.attribute_block()],
                inode.inode.attribute_block(),
            ),
            self.answered_by(after, disk),
        ensures
            after.state() == self.state(),
            self.assigns(
                after,
                inode.inode.attribute_block(),
                name,
                value,
                create,
                replace,
                outcome,
                disk,
            ),
    {
        let home = inode.inode.attribute_block();
        let (loaded, block) = choose|loaded: Self, block: Result<Block>|
            {
                &&& #[trigger] self.attributes_loaded(&loaded, home, block)
                &&& match block {
                    Ok(found) => loaded.attribute_stored(
                        after,
                        home,
                        found,
                        name,
                        value,
                        create,
                        replace,
                        outcome,
                    ),
                    Err(error) => loaded.idle(after) && outcome == Err::<(), Ext4Error>(error),
                }
            };
        let reply = choose|reply: Result<Block>|
            {
                &&& #[trigger] self.block_read(&loaded, home, reply)
                &&& block == match reply {
                    Ok(found) => if attributes_sound(
                        self.state().superblock,
                        found.data@,
                        home,
                    ) {
                        reply
                    } else {
                        failed(ErrCode::EIO)
                    },
                    Err(error) => reply,
                }
            };
        let calls = since(self.log(), after.log());
        let loading = Event::ReadBlock { id: home, reply };
        let write = Event::WriteBlock {
            id: block->Ok_0.id,
            data: sealed_attributes(
                self.state().superblock,
                with_attribute(block->Ok_0.data@, name, value)->0,
                home,
            ),
            reply: outcome,
        };
        if after.log() == loaded.log() {
            assert(calls =~= seq![loading]);
        } else {
            assert(calls =~= seq![loading, write]);
            assert(calls.skip(1)[0] == write);
        }
        lemma_told_before_writing(disk, calls);
        assert(calls[0] == loading);
        assert(told(calls[0], disk));
        if let Ok(done) = outcome {
            assert(done == ());
        }
        reveal_with_fuel(held, 3);
        if after.log() == loaded.log() {
            assert(calls.skip(1) =~= Seq::<Event>::empty());
        } else {
            assert(calls[1] == write);
            assert(calls.skip(1).skip(1) =~= Seq::<Event>::empty());
        }
    }

    /// Giving a file its first attribute goes on with the record.
    proof fn lemma_begun_goes_on(
        &self,
        after: &Self,
        inode: InodeRef,
        name: Seq<u8>,
        value: Seq<u8>,
        outcome: Result<()>,
    )
        requires
            self.attributes_begun(after, inode, name, value, outcome),
        ensures
            extends(self.log(), after.log()),
    {
        let (taken, home) = choose|taken: Self, home: Result<PBlockId>|
            {
                &&& #[trigger] self.block_allocated(&taken, inode.id, home)
                &&& match home {
                    Ok(home) => taken.attributes_tried(after, inode, home, name, value, outcome),
                    Err(error) => taken.idle(after) && outcome == Err::<(), Ext4Error>(error),
                }
            };
        self.lemma_allocation_spares(&taken, inode.id, home, 0);
        if let Ok(home) = home {
            let (tried, reply) = choose|tried: Self, reply: Result<()>|
                {
                    &&& #[trigger] taken.attributes_started(
                        &tried,
                        inode,
                        home,
                        name,
                        value,
                        reply,
                    )
                    &&& match reply {
                        Ok(_) => tried.idle(after) && outcome == Ok::<(), Ext4Error>(()),
                        Err(error) => tried.home_given_back(after, home, error, outcome),
                    }
                };
            taken.lemma_started_goes_on(&tried, inode, home, name, value, reply);
            lemma_extends(self.log(), taken.log(), tried.log());
            if let Err(error) = reply {
                let undone = choose|undone: Result<()>|
                    {
                        &&& #[trigger] tried.block_released(after, home, undone)
                        &&& outcome == match undone {
                            Ok(_) => Err::<(), Ext4Error>(error),
                            Err(fault) => Err(fault),
                        }
                    };
                tried.lemma_release_goes_on(after, home, undone);
                lemma_extends(self.log(), tried.log(), after.log());
            }
        }
    }

    /// Filling a new attribute block goes on with the record.
    proof fn lemma_started_goes_on(
        &self,
        after: &Self,
        inode: InodeRef,
        home: PBlockId,
        name: Seq<u8>,
        value: Seq<u8>,
        outcome: Result<()>,
    )
        requires
            self.attributes_started(after, inode, home, name, value, outcome),
        ensures
            extends(self.log(), after.log()),
    {
        let (read, reply) = choose|read: Self, reply: Result<Block>|
            {
                &&& #[trigger] self.block_read(&read, home, reply)
                &&& match reply {
                    Ok(block) => match first_attribute(name, value) {
                        Some(bytes) => read.attributes_stored(
                            after,
                            inode,
                            home,
                            block,
                            bytes,
                            outcome,
                        ),
                        None => read.idle(after) && outcome == failed::<()>(ErrCode::ENOSPC),
                    },
                    Err(error) => read.idle(after) && outcome == Err::<(), Ext4Error>(error),
                }
            };
        self.lemma_read_spares(&read, home, reply, 0);
        if reply is Ok && first_attribute(name, value) is Some {
            let block = reply->Ok_0;
            let bytes = first_attribute(name, value)->0;
            let (written, said) = choose|written: Self, said: Result<()>|
                {
                    &&& #[trigger] read.did(
                        &written,
                        Event::WriteBlock {
                            id: block.id,
                            data: sealed_attributes(read.state().superblock, bytes, home),
                            reply: said,
                        },
                    )
                    &&& match said {
                        Ok(_) => written.attributes_named(after, inode, home, outcome),
                        Err(error) => written.idle(after) && outcome == Err::<(), Ext4Error>(
                            error,
                        ),
                    }
                };
            assert(written.log().take(read.log().len() as int) =~= read.log());
            lemma_extends(self.log(), read.log(), written.log());
            if said is Ok {
                let (named, sealed) = choose|named: InodeRef, sealed: InodeRef|
                    {
                        &&& #[trigger] written.inode_written(after, named, sealed, outcome)
                        &&& named.id == inode.id
                        &&& named.inode@ == with_wide48(inode.inode@, 104, 118, home)
                    };
                written.lemma_inode_written_spares(after, named, sealed, outcome, 0);
                lemma_extends(self.log(), written.log(), after.log());
            }
        }
    }

    /// Writing an inode goes on with the record, and spares the blocks in which it does not stand.
    pub(crate) proof fn lemma_inode_written_spares(
        &self,
        after: &Self,
        inode: InodeRef,
        sealed: InodeRef,
        outcome: Result<()>,
        block: PBlockId,
    )
        requires
            self.inode_written(after, inode, sealed, outcome),
        ensures
            extends(self.log(), after.log()),
            (self.state().inode_position(inode.id) matches Some((home, _)) ==> home != block)
                ==> self.spares(after, block),
    {
        match self.state().inode_position(inode.id) {
            Some((home, at)) => {
                let (read, reply) = choose|read: Self, reply: Result<Block>|
                    {
                        &&& #[trigger] self.block_read(&read, home, reply)
                        &&& match reply {
                            Ok(found) => read.did(
                                after,
                                Event::WriteBlock {
                                    id: found.id,
                                    data: splice(found.data@, at, sealed.inode@),
                                    reply: outcome,
                                },
                            ),
                            Err(error) => read.idle(after) && outcome == Err::<(), Ext4Error>(
                                error,
                            ),
                        }
                    };
                match reply {
                    Ok(found) => {
                        self.lemma_rewrite_spares(
                            &read,
                            after,
                            home,
                            found,
                            splice(found.data@, at, sealed.inode@),
                            outcome,
                            block,
                        );
                    },
                    Err(_) => {
                        self.lemma_read_spares(&read, home, reply, block);
                    },
                }
            },
            None => {
                self.lemma_still_spares(after, block);
            },
        }
    }

    /// Setting an attribute goes on with the record.
    proof fn lemma_changed_goes_on(
        &self,
        after: &Self,
        inode: InodeRef,
        name: Seq<u8>,
        value: Seq<u8>,
        create: bool,
        replace: bool,
        outcome: Result<()>,
    )
        requires
            self.attribute_changed(after, inode, name, value, create, replace, outcome),
        ensures
            extends(self.log(), after.log()),
    {
        let home = inode.inode.attribute_block();
        if home == 0 {
            if replace {
                self.lemma_still_spares(after, 0);
            } else {
                self.lemma_begun_goes_on(after, inode, name, value, outcome);
            }
        } else {
            assert(after.log().take(self.log().len() as int) =~= self.log());
        }
    }

    /// The inode whose attribute is set is the one that is seen, and what follows is answered as
    /// the whole is.
    proof fn lemma_assigned_opens(
        &self,
        read: &Self,
        after: &Self,
        inode: InodeRef,
        found: InodeRef,
        disk: Disk,
    )
        requires
            self.inode_read(read, inode.id, Ok(found)),
            self.inode_seen(disk, inode.id, inode.inode@),
            extends(read.log(), after.log()),
            self.answered_by(after, disk),
        ensures
            extends(self.log(), after.log()),
            read.state() == self.state(),
            found.id == inode.id,
            found.inode@ == inode.inode@,
            read.answered_by(after, disk),
            self.left_on(after, disk) == read.left_on(after, disk),
    {
        assert(read.log().take(self.log().len() as int) =~= self.log());
        self.lemma_answers_split(read, after, disk);
        self.lemma_device_joins(read, after, disk);
        let calls = since(self.log(), read.log());
        assert forall|k: int| 0 <= k < calls.len() - 1 implies !writes(#[trigger] calls[k]) by {}
        lemma_told_before_writing(disk, calls);
        self.lemma_seen_inode_is_read(read, inode.id, found, disk, inode.inode@);
        self.lemma_asking_leaves_device(read, disk);
    }

    /// Setting an attribute where a file has a block for them.
    proof fn lemma_assigned_inside(
        &self,
        after: &Self,
        inode: InodeRef,
        name: Seq<u8>,
        value: Seq<u8>,
        create: bool,
        replace: bool,
        outcome: Result<()>,
        disk: Disk,
    )
        requires
            self.attribute_set(after, inode.id, name, value, create, replace, outcome),
            self.state().batch() == Seq::<StagedBlock>::empty(),
            self.inode_seen(disk, inode.id, inode.inode@),
            inode.inode.attribute_block() != 0,
            attributes_sound(
                self.state().superblock,
                disk[inode.inode.attribute_block()],
                inode.inode.attribute_block(),
            ),
            self.answered_by(after, disk),
        ensures
            extends(self.log(), after.log()),
            after.state() == self.state(),
            self.assigns(
                after,
                inode.inode.attribute_block(),
                name,
                value,
                create,
                replace,
                outcome,
                disk,
            ),
    {
        let id = inode.id;
        let home = inode.inode.attribute_block();
        let (read, found) = choose|read: Self, found: Result<InodeRef>|
            {
                &&& #[trigger] self.inode_read(&read, id, found)
                &&& match found {
                    Ok(inode) => read.attribute_changed(
                        after,
                        inode,
                        name,
                        value,
                        create,
                        replace,
                        outcome,
                    ),
                    Err(error) => read.idle(after) && outcome == Err::<(), Ext4Error>(error),
                }
            };
        match found {
            Ok(opened) => {
                read.lemma_changed_goes_on(after, opened, name, value, create, replace, outcome);
                self.lemma_assigned_opens(&read, after, inode, opened, disk);
                read.lemma_changed_inside(
                    after,
                    opened,
                    name,
                    value,
                    create,
                    replace,
                    outcome,
                    disk,
                );
                let all = since(self.log(), after.log());
                let late = since(read.log(), after.log());
                if no_faults(all) {
                    assert forall|k: int| 0 <= k < late.len() implies match #[trigger] late[k] {
                        Event::ReadBlock { id, reply } => reply is Ok,
                        Event::WriteBlock { id, data, reply } => reply is Ok,
                        _ => true,
                    } by {
                        assert(all[k + (read.log().len() - self.log().len())] == late[k]);
                    }
                }
            },
            Err(_) => {
                let (table, at) = self.state().inode_position(id)->0;
                let reply = choose|reply: Result<Block>|
                    {
                        &&& #[trigger] self.block_read(&read, table, reply)
                        &&& inode_found(bytes_read(reply), at, id, found)
                    };
                let opening = Event::ReadBlock { id: table, reply };
                self.lemma_call_only_asks(after, opening);
                self.lemma_asking_leaves_device(after, disk);
                assert(since(self.log(), after.log())[0] == opening);
            },
        }
    }
}

/// Leaving out a name that is not there changes nothing.
proof fn lemma_without_absent(entries: Seq<Attribute>, name: Seq<u8>)
    requires
        value_of(entries, name) is None,
    ensures
        without(entries, name) == entries,
    decreases entries.len(),
{
    if entries.len() > 0 {
        lemma_without_absent(entries.skip(1), name);
        assert(seq![entries[0]] + entries.skip(1) =~= entries);
    }
}

/// Whether there is room for an attribute in a block, in place of the one of that name.
pub open spec fn room_for(entries: Seq<Attribute>, name: Seq<u8>, value: Seq<u8>) -> bool {
    let grown = without(entries, name).push((name, value));
    fits(grown, grown.len())
}

/// A sound block takes an attribute exactly where there is room for it.
proof fn lemma_room(bytes: Seq<u8>, name: Seq<u8>, value: Seq<u8>)
    requires
        decoded(bytes) is Some,
        tidy(attributes_in(bytes)),
    ensures
        with_attribute(bytes, name, value) is Some <==> room_for(attributes_in(bytes), name, value),
{
    let entries = attributes_in(bytes);
    if value_of(entries, name) is Some {
        lemma_remove_keeps_others(entries, name, name);
    } else {
        lemma_without_absent(entries, name);
    }
}

/// Laws of extended attributes.
impl<D: BlockDevice, V: Volume<D>> Ext4<D, V> {
    /// Setting an attribute is refused exactly where it must be: `create` where the name has a
    /// value, and `replace` where it has none. Otherwise it succeeds where the attribute block of
    /// the file has room for it, and a file without such a block gets one where a block is free.
    pub proof fn lemma_set_xattr_is_refused_or_done(
        &self,
        after: &Self,
        inode: InodeRef,
        name: Seq<u8>,
        value: Seq<u8>,
        create: bool,
        replace: bool,
        outcome: Result<()>,
        disk: Disk,
    )
        requires
            self.inv(),
            self.attribute_assigned(after, inode.id, name, value, create, replace, outcome),
            self.admits_writers(),
            self.attributes_seen(disk, inode),
            self.answered_by(after, disk),
            no_faults(since(self.log(), after.log())),
        ensures
            ({
                let entries = self.attributes_of_file(disk, inode);
                let present = value_of(entries, name) is Some;
                if present && create {
                    outcome == failed::<()>(ErrCode::EEXIST)
                } else if !present && replace {
                    outcome == failed::<()>(ErrCode::ENODATA)
                } else if inode.inode.attribute_block() != 0 {
                    outcome == if room_for(entries, name, value) {
                        Ok::<(), Ext4Error>(())
                    } else {
                        failed::<()>(ErrCode::ENOSPC)
                    }
                } else {
                    room_for(entries, name, value) ==> outcome is Ok || outcome == failed::<()>(
                        ErrCode::ENOSPC,
                    )
                }
            }),
    {
        let id = inode.id;
        let work = |inside: Self, left: Self, outcome: Result<()>|
            inside.attribute_set(&left, id, name, value, create, replace, outcome);
        let (inside, left) = self.lemma_admitted(after, work, outcome);
        inside.lemma_set_goes_on(&left, id, name, value, create, replace, outcome);
        assert(self.log().take(self.log().len() as int) =~= self.log());
        self.lemma_leaving(&inside, &left, after, disk);
        assert(since(self.log(), inside.log()) =~= Seq::<Event>::empty());
        assert(self.left_on(&inside, disk) == disk);
        assert(self.state().batch() =~= Seq::<StagedBlock>::empty());
        let home = inode.inode.attribute_block();
        assert(forall|block: PBlockId| self.sight(disk)[block] == disk[block]);
        let all = since(self.log(), after.log());
        let done = since(inside.log(), left.log());
        assert(no_faults(done)) by {
            assert forall|k: int| 0 <= k < done.len() implies match #[trigger] done[k] {
                Event::ReadBlock { id, reply } => reply is Ok,
                Event::WriteBlock { id, data, reply } => reply is Ok,
                _ => true,
            } by {
                assert(all[k] == done[k]);
            }
        }
        if home != 0 {
            inside.lemma_assigned_inside(
                &left,
                inode,
                name,
                value,
                create,
                replace,
                outcome,
                disk,
            );
            lemma_room(disk[home], name, value);
        } else {
            inside.lemma_first_inside(
                &left,
                inode,
                name,
                value,
                create,
                replace,
                outcome,
                disk,
            );
        }
    }

    /// Setting an attribute goes on with the record.
    proof fn lemma_set_goes_on(
        &self,
        after: &Self,
        id: InodeId,
        name: Seq<u8>,
        value: Seq<u8>,
        create: bool,
        replace: bool,
        outcome: Result<()>,
    )
        requires
            self.attribute_set(after, id, name, value, create, replace, outcome),
        ensures
            extends(self.log(), after.log()),
    {
        let (read, found) = choose|read: Self, found: Result<InodeRef>|
            {
                &&& #[trigger] self.inode_read(&read, id, found)
                &&& match found {
                    Ok(inode) => read.attribute_changed(
                        after,
                        inode,
                        name,
                        value,
                        create,
                        replace,
                        outcome,
                    ),
                    Err(error) => read.idle(after) && outcome == Err::<(), Ext4Error>(error),
                }
            };
        assert(read.log().take(self.log().len() as int) =~= self.log());
        if let Ok(inode) = found {
            read.lemma_changed_goes_on(after, inode, name, value, create, replace, outcome);
            lemma_extends(self.log(), read.log(), after.log());
        }
    }

    /// Where a device fails no call, allocating a block fails only where none is free.
    proof fn lemma_allocation_without_faults(
        &self,
        after: &Self,
        inode: InodeId,
        outcome: Result<PBlockId>,
    )
        requires
            self.block_allocated(after, inode, outcome),
            no_faults(since(self.log(), after.log())),
        ensures
            outcome matches Err(error) ==> error.code == ErrCode::ENOSPC,
    {
        let state = self.state();
        let (ended, found) = choose|ended: Self, found: Result<Option<(int, int, Block)>>|
            {
                &&& #[trigger] self.searched(
                    &ended,
                    state.home_group(inode),
                    state.groups.len(),
                    found,
                )
                &&& match found {
                    Err(error) => ended.idle(after) && outcome == Err::<PBlockId, Ext4Error>(error),
                    Ok(None) => ended.idle(after) && outcome == failed::<PBlockId>(ErrCode::ENOSPC),
                    Ok(Some((group, bit, bitmap))) => ended.bit_taken(
                        after,
                        group,
                        bit,
                        bitmap,
                        outcome,
                    ),
                }
            };
        self.lemma_search_spares(
            &ended,
            state.home_group(inode),
            state.groups.len(),
            found,
            0,
        );
        match found {
            Err(_) => {
                self.lemma_search_without_faults(
                    &ended,
                    state.home_group(inode),
                    state.groups.len(),
                    found,
                );
            },
            Ok(None) => {},
            Ok(Some((group, bit, bitmap))) => {
                let changed = with_bit(bitmap.data@, bit);
                let free = (halves32(state.groups[group], 12, 44) - 1) as u64;
                let total = halves64(state.superblock, 12, 344).saturating_sub(1);
                let reply = choose|reply: Result<()>|
                    {
                        &&& #[trigger] ended.allocation_changed(
                            after,
                            group as u32,
                            bitmap,
                            changed,
                            free,
                            total,
                            reply,
                        )
                        &&& outcome == match reply {
                            Ok(_) => Ok::<PBlockId, Ext4Error>(
                                state.block_of_bit(group, bit) as u64,
                            ),
                            Err(error) => Err(error),
                        }
                    };
                ended.lemma_change_spares(
                    after,
                    group as u32,
                    bitmap,
                    changed,
                    free,
                    total,
                    reply,
                    0,
                );
                lemma_no_faults_later(self.log(), ended.log(), after.log());
                ended.lemma_change_without_faults(
                    after,
                    group as u32,
                    bitmap,
                    changed,
                    free,
                    total,
                    reply,
                );
            },
        }
    }

    /// Where a device fails no call, a search for a free block does not fail.
    proof fn lemma_search_without_faults(
        &self,
        after: &Self,
        group: int,
        left: nat,
        found: Result<Option<(int, int, Block)>>,
    )
        requires
            self.searched(after, group, left, found),
            no_faults(since(self.log(), after.log())),
        ensures
            found is Ok,
        decreases left,
    {
        let state = self.state();
        if left > 0 && state.groups.len() > 0 {
            let here = group % (state.groups.len() as int);
            if halves32(state.groups[here], 12, 44) == 0 {
                self.lemma_search_without_faults(after, here + 1, (left - 1) as nat, found);
            } else {
                let home = halves64(state.groups[here], 0, 32);
                let (read, reply) = choose|read: Self, reply: Result<Block>|
                    {
                        &&& #[trigger] self.block_read(&read, home, reply)
                        &&& match reply {
                            Err(error) => read.idle(after) && found == Err::<
                                Option<(int, int, Block)>,
                                Ext4Error,
                            >(error),
                            Ok(bitmap) => match clear_bit(bitmap.data@, state.group_size(here)) {
                                Some(bit) => {
                                    &&& read.idle(after)
                                    &&& found == Ok::<Option<(int, int, Block)>, Ext4Error>(
                                        Some((here, bit, bitmap)),
                                    )
                                },
                                None => read.searched(after, here + 1, (left - 1) as nat, found),
                            },
                        }
                    };
                match reply {
                    Err(_) => {
                        assert(since(self.log(), after.log())[0] == (Event::ReadBlock {
                            id: home,
                            reply,
                        }));
                    },
                    Ok(bitmap) => {
                        if clear_bit(bitmap.data@, state.group_size(here)) is None {
                            read.lemma_search_spares(
                                after,
                                here + 1,
                                (left - 1) as nat,
                                found,
                                0,
                            );
                            self.lemma_read_spares(&read, home, reply, 0);
                            lemma_no_faults_later(self.log(), read.log(), after.log());
                            read.lemma_search_without_faults(
                                after,
                                here + 1,
                                (left - 1) as nat,
                                found,
                            );
                        }
                    },
                }
            }
        }
    }

    /// Where a device fails no call, reading and writing a block does not fail.
    proof fn lemma_rewrite_without_faults(
        &self,
        read: &Self,
        after: &Self,
        home: PBlockId,
        reply: Result<Block>,
        data: Seq<u8>,
        outcome: Result<()>,
    )
        requires
            self.block_read(read, home, reply),
            match reply {
                Ok(found) => after.log() == read.log().push(
                    Event::WriteBlock { id: found.id, data, reply: outcome },
                ),
                Err(error) => after.log() == read.log() && outcome == Err::<(), Ext4Error>(error),
            },
            no_faults(since(self.log(), after.log())),
        ensures
            extends(self.log(), after.log()),
            outcome == Ok::<(), Ext4Error>(()),
    {
        self.lemma_read_spares(read, home, reply, 0);
        let calls = since(self.log(), after.log());
        match reply {
            Err(_) => {
                assert(calls[0] == (Event::ReadBlock { id: home, reply }));
            },
            Ok(found) => {
                assert(after.log().take(self.log().len() as int) =~= self.log());
                assert(calls[calls.len() - 1] == (Event::WriteBlock {
                    id: found.id,
                    data,
                    reply: outcome,
                }));
                if let Ok(done) = outcome {
                    assert(done == ());
                }
            },
        }
    }

    /// Where a device fails no call, a change of a bitmap and the counts of free blocks does not
    /// fail, and leaves inodes where they stand.
    proof fn lemma_change_without_faults(
        &self,
        after: &Self,
        group: BlockGroupId,
        bitmap: Block,
        changed: Seq<u8>,
        group_free: u64,
        total_free: u64,
        outcome: Result<()>,
    )
        requires
            self.allocation_changed(
                after,
                group,
                bitmap,
                changed,
                group_free,
                total_free,
                outcome,
            ),
            group < self.state().groups.len(),
            no_faults(since(self.log(), after.log())),
        ensures
            outcome is Ok,
    {
        let desc = self.state().changed_desc(group as int, changed, group_free);
        let (marked, mark) = choose|marked: Self, mark: Result<()>|
            {
                &&& #[trigger] self.did(
                    &marked,
                    Event::WriteBlock { id: bitmap.id, data: changed, reply: mark },
                )
                &&& match mark {
                    Err(error) => marked.idle(after) && outcome == Err::<(), Ext4Error>(error),
                    Ok(_) => exists|counted: Self, count: Result<()>|
                        {
                            &&& #[trigger] marked.group_written(&counted, group, desc, count)
                            &&& self.count_followed(
                                &counted,
                                after,
                                group,
                                bitmap,
                                total_free,
                                count,
                                outcome,
                            )
                        },
                }
            };
        assert(marked.log().take(self.log().len() as int) =~= self.log());
        if mark is Err {
            assert(since(self.log(), after.log())[0] == (Event::WriteBlock {
                id: bitmap.id,
                data: changed,
                reply: mark,
            }));
        }
        let (counted, count) = choose|counted: Self, count: Result<()>|
            {
                &&& #[trigger] marked.group_written(&counted, group, desc, count)
                &&& self.count_followed(
                    &counted,
                    after,
                    group,
                    bitmap,
                    total_free,
                    count,
                    outcome,
                )
            };
        marked.lemma_group_spares(&counted, group, desc, count, 0);
        self.lemma_count_spares(&counted, after, group, bitmap, total_free, count, outcome, 0);
        lemma_extends(self.log(), marked.log(), counted.log());
        lemma_no_faults_later(self.log(), counted.log(), after.log());
        lemma_no_faults_later(self.log(), marked.log(), counted.log());
        let (home, at) = marked.state().group_position(group as int);
        let (read, reply) = choose|read: Self, reply: Result<Block>|
            {
                &&& #[trigger] marked.block_read(&read, home, reply)
                &&& match reply {
                    Ok(found) => read.called(
                        &counted,
                        Event::WriteBlock {
                            id: found.id,
                            data: splice(found.data@, at, desc),
                            reply: count,
                        },
                    ),
                    Err(error) => read.idle(&counted) && count == Err::<(), Ext4Error>(error),
                }
            };
        marked.lemma_rewrite_without_faults(
            &read,
            &counted,
            home,
            reply,
            splice(reply->Ok_0.data@, at, desc),
            count,
        );
        let sealed = self.state().changed_superblock(total_free);
        let (totalled, total) = choose|totalled: Self, total: Result<()>|
            {
                &&& #[trigger] counted.superblock_written(&totalled, sealed, total)
                &&& self.total_followed(&totalled, after, group, bitmap, total, outcome)
            };
        let (again, second) = choose|again: Self, second: Result<Block>|
            {
                &&& #[trigger] counted.block_read(&again, 0, second)
                &&& match second {
                    Ok(found) => again.called(
                        &totalled,
                        Event::WriteBlock {
                            id: found.id,
                            data: splice(found.data@, BASE_OFFSET as int, sealed),
                            reply: total,
                        },
                    ),
                    Err(error) => again.idle(&totalled) && total == Err::<(), Ext4Error>(error),
                }
            };
        counted.lemma_superblock_spares(&totalled, sealed, total, 0);
        self.lemma_total_spares(&totalled, after, group, bitmap, total, outcome, 0);
        lemma_no_faults_later(counted.log(), totalled.log(), after.log());
        counted.lemma_rewrite_without_faults(
            &again,
            &totalled,
            0,
            second,
            splice(second->Ok_0.data@, BASE_OFFSET as int, sealed),
            total,
        );
    }

    /// Setting the first attribute of a file, inside the barrier.
    proof fn lemma_first_inside(
        &self,
        after: &Self,
        inode: InodeRef,
        name: Seq<u8>,
        value: Seq<u8>,
        create: bool,
        replace: bool,
        outcome: Result<()>,
        disk: Disk,
    )
        requires
            self.attribute_set(after, inode.id, name, value, create, replace, outcome),
            self.state().superblock.len() == SUPER_BLOCK_BYTES,
            forall|i: int|
                0 <= i < self.state().groups.len() ==> (#[trigger] self.state().groups[i]).len()
                    == SB_GOOD_DESC_SIZE,
            self.state().groups.len() <= u32::MAX,
            self.inode_seen(disk, inode.id, inode.inode@),
            inode.inode.attribute_block() == 0,
            self.answered_by(after, disk),
            no_faults(since(self.log(), after.log())),
        ensures
            if replace {
                outcome == failed::<()>(ErrCode::ENODATA)
            } else {
                room_for(Seq::empty(), name, value) ==> outcome is Ok || outcome == failed::<()>(
                    ErrCode::ENOSPC,
                )
            },
    {
        let id = inode.id;
        let (read, found) = choose|read: Self, found: Result<InodeRef>|
            {
                &&& #[trigger] self.inode_read(&read, id, found)
                &&& match found {
                    Ok(inode) => read.attribute_changed(
                        after,
                        inode,
                        name,
                        value,
                        create,
                        replace,
                        outcome,
                    ),
                    Err(error) => read.idle(after) && outcome == Err::<(), Ext4Error>(error),
                }
            };
        match found {
            Err(_) => {
                let (table, at) = self.state().inode_position(id)->0;
                let reply = choose|reply: Result<Block>|
                    {
                        &&& #[trigger] self.block_read(&read, table, reply)
                        &&& inode_found(bytes_read(reply), at, id, found)
                    };
                assert(since(self.log(), after.log())[0] == (Event::ReadBlock {
                    id: table,
                    reply,
                }));
            },
            Ok(opened) => {
                read.lemma_changed_goes_on(after, opened, name, value, create, replace, outcome);
                self.lemma_assigned_opens(&read, after, inode, opened, disk);
                assert(read.log().take(self.log().len() as int) =~= self.log());
                lemma_no_faults_later(self.log(), read.log(), after.log());
                if !replace && room_for(Seq::empty(), name, value) {
                    assert(without(Seq::<Attribute>::empty(), name).push((name, value)) =~= seq![
                        (name, value),
                    ]);
                    read.lemma_begun_without_faults(after, opened, name, value, outcome);
                }
            },
        }
    }

    /// Where a device fails no call and the attribute fits, giving a file its first attribute fails
    /// only where no block is free.
    proof fn lemma_begun_without_faults(
        &self,
        after: &Self,
        inode: InodeRef,
        name: Seq<u8>,
        value: Seq<u8>,
        outcome: Result<()>,
    )
        requires
            self.attributes_begun(after, inode, name, value, outcome),
            self.state().inode_position(inode.id) is Some,
            self.state().superblock.len() == SUPER_BLOCK_BYTES,
            forall|i: int|
                0 <= i < self.state().groups.len() ==> (#[trigger] self.state().groups[i]).len()
                    == SB_GOOD_DESC_SIZE,
            self.state().groups.len() <= u32::MAX,
            first_attribute(name, value) is Some,
            no_faults(since(self.log(), after.log())),
        ensures
            outcome is Ok || outcome == failed::<()>(ErrCode::ENOSPC),
    {
        let (taken, home) = choose|taken: Self, home: Result<PBlockId>|
            {
                &&& #[trigger] self.block_allocated(&taken, inode.id, home)
                &&& match home {
                    Ok(home) => taken.attributes_tried(after, inode, home, name, value, outcome),
                    Err(error) => taken.idle(after) && outcome == Err::<(), Ext4Error>(error),
                }
            };
        self.lemma_allocation_spares(&taken, inode.id, home, 0);
        match home {
            Err(_) => {
                self.lemma_allocation_without_faults(&taken, inode.id, home);
            },
            Ok(place) => {
                let (tried, reply) = choose|tried: Self, reply: Result<()>|
                    {
                        &&& #[trigger] taken.attributes_started(
                            &tried,
                            inode,
                            place,
                            name,
                            value,
                            reply,
                        )
                        &&& match reply {
                            Ok(_) => tried.idle(after) && outcome == Ok::<(), Ext4Error>(()),
                            Err(error) => tried.home_given_back(after, place, error, outcome),
                        }
                    };
                taken.lemma_started_goes_on(&tried, inode, place, name, value, reply);
                self.lemma_allocation_keeps_positions(&taken, inode.id, place);
                if let Err(error) = reply {
                    let undone = choose|undone: Result<()>| #[trigger]
                        tried.block_released(after, place, undone);
                    tried.lemma_release_goes_on(after, place, undone);
                } else {
                    assert(after.log().take(tried.log().len() as int) =~= tried.log());
                }
                lemma_extends(taken.log(), tried.log(), after.log());
                lemma_no_faults_later(self.log(), taken.log(), after.log());
                lemma_no_faults_later(taken.log(), tried.log(), after.log());
                taken.lemma_started_without_faults(&tried, inode, place, name, value, reply);
            },
        }
    }

    /// Where a device fails no call and the attribute fits, filling a new attribute block does not
    /// fail.
    proof fn lemma_started_without_faults(
        &self,
        after: &Self,
        inode: InodeRef,
        home: PBlockId,
        name: Seq<u8>,
        value: Seq<u8>,
        outcome: Result<()>,
    )
        requires
            self.attributes_started(after, inode, home, name, value, outcome),
            self.state().inode_position(inode.id) is Some,
            first_attribute(name, value) is Some,
            no_faults(since(self.log(), after.log())),
        ensures
            outcome is Ok,
    {
        let bytes = first_attribute(name, value)->0;
        let (read, reply) = choose|read: Self, reply: Result<Block>|
            {
                &&& #[trigger] self.block_read(&read, home, reply)
                &&& match reply {
                    Ok(block) => read.attributes_stored(after, inode, home, block, bytes, outcome),
                    Err(error) => read.idle(after) && outcome == Err::<(), Ext4Error>(error),
                }
            };
        self.lemma_read_spares(&read, home, reply, 0);
        if reply is Err {
            assert(since(self.log(), after.log())[0] == (Event::ReadBlock { id: home, reply }));
        }
        let block = reply->Ok_0;
        let data = sealed_attributes(read.state().superblock, bytes, home);
        let (written, said) = choose|written: Self, said: Result<()>|
            {
                &&& #[trigger] read.did(
                    &written,
                    Event::WriteBlock { id: block.id, data, reply: said },
                )
                &&& match said {
                    Ok(_) => written.attributes_named(after, inode, home, outcome),
                    Err(error) => written.idle(after) && outcome == Err::<(), Ext4Error>(error),
                }
            };
        assert(written.log().take(read.log().len() as int) =~= read.log());
        lemma_extends(self.log(), read.log(), written.log());
        if said is Err {
            let calls = since(self.log(), after.log());
            assert(calls[calls.len() - 1] == (Event::WriteBlock {
                id: block.id,
                data,
                reply: said,
            }));
        }
        let (named, sealed) = choose|named: InodeRef, sealed: InodeRef|
            {
                &&& #[trigger] written.inode_written(after, named, sealed, outcome)
                &&& named.id == inode.id
                &&& named.inode@ == with_wide48(inode.inode@, 104, 118, home)
            };
        written.lemma_inode_written_spares(after, named, sealed, outcome, 0);
        lemma_no_faults_later(self.log(), written.log(), after.log());
        let (table, at) = written.state().inode_position(inode.id)->0;
        let (again, second) = choose|again: Self, second: Result<Block>|
            {
                &&& #[trigger] written.block_read(&again, table, second)
                &&& match second {
                    Ok(found) => again.did(
                        after,
                        Event::WriteBlock {
                            id: found.id,
                            data: splice(found.data@, at, sealed.inode@),
                            reply: outcome,
                        },
                    ),
                    Err(error) => again.idle(after) && outcome == Err::<(), Ext4Error>(error),
                }
            };
        written.lemma_rewrite_without_faults(
            &again,
            after,
            table,
            second,
            splice(second->Ok_0.data@, at, sealed.inode@),
            outcome,
        );
    }
}

/// What is read of attributes after they were set or removed.
impl<D: BlockDevice, V: Volume<D>> Ext4<D, V> {
    /// Whether a block is marked as used, or is no block that could be.
    pub open spec fn in_use(&self, disk: Disk, block: PBlockId) -> bool {
        match self.state().place_of(block) {
            Some((group, bit)) => bit_set(
                self.sight(disk)[halves64(self.state().groups[group], 0, 32)],
                bit,
            ),
            None => true,
        }
    }

    /// Whether a block can be allocated for an inode: the block of the inode and the superblock are
    /// in use, no inode stands with a record of blocks, no bitmap belongs to the journal, and block
    /// numbers fit into an inode.
    pub open spec fn can_take_block(&self, disk: Disk, id: InodeId) -> bool {
        &&& self.in_use(disk, 0)
        &&& self.state().inode_position(id) matches Some((table, _)) ==> self.in_use(disk, table)
            && !self.state().records_blocks(table)
        &&& forall|i: int|
            0 <= i < self.state().groups.len() ==> !self.logs_to(
                halves64(#[trigger] self.state().groups[i], 0, 32),
            )
        &&& halves64(self.state().superblock, 4, 336) <= 0x1_0000_0000_0000
    }

    /// Filling a new attribute block is answered with what the device held at first.
    proof fn lemma_started_is_served(
        &self,
        after: &Self,
        inode: InodeRef,
        home: PBlockId,
        name: Seq<u8>,
        value: Seq<u8>,
        disk: Disk,
    )
        requires
            self.attributes_started(after, inode, home, name, value, Ok(())),
            self.state().batch() == Seq::<StagedBlock>::empty(),
            self.state().inode_position(inode.id) matches Some((table, _)) ==> table != home,
            self.answered_by(after, disk),
        ensures
            serves(since(self.log(), after.log()), disk),
    {
        let outcome = Ok::<(), Ext4Error>(());
        let (read, reply) = choose|read: Self, reply: Result<Block>|
            {
                &&& #[trigger] self.block_read(&read, home, reply)
                &&& match reply {
                    Ok(block) => match first_attribute(name, value) {
                        Some(bytes) => read.attributes_stored(
                            after,
                            inode,
                            home,
                            block,
                            bytes,
                            outcome,
                        ),
                        None => read.idle(after) && outcome == failed::<()>(ErrCode::ENOSPC),
                    },
                    Err(error) => read.idle(after) && outcome == Err::<(), Ext4Error>(error),
                }
            };
        let block = reply->Ok_0;
        let bytes = first_attribute(name, value)->0;
        let data = sealed_attributes(read.state().superblock, bytes, home);
        let (written, said) = choose|written: Self, said: Result<()>|
            {
                &&& #[trigger] read.did(
                    &written,
                    Event::WriteBlock { id: block.id, data, reply: said },
                )
                &&& match said {
                    Ok(_) => written.attributes_named(after, inode, home, outcome),
                    Err(error) => written.idle(after) && outcome == Err::<(), Ext4Error>(error),
                }
            };
        let (named, sealed) = choose|named: InodeRef, sealed: InodeRef|
            {
                &&& #[trigger] written.inode_written(after, named, sealed, outcome)
                &&& named.id == inode.id
                &&& named.inode@ == with_wide48(inode.inode@, 104, 118, home)
            };
        let (table, at) = written.state().inode_position(inode.id)->0;
        let (again, second) = choose|again: Self, second: Result<Block>|
            {
                &&& #[trigger] written.block_read(&again, table, second)
                &&& match second {
                    Ok(found) => again.did(
                        after,
                        Event::WriteBlock {
                            id: found.id,
                            data: splice(found.data@, at, sealed.inode@),
                            reply: outcome,
                        },
                    ),
                    Err(error) => again.idle(after) && outcome == Err::<(), Ext4Error>(error),
                }
            };
        let calls = since(self.log(), after.log());
        assert(calls =~= seq![
            Event::ReadBlock { id: home, reply },
            Event::WriteBlock { id: block.id, data, reply: said },
            Event::ReadBlock { id: table, reply: second },
            Event::WriteBlock {
                id: second->Ok_0.id,
                data: splice(second->Ok_0.data@, at, sealed.inode@),
                reply: outcome,
            },
        ]);
        assert(calls.take(0) =~= Seq::<Event>::empty());
        assert(told(calls[0], held(disk, calls.take(0))));
        assert(told(calls[2], held(disk, calls.take(2))));
        assert(held(disk, calls.take(2))[table] == disk[table]) by {
            reveal_with_fuel(held, 3);
            let early = calls.take(2);
            assert(early[0] == calls[0] && early[1] == calls[1]);
            assert(early.skip(1)[0] == early[1]);
            assert(early.skip(1).skip(1) =~= Seq::<Event>::empty());
        }
        assert forall|k: int| 0 <= k < calls.len() implies told(#[trigger] calls[k], disk) by {}
    }

    /// Giving a file its first attribute: the inode names the block that was taken, which holds the
    /// attribute.
    proof fn lemma_begun_is_held(
        &self,
        after: &Self,
        inode: InodeRef,
        name: Seq<u8>,
        value: Seq<u8>,
        disk: Disk,
    ) -> (held_at: (PBlockId, Seq<u8>))
        requires
            self.attributes_begun(after, inode, name, value, Ok(())),
            self.state().batch() == Seq::<StagedBlock>::empty(),
            self.state().superblock.len() == SUPER_BLOCK_BYTES,
            forall|i: int|
                0 <= i < self.state().groups.len() ==> (#[trigger] self.state().groups[i]).len()
                    == SB_GOOD_DESC_SIZE,
            self.state().groups.len() <= u32::MAX,
            self.inode_held(disk, inode.id, inode.inode@),
            self.can_take_block(disk, inode.id),
            self.answered_by(after, disk),
        ensures
            held_at.0 != 0,
            first_attribute(name, value) is Some,
            wide48(held_at.1, 104, 118) == held_at.0,
            after.state().batch() == Seq::<StagedBlock>::empty(),
            after.inode_held(self.left_on(after, disk), inode.id, held_at.1),
            self.left_on(after, disk)[held_at.0] == sealed_attributes(
                after.state().superblock,
                first_attribute(name, value)->0,
                held_at.0,
            ),
    {
        let outcome = Ok::<(), Ext4Error>(());
        let (taken, home) = choose|taken: Self, home: Result<PBlockId>|
            {
                &&& #[trigger] self.block_allocated(&taken, inode.id, home)
                &&& match home {
                    Ok(home) => taken.attributes_tried(after, inode, home, name, value, outcome),
                    Err(error) => taken.idle(after) && outcome == Err::<(), Ext4Error>(error),
                }
            };
        let place = home->Ok_0;
        let (tried, reply) = choose|tried: Self, reply: Result<()>|
            {
                &&& #[trigger] taken.attributes_started(&tried, inode, place, name, value, reply)
                &&& match reply {
                    Ok(_) => tried.idle(after) && outcome == Ok::<(), Ext4Error>(()),
                    Err(error) => tried.home_given_back(after, place, error, outcome),
                }
            };
        match reply {
            Ok(done) => {
                assert(done == ());
            },
            Err(_) => {},
        }
        let (table, at) = self.state().inode_position(inode.id)->0;
        self.lemma_allocation_spares(&taken, inode.id, home, table);
        taken.lemma_started_goes_on(&tried, inode, place, name, value, reply);
        assert(extends(taken.log(), after.log()));
        self.lemma_answers_split(&taken, after, disk);
        self.lemma_device_joins(&taken, after, disk);
        lemma_faithful_reads(disk, since(self.log(), taken.log()));
        self.lemma_spared_is_held(&taken, table, disk);
        self.lemma_allocated_block_was_free(&taken, inode.id, place, disk);
        self.lemma_allocation_keeps_positions(&taken, inode.id, place);
        let middle = self.left_on(&taken, disk);
        assert(forall|block: PBlockId| self.sight(disk)[block] == disk[block]);
        assert(place != table);
        assert(place != 0);
        assert(taken.inode_held(middle, inode.id, inode.inode@));
        assert(taken.state().batch() =~= Seq::<StagedBlock>::empty());
        taken.lemma_started_is_served(&tried, inode, place, name, value, middle);
        let raw = taken.lemma_first_xattr_is_held(&tried, inode, place, name, value, middle);
        (place, raw)
    }

    /// What is read of the attributes of a file after one was set: the value that was set, and of
    /// every other name what it had.
    pub proof fn lemma_assigned_xattr_is_read(
        &self,
        changed: &Self,
        later: &Self,
        after: &Self,
        inode: InodeRef,
        name: Seq<u8>,
        value: Seq<u8>,
        create: bool,
        replace: bool,
        other: Seq<u8>,
        outcome: Result<Seq<u8>>,
        disk: Disk,
    )
        requires
            self.inv(),
            self.attribute_assigned(changed, inode.id, name, value, create, replace, Ok(())),
            self.attributes_seen(disk, inode),
            inode.inode.attribute_block() == 0 ==> self.can_take_block(disk, inode.id),
            self.answered_by(changed, disk),
            later.state() == changed.state(),
            later.attribute_read(after, inode.id, other, outcome),
            serves(since(later.log(), after.log()), self.left_on(changed, disk)),
        ensures
            outcome == if other == name {
                Ok::<Seq<u8>, Ext4Error>(value)
            } else {
                value_found(self.attributes_of_file(disk, inode), other)
            },
    {
        let id = inode.id;
        let home = inode.inode.attribute_block();
        let work = |inside: Self, left: Self, outcome: Result<()>|
            inside.attribute_set(&left, id, name, value, create, replace, outcome);
        assert forall|inside: Self, left: Self| #[trigger] work(inside, left, Ok(())) implies extends(
            inside.log(),
            left.log(),
        ) by {
            inside.lemma_set_goes_on(&left, id, name, value, create, replace, Ok(()));
        }
        let (inside, left) = self.lemma_direct_writer(changed, work, Ok(()), disk);
        let start = self.left_on(&inside, disk);
        let last = self.left_on(changed, disk);
        let (table, at) = self.state().inode_position(id)->0;
        assert(inside.sight(start)[table] == self.sight(disk)[table]);
        lemma_inode_stays_in_its_block(self.state(), id);
        if home != 0 {
            assert(inside.sight(start)[home] == self.sight(disk)[home]);
            inside.lemma_assigned_inside(
                &left,
                inode,
                name,
                value,
                create,
                replace,
                Ok(()),
                start,
            );
            let superblock = self.state().superblock;
            lemma_set_attribute_is_read(superblock, start[home], home, name, value, other);
            lemma_set_attribute_is_read(superblock, start[home], home, name, value, name);
            assert(later.inode_held(last, id, inode.inode@));
            later.lemma_attribute_read_is_held(after, id, inode.inode@, other, outcome, last);
        } else {
            let (read, found) = choose|read: Self, found: Result<InodeRef>|
                {
                    &&& #[trigger] inside.inode_read(&read, id, found)
                    &&& match found {
                        Ok(opened) => read.attribute_changed(
                            &left,
                            opened,
                            name,
                            value,
                            create,
                            replace,
                            Ok(()),
                        ),
                        Err(error) => read.idle(&left) && Ok::<(), Ext4Error>(()) == Err::<
                            (),
                            Ext4Error,
                        >(error),
                    }
                };
            let opened = found->Ok_0;
            read.lemma_changed_goes_on(&left, opened, name, value, create, replace, Ok(()));
            inside.lemma_assigned_opens(&read, &left, inode, opened, start);
            assert(read.can_take_block(start, id)) by {
                assert forall|block: PBlockId| self.in_use(disk, block) implies read.in_use(
                    start,
                    block,
                ) by {
                    if let Some((group, bit)) = self.state().place_of(block) {
                        let bitmap = halves64(self.state().groups[group], 0, 32);
                        assert(0 <= group) by {
                            vstd::arithmetic::div_mod::lemma_div_pos_is_pos(
                                block - le32_at(self.state().superblock, 20),
                                le32_at(self.state().superblock, 32) as int,
                            );
                        }
                        assert(!self.logs_to(bitmap));
                        assert(inside.sight(start)[bitmap] == self.sight(disk)[bitmap]);
                    }
                }
                assert forall|i: int| 0 <= i < read.state().groups.len() implies !read.logs_to(
                    halves64(#[trigger] read.state().groups[i], 0, 32),
                ) by {
                    assert(!self.logs_to(halves64(self.state().groups[i], 0, 32)));
                    assert(inside.logs_to(halves64(self.state().groups[i], 0, 32)) == self.logs_to(
                        halves64(self.state().groups[i], 0, 32),
                    ));
                }
                assert(!read.state().records_blocks(table)) by {
                    if read.state().records_blocks(table) {
                        let i = choose|i: int|
                            0 <= i < read.state().groups.len() && ((
                            #[trigger] read.state().group_position(i)).0 == table || halves64(
                                read.state().groups[i],
                                0,
                                32,
                            ) == table);
                        assert(self.state().group_position(i) == read.state().group_position(i));
                    }
                }
            }
            let (place, raw) = read.lemma_begun_is_held(&left, opened, name, value, start);
            let superblock = left.state().superblock;
            lemma_first_attribute_is_read(superblock, place, name, value);
            if other != name {
                lemma_first_alone(superblock, place, name, value, other);
            }
            assert(later.inode_held(last, id, raw));
            later.lemma_attribute_read_is_held(after, id, raw, other, outcome, last);
        }
    }
}

/// Removing attributes.
impl<D: BlockDevice, V: Volume<D>> Ext4<D, V> {
    /// What removing an attribute comes to where a file has a block for them, and what the device
    /// then holds.
    pub open spec fn unassigns(
        &self,
        after: &Self,
        home: PBlockId,
        name: Seq<u8>,
        outcome: Result<()>,
        disk: Disk,
    ) -> bool {
        let rest = without_attribute(disk[home], name);
        &&& no_faults(since(self.log(), after.log())) ==> outcome == if rest is Some {
            Ok::<(), Ext4Error>(())
        } else {
            failed::<()>(ErrCode::ENODATA)
        }
        &&& outcome is Ok ==> {
            &&& rest is Some
            &&& self.left_on(after, disk) == disk.insert(
                home,
                sealed_attributes(self.state().superblock, rest->0, home),
            )
        }
    }

    /// Removing an attribute from the block that a file has for them.
    proof fn lemma_dropped_inside(
        &self,
        after: &Self,
        inode: InodeRef,
        name: Seq<u8>,
        outcome: Result<()>,
        disk: Disk,
    )
        requires
            self.attribute_dropped(after, inode, name, outcome),
            self.state().batch() == Seq::<StagedBlock>::empty(),
            inode.inode.attribute_block() != 0,
            attributes_sound(
                self.state().superblock,
                disk[inode.inode.attribute_block()],
                inode.inode.attribute_block(),
            ),
            self.answered_by(after, disk),
        ensures
            after.state() == self.state(),
            self.unassigns(after, inode.inode.attribute_block(), name, outcome, disk),
    {
        let home = inode.inode.attribute_block();
        let (loaded, block) = choose|loaded: Self, block: Result<Block>|
            {
                &&& #[trigger] self.attributes_loaded(&loaded, home, block)
                &&& match block {
                    Ok(found) => loaded.attribute_cut(after, home, found, name, outcome),
                    Err(error) => loaded.idle(after) && outcome == Err::<(), Ext4Error>(error),
                }
            };
        let reply = choose|reply: Result<Block>|
            {
                &&& #[trigger] self.block_read(&loaded, home, reply)
                &&& block == match reply {
                    Ok(found) => if attributes_sound(
                        self.state().superblock,
                        found.data@,
                        home,
                    ) {
                        reply
                    } else {
                        failed(ErrCode::EIO)
                    },
                    Err(error) => reply,
                }
            };
        let calls = since(self.log(), after.log());
        let loading = Event::ReadBlock { id: home, reply };
        let write = Event::WriteBlock {
            id: block->Ok_0.id,
            data: sealed_attributes(
                self.state().superblock,
                without_attribute(block->Ok_0.data@, name)->0,
                home,
            ),
            reply: outcome,
        };
        if after.log() == loaded.log() {
            assert(calls =~= seq![loading]);
        } else {
            assert(calls =~= seq![loading, write]);
            assert(calls.skip(1)[0] == write);
        }
        lemma_told_before_writing(disk, calls);
        assert(calls[0] == loading);
        assert(told(calls[0], disk));
        if let Ok(done) = outcome {
            assert(done == ());
        }
        reveal_with_fuel(held, 3);
        if after.log() == loaded.log() {
            assert(calls.skip(1) =~= Seq::<Event>::empty());
        } else {
            assert(calls[1] == write);
            assert(calls.skip(1).skip(1) =~= Seq::<Event>::empty());
        }
    }

    /// Removing an attribute goes on with the record.
    proof fn lemma_removed_goes_on(
        &self,
        after: &Self,
        id: InodeId,
        name: Seq<u8>,
        outcome: Result<()>,
    )
        requires
            self.attribute_removed(after, id, name, outcome),
        ensures
            extends(self.log(), after.log()),
    {
        assert(after.log().take(self.log().len() as int) =~= self.log());
    }

    /// Removing an attribute, inside the barrier.
    proof fn lemma_removed_inside(
        &self,
        after: &Self,
        inode: InodeRef,
        name: Seq<u8>,
        outcome: Result<()>,
        disk: Disk,
    )
        requires
            self.attribute_removed(after, inode.id, name, outcome),
            self.state().batch() == Seq::<StagedBlock>::empty(),
            self.inode_seen(disk, inode.id, inode.inode@),
            inode.inode.attribute_block() != 0 ==> attributes_sound(
                self.state().superblock,
                disk[inode.inode.attribute_block()],
                inode.inode.attribute_block(),
            ),
            self.answered_by(after, disk),
        ensures
            after.state() == self.state(),
            inode.inode.attribute_block() != 0 ==> self.unassigns(
                after,
                inode.inode.attribute_block(),
                name,
                outcome,
                disk,
            ),
            inode.inode.attribute_block() == 0 ==> outcome is Err && (no_faults(
                since(self.log(), after.log()),
            ) ==> outcome == failed::<()>(ErrCode::ENODATA)),
    {
        let id = inode.id;
        let (read, found) = choose|read: Self, found: Result<InodeRef>|
            {
                &&& #[trigger] self.inode_read(&read, id, found)
                &&& match found {
                    Ok(opened) => read.attribute_dropped(after, opened, name, outcome),
                    Err(error) => read.idle(after) && outcome == Err::<(), Ext4Error>(error),
                }
            };
        match found {
            Ok(opened) => {
                assert(after.log().take(read.log().len() as int) =~= read.log());
                self.lemma_assigned_opens(&read, after, inode, opened, disk);
                assert(read.log().take(self.log().len() as int) =~= self.log());
                if no_faults(since(self.log(), after.log())) {
                    lemma_no_faults_later(self.log(), read.log(), after.log());
                }
                if inode.inode.attribute_block() != 0 {
                    read.lemma_dropped_inside(after, opened, name, outcome, disk);
                }
            },
            Err(_) => {
                let (table, at) = self.state().inode_position(id)->0;
                let reply = choose|reply: Result<Block>|
                    {
                        &&& #[trigger] self.block_read(&read, table, reply)
                        &&& inode_found(bytes_read(reply), at, id, found)
                    };
                assert(since(self.log(), after.log())[0] == (Event::ReadBlock {
                    id: table,
                    reply,
                }));
            },
        }
    }

    /// Removing an attribute is refused exactly where the name has no value.
    pub proof fn lemma_removed_xattr_is_refused_or_done(
        &self,
        after: &Self,
        inode: InodeRef,
        name: Seq<u8>,
        outcome: Result<()>,
        disk: Disk,
    )
        requires
            self.attribute_unset(after, inode.id, name, outcome),
            self.admits_writers(),
            self.attributes_seen(disk, inode),
            self.answered_by(after, disk),
            no_faults(since(self.log(), after.log())),
        ensures
            outcome == if value_of(self.attributes_of_file(disk, inode), name) is Some {
                Ok::<(), Ext4Error>(())
            } else {
                failed::<()>(ErrCode::ENODATA)
            },
    {
        let id = inode.id;
        let work = |inside: Self, left: Self, outcome: Result<()>|
            inside.attribute_removed(&left, id, name, outcome);
        let (inside, left) = self.lemma_admitted(after, work, outcome);
        inside.lemma_removed_goes_on(&left, id, name, outcome);
        assert(self.log().take(self.log().len() as int) =~= self.log());
        self.lemma_leaving(&inside, &left, after, disk);
        assert(since(self.log(), inside.log()) =~= Seq::<Event>::empty());
        assert(self.left_on(&inside, disk) == disk);
        assert(self.state().batch() =~= Seq::<StagedBlock>::empty());
        assert(forall|block: PBlockId| self.sight(disk)[block] == disk[block]);
        assert(after.log().take(left.log().len() as int) =~= left.log());
        lemma_no_faults_later(self.log(), left.log(), after.log());
        inside.lemma_removed_inside(&left, inode, name, outcome, disk);
        let home = inode.inode.attribute_block();
        if home != 0 {
            lemma_removed_attribute_is_gone(
                self.state().superblock,
                disk[home],
                home,
                name,
                name,
            );
        }
    }

    /// What is read of the attributes of a file after one was removed: none of that name, and of
    /// every other name what it had.
    pub proof fn lemma_unset_xattr_is_gone(
        &self,
        changed: &Self,
        later: &Self,
        after: &Self,
        inode: InodeRef,
        name: Seq<u8>,
        other: Seq<u8>,
        outcome: Result<Seq<u8>>,
        disk: Disk,
    )
        requires
            self.inv(),
            self.attribute_unset(changed, inode.id, name, Ok(())),
            self.attributes_seen(disk, inode),
            self.answered_by(changed, disk),
            later.state() == changed.state(),
            later.attribute_read(after, inode.id, other, outcome),
            serves(since(later.log(), after.log()), self.left_on(changed, disk)),
        ensures
            value_of(self.attributes_of_file(disk, inode), name) is Some,
            outcome == if other == name {
                failed::<Seq<u8>>(ErrCode::ENODATA)
            } else {
                value_found(self.attributes_of_file(disk, inode), other)
            },
    {
        let id = inode.id;
        let home = inode.inode.attribute_block();
        let work = |inside: Self, left: Self, outcome: Result<()>|
            inside.attribute_removed(&left, id, name, outcome);
        assert forall|inside: Self, left: Self| #[trigger] work(inside, left, Ok(())) implies extends(
            inside.log(),
            left.log(),
        ) by {
            inside.lemma_removed_goes_on(&left, id, name, Ok(()));
        }
        let (inside, left) = self.lemma_direct_writer(changed, work, Ok(()), disk);
        let start = self.left_on(&inside, disk);
        let last = self.left_on(changed, disk);
        let (table, at) = self.state().inode_position(id)->0;
        assert(inside.sight(start)[table] == self.sight(disk)[table]);
        lemma_inode_stays_in_its_block(self.state(), id);
        if home != 0 {
            assert(inside.sight(start)[home] == self.sight(disk)[home]);
        }
        inside.lemma_removed_inside(&left, inode, name, Ok(()), start);
        let superblock = self.state().superblock;
        lemma_removed_attribute_is_gone(superblock, start[home], home, name, other);
        assert(later.inode_held(last, id, inode.inode@));
        later.lemma_attribute_read_is_held(after, id, inode.inode@, other, outcome, last);
    }
}

/// The first attribute of a file is its only one.
proof fn lemma_first_alone(
    super_raw: Seq<u8>,
    id: PBlockId,
    name: Seq<u8>,
    value: Seq<u8>,
    other: Seq<u8>,
)
    requires
        first_attribute(name, value) is Some,
        other != name,
    ensures
        value_of(
            attributes_in(sealed_attributes(super_raw, first_attribute(name, value)->0, id)),
            other,
        ) is None,
{
    let entries: Seq<Attribute> = seq![(name, value)];
    lemma_placed(entries, 1);
    lemma_attributes_read_back(entries);
    lemma_sealed_attributes_are_sound(super_raw, encoded(entries), id);
    assert(entries.skip(1) =~= Seq::<Attribute>::empty());
    assert(value_of(entries.skip(1), other) is None);
}

/// A device that fails no call fails none in parts of a record.
proof fn lemma_no_faults_later(first: Seq<Event>, second: Seq<Event>, third: Seq<Event>)
    requires
        extends(first, second),
        extends(second, third),
        no_faults(since(first, third)),
    ensures
        no_faults(since(first, second)),
        no_faults(since(second, third)),
{
    let all = since(first, third);
    let early = since(first, second);
    let late = since(second, third);
    assert forall|k: int| 0 <= k < early.len() implies match #[trigger] early[k] {
        Event::ReadBlock { id, reply } => reply is Ok,
        Event::WriteBlock { id, data, reply } => reply is Ok,
        _ => true,
    } by {
        assert(third.take(second.len() as int)[first.len() + k] == third[first.len() + k]);
        assert(all[k] == early[k]);
    }
    assert forall|k: int| 0 <= k < late.len() implies match #[trigger] late[k] {
        Event::ReadBlock { id, reply } => reply is Ok,
        Event::WriteBlock { id, data, reply } => reply is Ok,
        _ => true,
    } by {
        assert(all[k + (second.len() - first.len())] == late[k]);
    }
}

} // verus!
