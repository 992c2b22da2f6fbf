//! What is read of extended attributes after they were set or removed.

use vstd::prelude::*;
use vstd::utf8::valid_utf8;
use crate::content::{held, lemma_held_joins, stored, told, told_all, Disk};
use crate::device::{since, Block, BlockDevice, Event};
use crate::error::{failed, ErrCode, Ext4Error, Result};
use crate::file_xattr::{
    attributes_sound, first_attribute, lemma_first_attribute_is_read,
    lemma_removed_attribute_is_gone, lemma_set_attribute_is_read, sealed_attributes, text_names,
    with_attribute, without_attribute,
};
use crate::fs::{Ext4, FsState};
use crate::inode::{wide48, with_wide48, InodeRef, SB_GOOD_INODE_SIZE};
use crate::staged::holds_home;
use crate::superblock::sealed_inode;
use crate::volume::Volume;
use crate::xattr::{attributes_in, tidy, value_of, Attribute};
use crate::{InodeId, PBlockId};

verus! {

/// What reading an attribute gives where a file has the given ones.
pub open spec fn value_found(entries: Seq<Attribute>, name: Seq<u8>) -> Result<Seq<u8>> {
    match value_of(entries, name) {
        Some(value) => Ok(value),
        None => failed(ErrCode::ENODATA),
    }
}

/// Whether no read of a record fails.
pub open spec fn reads_succeed(calls: Seq<Event>) -> bool {
    forall|k: int|
        0 <= k < calls.len() ==> ((#[trigger] calls[k]) matches Event::ReadBlock { id, reply }
            ==> reply is Ok)
}

/// Whether reads are answered with what a device holds, and none fails.
pub open spec fn serves(calls: Seq<Event>, disk: Disk) -> bool {
    told_all(calls, disk) && reads_succeed(calls)
}

/// The first and the later calls of a record are served as the whole record is.
proof fn lemma_serves_splits(first: Seq<Event>, second: Seq<Event>, disk: Disk)
    requires
        serves(first + second, disk),
    ensures
        serves(first, disk),
        serves(second, disk),
{
    let all = first + second;
    assert forall|k: int| 0 <= k < first.len() implies told(#[trigger] first[k], disk) && (
    first[k] matches Event::ReadBlock { id, reply } ==> reply is Ok) by {
        assert(all[k] == first[k]);
    }
    assert forall|k: int| 0 <= k < second.len() implies told(#[trigger] second[k], disk) && (
    second[k] matches Event::ReadBlock { id, reply } ==> reply is Ok) by {
        assert(all[first.len() + k] == second[k]);
    }
}

/// A name is listed where it is text and has a value, and nowhere else.
pub proof fn lemma_listed_names_have_values(entries: Seq<Attribute>, name: Seq<u8>)
    ensures
        text_names(entries).contains(name) <==> valid_utf8(name) && value_of(entries, name) is Some,
    decreases entries.len(),
{
    if entries.len() > 0 {
        let rest = entries.drop_last();
        lemma_listed_names_have_values(rest, name);
        lemma_last_value(entries, name);
        let names = text_names(rest);
        let last = entries.last().0;
        if valid_utf8(last) {
            assert(names.push(last).contains(name) <==> names.contains(name) || name == last) by {
                if names.contains(name) {
                    let i = choose|i: int| 0 <= i < names.len() && names[i] == name;
                    assert(names.push(last)[i] == name);
                }
                assert(names.push(last)[names.len() as int] == last);
                if names.push(last).contains(name) && name != last {
                    let i = choose|i: int|
                        0 <= i < names.push(last).len() && names.push(last)[i] == name;
                    assert(names[i] == name);
                }
            }
        }
    }
}

/// A name has a value where the other attributes or the last one has it.
proof fn lemma_last_value(entries: Seq<Attribute>, name: Seq<u8>)
    requires
        entries.len() > 0,
    ensures
        value_of(entries, name) is Some <==> value_of(entries.drop_last(), name) is Some
            || entries.last().0 == name,
    decreases entries.len(),
{
    if entries.len() > 1 && entries[0].0 != name {
        lemma_last_value(entries.skip(1), name);
        assert(entries.skip(1).drop_last() =~= entries.drop_last().skip(1));
        assert(entries.drop_last()[0] == entries[0]);
    } else if entries.len() > 1 {
        assert(entries.drop_last()[0] == entries[0]);
    } else {
        assert(entries.skip(1) =~= Seq::<Attribute>::empty());
        assert(entries.drop_last() =~= Seq::<Attribute>::empty());
    }
}

impl<D: BlockDevice, V: Volume<D>> Ext4<D, V> {
    /// Loading an attribute block gives what the device holds.
    proof fn lemma_attributes_loaded_are_held(
        &self,
        after: &Self,
        home: PBlockId,
        loaded: Result<Block>,
        disk: Disk,
    )
        requires
            self.attributes_loaded(after, home, loaded),
            !holds_home(self.state().batch(), home),
            serves(since(self.log(), after.log()), disk),
            attributes_sound(self.state().superblock, disk[home], home),
        ensures
            loaded matches Ok(block) && block.id == home && block.data@ == disk[home],
            exists|read: Block|
                #[trigger] self.did(after, Event::ReadBlock { id: home, reply: Ok(read) }),
    {
        let reply = choose|reply: Result<Block>|
            {
                &&& #[trigger] self.block_read(after, home, reply)
                &&& loaded == match reply {
                    Ok(block) => if attributes_sound(
                        self.state().superblock,
                        block.data@,
                        home,
                    ) {
                        reply
                    } else {
                        failed(ErrCode::EIO)
                    },
                    Err(error) => reply,
                }
            };
        let calls = since(self.log(), after.log());
        assert(calls =~= seq![Event::ReadBlock { id: home, reply }]);
        assert(told(calls[0], disk));
        let read = reply->Ok_0;
        assert(self.did(after, Event::ReadBlock { id: home, reply: Ok(read) }));
    }

    /// What a later read gives of the attributes of a file that a device holds.
    pub(crate) proof fn lemma_attribute_read_is_held(
        &self,
        after: &Self,
        id: InodeId,
        raw: Seq<u8>,
        name: Seq<u8>,
        outcome: Result<Seq<u8>>,
        disk: Disk,
    )
        requires
            self.attribute_read(after, id, name, outcome),
            self.inode_held(disk, id, raw),
            wide48(raw, 104, 118) != 0,
            !holds_home(self.state().batch(), wide48(raw, 104, 118)),
            serves(since(self.log(), after.log()), disk),
            attributes_sound(
                self.state().superblock,
                disk[wide48(raw, 104, 118)],
                wide48(raw, 104, 118),
            ),
        ensures
            outcome == value_found(attributes_in(disk[wide48(raw, 104, 118)]), name),
    {
        let home = wide48(raw, 104, 118);
        let (read, found) = choose|read: Self, found: Result<InodeRef>|
            {
                &&& #[trigger] self.inode_read(&read, id, found)
                &&& match found {
                    Ok(inode) => read.attribute_fetched(after, inode, name, outcome),
                    Err(error) => read.idle(after) && outcome == Err::<Seq<u8>, Ext4Error>(error),
                }
            };
        let (table, at) = self.state().inode_position(id)->0;
        let reply = choose|reply: Result<Block>|
            {
                &&& #[trigger] self.block_read(&read, table, reply)
                &&& crate::fs::inode_found(crate::fs::bytes_read(reply), at, id, found)
            };
        let first = since(self.log(), read.log());
        let second = since(read.log(), after.log());
        assert(first =~= seq![Event::ReadBlock { id: table, reply }]);
        match found {
            Ok(inode) => {
                assert(since(self.log(), after.log()) =~= first + second);
                lemma_serves_splits(first, second, disk);
                self.lemma_inode_read_is_held(&read, id, inode, disk, raw);
                let block = choose|block: Result<Block>|
                    {
                        &&& #[trigger] read.attributes_loaded(after, home, block)
                        &&& outcome == match block {
                            Ok(found) => match value_of(attributes_in(found.data@), name) {
                                Some(value) => Ok::<Seq<u8>, Ext4Error>(value),
                                None => failed(ErrCode::ENODATA),
                            },
                            Err(error) => Err(error),
                        }
                    };
                read.lemma_attributes_loaded_are_held(after, home, block, disk);
            },
            Err(_) => {
                assert(since(self.log(), after.log()) =~= first);
                assert(first[0] == Event::ReadBlock { id: table, reply });
            },
        }
    }
}

impl<D: BlockDevice, V: Volume<D>> Ext4<D, V> {
    /// Whether a block is a block of its own: not the one that an inode stands in, and not one
    /// with an image that waits for a commit.
    pub open spec fn block_apart(&self, id: InodeId, home: PBlockId) -> bool {
        &&& home != 0
        &&& !holds_home(self.state().batch(), home)
        &&& self.state().inode_position(id) matches Some((table, _)) ==> table != home
    }

    /// Whether a device holds an inode with a sound attribute block.
    pub open spec fn attributes_held(&self, disk: Disk, inode: InodeRef) -> bool {
        let home = inode.inode.attribute_block();
        &&& self.inode_held(disk, inode.id, inode.inode@)
        &&& self.block_apart(inode.id, home)
        &&& attributes_sound(self.state().superblock, disk[home], home)
        &&& tidy(attributes_in(disk[home]))
    }

    /// Setting an attribute of a file that has some, or removing one, reads the attribute block and
    /// writes it.
    proof fn lemma_block_rewritten(
        &self,
        loaded: &Self,
        written: &Self,
        inode: InodeRef,
        block: Result<Block>,
        write: Event,
        disk: Disk,
    )
        requires
            self.attributes_loaded(loaded, inode.inode.attribute_block(), block),
            self.attributes_held(disk, inode),
            serves(since(self.log(), written.log()), disk),
            written.log() == loaded.log() || written.log() == loaded.log().push(write),
        ensures
            block matches Ok(found) && found.id == inode.inode.attribute_block() && found.data@
                == disk[inode.inode.attribute_block()],
            loaded.state() == self.state(),
            written.log() == loaded.log().push(write) ==> held(
                disk,
                since(self.log(), written.log()),
            ) == stored(disk, write),
    {
        let home = inode.inode.attribute_block();
        let first = since(self.log(), loaded.log());
        let rest = since(loaded.log(), written.log());
        let calls = since(self.log(), written.log());
        assert(calls =~= first + rest);
        lemma_serves_splits(first, rest, disk);
        self.lemma_attributes_loaded_are_held(loaded, home, block, disk);
        let seen = choose|seen: Block|
            #[trigger] self.did(loaded, Event::ReadBlock { id: home, reply: Ok(seen) });
        let load = Event::ReadBlock { id: home, reply: Ok(seen) };
        if written.log() == loaded.log().push(write) {
            assert(calls =~= seq![load, write]);
            assert(calls.skip(1) =~= seq![write]);
            assert(calls.skip(1).skip(1) =~= Seq::<Event>::empty());
            reveal_with_fuel(held, 3);
        }
    }

    /// What is read of the attributes of a file after one was set, where the file had a block for
    /// them: the value that was set, and of every other name what it had.
    pub proof fn lemma_set_xattr_is_read(
        &self,
        written: &Self,
        later: &Self,
        after: &Self,
        inode: InodeRef,
        name: Seq<u8>,
        value: Seq<u8>,
        create: bool,
        replace: bool,
        other: Seq<u8>,
        outcome: Result<Seq<u8>>,
        disk: Disk,
    )
        requires
            self.attribute_changed(written, inode, name, value, create, replace, Ok(())),
            self.attributes_held(disk, inode),
            serves(since(self.log(), written.log()), disk),
            later.state() == written.state(),
            later.attribute_read(after, inode.id, other, outcome),
            serves(
                since(later.log(), after.log()),
                held(disk, since(self.log(), written.log())),
            ),
        ensures
            outcome == if other == name {
                Ok::<Seq<u8>, Ext4Error>(value)
            } else {
                value_found(attributes_in(disk[inode.inode.attribute_block()]), other)
            },
    {
        let home = inode.inode.attribute_block();
        let (loaded, block) = choose|loaded: Self, block: Result<Block>|
            {
                &&& #[trigger] self.attributes_loaded(&loaded, home, block)
                &&& match block {
                    Ok(found) => loaded.attribute_stored(
                        written,
                        home,
                        found,
                        name,
                        value,
                        create,
                        replace,
                        Ok(()),
                    ),
                    Err(error) => loaded.idle(written) && Ok::<(), Ext4Error>(()) == Err::<
                        (),
                        Ext4Error,
                    >(error),
                }
            };
        let found = block->Ok_0;
        let bytes = sealed_attributes(
            loaded.state().superblock,
            with_attribute(found.data@, name, value)->0,
            home,
        );
        let write = Event::WriteBlock { id: found.id, data: bytes, reply: Ok(()) };
        self.lemma_block_rewritten(&loaded, written, inode, block, write, disk);
        lemma_set_attribute_is_read(self.state().superblock, disk[home], home, name, value, other);
        lemma_set_attribute_is_read(self.state().superblock, disk[home], home, name, value, name);
        let last = held(disk, since(self.log(), written.log()));
        assert(last == disk.insert(home, bytes));
        assert(later.inode_held(last, inode.id, inode.inode@));
        later.lemma_attribute_read_is_held(after, inode.id, inode.inode@, other, outcome, last);
    }

    /// What is read of the attributes of a file after one was removed: nothing of it, and of every
    /// other name what it had.
    pub proof fn lemma_removed_xattr_is_gone(
        &self,
        written: &Self,
        later: &Self,
        after: &Self,
        inode: InodeRef,
        name: Seq<u8>,
        other: Seq<u8>,
        outcome: Result<Seq<u8>>,
        disk: Disk,
    )
        requires
            self.attribute_dropped(written, inode, name, Ok(())),
            self.attributes_held(disk, inode),
            serves(since(self.log(), written.log()), disk),
            later.state() == written.state(),
            later.attribute_read(after, inode.id, other, outcome),
            serves(
                since(later.log(), after.log()),
                held(disk, since(self.log(), written.log())),
            ),
        ensures
            outcome == if other == name {
                failed::<Seq<u8>>(ErrCode::ENODATA)
            } else {
                value_found(attributes_in(disk[inode.inode.attribute_block()]), other)
            },
    {
        let home = inode.inode.attribute_block();
        let (loaded, block) = choose|loaded: Self, block: Result<Block>|
            {
                &&& #[trigger] self.attributes_loaded(&loaded, home, block)
                &&& match block {
                    Ok(found) => loaded.attribute_cut(written, home, found, name, Ok(())),
                    Err(error) => loaded.idle(written) && Ok::<(), Ext4Error>(()) == Err::<
                        (),
                        Ext4Error,
                    >(error),
                }
            };
        let found = block->Ok_0;
        let bytes = sealed_attributes(
            loaded.state().superblock,
            without_attribute(found.data@, name)->0,
            home,
        );
        let write = Event::WriteBlock { id: found.id, data: bytes, reply: Ok(()) };
        self.lemma_block_rewritten(&loaded, written, inode, block, write, disk);
        lemma_removed_attribute_is_gone(self.state().superblock, disk[home], home, name, other);
        lemma_removed_attribute_is_gone(self.state().superblock, disk[home], home, name, name);
        let last = held(disk, since(self.log(), written.log()));
        assert(last == disk.insert(home, bytes));
        assert(later.inode_held(last, inode.id, inode.inode@));
        later.lemma_attribute_read_is_held(after, inode.id, inode.inode@, other, outcome, last);
    }

    /// The first attribute of a file stands in the block that was allocated for it, and the inode
    /// names that block.
    pub(crate) proof fn lemma_first_xattr_is_held(
        &self,
        written: &Self,
        inode: InodeRef,
        home: PBlockId,
        name: Seq<u8>,
        value: Seq<u8>,
        disk: Disk,
    ) -> (raw: Seq<u8>)
        requires
            self.attributes_started(written, inode, home, name, value, Ok(())),
            self.inode_held(disk, inode.id, inode.inode@),
            self.block_apart(inode.id, home),
            home < 0x1_0000_0000_0000,
            serves(since(self.log(), written.log()), disk),
        ensures
            written.state() == self.state(),
            first_attribute(name, value) is Some,
            wide48(raw, 104, 118) == home,
            written.inode_held(held(disk, since(self.log(), written.log())), inode.id, raw),
            held(disk, since(self.log(), written.log()))[home] == sealed_attributes(
                self.state().superblock,
                first_attribute(name, value)->0,
                home,
            ),
    {
        let (read, reply) = choose|read: Self, reply: Result<Block>|
            {
                &&& #[trigger] self.block_read(&read, home, reply)
                &&& match reply {
                    Ok(block) => match first_attribute(name, value) {
                        Some(bytes) => read.attributes_stored(
                            written,
                            inode,
                            home,
                            block,
                            bytes,
                            Ok(()),
                        ),
                        None => read.idle(written) && Ok::<(), Ext4Error>(()) == failed::<()>(
                            ErrCode::ENOSPC,
                        ),
                    },
                    Err(error) => read.idle(written) && Ok::<(), Ext4Error>(()) == Err::<
                        (),
                        Ext4Error,
                    >(error),
                }
            };
        let block = reply->Ok_0;
        let bytes = first_attribute(name, value)->0;
        let sealed_bytes = sealed_attributes(self.state().superblock, bytes, home);
        let (filled, said) = choose|filled: Self, said: Result<()>|
            {
                &&& #[trigger] read.did(
                    &filled,
                    Event::WriteBlock { id: block.id, data: sealed_bytes, reply: said },
                )
                &&& match said {
                    Ok(_) => filled.attributes_named(written, inode, home, Ok(())),
                    Err(error) => filled.idle(written) && Ok::<(), Ext4Error>(()) == Err::<
                        (),
                        Ext4Error,
                    >(error),
                }
            };
        match said {
            Ok(done) => {
                assert(done == ());
            },
            Err(_) => {},
        }
        let (named, sealed) = choose|named: InodeRef, sealed: InodeRef|
            {
                &&& #[trigger] filled.inode_written(written, named, sealed, Ok(()))
                &&& named.id == inode.id
                &&& named.inode@ == with_wide48(inode.inode@, 104, 118, home)
            };
        let (table, at) = self.state().inode_position(inode.id)->0;
        let (seen, old) = choose|seen: Self, old: Result<Block>|
            {
                &&& #[trigger] filled.block_read(&seen, table, old)
                &&& match old {
                    Ok(block) => seen.did(
                        written,
                        Event::WriteBlock {
                            id: block.id,
                            data: crate::bytes::splice(block.data@, at, sealed.inode@),
                            reply: Ok(()),
                        },
                    ),
                    Err(error) => seen.idle(written) && Ok::<(), Ext4Error>(()) == Err::<
                        (),
                        Ext4Error,
                    >(error),
                }
            };
        let write = Event::WriteBlock { id: block.id, data: sealed_bytes, reply: Ok(()) };
        let first = seq![Event::ReadBlock { id: home, reply }, write];
        let rest = since(filled.log(), written.log());
        assert(since(self.log(), written.log()) =~= first + rest);
        lemma_serves_splits(first, rest, disk);
        assert(told(first[0], disk));
        let middle = disk.insert(home, sealed_bytes);
        assert(held(disk, first) == middle) by {
            reveal_with_fuel(held, 3);
            assert(first.skip(1) =~= seq![write]);
            assert(first.skip(1).skip(1) =~= Seq::<Event>::empty());
        }
        lemma_held_joins(disk, first, rest);
        assert(rest.len() == 2);
        assert(told_all(rest, middle)) by {
            assert forall|k: int| 0 <= k < rest.len() implies told(#[trigger] rest[k], middle) by {
                assert(told(rest[k], disk));
                assert(rest[0] == Event::ReadBlock { id: table, reply: old });
            }
        }
        assert(filled.inode_held(middle, inode.id, inode.inode@));
        filled.lemma_inode_written_is_held(written, named, sealed, middle, inode.inode@);
        let last = held(disk, since(self.log(), written.log()));
        let raw = sealed_inode(named.inode@, inode.id, self.state().superblock);
        assert(last[home] == sealed_bytes);
        crate::inode::lemma_wide48_reads_back(inode.inode@, 104, 118, home);
        lemma_checksum_keeps_attribute_block(named, sealed, self.state().superblock);
        raw
    }

    /// What is read of the first attribute of a file is the value that was set. `home` is the block
    /// that was allocated for the attributes.
    pub proof fn lemma_first_xattr_is_read(
        &self,
        written: &Self,
        later: &Self,
        after: &Self,
        inode: InodeRef,
        home: PBlockId,
        name: Seq<u8>,
        value: Seq<u8>,
        outcome: Result<Seq<u8>>,
        disk: Disk,
    )
        requires
            self.attributes_started(written, inode, home, name, value, Ok(())),
            self.inode_held(disk, inode.id, inode.inode@),
            self.block_apart(inode.id, home),
            home < 0x1_0000_0000_0000,
            serves(since(self.log(), written.log()), disk),
            later.state() == (FsState { gate: later.state().gate, ..written.state() }),
            later.attribute_read(after, inode.id, name, outcome),
            serves(
                since(later.log(), after.log()),
                held(disk, since(self.log(), written.log())),
            ),
        ensures
            outcome == Ok::<Seq<u8>, Ext4Error>(value),
    {
        let raw = self.lemma_first_xattr_is_held(written, inode, home, name, value, disk);
        lemma_first_attribute_is_read(self.state().superblock, home, name, value);
        later.lemma_attribute_read_is_held(
            after,
            inode.id,
            raw,
            name,
            outcome,
            held(disk, since(self.log(), written.log())),
        );
    }
}

/// Whether a call stores nothing in `home`: it writes elsewhere, fails, or writes nothing.
pub open spec fn misses(call: Event, home: PBlockId) -> bool {
    match call {
        Event::WriteBlock { id, data, reply } => reply is Err || id != home,
        Event::WriteBlocks { start, data, reply } => reply is Err,
        _ => true,
    }
}

/// Calls that store nothing in a block leave what a device holds in it.
pub(crate) proof fn lemma_missed_block_is_held(disk: Disk, calls: Seq<Event>, home: PBlockId)
    requires
        forall|k: int| 0 <= k < calls.len() ==> misses(#[trigger] calls[k], home),
    ensures
        held(disk, calls)[home] == disk[home],
    decreases calls.len(),
{
    if calls.len() > 0 {
        assert(misses(calls[0], home));
        let rest = calls.skip(1);
        assert forall|k: int| 0 <= k < rest.len() implies misses(#[trigger] rest[k], home) by {
            assert(rest[k] == calls[k + 1]);
        }
        lemma_missed_block_is_held(stored(disk, calls[0]), rest, home);
    }
}

impl<D: BlockDevice, V: Volume<D>> Ext4<D, V> {
    /// An attribute that could not be set leaves all attributes of a file that has some as they
    /// were: every name, the one that was to be set among them, is read as before, and so the old
    /// value stays where there is no room for the new one.
    pub proof fn lemma_refused_xattr_changes_nothing(
        &self,
        refused: &Self,
        later: &Self,
        after: &Self,
        inode: InodeRef,
        name: Seq<u8>,
        value: Seq<u8>,
        create: bool,
        replace: bool,
        error: Ext4Error,
        other: Seq<u8>,
        outcome: Result<Seq<u8>>,
        disk: Disk,
    )
        requires
            self.attribute_changed(refused, inode, name, value, create, replace, Err(error)),
            self.attributes_held(disk, inode),
            later.state() == refused.state(),
            later.attribute_read(after, inode.id, other, outcome),
            serves(
                since(later.log(), after.log()),
                held(disk, since(self.log(), refused.log())),
            ),
        ensures
            refused.state() == self.state(),
            forall|home: PBlockId| #[trigger]
                held(disk, since(self.log(), refused.log()))[home] == disk[home],
            outcome == value_found(attributes_in(disk[inode.inode.attribute_block()]), other),
    {
        let home = inode.inode.attribute_block();
        let set = Err::<(), Ext4Error>(error);
        let calls = since(self.log(), refused.log());
        let (loaded, block) = choose|loaded: Self, block: Result<Block>|
            {
                &&& #[trigger] self.attributes_loaded(&loaded, home, block)
                &&& match block {
                    Ok(found) => loaded.attribute_stored(
                        refused,
                        home,
                        found,
                        name,
                        value,
                        create,
                        replace,
                        set,
                    ),
                    Err(fault) => loaded.idle(refused) && set == Err::<(), Ext4Error>(fault),
                }
            };
        let load = choose|reply: Result<Block>| #[trigger] self.block_read(&loaded, home, reply);
        assert(loaded.log() == self.log().push(Event::ReadBlock { id: home, reply: load }));
        assert forall|any: PBlockId| #[trigger] held(disk, calls)[any] == disk[any] by {
            assert forall|k: int| 0 <= k < calls.len() implies misses(#[trigger] calls[k], any) by {
                assert(calls[k] == refused.log()[self.log().len() + k]);
            }
            lemma_missed_block_is_held(disk, calls, any);
        }
        let last = held(disk, calls);
        assert(later.inode_held(last, inode.id, inode.inode@));
        later.lemma_attribute_read_is_held(after, inode.id, inode.inode@, other, outcome, last);
    }

    /// A first attribute that could not be set leaves a file without attributes. `home` is the
    /// block that was allocated for them.
    pub proof fn lemma_refused_first_xattr_changes_nothing(
        &self,
        refused: &Self,
        later: &Self,
        after: &Self,
        inode: InodeRef,
        home: PBlockId,
        name: Seq<u8>,
        value: Seq<u8>,
        error: Ext4Error,
        other: Seq<u8>,
        outcome: Result<Seq<u8>>,
        disk: Disk,
    )
        requires
            self.attributes_started(refused, inode, home, name, value, Err(error)),
            self.inode_held(disk, inode.id, inode.inode@),
            inode.inode.attribute_block() == 0,
            self.block_apart(inode.id, home),
            told_all(since(self.log(), refused.log()), disk),
            later.state() == refused.state(),
            later.attribute_read(after, inode.id, other, outcome),
            serves(
                since(later.log(), after.log()),
                held(disk, since(self.log(), refused.log())),
            ),
        ensures
            outcome == failed::<Seq<u8>>(ErrCode::ENODATA),
    {
        let (table, at) = self.state().inode_position(inode.id)->0;
        let set = Err::<(), Ext4Error>(error);
        let calls = since(self.log(), refused.log());
        let (read, reply) = choose|read: Self, reply: Result<Block>|
            {
                &&& #[trigger] self.block_read(&read, home, reply)
                &&& match reply {
                    Ok(block) => match first_attribute(name, value) {
                        Some(bytes) => read.attributes_stored(
                            refused,
                            inode,
                            home,
                            block,
                            bytes,
                            set,
                        ),
                        None => read.idle(refused) && set == failed::<()>(ErrCode::ENOSPC),
                    },
                    Err(fault) => read.idle(refused) && set == Err::<(), Ext4Error>(fault),
                }
            };
        let load = Event::ReadBlock { id: home, reply };
        assert(read.log() == self.log().push(load));
        if reply is Ok && first_attribute(name, value) is Some {
            let block = reply->Ok_0;
            let bytes = sealed_attributes(
                self.state().superblock,
                first_attribute(name, value)->0,
                home,
            );
            let (filled, said) = choose|filled: Self, said: Result<()>|
                {
                    &&& #[trigger] read.did(
                        &filled,
                        Event::WriteBlock { id: block.id, data: bytes, reply: said },
                    )
                    &&& match said {
                        Ok(_) => filled.attributes_named(refused, inode, home, set),
                        Err(fault) => filled.idle(refused) && set == Err::<(), Ext4Error>(fault),
                    }
                };
            assert(calls[0] == load);
            assert(told(calls[0], disk));
            if said is Ok {
                let (named, sealed) = choose|named: InodeRef, sealed: InodeRef|
                    {
                        &&& #[trigger] filled.inode_written(refused, named, sealed, set)
                        &&& named.id == inode.id
                        &&& named.inode@ == with_wide48(inode.inode@, 104, 118, home)
                    };
                let (seen, old) = choose|seen: Self, old: Result<Block>|
                    {
                        &&& #[trigger] filled.block_read(&seen, table, old)
                        &&& match old {
                            Ok(block) => seen.did(
                                refused,
                                Event::WriteBlock {
                                    id: block.id,
                                    data: crate::bytes::splice(block.data@, at, sealed.inode@),
                                    reply: set,
                                },
                            ),
                            Err(fault) => seen.idle(refused) && set == Err::<(), Ext4Error>(fault),
                        }
                    };
            }
        }
        assert forall|k: int| 0 <= k < calls.len() implies misses(#[trigger] calls[k], table) by {
            assert(calls[k] == refused.log()[self.log().len() + k]);
        }
        lemma_missed_block_is_held(disk, calls, table);
        let last = held(disk, calls);
        let (seen, found) = choose|seen: Self, found: Result<InodeRef>|
            {
                &&& #[trigger] later.inode_read(&seen, inode.id, found)
                &&& match found {
                    Ok(file) => seen.attribute_fetched(after, file, other, outcome),
                    Err(fault) => seen.idle(after) && outcome == Err::<Seq<u8>, Ext4Error>(fault),
                }
            };
        assert(later.inode_held(last, inode.id, inode.inode@));
        let again = choose|again: Result<Block>|
            {
                &&& #[trigger] later.block_read(&seen, table, again)
                &&& crate::fs::inode_found(crate::fs::bytes_read(again), at, inode.id, found)
            };
        let look = Event::ReadBlock { id: table, reply: again };
        assert(since(later.log(), after.log())[0] == look);
        assert(told(look, last));
        if let Ok(file) = found {
            assert(since(later.log(), seen.log()) =~= seq![look]);
            assert(told_all(seq![look], last));
            later.lemma_inode_read_is_held(&seen, inode.id, file, last, inode.inode@);
        }
    }
}

impl<D: BlockDevice, V: Volume<D>> Ext4<D, V> {
    /// The names that are listed are those that are text and can be read.
    pub proof fn lemma_listed_xattrs_are_read(
        &self,
        listed: &Self,
        later: &Self,
        after: &Self,
        inode: InodeRef,
        names: Seq<Seq<u8>>,
        name: Seq<u8>,
        outcome: Result<Seq<u8>>,
        disk: Disk,
    )
        requires
            self.attributes_fetched(listed, inode, Ok(names)),
            self.attributes_held(disk, inode),
            serves(since(self.log(), listed.log()), disk),
            later.state() == self.state(),
            later.attribute_fetched(after, inode, name, outcome),
            serves(since(later.log(), after.log()), disk),
        ensures
            names.contains(name) <==> valid_utf8(name) && outcome is Ok,
    {
        let home = inode.inode.attribute_block();
        let block = choose|block: Result<Block>|
            {
                &&& #[trigger] self.attributes_loaded(listed, home, block)
                &&& Ok::<Seq<Seq<u8>>, Ext4Error>(names) == match block {
                    Ok(found) => Ok::<Seq<Seq<u8>>, Ext4Error>(
                        text_names(attributes_in(found.data@)),
                    ),
                    Err(error) => Err(error),
                }
            };
        self.lemma_attributes_loaded_are_held(listed, home, block, disk);
        let other = choose|other: Result<Block>|
            {
                &&& #[trigger] later.attributes_loaded(after, home, other)
                &&& outcome == match other {
                    Ok(found) => match value_of(attributes_in(found.data@), name) {
                        Some(value) => Ok::<Seq<u8>, Ext4Error>(value),
                        None => failed(ErrCode::ENODATA),
                    },
                    Err(error) => Err(error),
                }
            };
        later.lemma_attributes_loaded_are_held(after, home, other, disk);
        lemma_listed_names_have_values(attributes_in(disk[home]), name);
    }

    /// The names that are listed for a file, by its number, are those of its attributes that are
    /// text, and listing them succeeds.
    pub proof fn lemma_asked_xattrs_are_listed(
        &self,
        after: &Self,
        inode: InodeRef,
        outcome: Result<Seq<Seq<u8>>>,
        name: Seq<u8>,
        disk: Disk,
    )
        requires
            self.attributes_listed(after, inode.id, outcome),
            self.attributes_held(disk, inode),
            serves(since(self.log(), after.log()), disk),
        ensures
            outcome matches Ok(names) && (names.contains(name) <==> valid_utf8(name) && value_of(
                attributes_in(disk[inode.inode.attribute_block()]),
                name,
            ) is Some),
    {
        let id = inode.id;
        let home = inode.inode.attribute_block();
        let (read, found) = choose|read: Self, found: Result<InodeRef>|
            {
                &&& #[trigger] self.inode_read(&read, id, found)
                &&& match found {
                    Ok(opened) => read.attributes_fetched(after, opened, outcome),
                    Err(error) => read.idle(after) && outcome == Err::<Seq<Seq<u8>>, Ext4Error>(
                        error,
                    ),
                }
            };
        let (table, at) = self.state().inode_position(id)->0;
        let reply = choose|reply: Result<Block>|
            {
                &&& #[trigger] self.block_read(&read, table, reply)
                &&& crate::fs::inode_found(crate::fs::bytes_read(reply), at, id, found)
            };
        let first = since(self.log(), read.log());
        let second = since(read.log(), after.log());
        assert(first =~= seq![Event::ReadBlock { id: table, reply }]);
        match found {
            Ok(opened) => {
                assert(since(self.log(), after.log()) =~= first + second);
                lemma_serves_splits(first, second, disk);
                self.lemma_inode_read_is_held(&read, id, opened, disk, inode.inode@);
                let block = choose|block: Result<Block>|
                    {
                        &&& #[trigger] read.attributes_loaded(after, home, block)
                        &&& outcome == match block {
                            Ok(found) => Ok::<Seq<Seq<u8>>, Ext4Error>(
                                text_names(attributes_in(found.data@)),
                            ),
                            Err(error) => Err(error),
                        }
                    };
                read.lemma_attributes_loaded_are_held(after, home, block, disk);
                lemma_listed_names_have_values(attributes_in(disk[home]), name);
            },
            Err(_) => {
                assert(since(self.log(), after.log()) =~= first);
                assert(first[0] == Event::ReadBlock { id: table, reply });
            },
        }
    }
}

/// The checksum of an inode leaves the number of its attribute block.
proof fn lemma_checksum_keeps_attribute_block(
    inode: InodeRef,
    sealed: InodeRef,
    super_raw: Seq<u8>,
)
    requires
        sealed.inode@ == sealed_inode(inode.inode@, inode.id, super_raw),
        inode.inode@.len() == SB_GOOD_INODE_SIZE,
    ensures
        wide48(sealed.inode@, 104, 118) == wide48(inode.inode@, 104, 118),
{
    let raw = inode.inode@;
    let other = sealed.inode@;
    assert forall|i: int| 104 <= i < 120 implies #[trigger] other[i] == raw[i] by {}
    assert(other.subrange(104, 108) =~= raw.subrange(104, 108));
    assert(other.subrange(118, 120) =~= raw.subrange(118, 120));
}

} // verus!
