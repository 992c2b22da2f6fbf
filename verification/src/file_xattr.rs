//! The extended attributes of files.

use vstd::prelude::*;
use vstd::utf8::{encode_utf8, valid_utf8};
use crate::bytes::{le32, le32_at, splice, zeros};
use crate::content::{held, told, told_all, Disk};
use crate::data::bytes_in;
use crate::device::{since, Block, BlockDevice, Event};
use crate::error::{failed, ErrCode, Ext4Error, Result};
use crate::fs::Ext4;
use crate::inode::{with_wide48, InodeRef};
use crate::staged::holds_home;
use crate::superblock::{checksummed, seed_in, xattr_sum, SuperBlock};
use crate::volume::Volume;
use crate::xattr::{
    attributes_in, decoded, encoded, fits, lemma_attributes_read_back,
    lemma_checksum_keeps_attributes, lemma_insert_keeps_others, lemma_placed,
    lemma_remove_keeps_others, tidy, value_of, without, Attribute, XattrBlock,
};
use crate::{InodeId, PBlockId, BLOCK_SIZE};

verus! {

/// Whether the checksum of an attribute block is right, where there is one.
pub open spec fn attributes_sound(super_raw: Seq<u8>, bytes: Seq<u8>, id: PBlockId) -> bool {
    !checksummed(super_raw) || le32_at(bytes, 16) == xattr_sum(bytes, id, seed_in(super_raw))
}

/// An attribute block with its checksum, where there is one.
pub open spec fn sealed_attributes(super_raw: Seq<u8>, bytes: Seq<u8>, id: PBlockId) -> Seq<u8> {
    if checksummed(super_raw) {
        splice(bytes, 16, le32(xattr_sum(bytes, id, seed_in(super_raw))))
    } else {
        bytes
    }
}

/// The attributes without the one called `name`, where they can be written without it.
pub open spec fn reduced(entries: Seq<Attribute>, name: Seq<u8>) -> Seq<Attribute> {
    let rest = without(entries, name);
    if value_of(entries, name) is Some && fits(rest, rest.len()) {
        rest
    } else {
        entries
    }
}

/// The block once an attribute was set, if there is room for it.
pub open spec fn with_attribute(bytes: Seq<u8>, name: Seq<u8>, value: Seq<u8>) -> Option<Seq<u8>> {
    let grown = reduced(attributes_in(bytes), name).push((name, value));
    if decoded(bytes) is Some && fits(grown, grown.len()) {
        Some(encoded(grown))
    } else {
        None
    }
}

/// A block with one attribute, if there is room for it.
pub open spec fn first_attribute(name: Seq<u8>, value: Seq<u8>) -> Option<Seq<u8>> {
    let entries = seq![(name, value)];
    if fits(entries, 1) {
        Some(encoded(entries))
    } else {
        None
    }
}

/// The block once an attribute was removed, if it has the attribute.
pub open spec fn without_attribute(bytes: Seq<u8>, name: Seq<u8>) -> Option<Seq<u8>> {
    let entries = attributes_in(bytes);
    let rest = without(entries, name);
    if value_of(entries, name) is Some && fits(rest, rest.len()) {
        Some(encoded(rest))
    } else {
        None
    }
}

/// The names of attributes that are text.
pub open spec fn text_names(entries: Seq<Attribute>) -> Seq<Seq<u8>>
    decreases entries.len(),
{
    if entries.len() == 0 {
        Seq::empty()
    } else {
        let names = text_names(entries.drop_last());
        if valid_utf8(entries.last().0) {
            names.push(entries.last().0)
        } else {
            names
        }
    }
}

/// The bytes of each string.
pub open spec fn encodings(names: Seq<String>) -> Seq<Seq<u8>> {
    names.map_values(|name: String| encode_utf8(name@))
}

/// Whether a listing of names is the given one.
pub open spec fn lists(outcome: Result<Vec<String>>, names: Result<Seq<Seq<u8>>>) -> bool {
    match names {
        Ok(names) => outcome matches Ok(found) && encodings(found@) == names,
        Err(error) => outcome == Err::<Vec<String>, Ext4Error>(error),
    }
}

/// `String::from_utf8`: the bytes as text, where they are UTF-8; the text has the same bytes.
#[verifier::external_body]
fn text_of(bytes: Vec<u8>) -> (text: Option<String>)
    ensures
        match text {
            Some(text) => valid_utf8(bytes@) && encode_utf8(text@) == bytes@,
            None => !valid_utf8(bytes@),
        },
{
    String::from_utf8(bytes).ok()
}

impl<D: BlockDevice, V: Volume<D>> Ext4<D, V> {
    /// Fails where the checksum of an attribute block is wrong.
    fn verify_xattr_block_checksum(&self, id: PBlockId, block: &XattrBlock) -> (outcome: Result<()>)
        ensures
            outcome == if attributes_sound(self.state().superblock, block.bytes(), id) {
                Ok::<(), Ext4Error>(())
            } else {
                failed(ErrCode::EIO)
            },
    {
        let superblock: SuperBlock = self.read_super_block_cached();
        if superblock.has_checksums() && !block.verify_checksum(
            superblock.metadata_checksum_seed(),
            id,
        ) {
            return Err(Ext4Error::new(ErrCode::EIO));
        }
        Ok(())
    }

    /// Stores the checksum of an attribute block.
    fn update_xattr_block_checksum(&self, id: PBlockId, block: &mut XattrBlock)
        ensures
            final(block).id() == old(block).id(),
            final(block).bytes() == sealed_attributes(
                self.state().superblock,
                old(block).bytes(),
                id,
            ),
    {
        let superblock: SuperBlock = self.read_super_block_cached();
        if superblock.has_checksums() {
            block.update_checksum(superblock.metadata_checksum_seed(), id);
        }
    }

    /// What reading an attribute block calls and returns.
    pub open spec fn attributes_loaded(
        &self,
        after: &Self,
        id: PBlockId,
        outcome: Result<Block>,
    ) -> bool {
        exists|reply: Result<Block>|
            {
                &&& #[trigger] self.block_read(after, id, reply)
                &&& outcome == match reply {
                    Ok(block) => if attributes_sound(
                        self.state().superblock,
                        block.data@,
                        id,
                    ) {
                        reply
                    } else {
                        failed(ErrCode::EIO)
                    },
                    Err(error) => reply,
                }
            }
    }

    /// Reads an attribute block.
    fn load_attributes(&mut self, id: PBlockId) -> (outcome: Result<XattrBlock>)
        requires
            old(self).inv(),
        ensures
            final(self).state() == old(self).state(),
            match outcome {
                Ok(found) => exists|block: Block|
                    {
                        &&& #[trigger] old(self).attributes_loaded(final(self), id, Ok(block))
                        &&& found.id() == block.id
                        &&& found.bytes() == block.data@
                    },
                Err(error) => old(self).attributes_loaded(final(self), id, Err(error)),
            },
    {
        let reply = self.read_block(id);
        assert(old(self).block_read(self, id, reply));
        let block = match reply {
            Ok(block) => block,
            Err(error) => {
                assert(old(self).attributes_loaded(self, id, Err(error)));
                return Err(error);
            },
        };
        let ghost read = block;
        let found = XattrBlock::new(block);
        match self.verify_xattr_block_checksum(id, &found) {
            Ok(_) => {
                assert(old(self).attributes_loaded(self, id, Ok(read)));
                Ok(found)
            },
            Err(error) => {
                assert(old(self).attributes_loaded(self, id, Err(error)));
                Err(error)
            },
        }
    }

    /// What reading an attribute of an inode calls and returns.
    pub open spec fn attribute_fetched(
        &self,
        after: &Self,
        inode: InodeRef,
        name: Seq<u8>,
        outcome: Result<Seq<u8>>,
    ) -> bool {
        let id = inode.inode.attribute_block();
        if id == 0 {
            self.idle(after) && outcome == failed::<Seq<u8>>(ErrCode::ENODATA)
        } else {
            exists|block: Result<Block>|
                {
                    &&& #[trigger] self.attributes_loaded(after, id, block)
                    &&& outcome == match block {
                        Ok(found) => match value_of(attributes_in(found.data@), name) {
                            Some(value) => Ok::<Seq<u8>, Ext4Error>(value),
                            None => failed(ErrCode::ENODATA),
                        },
                        Err(error) => Err(error),
                    }
                }
        }
    }

    /// What reading an attribute calls and returns.
    pub open spec fn attribute_read(
        &self,
        after: &Self,
        id: InodeId,
        name: Seq<u8>,
        outcome: Result<Seq<u8>>,
    ) -> bool {
        exists|read: Self, found: Result<InodeRef>|
            {
                &&& #[trigger] self.inode_read(&read, id, found)
                &&& match found {
                    Ok(inode) => read.attribute_fetched(after, inode, name, outcome),
                    Err(error) => read.idle(after) && outcome == Err::<Seq<u8>, Ext4Error>(error),
                }
            }
    }

    /// The value of an extended attribute.
    pub fn getxattr(&mut self, inode: InodeId, name: &str) -> (outcome: Result<Vec<u8>>)
        requires
            old(self).inv(),
        ensures
            final(self).state() == old(self).state(),
            old(self).attribute_read(
                final(self),
                inode,
                encode_utf8(name@),
                bytes_in(outcome),
            ),
    {
        let found = self.read_inode(inode);
        let ghost read = *self;
        assert(old(self).inode_read(&read, inode, found));
        let file = match found {
            Ok(file) => file,
            Err(error) => {
                return Err(error);
            },
        };
        let home: PBlockId = file.inode.xattr_block();
        if home == 0 {
            return Err(Ext4Error::new(ErrCode::ENODATA));
        }
        let block = match self.load_attributes(home) {
            Ok(block) => block,
            Err(error) => {
                assert(read.attributes_loaded(self, home, Err(error)));
                return Err(error);
            },
        };
        match block.get(name.as_bytes()) {
            Some(value) => Ok(value),
            None => Err(Ext4Error::new(ErrCode::ENODATA)),
        }
    }

    /// What listing the attributes of an inode calls and returns.
    pub open spec fn attributes_fetched(
        &self,
        after: &Self,
        inode: InodeRef,
        outcome: Result<Seq<Seq<u8>>>,
    ) -> bool {
        let id = inode.inode.attribute_block();
        if id == 0 {
            self.idle(after) && outcome == Ok::<Seq<Seq<u8>>, Ext4Error>(Seq::empty())
        } else {
            exists|block: Result<Block>|
                {
                    &&& #[trigger] self.attributes_loaded(after, id, block)
                    &&& outcome == match block {
                        Ok(found) => Ok::<Seq<Seq<u8>>, Ext4Error>(
                            text_names(attributes_in(found.data@)),
                        ),
                        Err(error) => Err(error),
                    }
                }
        }
    }

    /// What listing attributes calls and returns.
    pub open spec fn attributes_listed(
        &self,
        after: &Self,
        id: InodeId,
        outcome: Result<Seq<Seq<u8>>>,
    ) -> bool {
        exists|read: Self, found: Result<InodeRef>|
            {
                &&& #[trigger] self.inode_read(&read, id, found)
                &&& match found {
                    Ok(inode) => read.attributes_fetched(after, inode, outcome),
                    Err(error) => read.idle(after) && outcome == Err::<Seq<Seq<u8>>, Ext4Error>(
                        error,
                    ),
                }
            }
    }

    /// The names of the extended attributes of a file.
    pub fn listxattr(&mut self, inode: InodeId) -> (outcome: Result<Vec<String>>)
        requires
            old(self).inv(),
        ensures
            final(self).state() == old(self).state(),
            exists|names: Result<Seq<Seq<u8>>>|
                {
                    &&& #[trigger] old(self).attributes_listed(final(self), inode, names)
                    &&& lists(outcome, names)
                },
    {
        let found = self.read_inode(inode);
        let ghost read = *self;
        assert(old(self).inode_read(&read, inode, found));
        let file = match found {
            Ok(file) => file,
            Err(error) => {
                assert(old(self).attributes_listed(self, inode, Err(error)));
                return Err(error);
            },
        };
        let home: PBlockId = file.inode.xattr_block();
        if home == 0 {
            let none: Vec<String> = Vec::new();
            assert(encodings(none@) =~= Seq::<Seq<u8>>::empty());
            assert(old(self).attributes_listed(self, inode, Ok(Seq::empty())));
            return Ok(none);
        }
        let block = match self.load_attributes(home) {
            Ok(block) => block,
            Err(error) => {
                assert(read.attributes_loaded(self, home, Err(error)));
                assert(read.attributes_fetched(self, file, Err(error)));
                assert(old(self).attributes_listed(self, inode, Err(error)));
                return Err(error);
            },
        };
        let ghost loaded = choose|loaded: Block|
            {
                &&& #[trigger] read.attributes_loaded(self, home, Ok(loaded))
                &&& block.id() == loaded.id
                &&& block.bytes() == loaded.data@
            };
        let names = block.list();
        let texts = texts_of(names, Ghost(block.entries()));
        assert(read.attributes_loaded(self, home, Ok(loaded)));
        assert(read.attributes_fetched(self, file, Ok(text_names(block.entries()))));
        assert(old(self).attributes_listed(self, inode, Ok(text_names(block.entries()))));
        Ok(texts)
    }
}

/// The names that are text.
fn texts_of(names: Vec<Vec<u8>>, Ghost(entries): Ghost<Seq<Attribute>>) -> (texts: Vec<String>)
    requires
        names@.len() == entries.len(),
        forall|i: int| 0 <= i < names@.len() ==> (#[trigger] names@[i])@ == entries[i].0,
    ensures
        encodings(texts@) == text_names(entries),
{
    let mut texts: Vec<String> = Vec::new();
    let count: usize = names.len();
    let mut at: usize = 0;
    assert(encodings(texts@) =~= text_names(entries.take(0)));
    while at < count
        invariant
            at <= count,
            count == names@.len(),
            names@.len() == entries.len(),
            forall|i: int| 0 <= i < names@.len() ==> (#[trigger] names@[i])@ == entries[i].0,
            encodings(texts@) == text_names(entries.take(at as int)),
        decreases count - at,
    {
        let ghost earlier = texts@;
        let mut name: Vec<u8> = Vec::new();
        crate::data::append(&mut name, names[at].as_slice());
        assert(name@ =~= entries[at as int].0);
        assert(entries.take(at + 1).drop_last() =~= entries.take(at as int));
        match text_of(name) {
            Some(text) => {
                texts.push(text);
                assert(encodings(texts@) =~= encodings(earlier).push(entries[at as int].0));
            },
            None => {},
        }
        at = at + 1;
    }
    assert(entries.take(at as int) =~= entries);
    texts
}

impl<D: BlockDevice, V: Volume<D>> Ext4<D, V> {
    /// What writing the inode that names a new attribute block calls and returns.
    pub open spec fn attributes_named(
        &self,
        after: &Self,
        inode: InodeRef,
        home: PBlockId,
        outcome: Result<()>,
    ) -> bool {
        exists|named: InodeRef, sealed: InodeRef|
            {
                &&& #[trigger] self.inode_written(after, named, sealed, outcome)
                &&& named.id == inode.id
                &&& named.inode@ == with_wide48(inode.inode@, 104, 118, home)
            }
    }

    /// What writing a new attribute block, and what follows, calls and returns.
    pub open spec fn attributes_stored(
        &self,
        after: &Self,
        inode: InodeRef,
        home: PBlockId,
        block: Block,
        bytes: Seq<u8>,
        outcome: Result<()>,
    ) -> bool {
        exists|written: Self, reply: Result<()>|
            {
                &&& #[trigger] self.did(
                    &written,
                    Event::WriteBlock {
                        id: block.id,
                        data: sealed_attributes(self.state().superblock, bytes, home),
                        reply,
                    },
                )
                &&& match reply {
                    Ok(_) => written.attributes_named(after, inode, home, outcome),
                    Err(error) => written.idle(after) && outcome == Err::<(), Ext4Error>(error),
                }
            }
    }

    /// What filling a new attribute block calls and returns.
    pub open spec fn attributes_started(
        &self,
        after: &Self,
        inode: InodeRef,
        home: PBlockId,
        name: Seq<u8>,
        value: Seq<u8>,
        outcome: Result<()>,
    ) -> bool {
        exists|read: Self, reply: Result<Block>|
            {
                &&& #[trigger] self.block_read(&read, home, reply)
                &&& match reply {
                    Ok(block) => match first_attribute(name, value) {
                        Some(bytes) => read.attributes_stored(
                            after,
                            inode,
                            home,
                            block,
                            bytes,
                            outcome,
                        ),
                        None => read.idle(after) && outcome == failed::<()>(ErrCode::ENOSPC),
                    },
                    Err(error) => read.idle(after) && outcome == Err::<(), Ext4Error>(error),
                }
            }
    }

    /// Fills a new attribute block.
    fn start_attributes(&mut self, inode: &InodeRef, home: PBlockId, name: &[u8], value: &[u8]) -> (
    outcome: Result<()>)
        requires
            old(self).inv(),
        ensures
            final(self).state() == old(self).state(),
            old(self).attributes_started(
                final(self),
                *inode,
                home,
                name@,
                value@,
                outcome,
            ),
    {
        let reply = self.read_block(home);
        let ghost read = *self;
        let ghost answer = reply;
        assert(old(self).block_read(&read, home, answer));
        let block = match reply {
            Ok(block) => block,
            Err(error) => {
                return Err(error);
            },
        };
        let ghost original = block;
        let mut attributes = XattrBlock::new(block);
        attributes.init();
        proof {
            lemma_attributes_read_back(Seq::empty());
        }
        assert(attributes.entries().push((name@, value@)) =~= seq![(name@, value@)]);
        if !attributes.insert(name, value) {
            return Err(Ext4Error::new(ErrCode::ENOSPC));
        }
        let ghost bytes = attributes.bytes();
        self.update_xattr_block_checksum(home, &mut attributes);
        let reply = self.write_block(attributes.block());
        let ghost written = *self;
        assert(read.did(
            &written,
            Event::WriteBlock {
                id: original.id,
                data: sealed_attributes(read.state().superblock, bytes, home),
                reply,
            },
        ));
        let outcome: Result<()> = match reply {
            Ok(_) => {
                let mut named = *inode;
                named.inode.set_xattr_block(home);
                let ghost linked = named;
                let outcome = self.write_inode_with_csum(&mut named);
                assert(written.inode_written(self, linked, named, outcome));
                outcome
            },
            Err(error) => Err(error),
        };
        assert(read.attributes_stored(self, *inode, home, original, bytes, outcome));
        outcome
    }

    /// What filling a block that was allocated for attributes calls, changes and returns: a block
    /// that cannot be used is released.
    pub open spec fn attributes_tried(
        &self,
        after: &Self,
        inode: InodeRef,
        home: PBlockId,
        name: Seq<u8>,
        value: Seq<u8>,
        outcome: Result<()>,
    ) -> bool {
        exists|tried: Self, reply: Result<()>|
            {
                &&& #[trigger] self.attributes_started(&tried, inode, home, name, value, reply)
                &&& match reply {
                    Ok(_) => tried.idle(after) && outcome == Ok::<(), Ext4Error>(()),
                    Err(error) => tried.home_given_back(after, home, error, outcome),
                }
            }
    }

    /// What releasing a block after `error` calls, changes and returns.
    pub open spec fn home_given_back(
        &self,
        after: &Self,
        home: PBlockId,
        error: Ext4Error,
        outcome: Result<()>,
    ) -> bool {
        exists|undone: Result<()>|
            {
                &&& #[trigger] self.block_released(after, home, undone)
                &&& outcome == match undone {
                    Ok(_) => Err::<(), Ext4Error>(error),
                    Err(fault) => Err(fault),
                }
            }
    }

    /// What giving an inode its first attribute calls, changes and returns.
    pub open spec fn attributes_begun(
        &self,
        after: &Self,
        inode: InodeRef,
        name: Seq<u8>,
        value: Seq<u8>,
        outcome: Result<()>,
    ) -> bool {
        exists|taken: Self, home: Result<PBlockId>|
            {
                &&& #[trigger] self.block_allocated(&taken, inode.id, home)
                &&& match home {
                    Ok(home) => taken.attributes_tried(
                        after,
                        inode,
                        home,
                        name,
                        value,
                        outcome,
                    ),
                    Err(error) => taken.idle(after) && outcome == Err::<(), Ext4Error>(error),
                }
            }
    }

    /// Gives an inode its first attribute.
    fn begin_attributes(&mut self, inode: &InodeRef, name: &[u8], value: &[u8]) -> (outcome: Result<
        (),
    >)
        requires
            old(self).inv(),
        ensures
            final(self).inv(),
            old(self).frame_kept(final(self)),
            old(self).attributes_begun(final(self), *inode, name@, value@, outcome),
    {
        let home = self.alloc_block(inode);
        let ghost taken = *self;
        assert(old(self).block_allocated(&taken, inode.id, home));
        let home: PBlockId = match home {
            Ok(home) => home,
            Err(error) => {
                return Err(error);
            },
        };
        let reply = self.start_attributes(inode, home, name, value);
        let ghost tried = *self;
        assert(taken.attributes_started(&tried, *inode, home, name@, value@, reply));
        let outcome: Result<()> = match reply {
            Ok(_) => Ok(()),
            Err(error) => {
                let undone = self.dealloc_block(home);
                assert(tried.block_released(self, home, undone));
                let outcome: Result<()> = match undone {
                    Ok(_) => Err(error),
                    Err(fault) => Err(fault),
                };
                assert(tried.home_given_back(self, home, error, outcome));
                outcome
            },
        };
        assert(taken.attributes_tried(self, *inode, home, name@, value@, outcome));
        outcome
    }

    /// What setting an attribute in a block that was read calls and returns.
    pub open spec fn attribute_stored(
        &self,
        after: &Self,
        home: PBlockId,
        block: Block,
        name: Seq<u8>,
        value: Seq<u8>,
        create: bool,
        replace: bool,
        outcome: Result<()>,
    ) -> bool {
        let exists_already = value_of(attributes_in(block.data@), name) is Some;
        if exists_already && create {
            self.idle(after) && outcome == failed::<()>(ErrCode::EEXIST)
        } else if !exists_already && replace {
            self.idle(after) && outcome == failed::<()>(ErrCode::ENODATA)
        } else {
            match with_attribute(block.data@, name, value) {
                Some(bytes) => self.did(
                    after,
                    Event::WriteBlock {
                        id: block.id,
                        data: sealed_attributes(self.state().superblock, bytes, home),
                        reply: outcome,
                    },
                ),
                None => self.idle(after) && outcome == failed::<()>(ErrCode::ENOSPC),
            }
        }
    }

    /// Sets an attribute in a block that was read.
    fn store_attribute(
        &mut self,
        home: PBlockId,
        attributes: XattrBlock,
        name: &[u8],
        value: &[u8],
        create: bool,
        replace: bool,
        Ghost(block): Ghost<Block>,
    ) -> (outcome: Result<()>)
        requires
            old(self).inv(),
            attributes.id() == block.id,
            attributes.bytes() == block.data@,
        ensures
            final(self).state() == old(self).state(),
            old(self).attribute_stored(
                final(self),
                home,
                block,
                name@,
                value@,
                create,
                replace,
                outcome,
            ),
    {
        let present: bool = attributes.get(name).is_some();
        if present && create {
            return Err(Ext4Error::new(ErrCode::EEXIST));
        }
        if !present && replace {
            return Err(Ext4Error::new(ErrCode::ENODATA));
        }
        let mut changed = attributes;
        if present {
            let removed: bool = changed.remove(name);
            proof {
                if removed {
                    lemma_attributes_read_back(without(attributes_in(block.data@), name@));
                }
            }
        }
        assert(changed.entries() == reduced(attributes_in(block.data@), name@));
        if changed.insert(name, value) {
            self.update_xattr_block_checksum(home, &mut changed);
            self.write_block(changed.block())
        } else {
            Err(Ext4Error::new(ErrCode::ENOSPC))
        }
    }

    /// What setting an attribute of an inode calls, changes and returns.
    pub open spec fn attribute_changed(
        &self,
        after: &Self,
        inode: InodeRef,
        name: Seq<u8>,
        value: Seq<u8>,
        create: bool,
        replace: bool,
        outcome: Result<()>,
    ) -> bool {
        let home = inode.inode.attribute_block();
        if home == 0 {
            if replace {
                self.idle(after) && outcome == failed::<()>(ErrCode::ENODATA)
            } else {
                self.attributes_begun(after, inode, name, value, outcome)
            }
        } else {
            exists|read: Self, block: Result<Block>|
                {
                    &&& #[trigger] self.attributes_loaded(&read, home, block)
                    &&& match block {
                        Ok(found) => read.attribute_stored(
                            after,
                            home,
                            found,
                            name,
                            value,
                            create,
                            replace,
                            outcome,
                        ),
                        Err(error) => read.idle(after) && outcome == Err::<(), Ext4Error>(error),
                    }
                }
        }
    }

    /// Sets an attribute of an inode.
    fn change_attribute(
        &mut self,
        inode: &InodeRef,
        name: &[u8],
        value: &[u8],
        create: bool,
        replace: bool,
    ) -> (outcome: Result<()>)
        requires
            old(self).inv(),
        ensures
            final(self).inv(),
            old(self).frame_kept(final(self)),
            old(self).attribute_changed(
                final(self),
                *inode,
                name@,
                value@,
                create,
                replace,
                outcome,
            ),
    {
        let home: PBlockId = inode.inode.xattr_block();
        if home == 0 {
            if replace {
                return Err(Ext4Error::new(ErrCode::ENODATA));
            }
            return self.begin_attributes(inode, name, value);
        }
        let attributes = match self.load_attributes(home) {
            Ok(attributes) => attributes,
            Err(error) => {
                assert(old(self).attributes_loaded(self, home, Err(error)));
                return Err(error);
            },
        };
        let ghost read = *self;
        let ghost loaded = choose|loaded: Block|
            {
                &&& #[trigger] old(self).attributes_loaded(&read, home, Ok(loaded))
                &&& attributes.id() == loaded.id
                &&& attributes.bytes() == loaded.data@
            };
        assert(old(self).attributes_loaded(&read, home, Ok(loaded)));
        self.store_attribute(home, attributes, name, value, create, replace, Ghost(loaded))
    }

    /// What setting an attribute calls, changes and returns, inside the barrier.
    pub open spec fn attribute_set(
        &self,
        after: &Self,
        id: InodeId,
        name: Seq<u8>,
        value: Seq<u8>,
        create: bool,
        replace: bool,
        outcome: Result<()>,
    ) -> bool {
        exists|read: Self, found: Result<InodeRef>|
            {
                &&& #[trigger] self.inode_read(&read, id, found)
                &&& match found {
                    Ok(inode) => read.attribute_changed(
                        after,
                        inode,
                        name,
                        value,
                        create,
                        replace,
                        outcome,
                    ),
                    Err(error) => read.idle(after) && outcome == Err::<(), Ext4Error>(error),
                }
            }
    }

    /// Sets an attribute, inside the barrier.
    fn set_attribute(
        &mut self,
        id: InodeId,
        name: &[u8],
        value: &[u8],
        create: bool,
        replace: bool,
    ) -> (outcome: Result<()>)
        requires
            old(self).inv(),
        ensures
            final(self).inv(),
            old(self).frame_kept(final(self)),
            old(self).attribute_set(
                final(self),
                id,
                name@,
                value@,
                create,
                replace,
                outcome,
            ),
    {
        let found = self.read_inode(id);
        let ghost read = *self;
        assert(old(self).inode_read(&read, id, found));
        match found {
            Ok(inode) => self.change_attribute(&inode, name, value, create, replace),
            Err(error) => Err(error),
        }
    }

    /// What setting an attribute calls, changes and returns, with the barrier.
    pub open spec fn attribute_assigned(
        &self,
        after: &Self,
        id: InodeId,
        name: Seq<u8>,
        value: Seq<u8>,
        create: bool,
        replace: bool,
        outcome: Result<()>,
    ) -> bool {
        self.changed_directly(
            after,
            |inside: Self, left: Self, outcome: Result<()>|
                inside.attribute_set(&left, id, name, value, create, replace, outcome),
            outcome,
        )
    }

    /// Sets an extended attribute: `create` fails where there is one already, and `replace` where
    /// there is none.
    ///
    /// The block is changed as a copy, and written once all of the change is done, so that the
    /// old value stays where the new one does not fit.
    pub fn setxattr_with_flags(
        &mut self,
        inode: InodeId,
        name: &str,
        value: &[u8],
        create: bool,
        replace: bool,
    ) -> (outcome: Result<()>)
        requires
            old(self).inv(),
        ensures
            final(self).inv(),
            final(self).state().gate == old(self).state().gate,
            old(self).attribute_assigned(
                final(self),
                inode,
                encode_utf8(name@),
                value@,
                create,
                replace,
                outcome,
            ),
    {
        match self.ensure_mutable() {
            Ok(_) => {},
            Err(error) => {
                return Err(error);
            },
        }
        let lock = self.lock_direct_metadata_mutation();
        let ghost inside = *self;
        assert(old(self).direct_entered(&inside, lock));
        match lock {
            Ok(_) => {},
            Err(error) => {
                return Err(error);
            },
        }
        let outcome = self.set_attribute(inode, name.as_bytes(), value, create, replace);
        self.unlock_direct_metadata_mutation();
        outcome
    }

    /// Sets an extended attribute.
    pub fn setxattr(&mut self, inode: InodeId, name: &str, value: &[u8]) -> (outcome: Result<()>)
        requires
            old(self).inv(),
        ensures
            final(self).inv(),
            final(self).state().gate == old(self).state().gate,
            old(self).attribute_assigned(
                final(self),
                inode,
                encode_utf8(name@),
                value@,
                false,
                false,
                outcome,
            ),
    {
        self.setxattr_with_flags(inode, name, value, false, false)
    }

    /// What removing an attribute from a block that was read calls and returns.
    pub open spec fn attribute_cut(
        &self,
        after: &Self,
        home: PBlockId,
        block: Block,
        name: Seq<u8>,
        outcome: Result<()>,
    ) -> bool {
        match without_attribute(block.data@, name) {
            Some(bytes) => self.did(
                after,
                Event::WriteBlock {
                    id: block.id,
                    data: sealed_attributes(self.state().superblock, bytes, home),
                    reply: outcome,
                },
            ),
            None => self.idle(after) && outcome == failed::<()>(ErrCode::ENODATA),
        }
    }

    /// What removing an attribute of an inode calls and returns.
    pub open spec fn attribute_dropped(
        &self,
        after: &Self,
        inode: InodeRef,
        name: Seq<u8>,
        outcome: Result<()>,
    ) -> bool {
        let home = inode.inode.attribute_block();
        if home == 0 {
            self.idle(after) && outcome == failed::<()>(ErrCode::ENODATA)
        } else {
            exists|read: Self, block: Result<Block>|
                {
                    &&& #[trigger] self.attributes_loaded(&read, home, block)
                    &&& match block {
                        Ok(found) => read.attribute_cut(after, home, found, name, outcome),
                        Err(error) => read.idle(after) && outcome == Err::<(), Ext4Error>(error),
                    }
                }
        }
    }

    /// What removing an attribute calls and returns, inside the barrier.
    pub open spec fn attribute_removed(
        &self,
        after: &Self,
        id: InodeId,
        name: Seq<u8>,
        outcome: Result<()>,
    ) -> bool {
        exists|read: Self, found: Result<InodeRef>|
            {
                &&& #[trigger] self.inode_read(&read, id, found)
                &&& match found {
                    Ok(inode) => read.attribute_dropped(after, inode, name, outcome),
                    Err(error) => read.idle(after) && outcome == Err::<(), Ext4Error>(error),
                }
            }
    }

    /// What removing an attribute calls, changes and returns, with the barrier.
    pub open spec fn attribute_unset(
        &self,
        after: &Self,
        id: InodeId,
        name: Seq<u8>,
        outcome: Result<()>,
    ) -> bool {
        self.changed_directly(
            after,
            |inside: Self, left: Self, outcome: Result<()>|
                inside.attribute_removed(&left, id, name, outcome),
            outcome,
        )
    }

    /// Removes an attribute, inside the barrier.
    fn remove_attribute(&mut self, id: InodeId, name: &[u8]) -> (outcome: Result<()>)
        requires
            old(self).inv(),
        ensures
            final(self).state() == old(self).state(),
            old(self).attribute_removed(final(self), id, name@, outcome),
    {
        let found = self.read_inode(id);
        let ghost opened = *self;
        assert(old(self).inode_read(&opened, id, found));
        let inode = match found {
            Ok(inode) => inode,
            Err(error) => {
                return Err(error);
            },
        };
        let home: PBlockId = inode.inode.xattr_block();
        if home == 0 {
            return Err(Ext4Error::new(ErrCode::ENODATA));
        }
        let mut attributes = match self.load_attributes(home) {
            Ok(attributes) => attributes,
            Err(error) => {
                assert(opened.attributes_loaded(self, home, Err(error)));
                return Err(error);
            },
        };
        let ghost read = *self;
        let ghost loaded = choose|loaded: Block|
            {
                &&& #[trigger] opened.attributes_loaded(&read, home, Ok(loaded))
                &&& attributes.id() == loaded.id
                &&& attributes.bytes() == loaded.data@
            };
        assert(opened.attributes_loaded(&read, home, Ok(loaded)));
        let outcome: Result<()> = if attributes.remove(name) {
            self.update_xattr_block_checksum(home, &mut attributes);
            self.write_block(attributes.block())
        } else {
            Err(Ext4Error::new(ErrCode::ENODATA))
        };
        assert(read.attribute_cut(self, home, loaded, name@, outcome));
        outcome
    }

    /// Removes an extended attribute.
    pub fn removexattr(&mut self, inode: InodeId, name: &str) -> (outcome: Result<()>)
        requires
            old(self).inv(),
        ensures
            final(self).inv(),
            final(self).state().gate == old(self).state().gate,
            old(self).attribute_unset(final(self), inode, encode_utf8(name@), outcome),
    {
        match self.ensure_mutable() {
            Ok(_) => {},
            Err(error) => {
                return Err(error);
            },
        }
        let lock = self.lock_direct_metadata_mutation();
        let ghost inside = *self;
        assert(old(self).direct_entered(&inside, lock));
        match lock {
            Ok(_) => {},
            Err(error) => {
                return Err(error);
            },
        }
        let outcome = self.remove_attribute(inode, name.as_bytes());
        self.unlock_direct_metadata_mutation();
        outcome
    }
}

/// The checksum of an attribute block is right once it is stored, and leaves the attributes.
pub proof fn lemma_sealed_attributes_are_sound(super_raw: Seq<u8>, bytes: Seq<u8>, id: PBlockId)
    requires
        bytes.len() == BLOCK_SIZE,
    ensures
        attributes_sound(super_raw, sealed_attributes(super_raw, bytes, id), id),
        decoded(sealed_attributes(super_raw, bytes, id)) == decoded(bytes),
{
    broadcast use crate::bytes::lemma_le32_round_trip;

    if checksummed(super_raw) {
        let sum = xattr_sum(bytes, id, seed_in(super_raw));
        let sealed = splice(bytes, 16, le32(sum));
        lemma_checksum_keeps_attributes(bytes, sum);
        assert(splice(sealed, 16, zeros(4)) =~= splice(bytes, 16, zeros(4)));
    }
}

/// Setting an attribute of a block gives it the value, and leaves the values of the others.
pub proof fn lemma_set_attribute_is_read(
    super_raw: Seq<u8>,
    bytes: Seq<u8>,
    id: PBlockId,
    name: Seq<u8>,
    value: Seq<u8>,
    other: Seq<u8>,
)
    requires
        tidy(attributes_in(bytes)),
        with_attribute(bytes, name, value) is Some,
    ensures
        ({
            let stored = sealed_attributes(super_raw, with_attribute(bytes, name, value)->0, id);
            let entries = attributes_in(stored);
            &&& attributes_sound(super_raw, stored, id)
            &&& tidy(entries)
            &&& value_of(entries, name) == Some(value)
            &&& other != name ==> value_of(entries, other) == value_of(attributes_in(bytes), other)
        }),
{
    let entries = attributes_in(bytes);
    let rest = reduced(entries, name);
    let grown = rest.push((name, value));
    if value_of(entries, name) is Some {
        lemma_remove_keeps_others(entries, name, other);
    }
    lemma_insert_keeps_others(rest, name, value, other);
    lemma_placed(grown, grown.len());
    lemma_attributes_read_back(grown);
    lemma_sealed_attributes_are_sound(super_raw, encoded(grown), id);
}

/// Removing an attribute of a block leaves no value of it, and leaves the values of the others.
pub proof fn lemma_removed_attribute_is_gone(
    super_raw: Seq<u8>,
    bytes: Seq<u8>,
    id: PBlockId,
    name: Seq<u8>,
    other: Seq<u8>,
)
    requires
        tidy(attributes_in(bytes)),
    ensures
        without_attribute(bytes, name) is Some <==> value_of(attributes_in(bytes), name) is Some,
        without_attribute(bytes, name) matches Some(rest) ==> {
            let stored = sealed_attributes(super_raw, rest, id);
            let entries = attributes_in(stored);
            &&& attributes_sound(super_raw, stored, id)
            &&& tidy(entries)
            &&& value_of(entries, name) is None
            &&& other != name ==> value_of(entries, other) == value_of(attributes_in(bytes), other)
        },
{
    let entries = attributes_in(bytes);
    if value_of(entries, name) is Some {
        let rest = without(entries, name);
        lemma_remove_keeps_others(entries, name, other);
        lemma_placed(rest, rest.len());
        lemma_attributes_read_back(rest);
        lemma_sealed_attributes_are_sound(super_raw, encoded(rest), id);
    }
}

/// The first attribute of a file has its value.
pub proof fn lemma_first_attribute_is_read(
    super_raw: Seq<u8>,
    id: PBlockId,
    name: Seq<u8>,
    value: Seq<u8>,
)
    requires
        first_attribute(name, value) is Some,
    ensures
        ({
            let stored = sealed_attributes(super_raw, first_attribute(name, value)->0, id);
            &&& attributes_sound(super_raw, stored, id)
            &&& tidy(attributes_in(stored))
            &&& value_of(attributes_in(stored), name) == Some(value)
        }),
{
    let entries: Seq<Attribute> = seq![(name, value)];
    lemma_placed(entries, 1);
    lemma_attributes_read_back(entries);
    lemma_sealed_attributes_are_sound(super_raw, encoded(entries), id);
    assert(value_of(entries, name) == Some(value));
}

impl<D: BlockDevice, V: Volume<D>> Ext4<D, V> {
    /// What is read of an attribute that was set in the block of a file is the value that was
    /// set.
    pub proof fn lemma_stored_attribute_is_fetched(
        &self,
        written: &Self,
        later: &Self,
        after: &Self,
        inode: InodeRef,
        block: Block,
        name: Seq<u8>,
        value: Seq<u8>,
        create: bool,
        replace: bool,
        outcome: Result<Seq<u8>>,
        disk: Disk,
    )
        requires
            self.attribute_stored(
                written,
                block.id,
                block,
                name,
                value,
                create,
                replace,
                Ok(()),
            ),
            inode.inode.attribute_block() == block.id,
            block.id != 0,
            tidy(attributes_in(block.data@)),
            later.state() == self.state(),
            !holds_home(later.state().batch(), block.id),
            later.attribute_fetched(after, inode, name, outcome),
            told_all(
                since(later.log(), after.log()),
                held(disk, since(self.log(), written.log())),
            ),
            exists|read: Block|
                after.log() == later.log().push(Event::ReadBlock { id: block.id, reply: Ok(read) }),
        ensures
            outcome == Ok::<Seq<u8>, Ext4Error>(value),
    {
        let bytes = with_attribute(block.data@, name, value)->0;
        let stored = sealed_attributes(self.state().superblock, bytes, block.id);
        lemma_set_attribute_is_read(
            self.state().superblock,
            block.data@,
            block.id,
            name,
            value,
            name,
        );
        let call = Event::WriteBlock { id: block.id, data: stored, reply: Ok(()) };
        let calls = since(self.log(), written.log());
        assert(calls =~= seq![call]);
        assert(calls.skip(1) =~= Seq::<Event>::empty());
        reveal_with_fuel(held, 3);
        let last = held(disk, calls);
        assert(last == disk.insert(block.id, stored));
        let read = choose|read: Block|
            after.log() == later.log().push(Event::ReadBlock { id: block.id, reply: Ok(read) });
        assert(since(later.log(), after.log())[0] == Event::ReadBlock {
            id: block.id,
            reply: Ok::<Block, Ext4Error>(read),
        });
        assert(told(since(later.log(), after.log())[0], last));
        let loaded = choose|loaded: Result<Block>|
            {
                &&& #[trigger] later.attributes_loaded(after, block.id, loaded)
                &&& outcome == match loaded {
                    Ok(found) => match value_of(attributes_in(found.data@), name) {
                        Some(value) => Ok::<Seq<u8>, Ext4Error>(value),
                        None => failed(ErrCode::ENODATA),
                    },
                    Err(error) => Err(error),
                }
            };
        let reply = choose|reply: Result<Block>|
            {
                &&& #[trigger] later.block_read(after, block.id, reply)
                &&& loaded == match reply {
                    Ok(block) => if attributes_sound(
                        later.state().superblock,
                        block.data@,
                        block.id,
                    ) {
                        reply
                    } else {
                        failed(ErrCode::EIO)
                    },
                    Err(error) => reply,
                }
            };
        assert(after.log().last() == Event::ReadBlock { id: block.id, reply });
        assert(reply == Ok::<Block, Ext4Error>(read));
    }
}

} // verus!
