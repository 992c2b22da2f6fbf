//! What is created is what was asked for.

use vstd::prelude::*;
use crate::bytes::{le16, splice};
use crate::content::{lemma_extends, Disk};
use crate::device::{extends, since, Block, BlockDevice, Event};
use crate::error::{failed, ErrCode, Ext4Error, Result};
use crate::fs::{bytes_read, inode_found, Ext4};
use crate::inode::{
    attributes_of, type_of, FileAttr, FileType, InodeMode, InodeOwner, InodeRef, MODE_DIRECTORY,
    MODE_PERM_MASK,
};
use crate::namespace::{releases_inode, Birth};
use crate::naming::Names;
use crate::volume::{DirAddFailure, LayerCall, Volume};
use crate::xattr_law::no_faults;
use crate::InodeId;

verus! {

/// Whether two inodes are of one nature: they have the same number, type, permissions, owner and
/// device, and the same length if they are symbolic links.
#[verifier::opaque]
pub open spec fn alike(left: FileAttr, right: FileAttr) -> bool {
    &&& left.ino == right.ino
    &&& left.ftype == right.ftype
    &&& left.perm == right.perm
    &&& left.uid == right.uid
    &&& left.gid == right.gid
    &&& left.rdev == right.rdev
    &&& left.ftype == FileType::SymLink ==> left.size == right.size
}

/// Whether the layers make inodes of the mode and the owner that they are asked for, and symbolic
/// links as long as their targets, and keep that of an inode which gets a name or an entry.
#[verifier::opaque]
pub open spec fn obliging(call: Event) -> bool {
    match call {
        Event::Layer { call: LayerCall::CreateInode { mode, owner, reply: Ok(child) } } => {
            let attr = attributes_of(child);
            &&& attr.uid == owner.uid
            &&& attr.gid == owner.gid
            &&& attr.ftype == type_of(mode.bits)
            &&& attr.perm.bits == mode.bits & MODE_PERM_MASK
        },
        Event::Layer { call: LayerCall::CreateSymlink { target, owner, reply: Ok(child) } } => {
            let attr = attributes_of(child);
            &&& attr.uid == owner.uid
            &&& attr.gid == owner.gid
            &&& attr.ftype == FileType::SymLink
            &&& attr.size == target.len()
        },
        Event::Layer {
            call: LayerCall::CreateDevice { mode, major, minor, owner, reply: Ok(child) },
        } => {
            let attr = attributes_of(child);
            &&& attr.uid == owner.uid
            &&& attr.gid == owner.gid
            &&& attr.ftype == type_of(mode.bits)
            &&& attr.perm.bits == mode.bits & MODE_PERM_MASK
            &&& attr.rdev == (major, minor)
        },
        Event::Layer {
            call: LayerCall::AddEntry { dir, child, name, after, reply: Ok(_) },
        } => alike(attributes_of(dir), attributes_of(after)),
        Event::Layer {
            call: LayerCall::LinkInode {
                parent,
                child,
                name,
                parent_after,
                child_after,
                reply: Ok(_),
            },
        } => alike(attributes_of(child), attributes_of(child_after)),
        _ => true,
    }
}

/// Whether the layers fail no call that makes, names or releases an inode, and find entries or do
/// not.
#[verifier::opaque]
pub open spec fn willing(call: Event) -> bool {
    match call {
        Event::Layer { call: LayerCall::CreateInode { mode, owner, reply } } => reply is Ok,
        Event::Layer { call: LayerCall::CreateSymlink { target, owner, reply } } => reply is Ok,
        Event::Layer {
            call: LayerCall::CreateDevice { mode, major, minor, owner, reply },
        } => reply is Ok,
        Event::Layer { call: LayerCall::AddEntry { dir, child, name, after, reply } } => reply is Ok,
        Event::Layer {
            call: LayerCall::LinkInode { parent, child, name, parent_after, child_after, reply },
        } => reply is Ok,
        Event::Layer { call: LayerCall::FreeInode { inode, after, reply } } => reply is Ok,
        Event::Layer { call: LayerCall::FindEntry { dir, name, reply } } => reply matches Err(error)
            ==> error.code == ErrCode::ENOENT,
        _ => true,
    }
}

/// Whether an inode is of the type, the permissions and the owner that it was to be made with.
#[verifier::opaque]
pub open spec fn born_as(attr: FileAttr, birth: Birth) -> bool {
    match birth {
        Birth::File { mode, owner } => {
            &&& attr.uid == owner.uid
            &&& attr.gid == owner.gid
            &&& attr.ftype == type_of(mode.bits)
            &&& attr.perm.bits == mode.bits & MODE_PERM_MASK
        },
        Birth::Link { target, owner } => {
            &&& attr.uid == owner.uid
            &&& attr.gid == owner.gid
            &&& attr.ftype == FileType::SymLink
            &&& attr.size == target.len()
        },
        Birth::Device { mode, major, minor, owner } => {
            &&& attr.uid == owner.uid
            &&& attr.gid == owner.gid
            &&& attr.ftype == type_of(mode.bits)
            &&& attr.perm.bits == mode.bits & MODE_PERM_MASK
            &&& attr.rdev == (major, minor)
        },
        Birth::Directory { mode, owner } => {
            &&& attr.uid == owner.uid
            &&& attr.gid == owner.gid
            &&& attr.ftype == FileType::Directory
            &&& attr.perm.bits == mode.bits & MODE_PERM_MASK
        },
    }
}

/// An inode of one nature with another is what the other was to be.
proof fn lemma_alike_is_born(left: FileAttr, right: FileAttr, birth: Birth)
    requires
        alike(left, right),
    ensures
        born_as(left, birth) ==> born_as(right, birth),
{
    reveal(alike);
    reveal(born_as);
}

/// The number of names of an inode is no part of its nature.
proof fn lemma_counted_is_alike(grown: InodeRef, counted: InodeRef)
    requires
        counted.id == grown.id,
        counted.inode@ == splice(grown.inode@, 26, le16(1)),
    ensures
        alike(attributes_of(grown), attributes_of(counted)),
{
    reveal(alike);
    assert(counted.inode@.len() == grown.inode@.len());
}

/// The mode of a directory has its type and its permissions.
proof fn lemma_dir_mode(attr: FileAttr, mode: InodeMode, owner: InodeOwner)
    requires
        attr.uid == owner.uid,
        attr.gid == owner.gid,
        attr.ftype == type_of((mode.bits & MODE_PERM_MASK) | MODE_DIRECTORY),
        attr.perm.bits == ((mode.bits & MODE_PERM_MASK) | MODE_DIRECTORY) & MODE_PERM_MASK,
    ensures
        born_as(attr, (Birth::Directory { mode, owner })),
{
    reveal(born_as);
    let bits = mode.bits;
    assert(((bits & 0x0fff) | 0x4000) & 0xf000 == 0x4000) by (bit_vector);
    assert(((bits & 0x0fff) | 0x4000) & 0x0fff == bits & 0x0fff) by (bit_vector);
}

/// A directory that the layers made and gave its first entry is what it was to be.
proof fn lemma_dir_is_born(
    mode: InodeMode,
    owner: InodeOwner,
    child: InodeRef,
    grown: InodeRef,
    counted: InodeRef,
)
    requires
        obliging(
            Event::Layer {
                call: LayerCall::CreateInode {
                    mode: (InodeMode { bits: (mode.bits & MODE_PERM_MASK) | MODE_DIRECTORY }),
                    owner,
                    reply: Ok(child),
                },
            },
        ),
        obliging(
            Event::Layer {
                call: LayerCall::AddEntry {
                    dir: child,
                    child,
                    name: "."@,
                    after: grown,
                    reply: Ok(()),
                },
            },
        ),
        alike(attributes_of(grown), attributes_of(counted)),
    ensures
        born_as(attributes_of(counted), (Birth::Directory { mode, owner })),
{
    reveal(obliging);
    let birth = Birth::Directory { mode, owner };
    lemma_dir_mode(attributes_of(child), mode, owner);
    lemma_alike_is_born(attributes_of(child), attributes_of(grown), birth);
    lemma_alike_is_born(attributes_of(grown), attributes_of(counted), birth);
}

impl<D: BlockDevice, V: Volume<D>> Ext4<D, V> {
    /// Whether the layers are obliging on the way to a later state.
    pub open spec fn obliged(&self, after: &Self) -> bool {
        forall|k: int|
            self.log().len() <= k < after.log().len() ==> obliging(#[trigger] after.log()[k])
    }

    /// Whether the layers are willing on the way to a later state.
    pub open spec fn helped(&self, after: &Self) -> bool {
        forall|k: int|
            self.log().len() <= k < after.log().len() ==> willing(#[trigger] after.log()[k])
    }

    /// Giving a new inode a name keeps its nature, and goes on with the record.
    proof fn lemma_named_child(
        &self,
        after: &Self,
        parent: InodeRef,
        child: InodeRef,
        name: Seq<char>,
        outcome: Result<FileAttr>,
    )
        requires
            self.child_linked(after, parent, child, name, outcome),
        ensures
            extends(self.log(), after.log()),
            self.obliged(after) ==> (outcome matches Ok(attr) ==> alike(
                attributes_of(child),
                attr,
            )),
            self.helped(after) ==> outcome is Ok || outcome == failed::<FileAttr>(ErrCode::EEXIST)
                && releases_inode(after.log().last()),
    {
        let (named, reply) = choose|named: InodeRef, reply: Result<()>|
            {
                &&& #[trigger] self.new_linked(after, parent, child, named, name, reply)
                &&& outcome == match reply {
                    Ok(_) => Ok::<FileAttr, Ext4Error>(attributes_of(named)),
                    Err(error) => Err(error),
                }
            };
        let (asked, found) = choose|asked: Self, found: Result<InodeId>|
            {
                &&& #[trigger] self.asked(
                    &asked,
                    LayerCall::FindEntry { dir: parent, name, reply: found },
                )
                &&& match found {
                    Ok(_) => asked.released_after(
                        after,
                        child,
                        named,
                        (Ext4Error { code: ErrCode::EEXIST }),
                        reply,
                    ),
                    Err(error) => if error.code == ErrCode::ENOENT {
                        asked.name_added(after, parent, child, named, name, reply)
                    } else {
                        asked.released_after(after, child, named, error, reply)
                    },
                }
            };
        reveal(obliging);
        reveal(willing);
        let n = self.log().len() as int;
        let finding = Event::Layer {
            call: LayerCall::FindEntry { dir: parent, name, reply: found },
        };
        assert(asked.log()[n] == finding);
        if found matches Err(error) && error.code == ErrCode::ENOENT {
            let (linked, parent_after, given, answer) = choose|
                linked: Self,
                parent_after: InodeRef,
                given: InodeRef,
                answer: Result<()>,
            |
                {
                    &&& #[trigger] asked.asked(
                        &linked,
                        LayerCall::LinkInode {
                            parent,
                            child,
                            name,
                            parent_after,
                            child_after: given,
                            reply: answer,
                        },
                    )
                    &&& match answer {
                        Ok(_) => {
                            &&& linked.idle(after)
                            &&& named == given
                            &&& reply == Ok::<(), Ext4Error>(())
                        },
                        Err(error) => linked.released_after(after, given, named, error, reply),
                    }
                };
            let linking = Event::Layer {
                call: LayerCall::LinkInode {
                    parent,
                    child,
                    name,
                    parent_after,
                    child_after: given,
                    reply: answer,
                },
            };
            assert(linked.log()[n + 1] == linking);
            assert(after.log()[n + 1] == linking);
        } else {
            assert(after.log()[n] == finding);
            assert(after.log()[n + 1] == after.log().last());
        }
        assert(after.log().take(n) =~= self.log());
    }

    /// A new directory is of the mode and the owner that was asked for.
    proof fn lemma_new_dir(
        &self,
        after: &Self,
        mode: InodeMode,
        owner: InodeOwner,
        outcome: Result<InodeRef>,
    )
        requires
            self.dir_born(after, mode, owner, outcome),
        ensures
            extends(self.log(), after.log()),
            self.obliged(after) ==> (outcome matches Ok(child) ==> born_as(
                attributes_of(child),
                (Birth::Directory { mode, owner }),
            )),
            self.helped(after) ==> outcome is Ok,
    {
        let given = InodeMode { bits: (mode.bits & MODE_PERM_MASK) | MODE_DIRECTORY };
        let (made, reply) = choose|made: Self, reply: Result<InodeRef>|
            {
                &&& #[trigger] self.asked(
                    &made,
                    LayerCall::CreateInode { mode: given, owner, reply },
                )
                &&& match reply {
                    Ok(child) => made.dir_filled(after, child, outcome),
                    Err(error) => made.idle(after) && outcome == Err::<InodeRef, Ext4Error>(error),
                }
            };
        let n = self.log().len() as int;
        let making = Event::Layer { call: LayerCall::CreateInode { mode: given, owner, reply } };
        assert(made.log()[n] == making);
        reveal(willing);
        if let Ok(child) = reply {
            let (added, grown, answer) = choose|
                added: Self,
                grown: InodeRef,
                answer: core::result::Result<(), DirAddFailure>,
            |
                {
                    &&& #[trigger] made.asked(
                        &added,
                        LayerCall::AddEntry {
                            dir: child,
                            child,
                            name: "."@,
                            after: grown,
                            reply: answer,
                        },
                    )
                    &&& match answer {
                        Ok(_) => {
                            &&& added.idle(after)
                            &&& outcome matches Ok(counted)
                            &&& counted.id == grown.id
                            &&& counted.inode@ == splice(grown.inode@, 26, le16(1))
                        },
                        Err(failure) => added.dir_dropped(
                            after,
                            grown,
                            crate::namespace::insertion_error(failure),
                            outcome,
                        ),
                    }
                };
            let adding = Event::Layer {
                call: LayerCall::AddEntry {
                    dir: child,
                    child,
                    name: "."@,
                    after: grown,
                    reply: answer,
                },
            };
            assert(added.log()[n + 1] == adding);
            assert(after.log()[n] == making);
            assert(after.log()[n + 1] == adding);
            if let Ok(done) = answer {
                assert(done == ());
                let counted = outcome->Ok_0;
                lemma_counted_is_alike(grown, counted);
                if self.obliged(after) {
                    assert(obliging(after.log()[n]));
                    assert(obliging(after.log()[n + 1]));
                    lemma_dir_is_born(mode, owner, child, grown, counted);
                }
            }
        }
        assert(after.log().take(n) =~= self.log());
    }

    /// A new inode is of the mode and the owner that was asked for.
    proof fn lemma_new_inode(&self, after: &Self, birth: Birth, outcome: Result<InodeRef>)
        requires
            self.inode_born(after, birth, outcome),
        ensures
            extends(self.log(), after.log()),
            self.obliged(after) ==> (outcome matches Ok(child) ==> born_as(
                attributes_of(child),
                birth,
            )),
            self.helped(after) ==> outcome is Ok,
    {
        reveal(obliging);
        reveal(willing);
        reveal(born_as);
        if let Birth::Directory { mode, owner } = birth {
            self.lemma_new_dir(after, mode, owner, outcome);
        } else {
            assert(after.log().take(self.log().len() as int) =~= self.log());
            assert(after.log()[self.log().len() as int] == after.log().last());
        }
    }

    /// Creating an inode in a directory: what is made, and what comes of it where the layers are
    /// willing.
    proof fn lemma_created_child(
        &self,
        after: &Self,
        dir: InodeRef,
        name: Seq<char>,
        birth: Birth,
        outcome: Result<FileAttr>,
    )
        requires
            self.child_created(after, dir, name, birth, outcome),
        ensures
            extends(self.log(), after.log()),
            self.obliged(after) ==> (outcome matches Ok(attr) ==> born_as(attr, birth)),
            self.helped(after) ==> outcome is Ok || outcome == failed::<FileAttr>(ErrCode::EEXIST)
                && releases_inode(after.log().last()),
    {
        let (made, child) = choose|made: Self, child: Result<InodeRef>|
            {
                &&& #[trigger] self.inode_born(&made, birth, child)
                &&& match child {
                    Ok(child) => made.child_linked(after, dir, child, name, outcome),
                    Err(error) => made.idle(after) && outcome == Err::<FileAttr, Ext4Error>(error),
                }
            };
        self.lemma_new_inode(&made, birth, child);
        match child {
            Ok(inode) => {
                made.lemma_named_child(after, dir, inode, name, outcome);
                lemma_extends(self.log(), made.log(), after.log());
                assert forall|k: int| self.log().len() <= k < made.log().len() implies
                #[trigger] made.log()[k] == after.log()[k] by {
                    assert(after.log().take(made.log().len() as int)[k] == after.log()[k]);
                }
                if outcome is Ok && self.obliged(after) {
                    let attr = outcome->Ok_0;
                    lemma_alike_is_born(attributes_of(inode), attr, birth);
                }
            },
            Err(_) => {},
        }
    }

    /// Opening a directory goes on with the record.
    proof fn lemma_dir_opens(&self, opened: &Self, parent: InodeId, dir: Result<InodeRef>)
        requires
            self.dir_opened(opened, parent, dir),
        ensures
            extends(self.log(), opened.log()),
    {
        assert(opened.log().take(self.log().len() as int) =~= self.log());
    }

    /// Creating an inode with a name, inside the barrier.
    proof fn lemma_created_entry(
        &self,
        after: &Self,
        parent: InodeId,
        name: Seq<char>,
        birth: Birth,
        outcome: Result<FileAttr>,
    )
        requires
            self.entry_created(after, parent, name, birth, outcome),
        ensures
            extends(self.log(), after.log()),
            self.obliged(after) ==> (outcome matches Ok(attr) ==> born_as(attr, birth)),
    {
        let (opened, dir) = choose|opened: Self, dir: Result<InodeRef>|
            {
                &&& #[trigger] self.dir_opened(&opened, parent, dir)
                &&& match dir {
                    Ok(dir) => opened.child_created(after, dir, name, birth, outcome),
                    Err(error) => opened.idle(after) && outcome == Err::<FileAttr, Ext4Error>(
                        error,
                    ),
                }
            };
        self.lemma_dir_opens(&opened, parent, dir);
        if let Ok(dir) = dir {
            opened.lemma_created_child(after, dir, name, birth, outcome);
            lemma_extends(self.log(), opened.log(), after.log());
        }
    }

    /// A name that is taken is refused, and the inode that was made for it is released, where the
    /// directory is one and neither device nor layers fail.
    pub proof fn lemma_taken_name_is_refused(
        &self,
        after: &Self,
        parent: InodeRef,
        name: Seq<char>,
        birth: Birth,
        outcome: Result<FileAttr>,
        names: Names,
        disk: Disk,
    )
        requires
            self.entry_made(after, parent.id, name, birth, outcome),
            self.admits_writers(),
            self.speaks_by(after, names),
            names.contains_key((parent.id, name)),
            self.inode_seen(disk, parent.id, parent.inode@),
            parent.inode.kind() == FileType::Directory,
            self.answered_by(after, disk),
            no_faults(since(self.log(), after.log())),
            self.helped(after),
        ensures
            outcome == failed::<FileAttr>(ErrCode::EEXIST),
            exists|k: int|
                self.log().len() <= k < after.log().len() && releases_inode(
                    #[trigger] after.log()[k],
                ),
    {
        self.lemma_created_name_stands(after, parent.id, name, birth, outcome, names);
        let id = parent.id;
        let work = |inside: Self, left: Self, outcome: Result<FileAttr>|
            inside.entry_created(&left, id, name, birth, outcome);
        let (inside, left) = self.lemma_admitted(after, work, outcome);
        inside.lemma_created_entry(&left, id, name, birth, outcome);
        assert(self.log().take(self.log().len() as int) =~= self.log());
        self.lemma_leaving(&inside, &left, after, disk);
        assert(since(self.log(), inside.log()) =~= Seq::<Event>::empty());
        let (opened, dir) = choose|opened: Self, dir: Result<InodeRef>|
            {
                &&& #[trigger] inside.dir_opened(&opened, id, dir)
                &&& match dir {
                    Ok(dir) => opened.child_created(&left, dir, name, birth, outcome),
                    Err(error) => opened.idle(&left) && outcome == Err::<FileAttr, Ext4Error>(
                        error,
                    ),
                }
            };
        inside.lemma_dir_opens(&opened, id, dir);
        if let Ok(found) = dir {
            opened.lemma_created_child(&left, found, name, birth, outcome);
        } else {
            assert(left.log().take(opened.log().len() as int) =~= opened.log());
        }
        lemma_extends(inside.log(), opened.log(), left.log());
        let found = choose|found: Result<InodeRef>|
            {
                &&& #[trigger] inside.inode_read(&opened, id, found)
                &&& dir == match found {
                    Ok(inode) => if inode.inode.kind() == FileType::Directory {
                        found
                    } else {
                        failed(ErrCode::ENOTDIR)
                    },
                    Err(error) => found,
                }
            };
        let (table, at) = self.state().inode_position(id)->0;
        let reply = choose|reply: Result<Block>|
            {
                &&& #[trigger] inside.block_read(&opened, table, reply)
                &&& inode_found(bytes_read(reply), at, id, found)
            };
        let opening = Event::ReadBlock { id: table, reply };
        assert(self.state().batch() =~= Seq::<crate::staged::StagedBlock>::empty());
        let calls = since(self.log(), after.log());
        assert(opened.log()[self.log().len() as int] == opening);
        assert(left.log().take(opened.log().len() as int)[self.log().len() as int]
            == left.log()[self.log().len() as int]);
        assert(calls[0] == opening);
        assert(calls.take(0) =~= Seq::<Event>::empty());
        assert(crate::content::told(
            calls[0],
            crate::content::held(disk, calls.take(0)),
        ));
        assert(found->Ok_0.inode@ == parent.inode@);
        assert(dir is Ok);
        assert forall|k: int| opened.log().len() <= k < left.log().len() implies willing(
            #[trigger] left.log()[k],
        ) by {
            assert(left.log()[k] == after.log()[k]);
        }
        assert(after.log()[left.log().len() - 1] == left.log().last());
    }

    /// What is created is of the type, the permissions and the owner that was asked for, whatever
    /// it is: a file, a symbolic link, a device or a directory. A link is as long as its target.
    pub proof fn lemma_created_is_as_asked(
        &self,
        after: &Self,
        parent: InodeId,
        name: Seq<char>,
        birth: Birth,
        attr: FileAttr,
    )
        requires
            self.entry_made(after, parent, name, birth, Ok(attr)),
            self.obliged(after),
        ensures
            match birth {
                Birth::File { mode, owner } => {
                    &&& attr.uid == owner.uid
                    &&& attr.gid == owner.gid
                    &&& attr.ftype == type_of(mode.bits)
                    &&& attr.perm.bits == mode.bits & MODE_PERM_MASK
                },
                Birth::Link { target, owner } => {
                    &&& attr.uid == owner.uid
                    &&& attr.gid == owner.gid
                    &&& attr.ftype == FileType::SymLink
                    &&& attr.size == target.len()
                },
                Birth::Device { mode, major, minor, owner } => {
                    &&& attr.uid == owner.uid
                    &&& attr.gid == owner.gid
                    &&& attr.ftype == type_of(mode.bits)
                    &&& attr.perm.bits == mode.bits & MODE_PERM_MASK
                    &&& attr.rdev == (major, minor)
                },
                Birth::Directory { mode, owner } => {
                    &&& attr.uid == owner.uid
                    &&& attr.gid == owner.gid
                    &&& attr.ftype == FileType::Directory
                    &&& attr.perm.bits == mode.bits & MODE_PERM_MASK
                },
            },
    {
        let outcome = Ok::<FileAttr, Ext4Error>(attr);
        let work = |inside: Self, left: Self, outcome: Result<FileAttr>|
            inside.entry_created(&left, parent, name, birth, outcome);
        reveal(born_as);
        let stages = self.lemma_direct_work(after, work, outcome);
        let (inside, left) = stages->0;
        inside.lemma_created_entry(&left, parent, name, birth, outcome);
        self.lemma_joins(&inside, &left, Map::empty());
        assert(after.log().take(left.log().len() as int) =~= left.log());
        assert forall|k: int| inside.log().len() <= k < left.log().len() implies obliging(
            #[trigger] left.log()[k],
        ) by {
            assert(after.log().take(left.log().len() as int)[k] == after.log()[k]);
        }
    }
}

} // verus!
