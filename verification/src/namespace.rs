//! Looking names up, and creating files, links, devices and directories.

use vstd::prelude::*;
use crate::bytes::{le16, splice};
use crate::device::{BlockDevice, Event};
use crate::error::{failed, ErrCode, Ext4Error, Result};
use crate::fs::Ext4;
use crate::inode::{
    attributes_of, file_attr, FileAttr, FileType, InodeMode, InodeOwner, InodeRef, MODE_DIRECTORY,
    MODE_PERM_MASK,
};
use crate::volume::{DirAddFailure, DirEntry, LayerCall, Volume};
use crate::InodeId;

verus! {

/// A new inode that is to get a name.
pub ghost enum Birth {
    File { mode: InodeMode, owner: InodeOwner },
    Link { target: Seq<u8>, owner: InodeOwner },
    Device { mode: InodeMode, major: u32, minor: u32, owner: InodeOwner },
    Directory { mode: InodeMode, owner: InodeOwner },
}

/// The error of an insertion that failed.
pub open spec fn insertion_error(failure: DirAddFailure) -> Ext4Error {
    match failure {
        DirAddFailure::Unmodified(error) => error,
        DirAddFailure::Indeterminate(error) => error,
    }
}

/// The number of a file with the given attributes.
pub open spec fn number_of(outcome: Result<FileAttr>) -> Result<InodeId> {
    match outcome {
        Ok(attr) => Ok(attr.ino),
        Err(error) => Err(error),
    }
}

/// The number of a file with the given attributes.
fn number(outcome: Result<FileAttr>) -> (id: Result<InodeId>)
    ensures
        id == number_of(outcome),
{
    match outcome {
        Ok(attr) => Ok(attr.ino),
        Err(error) => Err(error),
    }
}

/// The owner of what is created without one.
pub open spec fn root_owner() -> InodeOwner {
    InodeOwner { uid: 0, gid: 0 }
}

impl<D: BlockDevice, V: Volume<D>> Ext4<D, V> {
    /// What reading a directory calls and returns.
    pub open spec fn dir_opened(
        &self,
        after: &Self,
        id: InodeId,
        outcome: Result<InodeRef>,
    ) -> bool {
        exists|found: Result<InodeRef>|
            {
                &&& #[trigger] self.inode_read(after, id, found)
                &&& outcome == match found {
                    Ok(inode) => if inode.inode.kind() == FileType::Directory {
                        found
                    } else {
                        failed(ErrCode::ENOTDIR)
                    },
                    Err(error) => found,
                }
            }
    }

    /// Reads a directory.
    pub(crate) fn open_dir(&mut self, id: InodeId) -> (outcome: Result<InodeRef>)
        requires
            old(self).inv(),
        ensures
            final(self).state() == old(self).state(),
            old(self).dir_opened(final(self), id, outcome),
    {
        let found = self.read_inode(id);
        assert(old(self).inode_read(self, id, found));
        match found {
            Ok(inode) => {
                if !inode.inode.is_dir() {
                    return Err(Ext4Error::new(ErrCode::ENOTDIR));
                }
                Ok(inode)
            },
            Err(error) => Err(error),
        }
    }

    /// What looking a name up calls and returns.
    pub open spec fn name_looked_up(
        &self,
        after: &Self,
        parent: InodeId,
        name: Seq<char>,
        outcome: Result<InodeId>,
    ) -> bool {
        exists|opened: Self, dir: Result<InodeRef>|
            {
                &&& #[trigger] self.dir_opened(&opened, parent, dir)
                &&& match dir {
                    Ok(dir) => opened.asked(
                        after,
                        LayerCall::FindEntry { dir, name, reply: outcome },
                    ),
                    Err(error) => opened.idle(after) && outcome == Err::<InodeId, Ext4Error>(error),
                }
            }
    }

    /// The inode that a name of a directory stands for.
    pub fn lookup(&mut self, parent: InodeId, name: &str) -> (outcome: Result<InodeId>)
        requires
            old(self).inv(),
        ensures
            final(self).state() == old(self).state(),
            old(self).name_looked_up(final(self), parent, name@, outcome),
    {
        let dir = self.open_dir(parent);
        let ghost opened = *self;
        assert(old(self).dir_opened(&opened, parent, dir));
        match dir {
            Ok(dir) => self.dir_find_entry(&dir, name),
            Err(error) => Err(error),
        }
    }

    /// What listing a directory calls and returns.
    pub open spec fn dir_listed(
        &self,
        after: &Self,
        id: InodeId,
        outcome: Result<Vec<DirEntry>>,
    ) -> bool {
        exists|opened: Self, dir: Result<InodeRef>|
            {
                &&& #[trigger] self.dir_opened(&opened, id, dir)
                &&& match dir {
                    Ok(dir) => opened.asked(after, LayerCall::ListEntries { dir, reply: outcome }),
                    Err(error) => opened.idle(after) && outcome == Err::<Vec<DirEntry>, Ext4Error>(
                        error,
                    ),
                }
            }
    }

    /// The entries of a directory.
    pub fn listdir(&mut self, inode: InodeId) -> (outcome: Result<Vec<DirEntry>>)
        requires
            old(self).inv(),
        ensures
            final(self).state() == old(self).state(),
            old(self).dir_listed(final(self), inode, outcome),
    {
        let dir = self.open_dir(inode);
        let ghost opened = *self;
        assert(old(self).dir_opened(&opened, inode, dir));
        match dir {
            Ok(dir) => self.dir_list_entries(&dir),
            Err(error) => Err(error),
        }
    }

    /// What releasing a new inode after `error` calls and returns.
    pub open spec fn released_after(
        &self,
        after: &Self,
        child: InodeRef,
        child_after: InodeRef,
        error: Ext4Error,
        outcome: Result<()>,
    ) -> bool {
        exists|reply: Result<()>|
            {
                &&& #[trigger] self.asked(
                    after,
                    LayerCall::FreeInode { inode: child, after: child_after, reply },
                )
                &&& outcome == match reply {
                    Ok(_) => Err::<(), Ext4Error>(error),
                    Err(fault) => Err(fault),
                }
            }
    }

    /// Releases a new inode after `error`.
    fn release_after(&mut self, child: &mut InodeRef, error: Ext4Error) -> (outcome: Result<()>)
        requires
            old(self).inv(),
        ensures
            final(self).inv(),
            old(self).outline_kept(final(self)),
            outcome is Err,
            old(self).released_after(
                final(self),
                *old(child),
                *final(child),
                error,
                outcome,
            ),
    {
        let reply = self.free_inode(child);
        assert(old(self).asked(
            self,
            LayerCall::FreeInode { inode: *old(child), after: *child, reply },
        ));
        match reply {
            Ok(_) => Err(error),
            Err(fault) => Err(fault),
        }
    }

    /// What giving a new inode a name that is free calls and returns.
    pub open spec fn name_added(
        &self,
        after: &Self,
        parent: InodeRef,
        child: InodeRef,
        child_after: InodeRef,
        name: Seq<char>,
        outcome: Result<()>,
    ) -> bool {
        exists|linked: Self, parent_after: InodeRef, named: InodeRef, reply: Result<()>|
            {
                &&& #[trigger] self.asked(
                    &linked,
                    LayerCall::LinkInode {
                        parent,
                        child,
                        name,
                        parent_after,
                        child_after: named,
                        reply,
                    },
                )
                &&& match reply {
                    Ok(_) => {
                        &&& linked.idle(after)
                        &&& child_after == named
                        &&& outcome == Ok::<(), Ext4Error>(())
                    },
                    Err(error) => linked.released_after(
                        after,
                        named,
                        child_after,
                        error,
                        outcome,
                    ),
                }
            }
    }

    /// What giving a new inode a name calls and returns: an inode that gets no name is released.
    pub open spec fn new_linked(
        &self,
        after: &Self,
        parent: InodeRef,
        child: InodeRef,
        child_after: InodeRef,
        name: Seq<char>,
        outcome: Result<()>,
    ) -> bool {
        exists|asked: Self, found: Result<InodeId>|
            {
                &&& #[trigger] self.asked(
                    &asked,
                    LayerCall::FindEntry { dir: parent, name, reply: found },
                )
                &&& match found {
                    Ok(_) => asked.released_after(
                        after,
                        child,
                        child_after,
                        (Ext4Error { code: ErrCode::EEXIST }),
                        outcome,
                    ),
                    Err(error) => if error.code == ErrCode::ENOENT {
                        asked.name_added(after, parent, child, child_after, name, outcome)
                    } else {
                        asked.released_after(after, child, child_after, error, outcome)
                    },
                }
            }
    }

    /// Gives a new inode a name, or releases it.
    fn link_new_inode_or_free(&mut self, parent: &InodeRef, child: &mut InodeRef, name: &str) -> (
    outcome: Result<()>)
        requires
            old(self).inv(),
        ensures
            final(self).inv(),
            old(self).outline_kept(final(self)),
            old(self).new_linked(
                final(self),
                *parent,
                *old(child),
                *final(child),
                name@,
                outcome,
            ),
    {
        let found = self.dir_find_entry(parent, name);
        let ghost asked = *self;
        assert(old(self).asked(
            &asked,
            LayerCall::FindEntry { dir: *parent, name: name@, reply: found },
        ));
        match found {
            Ok(_) => {
                return self.release_after(child, Ext4Error::new(ErrCode::EEXIST));
            },
            Err(error) => {
                if error.code() != ErrCode::ENOENT {
                    return self.release_after(child, error);
                }
            },
        }
        let mut parent_after = *parent;
        let reply = self.link_inode(&mut parent_after, child, name);
        let ghost linked = *self;
        let ghost named = *child;
        assert(asked.asked(
            &linked,
            LayerCall::LinkInode {
                parent: *parent,
                child: *old(child),
                name: name@,
                parent_after,
                child_after: named,
                reply,
            },
        ));
        let outcome: Result<()> = match reply {
            Ok(_) => Ok(()),
            Err(error) => self.release_after(child, error),
        };
        assert(asked.name_added(self, *parent, *old(child), *child, name@, outcome));
        outcome
    }

    /// What giving a new directory up after `error` calls, changes and returns.
    pub open spec fn dir_dropped(
        &self,
        after: &Self,
        child: InodeRef,
        error: Ext4Error,
        outcome: Result<InodeRef>,
    ) -> bool {
        exists|freed: Self, child_after: InodeRef, reply: Result<()>|
            {
                &&& #[trigger] self.asked(
                    &freed,
                    LayerCall::FreeInode { inode: child, after: child_after, reply },
                )
                &&& match reply {
                    Ok(_) => freed.idle(after),
                    Err(_) => freed.gave_out(after),
                }
                &&& outcome == Err::<InodeRef, Ext4Error>(error)
            }
    }

    /// What filling a new directory calls, changes and returns: its first entry is itself.
    pub open spec fn dir_filled(
        &self,
        after: &Self,
        child: InodeRef,
        outcome: Result<InodeRef>,
    ) -> bool {
        exists|added: Self, grown: InodeRef, reply: core::result::Result<(), DirAddFailure>|
            {
                &&& #[trigger] self.asked(
                    &added,
                    LayerCall::AddEntry {
                        dir: child,
                        child,
                        name: "."@,
                        after: grown,
                        reply,
                    },
                )
                &&& match reply {
                    Ok(_) => {
                        &&& added.idle(after)
                        &&& outcome matches Ok(counted)
                        &&& counted.id == grown.id
                        &&& counted.inode@ == splice(grown.inode@, 26, le16(1))
                    },
                    Err(failure) => added.dir_dropped(
                        after,
                        grown,
                        insertion_error(failure),
                        outcome,
                    ),
                }
            }
    }

    /// What allocating a directory calls, changes and returns.
    pub open spec fn dir_born(
        &self,
        after: &Self,
        mode: InodeMode,
        owner: InodeOwner,
        outcome: Result<InodeRef>,
    ) -> bool {
        exists|made: Self, reply: Result<InodeRef>|
            {
                &&& #[trigger] self.asked(
                    &made,
                    LayerCall::CreateInode {
                        mode: (InodeMode {
                            bits: (mode.bits & MODE_PERM_MASK) | MODE_DIRECTORY,
                        }),
                        owner,
                        reply,
                    },
                )
                &&& match reply {
                    Ok(child) => made.dir_filled(after, child, outcome),
                    Err(error) => made.idle(after) && outcome == Err::<InodeRef, Ext4Error>(error),
                }
            }
    }

    /// Allocates a directory.
    fn make_dir(&mut self, mode: InodeMode, owner: InodeOwner) -> (outcome: Result<InodeRef>)
        requires
            old(self).inv(),
        ensures
            final(self).inv(),
            old(self).outline_kept(final(self)),
            old(self).dir_born(final(self), mode, owner, outcome),
    {
        let mode = InodeMode { bits: (mode.bits & MODE_PERM_MASK) | MODE_DIRECTORY };
        let reply = self.create_inode(mode, owner);
        let ghost made = *self;
        assert(old(self).asked(&made, LayerCall::CreateInode { mode, owner, reply }));
        let child = match reply {
            Ok(child) => child,
            Err(error) => {
                return Err(error);
            },
        };
        let mut grown = child;
        let reply = self.dir_add_entry(&mut grown, &child, ".");
        let ghost added = *self;
        let ghost filled = grown;
        assert(made.asked(
            &added,
            LayerCall::AddEntry { dir: child, child, name: "."@, after: filled, reply },
        ));
        let outcome: Result<InodeRef> = match reply {
            Ok(_) => {
                grown.inode.set_link_count(1);
                Ok(grown)
            },
            Err(failure) => {
                let error: Ext4Error = match failure {
                    DirAddFailure::Unmodified(error) => error,
                    DirAddFailure::Indeterminate(error) => error,
                };
                let freed = self.free_inode(&mut grown);
                let ghost released = *self;
                assert(added.asked(
                    &released,
                    LayerCall::FreeInode { inode: filled, after: grown, reply: freed },
                ));
                if freed.is_err() {
                    self.poison();
                }
                assert(added.dir_dropped(self, filled, error, Err(error)));
                Err(error)
            },
        };
        assert(made.dir_filled(self, child, outcome));
        outcome
    }

    /// What allocating an inode calls, changes and returns.
    pub open spec fn inode_born(
        &self,
        after: &Self,
        birth: Birth,
        outcome: Result<InodeRef>,
    ) -> bool {
        match birth {
            Birth::File { mode, owner } => self.asked(
                after,
                LayerCall::CreateInode { mode, owner, reply: outcome },
            ),
            Birth::Link { target, owner } => self.asked(
                after,
                LayerCall::CreateSymlink { target, owner, reply: outcome },
            ),
            Birth::Device { mode, major, minor, owner } => self.asked(
                after,
                LayerCall::CreateDevice { mode, major, minor, owner, reply: outcome },
            ),
            Birth::Directory { mode, owner } => self.dir_born(after, mode, owner, outcome),
        }
    }

    /// What giving a new inode a name calls and returns: its attributes.
    pub open spec fn child_linked(
        &self,
        after: &Self,
        parent: InodeRef,
        child: InodeRef,
        name: Seq<char>,
        outcome: Result<FileAttr>,
    ) -> bool {
        exists|child_after: InodeRef, reply: Result<()>|
            {
                &&& #[trigger] self.new_linked(
                    after,
                    parent,
                    child,
                    child_after,
                    name,
                    reply,
                )
                &&& outcome == match reply {
                    Ok(_) => Ok::<FileAttr, Ext4Error>(attributes_of(child_after)),
                    Err(error) => Err(error),
                }
            }
    }

    /// What creating an inode in a directory calls, changes and returns.
    pub open spec fn child_created(
        &self,
        after: &Self,
        parent: InodeRef,
        name: Seq<char>,
        birth: Birth,
        outcome: Result<FileAttr>,
    ) -> bool {
        exists|made: Self, child: Result<InodeRef>|
            {
                &&& #[trigger] self.inode_born(&made, birth, child)
                &&& match child {
                    Ok(child) => made.child_linked(after, parent, child, name, outcome),
                    Err(error) => made.idle(after) && outcome == Err::<FileAttr, Ext4Error>(error),
                }
            }
    }

    /// What creating an inode with a name calls, changes and returns, inside the barrier.
    pub open spec fn entry_created(
        &self,
        after: &Self,
        parent: InodeId,
        name: Seq<char>,
        birth: Birth,
        outcome: Result<FileAttr>,
    ) -> bool {
        exists|opened: Self, dir: Result<InodeRef>|
            {
                &&& #[trigger] self.dir_opened(&opened, parent, dir)
                &&& match dir {
                    Ok(dir) => opened.child_created(after, dir, name, birth, outcome),
                    Err(error) => opened.idle(after) && outcome == Err::<FileAttr, Ext4Error>(
                        error,
                    ),
                }
            }
    }

    /// What creating an inode with a name calls, changes and returns.
    pub open spec fn entry_made(
        &self,
        after: &Self,
        parent: InodeId,
        name: Seq<char>,
        birth: Birth,
        outcome: Result<FileAttr>,
    ) -> bool {
        self.changed_directly(
            after,
            |inside: Self, left: Self, outcome: Result<FileAttr>|
                inside.entry_created(&left, parent, name, birth, outcome),
            outcome,
        )
    }

    /// What creating an inode with a name calls, changes and returns: the number of the inode.
    pub open spec fn entry_numbered(
        &self,
        after: &Self,
        parent: InodeId,
        name: Seq<char>,
        birth: Birth,
        outcome: Result<InodeId>,
    ) -> bool {
        exists|made: Result<FileAttr>|
            {
                &&& #[trigger] self.entry_made(after, parent, name, birth, made)
                &&& outcome == number_of(made)
            }
    }

    /// Gives a new inode a name, and returns its attributes.
    fn link_child(&mut self, parent: &InodeRef, child: InodeRef, name: &str) -> (outcome: Result<
        FileAttr,
    >)
        requires
            old(self).inv(),
        ensures
            final(self).inv(),
            old(self).outline_kept(final(self)),
            old(self).child_linked(final(self), *parent, child, name@, outcome),
    {
        let mut named = child;
        let reply = self.link_new_inode_or_free(parent, &mut named, name);
        assert(old(self).new_linked(self, *parent, child, named, name@, reply));
        match reply {
            Ok(_) => Ok(file_attr(&named)),
            Err(error) => Err(error),
        }
    }
}

impl<D: BlockDevice, V: Volume<D>> Ext4<D, V> {
    /// Creates a file, inside the barrier.
    fn create_file_locked(
        &mut self,
        parent: InodeId,
        name: &str,
        mode: InodeMode,
        owner: InodeOwner,
    ) -> (outcome: Result<FileAttr>)
        requires
            old(self).inv(),
        ensures
            final(self).inv(),
            old(self).outline_kept(final(self)),
            old(self).entry_created(
                final(self),
                parent,
                name@,
                (Birth::File { mode, owner }),
                outcome,
            ),
    {
        let ghost birth = Birth::File { mode, owner };
        let dir = self.open_dir(parent);
        let ghost opened = *self;
        assert(old(self).dir_opened(&opened, parent, dir));
        let dir = match dir {
            Ok(dir) => dir,
            Err(error) => {
                return Err(error);
            },
        };
        let child = self.create_inode(mode, owner);
        let ghost made = *self;
        assert(opened.inode_born(&made, birth, child));
        let outcome: Result<FileAttr> = match child {
            Ok(child) => self.link_child(&dir, child, name),
            Err(error) => Err(error),
        };
        assert(opened.child_created(self, dir, name@, birth, outcome));
        outcome
    }

    /// Creates a symbolic link, inside the barrier.
    fn create_link_locked(
        &mut self,
        parent: InodeId,
        name: &str,
        target: &[u8],
        owner: InodeOwner,
    ) -> (outcome: Result<FileAttr>)
        requires
            old(self).inv(),
        ensures
            final(self).inv(),
            old(self).outline_kept(final(self)),
            old(self).entry_created(
                final(self),
                parent,
                name@,
                (Birth::Link { target: target@, owner }),
                outcome,
            ),
    {
        let ghost birth = Birth::Link { target: target@, owner };
        let dir = self.open_dir(parent);
        let ghost opened = *self;
        assert(old(self).dir_opened(&opened, parent, dir));
        let dir = match dir {
            Ok(dir) => dir,
            Err(error) => {
                return Err(error);
            },
        };
        let child = self.create_symlink_inode(target, owner);
        let ghost made = *self;
        assert(opened.inode_born(&made, birth, child));
        let outcome: Result<FileAttr> = match child {
            Ok(child) => self.link_child(&dir, child, name),
            Err(error) => Err(error),
        };
        assert(opened.child_created(self, dir, name@, birth, outcome));
        outcome
    }

    /// Creates a device, inside the barrier.
    fn create_device_locked(
        &mut self,
        parent: InodeId,
        name: &str,
        mode: InodeMode,
        major: u32,
        minor: u32,
        owner: InodeOwner,
    ) -> (outcome: Result<FileAttr>)
        requires
            old(self).inv(),
        ensures
            final(self).inv(),
            old(self).outline_kept(final(self)),
            old(self).entry_created(
                final(self),
                parent,
                name@,
                (Birth::Device { mode, major, minor, owner }),
                outcome,
            ),
    {
        let ghost birth = Birth::Device { mode, major, minor, owner };
        let dir = self.open_dir(parent);
        let ghost opened = *self;
        assert(old(self).dir_opened(&opened, parent, dir));
        let dir = match dir {
            Ok(dir) => dir,
            Err(error) => {
                return Err(error);
            },
        };
        let child = self.create_device_inode(mode, major, minor, owner);
        let ghost made = *self;
        assert(opened.inode_born(&made, birth, child));
        let outcome: Result<FileAttr> = match child {
            Ok(child) => self.link_child(&dir, child, name),
            Err(error) => Err(error),
        };
        assert(opened.child_created(self, dir, name@, birth, outcome));
        outcome
    }

    /// Creates a directory, inside the barrier.
    fn create_dir_locked(
        &mut self,
        parent: InodeId,
        name: &str,
        mode: InodeMode,
        owner: InodeOwner,
    ) -> (outcome: Result<FileAttr>)
        requires
            old(self).inv(),
        ensures
            final(self).inv(),
            old(self).outline_kept(final(self)),
            old(self).entry_created(
                final(self),
                parent,
                name@,
                (Birth::Directory { mode, owner }),
                outcome,
            ),
    {
        let ghost birth = Birth::Directory { mode, owner };
        let dir = self.open_dir(parent);
        let ghost opened = *self;
        assert(old(self).dir_opened(&opened, parent, dir));
        let dir = match dir {
            Ok(dir) => dir,
            Err(error) => {
                return Err(error);
            },
        };
        let child = self.make_dir(mode, owner);
        let ghost made = *self;
        assert(opened.inode_born(&made, birth, child));
        let outcome: Result<FileAttr> = match child {
            Ok(child) => self.link_child(&dir, child, name),
            Err(error) => Err(error),
        };
        assert(opened.child_created(self, dir, name@, birth, outcome));
        outcome
    }

    /// Creates a file, and returns its attributes.
    pub fn create_with_owner_and_attr(
        &mut self,
        parent: InodeId,
        name: &str,
        mode: InodeMode,
        owner: InodeOwner,
    ) -> (outcome: Result<FileAttr>)
        requires
            old(self).inv(),
        ensures
            final(self).inv(),
            final(self).state().gate == old(self).state().gate,
            old(self).entry_made(
                final(self),
                parent,
                name@,
                (Birth::File { mode, owner }),
                outcome,
            ),
    {
        match self.ensure_mutable() {
            Ok(_) => {},
            Err(error) => {
                return Err(error);
            },
        }
        let lock = self.lock_direct_metadata_mutation();
        let ghost inside = *self;
        assert(old(self).direct_entered(&inside, lock));
        match lock {
            Ok(_) => {},
            Err(error) => {
                return Err(error);
            },
        }
        let outcome = self.create_file_locked(parent, name, mode, owner);
        self.unlock_direct_metadata_mutation();
        outcome
    }

    /// Creates a file of the given owner.
    pub fn create_with_owner(
        &mut self,
        parent: InodeId,
        name: &str,
        mode: InodeMode,
        owner: InodeOwner,
    ) -> (outcome: Result<InodeId>)
        requires
            old(self).inv(),
        ensures
            final(self).inv(),
            final(self).state().gate == old(self).state().gate,
            old(self).entry_numbered(
                final(self),
                parent,
                name@,
                (Birth::File { mode, owner }),
                outcome,
            ),
    {
        let made = self.create_with_owner_and_attr(parent, name, mode, owner);
        assert(old(self).entry_made(
            self,
            parent,
            name@,
            (Birth::File { mode, owner }),
            made,
        ));
        number(made)
    }

    /// Creates a file.
    pub fn create(
        &mut self,
        parent: InodeId,
        name: &str,
        mode: InodeMode,
    ) -> (outcome: Result<InodeId>)
        requires
            old(self).inv(),
        ensures
            final(self).inv(),
            final(self).state().gate == old(self).state().gate,
            old(self).entry_numbered(
                final(self),
                parent,
                name@,
                (Birth::File { mode, owner: root_owner() }),
                outcome,
            ),
    {
        self.create_with_owner(parent, name, mode, InodeOwner { uid: 0, gid: 0 })
    }

    /// Creates a symbolic link, and returns its attributes.
    ///
    /// The target is stored before the link gets its name.
    pub fn symlink_with_owner_and_attr(
        &mut self,
        parent: InodeId,
        name: &str,
        target: &[u8],
        owner: InodeOwner,
    ) -> (outcome: Result<FileAttr>)
        requires
            old(self).inv(),
        ensures
            final(self).inv(),
            final(self).state().gate == old(self).state().gate,
            old(self).entry_made(
                final(self),
                parent,
                name@,
                (Birth::Link { target: target@, owner }),
                outcome,
            ),
    {
        match self.ensure_mutable() {
            Ok(_) => {},
            Err(error) => {
                return Err(error);
            },
        }
        let lock = self.lock_direct_metadata_mutation();
        let ghost inside = *self;
        assert(old(self).direct_entered(&inside, lock));
        match lock {
            Ok(_) => {},
            Err(error) => {
                return Err(error);
            },
        }
        let outcome = self.create_link_locked(parent, name, target, owner);
        self.unlock_direct_metadata_mutation();
        outcome
    }

    /// Creates a device, and returns its attributes.
    pub fn mknod_with_owner_and_attr(
        &mut self,
        parent: InodeId,
        name: &str,
        mode: InodeMode,
        major: u32,
        minor: u32,
        owner: InodeOwner,
    ) -> (outcome: Result<FileAttr>)
        requires
            old(self).inv(),
        ensures
            final(self).inv(),
            final(self).state().gate == old(self).state().gate,
            old(self).entry_made(
                final(self),
                parent,
                name@,
                (Birth::Device { mode, major, minor, owner }),
                outcome,
            ),
    {
        match self.ensure_mutable() {
            Ok(_) => {},
            Err(error) => {
                return Err(error);
            },
        }
        let lock = self.lock_direct_metadata_mutation();
        let ghost inside = *self;
        assert(old(self).direct_entered(&inside, lock));
        match lock {
            Ok(_) => {},
            Err(error) => {
                return Err(error);
            },
        }
        let outcome = self.create_device_locked(parent, name, mode, major, minor, owner);
        self.unlock_direct_metadata_mutation();
        outcome
    }

    /// Creates a device of the given owner.
    pub fn mknod_with_owner(
        &mut self,
        parent: InodeId,
        name: &str,
        mode: InodeMode,
        major: u32,
        minor: u32,
        owner: InodeOwner,
    ) -> (outcome: Result<InodeId>)
        requires
            old(self).inv(),
        ensures
            final(self).inv(),
            final(self).state().gate == old(self).state().gate,
            old(self).entry_numbered(
                final(self),
                parent,
                name@,
                (Birth::Device { mode, major, minor, owner }),
                outcome,
            ),
    {
        let made = self.mknod_with_owner_and_attr(parent, name, mode, major, minor, owner);
        assert(old(self).entry_made(
            self,
            parent,
            name@,
            (Birth::Device { mode, major, minor, owner }),
            made,
        ));
        number(made)
    }

    /// Creates a device.
    pub fn mknod(
        &mut self,
        parent: InodeId,
        name: &str,
        mode: InodeMode,
        major: u32,
        minor: u32,
    ) -> (outcome: Result<InodeId>)
        requires
            old(self).inv(),
        ensures
            final(self).inv(),
            final(self).state().gate == old(self).state().gate,
            old(self).entry_numbered(
                final(self),
                parent,
                name@,
                (Birth::Device { mode, major, minor, owner: root_owner() }),
                outcome,
            ),
    {
        self.mknod_with_owner(parent, name, mode, major, minor, InodeOwner { uid: 0, gid: 0 })
    }

    /// Creates a directory, and returns its attributes.
    pub fn mkdir_with_owner_and_attr(
        &mut self,
        parent: InodeId,
        name: &str,
        mode: InodeMode,
        owner: InodeOwner,
    ) -> (outcome: Result<FileAttr>)
        requires
            old(self).inv(),
        ensures
            final(self).inv(),
            final(self).state().gate == old(self).state().gate,
            old(self).entry_made(
                final(self),
                parent,
                name@,
                (Birth::Directory { mode, owner }),
                outcome,
            ),
    {
        match self.ensure_mutable() {
            Ok(_) => {},
            Err(error) => {
                return Err(error);
            },
        }
        let lock = self.lock_direct_metadata_mutation();
        let ghost inside = *self;
        assert(old(self).direct_entered(&inside, lock));
        match lock {
            Ok(_) => {},
            Err(error) => {
                return Err(error);
            },
        }
        let outcome = self.create_dir_locked(parent, name, mode, owner);
        self.unlock_direct_metadata_mutation();
        outcome
    }

    /// Creates a directory of the given owner.
    pub fn mkdir_with_owner(
        &mut self,
        parent: InodeId,
        name: &str,
        mode: InodeMode,
        owner: InodeOwner,
    ) -> (outcome: Result<InodeId>)
        requires
            old(self).inv(),
        ensures
            final(self).inv(),
            final(self).state().gate == old(self).state().gate,
            old(self).entry_numbered(
                final(self),
                parent,
                name@,
                (Birth::Directory { mode, owner }),
                outcome,
            ),
    {
        let made = self.mkdir_with_owner_and_attr(parent, name, mode, owner);
        assert(old(self).entry_made(
            self,
            parent,
            name@,
            (Birth::Directory { mode, owner }),
            made,
        ));
        number(made)
    }

    /// Creates a directory.
    pub fn mkdir(
        &mut self,
        parent: InodeId,
        name: &str,
        mode: InodeMode,
    ) -> (outcome: Result<InodeId>)
        requires
            old(self).inv(),
        ensures
            final(self).inv(),
            final(self).state().gate == old(self).state().gate,
            old(self).entry_numbered(
                final(self),
                parent,
                name@,
                (Birth::Directory { mode, owner: root_owner() }),
                outcome,
            ),
    {
        self.mkdir_with_owner(parent, name, mode, InodeOwner { uid: 0, gid: 0 })
    }
}

/// Whether a call releases an inode.
pub open spec fn releases_inode(call: Event) -> bool {
    match call {
        Event::Layer { call: LayerCall::FreeInode { inode, after, reply } } => true,
        _ => false,
    }
}

impl<D: BlockDevice, V: Volume<D>> Ext4<D, V> {
    /// A new inode that gets no name is released, and a name that is given was free.
    pub proof fn lemma_new_inode_is_named_or_released(
        &self,
        after: &Self,
        parent: InodeRef,
        child: InodeRef,
        child_after: InodeRef,
        name: Seq<char>,
        outcome: Result<()>,
    )
        requires
            self.new_linked(after, parent, child, child_after, name, outcome),
        ensures
            outcome is Err ==> releases_inode(after.log().last()),
            outcome is Ok ==> exists|asked: Self, error: Ext4Error|
                {
                    &&& #[trigger] self.asked(
                        &asked,
                        LayerCall::FindEntry { dir: parent, name, reply: Err(error) },
                    )
                    &&& error.code == ErrCode::ENOENT
                },
    {
        let (asked, found) = choose|asked: Self, found: Result<InodeId>|
            {
                &&& #[trigger] self.asked(
                    &asked,
                    LayerCall::FindEntry { dir: parent, name, reply: found },
                )
                &&& match found {
                    Ok(_) => asked.released_after(
                        after,
                        child,
                        child_after,
                        (Ext4Error { code: ErrCode::EEXIST }),
                        outcome,
                    ),
                    Err(error) => if error.code == ErrCode::ENOENT {
                        asked.name_added(after, parent, child, child_after, name, outcome)
                    } else {
                        asked.released_after(after, child, child_after, error, outcome)
                    },
                }
            };
        if let Err(error) = found {
            assert(self.asked(
                &asked,
                LayerCall::FindEntry { dir: parent, name, reply: Err(error) },
            ));
        }
    }
}

} // verus!
