//! The layers that keep extent trees, directories and the inode bitmap.

use vstd::prelude::*;
use crate::device::{Block, BlockDevice, Event};
use crate::error::{Ext4Error, Result};
use crate::inode::{FileType, InodeMode, InodeOwner, InodeRef};
use crate::journal_transaction::{JournalTransactionCore, Transaction};
use crate::staged::{holds_home, slot, CachePublisher};
use crate::{InodeId, LBlockId, PBlockId, BLOCK_SIZE};

verus! {

/// One node on the way from the root of an extent tree to a leaf.
#[derive(Clone, Copy)]
pub struct ExtentSearchStep {
    /// The block of the node; zero for the root inside the inode.
    pub pblock: PBlockId,
    /// The entry that was followed, or the position at which it is missing.
    pub index: core::result::Result<usize, usize>,
}

/// How an appended range joins the extents of a file.
#[derive(Clone, Copy)]
pub struct AppendShape {
    /// The block that would continue the last extent.
    pub preferred_first: Option<PBlockId>,
    /// Whether the range must continue the last extent.
    pub requires_merge: bool,
}

/// A block and the bytes that it is to hold.
pub struct BlockImage {
    pub home: PBlockId,
    pub data: Box<[u8; BLOCK_SIZE]>,
}

/// Allocated blocks, and the metadata that records their allocation.
pub struct RangeAllocation {
    pub first: PBlockId,
    pub images: Vec<BlockImage>,
}

/// The last extent of a file.
#[derive(Clone, Copy)]
pub struct ExtentTail {
    pub start_lblock: LBlockId,
    pub block_count: u32,
    pub start_pblock: PBlockId,
}

/// Blocks cut from the end of a file.
pub struct RemovedTail {
    pub start_pblock: PBlockId,
    pub block_count: u32,
    /// Tree blocks that are no longer used.
    pub metadata_blocks: Vec<PBlockId>,
    /// Tree blocks that changed.
    pub images: Vec<BlockImage>,
}

/// Where a directory entry stands.
#[derive(Clone, Copy)]
pub struct DirEntryLocation {
    pub inode_id: InodeId,
    pub pblock: PBlockId,
    pub offset: usize,
}

/// A directory entry.
pub struct DirEntry {
    pub inode: InodeId,
    pub file_type: FileType,
    pub name: String,
}

/// An inode without names, whose blocks can be released once nobody has it open.
#[derive(Clone, Copy, Debug, PartialEq, Eq, Structural)]
pub struct InodeReclaimHandle {
    pub ino: InodeId,
    pub generation: u32,
}

impl InodeReclaimHandle {
    /// The handle of an inode.
    pub fn new(ino: InodeId, generation: u32) -> (handle: Self)
        ensures
            handle == (InodeReclaimHandle { ino, generation }),
    {
        InodeReclaimHandle { ino, generation }
    }
}

/// Whether a failed insertion left the directory as it was.
#[derive(Clone, Copy)]
pub enum DirAddFailure {
    Unmodified(Ext4Error),
    Indeterminate(Ext4Error),
}

/// Block access as the layers see it: images that wait for a commit come first.
pub struct Storage<'a, D: BlockDevice> {
    pub device: &'a mut D,
    pub journal: Option<&'a JournalTransactionCore>,
    pub transaction: Option<&'a Transaction>,
}

impl<'a, D: BlockDevice> Storage<'a, D> {
    /// Reads one block.
    pub fn read_block(&mut self, id: PBlockId) -> (reply: Result<Block>)
        requires
            old(self).journal matches Some(journal) ==> journal.inv(),
            old(self).transaction matches Some(transaction) ==> transaction.inv(),
        ensures
            final(self).journal == old(self).journal,
            final(self).transaction == old(self).transaction,
            if old(self).transaction is Some && old(self).transaction->0.covers(id) {
                &&& reply matches Ok(block)
                &&& block.id == id
                &&& block.data@ == old(self).transaction->0.image_of(id)
            } else if old(self).journal is Some && holds_home(old(self).journal->0.batch(), id) {
                &&& reply matches Ok(block)
                &&& block.id == id
                &&& block.data@ == old(self).journal->0.batch()[slot(
                    old(self).journal->0.batch(),
                    id,
                )].image@
            } else {
                old(self).device.answers(final(self).device, Event::ReadBlock { id, reply })
            },
    {
        match self.transaction {
            Some(transaction) => match transaction.image(id) {
                Some(data) => {
                    return Ok(Block::new(id, data));
                },
                None => {},
            },
            None => {},
        }
        match self.journal {
            Some(journal) => match journal.deferred_block(id) {
                Some(data) => {
                    return Ok(Block::new(id, data));
                },
                None => {},
            },
            None => {},
        }
        self.device.read_block(id)
    }

    /// Writes one block.
    pub fn write_block(&mut self, block: &Block) -> (reply: Result<()>)
        ensures
            final(self).journal == old(self).journal,
            final(self).transaction == old(self).transaction,
            old(self).device.answers(
                final(self).device,
                Event::WriteBlock { id: block.id, data: block.data@, reply },
            ),
    {
        self.device.write_block(block)
    }
}

/// The layers below the file operations.
///
/// Nothing is taken for granted about an implementation: `answers` names what its calls may do,
/// and holds of everything unless an implementation says more. Operations inside a transaction do
/// not write: they return the blocks that are to be staged.
pub trait Volume<D: BlockDevice>: CachePublisher {
    /// Whether a call may leave the layers as `after` and give the reply that it carries.
    open spec fn answers(&self, after: &Self, call: LayerCall) -> bool {
        true
    }

    /// The way from the root of a file's extent tree to the leaf for `iblock`.
    fn find_extent(
        &mut self,
        storage: &mut Storage<'_, D>,
        inode: &InodeRef,
        iblock: LBlockId,
    ) -> (reply: Result<Vec<ExtentSearchStep>>)
        ensures
            old(self).answers(final(self), LayerCall::FindExtent { inode: *inode, iblock, reply }),
    ;

    /// How a range behind the last block of a file would join its extents, if it can.
    fn direct_append_shape(
        &mut self,
        storage: &mut Storage<'_, D>,
        inode: &InodeRef,
        start: LBlockId,
        count: u32,
    ) -> (reply: Result<Option<AppendShape>>)
        ensures
            old(self).answers(
                final(self),
                LayerCall::AppendShape { inode: *inode, start, count, reply },
            ),
    ;

    /// Adds an extent to the tree inside the inode.
    fn stage_direct_append_extent(
        &mut self,
        storage: &mut Storage<'_, D>,
        inode: &mut InodeRef,
        start: LBlockId,
        first: PBlockId,
        count: u32,
    ) -> (reply: Result<()>)
        ensures
            old(self).answers(
                final(self),
                LayerCall::StageAppend {
                    inode: *old(inode),
                    start,
                    first,
                    count,
                    after: *final(inode),
                    reply,
                },
            ),
    ;

    /// Adds an extent of allocated blocks to the tree.
    fn extent_create_preallocated(
        &mut self,
        storage: &mut Storage<'_, D>,
        inode: &mut InodeRef,
        start: LBlockId,
        count: u32,
        first: PBlockId,
    ) -> (reply: Result<()>)
        ensures
            old(self).answers(
                final(self),
                LayerCall::CreateExtent {
                    inode: *old(inode),
                    start,
                    count,
                    first,
                    after: *final(inode),
                    reply,
                },
            ),
    ;

    /// The number of data blocks of a file.
    fn extent_data_blocks(
        &mut self,
        storage: &mut Storage<'_, D>,
        inode: &InodeRef,
    ) -> (reply: Result<u32>)
        ensures
            old(self).answers(final(self), LayerCall::DataBlocks { inode: *inode, reply }),
    ;

    /// The number of blocks of a file's extent tree.
    fn extent_tree_blocks(
        &mut self,
        storage: &mut Storage<'_, D>,
        inode: &InodeRef,
    ) -> (reply: Result<u32>)
        ensures
            old(self).answers(final(self), LayerCall::TreeBlocks { inode: *inode, reply }),
    ;

    /// Allocates consecutive blocks of one group.
    fn alloc_direct_range(
        &mut self,
        storage: &mut Storage<'_, D>,
        inode: InodeId,
        preferred_first: Option<PBlockId>,
        requires_merge: bool,
        count: u32,
    ) -> (reply: Result<RangeAllocation>)
        ensures
            old(self).answers(
                final(self),
                LayerCall::AllocRange { inode, preferred_first, requires_merge, count, reply },
            ),
    ;

    /// The last extent of a file.
    fn extent_tail(
        &mut self,
        storage: &mut Storage<'_, D>,
        inode: &InodeRef,
    ) -> (reply: Result<Option<ExtentTail>>)
        ensures
            old(self).answers(final(self), LayerCall::Tail { inode: *inode, reply }),
    ;

    /// Cuts up to `limit` blocks from the last extent of a file.
    fn extent_remove_tail(
        &mut self,
        storage: &mut Storage<'_, D>,
        inode: &mut InodeRef,
        limit: u32,
    ) -> (reply: Result<Option<RemovedTail>>)
        ensures
            old(self).answers(
                final(self),
                LayerCall::RemoveTail { inode: *old(inode), limit, after: *final(inode), reply },
            ),
    ;

    /// Releases consecutive blocks of one group.
    fn dealloc_block_range(
        &mut self,
        storage: &mut Storage<'_, D>,
        first: PBlockId,
        count: u32,
    ) -> (reply: Result<Vec<BlockImage>>)
        ensures
            old(self).answers(final(self), LayerCall::ReleaseRange { first, count, reply }),
    ;

    /// The inode that a name of a directory stands for.
    fn dir_find_entry(
        &mut self,
        storage: &mut Storage<'_, D>,
        dir: &InodeRef,
        name: &str,
    ) -> (reply: Result<InodeId>)
        ensures
            old(self).answers(final(self), LayerCall::FindEntry { dir: *dir, name: name@, reply }),
    ;

    /// Where a name of a directory stands.
    fn dir_find_entry_location(
        &mut self,
        storage: &mut Storage<'_, D>,
        dir: &InodeRef,
        name: &str,
    ) -> (reply: Result<DirEntryLocation>)
        ensures
            old(self).answers(
                final(self),
                LayerCall::LocateEntry { dir: *dir, name: name@, reply },
            ),
    ;

    /// The entries of a directory.
    fn dir_list_entries(
        &mut self,
        storage: &mut Storage<'_, D>,
        dir: &InodeRef,
    ) -> (reply: Result<Vec<DirEntry>>)
        ensures
            old(self).answers(final(self), LayerCall::ListEntries { dir: *dir, reply }),
    ;

    /// Whether a directory has no entries but those of itself and its parent.
    fn dir_is_empty(
        &mut self,
        storage: &mut Storage<'_, D>,
        dir: &InodeRef,
    ) -> (reply: Result<bool>)
        ensures
            old(self).answers(final(self), LayerCall::IsEmpty { dir: *dir, reply }),
    ;

    /// Whether an entry fits into the blocks of a directory.
    fn dir_has_insert_space(
        &mut self,
        storage: &mut Storage<'_, D>,
        dir: &InodeRef,
        child: &InodeRef,
        name: &str,
    ) -> (reply: Result<bool>)
        ensures
            old(self).answers(
                final(self),
                LayerCall::HasSpace { dir: *dir, child: *child, name: name@, reply },
            ),
    ;

    /// Gives a directory a further block without entries.
    fn prepare_empty_dir_slot(
        &mut self,
        storage: &mut Storage<'_, D>,
        dir: &mut InodeRef,
    ) -> (reply: Result<()>)
        ensures
            old(self).answers(
                final(self),
                LayerCall::GrowDirectory { dir: *old(dir), after: *final(dir), reply },
            ),
    ;

    /// Adds an entry, and says on failure whether the directory changed.
    fn dir_add_entry(
        &mut self,
        storage: &mut Storage<'_, D>,
        dir: &mut InodeRef,
        child: &InodeRef,
        name: &str,
    ) -> (reply: core::result::Result<(), DirAddFailure>)
        ensures
            old(self).answers(
                final(self),
                LayerCall::AddEntry {
                    dir: *old(dir),
                    child: *child,
                    name: name@,
                    after: *final(dir),
                    reply,
                },
            ),
    ;

    /// Removes an entry.
    fn dir_remove_entry(
        &mut self,
        storage: &mut Storage<'_, D>,
        dir: &InodeRef,
        name: &str,
    ) -> (reply: Result<()>)
        ensures
            old(self).answers(
                final(self),
                LayerCall::RemoveEntry { dir: *dir, name: name@, reply },
            ),
    ;

    /// Makes an entry stand for another inode.
    fn dir_replace_entry(
        &mut self,
        storage: &mut Storage<'_, D>,
        dir: &InodeRef,
        name: &str,
        target: InodeId,
        kind: FileType,
    ) -> (reply: Result<()>)
        ensures
            old(self).answers(
                final(self),
                LayerCall::ReplaceEntry { dir: *dir, name: name@, target, kind, reply },
            ),
    ;

    /// The directory blocks that adding an entry changes.
    fn dir_insert_images(
        &mut self,
        storage: &mut Storage<'_, D>,
        dir: &InodeRef,
        name: &str,
        target: InodeId,
        kind: FileType,
    ) -> (reply: Result<Vec<BlockImage>>)
        ensures
            old(self).answers(
                final(self),
                LayerCall::InsertImages { dir: *dir, name: name@, target, kind, reply },
            ),
    ;

    /// The directory blocks that making an entry stand for another inode changes.
    fn dir_replace_images(
        &mut self,
        storage: &mut Storage<'_, D>,
        dir: &InodeRef,
        name: &str,
        target: InodeId,
        kind: FileType,
    ) -> (reply: Result<Vec<BlockImage>>)
        ensures
            old(self).answers(
                final(self),
                LayerCall::ReplaceImages { dir: *dir, name: name@, target, kind, reply },
            ),
    ;

    /// The directory blocks that removing an entry changes.
    fn dir_remove_images(
        &mut self,
        storage: &mut Storage<'_, D>,
        dir: &InodeRef,
        name: &str,
    ) -> (reply: Result<Vec<BlockImage>>)
        ensures
            old(self).answers(
                final(self),
                LayerCall::RemoveImages { dir: *dir, name: name@, reply },
            ),
    ;

    /// Allocates an inode of the given mode.
    fn create_inode(
        &mut self,
        storage: &mut Storage<'_, D>,
        mode: InodeMode,
        owner: InodeOwner,
    ) -> (reply: Result<InodeRef>)
        ensures
            old(self).answers(final(self), LayerCall::CreateInode { mode, owner, reply }),
    ;

    /// Allocates a symbolic link, and stores its target.
    fn create_symlink_inode(
        &mut self,
        storage: &mut Storage<'_, D>,
        target: &[u8],
        owner: InodeOwner,
    ) -> (reply: Result<InodeRef>)
        ensures
            old(self).answers(
                final(self),
                LayerCall::CreateSymlink { target: target@, owner, reply },
            ),
    ;

    /// Allocates a device.
    fn create_device_inode(
        &mut self,
        storage: &mut Storage<'_, D>,
        mode: InodeMode,
        major: u32,
        minor: u32,
        owner: InodeOwner,
    ) -> (reply: Result<InodeRef>)
        ensures
            old(self).answers(
                final(self),
                LayerCall::CreateDevice { mode, major, minor, owner, reply },
            ),
    ;

    /// Releases an inode and its blocks.
    fn free_inode(
        &mut self,
        storage: &mut Storage<'_, D>,
        inode: &mut InodeRef,
    ) -> (reply: Result<()>)
        ensures
            old(self).answers(
                final(self),
                LayerCall::FreeInode { inode: *old(inode), after: *final(inode), reply },
            ),
    ;

    /// Adds a name for a new inode, and counts it in the inode.
    fn link_inode(
        &mut self,
        storage: &mut Storage<'_, D>,
        parent: &mut InodeRef,
        child: &mut InodeRef,
        name: &str,
    ) -> (reply: Result<()>)
        ensures
            old(self).answers(
                final(self),
                LayerCall::LinkInode {
                    parent: *old(parent),
                    child: *old(child),
                    name: name@,
                    parent_after: *final(parent),
                    child_after: *final(child),
                    reply,
                },
            ),
    ;

    /// Told that a metadata writer has left the barrier.
    fn metadata_mutation_released(&mut self)
        ensures
            old(self).answers(final(self), LayerCall::Released),
    ;
}

/// One call of the layers, with the reply to it.
#[allow(inconsistent_fields)]
pub ghost enum LayerCall {
    FindExtent {
        inode: InodeRef,
        iblock: LBlockId,
        reply: Result<Vec<ExtentSearchStep>>,
    },
    AppendShape {
        inode: InodeRef,
        start: LBlockId,
        count: u32,
        reply: Result<Option<AppendShape>>,
    },
    StageAppend {
        inode: InodeRef,
        start: LBlockId,
        first: PBlockId,
        count: u32,
        after: InodeRef,
        reply: Result<()>,
    },
    CreateExtent {
        inode: InodeRef,
        start: LBlockId,
        count: u32,
        first: PBlockId,
        after: InodeRef,
        reply: Result<()>,
    },
    DataBlocks { inode: InodeRef, reply: Result<u32> },
    TreeBlocks { inode: InodeRef, reply: Result<u32> },
    AllocRange {
        inode: InodeId,
        preferred_first: Option<PBlockId>,
        requires_merge: bool,
        count: u32,
        reply: Result<RangeAllocation>,
    },
    Tail { inode: InodeRef, reply: Result<Option<ExtentTail>> },
    RemoveTail {
        inode: InodeRef,
        limit: u32,
        after: InodeRef,
        reply: Result<Option<RemovedTail>>,
    },
    ReleaseRange { first: PBlockId, count: u32, reply: Result<Vec<BlockImage>> },
    FindEntry { dir: InodeRef, name: Seq<char>, reply: Result<InodeId> },
    LocateEntry { dir: InodeRef, name: Seq<char>, reply: Result<DirEntryLocation> },
    ListEntries { dir: InodeRef, reply: Result<Vec<DirEntry>> },
    IsEmpty { dir: InodeRef, reply: Result<bool> },
    HasSpace { dir: InodeRef, child: InodeRef, name: Seq<char>, reply: Result<bool> },
    GrowDirectory { dir: InodeRef, after: InodeRef, reply: Result<()> },
    AddEntry {
        dir: InodeRef,
        child: InodeRef,
        name: Seq<char>,
        after: InodeRef,
        reply: core::result::Result<(), DirAddFailure>,
    },
    RemoveEntry { dir: InodeRef, name: Seq<char>, reply: Result<()> },
    ReplaceEntry {
        dir: InodeRef,
        name: Seq<char>,
        target: InodeId,
        kind: FileType,
        reply: Result<()>,
    },
    InsertImages {
        dir: InodeRef,
        name: Seq<char>,
        target: InodeId,
        kind: FileType,
        reply: Result<Vec<BlockImage>>,
    },
    ReplaceImages {
        dir: InodeRef,
        name: Seq<char>,
        target: InodeId,
        kind: FileType,
        reply: Result<Vec<BlockImage>>,
    },
    RemoveImages { dir: InodeRef, name: Seq<char>, reply: Result<Vec<BlockImage>> },
    CreateInode { mode: InodeMode, owner: InodeOwner, reply: Result<InodeRef> },
    CreateSymlink { target: Seq<u8>, owner: InodeOwner, reply: Result<InodeRef> },
    CreateDevice {
        mode: InodeMode,
        major: u32,
        minor: u32,
        owner: InodeOwner,
        reply: Result<InodeRef>,
    },
    FreeInode { inode: InodeRef, after: InodeRef, reply: Result<()> },
    LinkInode {
        parent: InodeRef,
        child: InodeRef,
        name: Seq<char>,
        parent_after: InodeRef,
        child_after: InodeRef,
        reply: Result<()>,
    },
    Released,
}

} // verus!
