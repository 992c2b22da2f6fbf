//! File operations on a small file system in memory.

use another_ext4::context::JournalContext;
use another_ext4::device::{Block, BlockDevice, JournalCommitReason, JournalFlushPhase};
use another_ext4::error::{ErrCode, Ext4Error, Result};
use another_ext4::fs::{inode_in, Ext4, EXT4_ROOT_INO};
use another_ext4::range::WriteLogicalRange;
use another_ext4::inode::{
    FileType, Inode, InodeMode, InodeOwner, InodeRef, SetAttr, MODE_BLOCKDEV, MODE_FILE,
    SB_GOOD_INODE_SIZE,
};
use another_ext4::jbd2::{BlockType, ChecksumMode, Features, Header, Superblock, CRC32C_CHKSUM};
use another_ext4::journal_log::update_superblock;
use another_ext4::staged::{CachePublisher, StagedBlocks};
use another_ext4::stats::PrepareStats;
use another_ext4::superblock::{BlockGroupDesc, SuperBlock, BASE_OFFSET, SB_GOOD_DESC_SIZE};
use another_ext4::volume::{
    AppendShape, BlockImage, DirAddFailure, DirEntry, DirEntryLocation, ExtentSearchStep,
    ExtentTail, RangeAllocation, RemovedTail, Storage, Volume,
};
use another_ext4::{InodeId, LBlockId, PBlockId, BLOCK_SIZE};
use std::cell::RefCell;
use std::collections::{BTreeMap, BTreeSet};
use std::rc::Rc;

const BLOCKS: u64 = 192;
const BITMAP: PBlockId = 2;
const INODE_TABLE: PBlockId = 4;
const INODES: u32 = 32;
const FIRST_DIR_BLOCK: PBlockId = 8;
const FIRST_DATA: PBlockId = 48;
const JOURNAL: PBlockId = 128;
const JOURNAL_LEN: u32 = 64;

struct Blocks {
    data: BTreeMap<PBlockId, Box<[u8; BLOCK_SIZE]>>,
    fail_reads: Vec<PBlockId>,
    fail_writes: Vec<PBlockId>,
    writes: Vec<PBlockId>,
    flushes: usize,
}

/// A shared device in memory that fails where it is told to.
#[derive(Clone)]
struct Memory(Rc<RefCell<Blocks>>);

fn fails(list: &mut Vec<PBlockId>, id: PBlockId) -> bool {
    match list.iter().position(|&listed| listed == id) {
        Some(at) => {
            list.remove(at);
            true
        }
        None => false,
    }
}

impl Memory {
    fn bytes_of(&self, id: PBlockId) -> Box<[u8; BLOCK_SIZE]> {
        self.0
            .borrow()
            .data
            .get(&id)
            .cloned()
            .unwrap_or_else(|| Box::new([0; BLOCK_SIZE]))
    }

    fn put(&self, id: PBlockId, bytes: Box<[u8; BLOCK_SIZE]>) {
        self.0.borrow_mut().data.insert(id, bytes);
    }

    fn fail_write(&self, id: PBlockId) {
        self.0.borrow_mut().fail_writes.push(id);
    }

    fn fail_read(&self, id: PBlockId) {
        self.0.borrow_mut().fail_reads.push(id);
    }

    fn forget_writes(&self) {
        self.0.borrow_mut().writes.clear();
    }

    fn writes(&self) -> Vec<PBlockId> {
        self.0.borrow().writes.clone()
    }

    fn bit(&self, id: PBlockId) -> bool {
        self.bytes_of(BITMAP)[id as usize / 8] & (1 << (id % 8)) != 0
    }
}

impl BlockDevice for Memory {
    fn read_block(&mut self, id: PBlockId) -> Result<Block> {
        if fails(&mut self.0.borrow_mut().fail_reads, id) || id >= BLOCKS {
            return Err(Ext4Error::new(ErrCode::EIO));
        }
        Ok(Block::new(id, self.bytes_of(id)))
    }

    fn write_block(&mut self, block: &Block) -> Result<()> {
        if fails(&mut self.0.borrow_mut().fail_writes, block.id) || block.id >= BLOCKS {
            return Err(Ext4Error::new(ErrCode::EIO));
        }
        self.0.borrow_mut().writes.push(block.id);
        self.put(block.id, block.data.clone());
        Ok(())
    }

    fn flush(&mut self) -> Result<()> {
        self.0.borrow_mut().flushes += 1;
        Ok(())
    }

    fn supports_reliable_flush(&self) -> bool {
        true
    }

    fn diagnostic_enabled(&self) -> bool {
        false
    }

    fn diagnostic_cycles(&self) -> usize {
        0
    }

    fn record_journal_commit(&mut self, _bytes: usize) {}

    fn record_writeback_journal_commit(
        &mut self,
        _transaction_id: u32,
        _staged_blocks: usize,
        _cycles: usize,
        _reason: JournalCommitReason,
    ) {
    }

    fn record_writeback_journal_flush(
        &mut self,
        _transaction_id: u32,
        _phase: JournalFlushPhase,
        _cycles: usize,
    ) {
    }

    fn record_writeback_data_write(&mut self, _bytes: usize, _cycles: usize) {}

    fn record_writeback_alloc_extent(&mut self, _blocks: usize, _cycles: usize) {}
}

/// Layers that keep up to four extents in the inode, and each directory in a block of its own.
struct Layers {
    next_inode: InodeId,
    published: usize,
}

fn fault<T>(code: ErrCode) -> Result<T> {
    Err(Ext4Error::new(code))
}

fn extents_of(inode: &Inode) -> Result<Vec<(u32, u32, u64)>> {
    let root = inode.inline_block();
    if root[0..2] != 0xf30au16.to_le_bytes() {
        return fault(ErrCode::EIO);
    }
    let count = u16::from_le_bytes([root[2], root[3]]) as usize;
    Ok((0..count)
        .map(|index| {
            let entry = &root[12 * (index + 1)..12 * (index + 2)];
            (
                u32::from_le_bytes(entry[0..4].try_into().unwrap()),
                u16::from_le_bytes(entry[4..6].try_into().unwrap()) as u32,
                u32::from_le_bytes(entry[8..12].try_into().unwrap()) as u64,
            )
        })
        .collect())
}

fn set_extents(inode: &mut Inode, extents: &[(u32, u32, u64)]) {
    let root = &mut inode.raw[40..100];
    root[2..4].copy_from_slice(&(extents.len() as u16).to_le_bytes());
    for (index, (lblock, len, pblock)) in extents.iter().enumerate() {
        let entry = &mut root[12 * (index + 1)..12 * (index + 2)];
        entry[0..4].copy_from_slice(&lblock.to_le_bytes());
        entry[4..6].copy_from_slice(&(*len as u16).to_le_bytes());
        entry[6..8].copy_from_slice(&0u16.to_le_bytes());
        entry[8..12].copy_from_slice(&(*pblock as u32).to_le_bytes());
    }
}

fn insert_extent(inode: &mut Inode, start: u32, count: u32, first: u64) -> Result<()> {
    let mut extents = extents_of(inode)?;
    match extents
        .iter_mut()
        .find(|(lblock, len, pblock)| lblock + len == start && pblock + *len as u64 == first)
    {
        Some(extent) => extent.1 += count,
        None => {
            if extents.len() == 4 {
                return fault(ErrCode::ENOSPC);
            }
            extents.push((start, count, first));
            extents.sort();
        }
    }
    set_extents(inode, &extents);
    Ok(())
}

fn dir_block(dir: InodeId) -> PBlockId {
    FIRST_DIR_BLOCK + dir as u64
}

type Entry = (String, InodeId, FileType);

fn kind_number(kind: FileType) -> u8 {
    match kind {
        FileType::Directory => 2,
        FileType::SymLink => 7,
        FileType::CharacterDev => 3,
        FileType::BlockDev => 4,
        _ => 1,
    }
}

fn kind_of(number: u8) -> FileType {
    match number {
        2 => FileType::Directory,
        7 => FileType::SymLink,
        3 => FileType::CharacterDev,
        4 => FileType::BlockDev,
        _ => FileType::RegularFile,
    }
}

fn parse_dir(bytes: &[u8]) -> Vec<Entry> {
    let mut entries = Vec::new();
    let mut at = 0;
    while at + 6 <= bytes.len() {
        let inode = u32::from_le_bytes(bytes[at..at + 4].try_into().unwrap());
        if inode == 0 {
            break;
        }
        let len = bytes[at + 5] as usize;
        let name = String::from_utf8(bytes[at + 6..at + 6 + len].to_vec()).unwrap();
        entries.push((name, inode, kind_of(bytes[at + 4])));
        at += 6 + len;
    }
    entries
}

fn write_dir(entries: &[Entry]) -> Box<[u8; BLOCK_SIZE]> {
    let mut bytes = Box::new([0; BLOCK_SIZE]);
    let mut at = 0;
    for (name, inode, kind) in entries {
        bytes[at..at + 4].copy_from_slice(&inode.to_le_bytes());
        bytes[at + 4] = kind_number(*kind);
        bytes[at + 5] = name.len() as u8;
        bytes[at + 6..at + 6 + name.len()].copy_from_slice(name.as_bytes());
        at += 6 + name.len();
    }
    bytes
}

impl Layers {
    fn entries<D: BlockDevice>(
        storage: &mut Storage<'_, D>,
        dir: InodeId,
    ) -> Result<Vec<Entry>> {
        Ok(parse_dir(&storage.read_block(dir_block(dir))?.data[..]))
    }

    fn store<D: BlockDevice>(
        storage: &mut Storage<'_, D>,
        dir: InodeId,
        entries: &[Entry],
    ) -> Result<()> {
        storage.write_block(&Block::new(dir_block(dir), write_dir(entries)))
    }

    fn image(dir: InodeId, entries: &[Entry]) -> Vec<BlockImage> {
        vec![BlockImage {
            home: dir_block(dir),
            data: write_dir(entries),
        }]
    }

    fn replaced<D: BlockDevice>(
        storage: &mut Storage<'_, D>,
        dir: InodeId,
        name: &str,
        target: InodeId,
        kind: FileType,
    ) -> Result<Vec<Entry>> {
        let mut entries = Self::entries(storage, dir)?;
        match entries.iter_mut().find(|entry| entry.0 == name) {
            Some(entry) => {
                entry.1 = target;
                entry.2 = kind;
                Ok(entries)
            }
            None => fault(ErrCode::ENOENT),
        }
    }

    fn removed<D: BlockDevice>(
        storage: &mut Storage<'_, D>,
        dir: InodeId,
        name: &str,
    ) -> Result<Vec<Entry>> {
        let mut entries = Self::entries(storage, dir)?;
        match entries.iter().position(|entry| entry.0 == name) {
            Some(at) => {
                entries.remove(at);
                Ok(entries)
            }
            None => fault(ErrCode::ENOENT),
        }
    }

    fn write_inode<D: BlockDevice>(storage: &mut Storage<'_, D>, inode: &InodeRef) -> Result<()> {
        let at = (inode.id as usize - 1) * SB_GOOD_INODE_SIZE;
        let home = INODE_TABLE + (at / BLOCK_SIZE) as u64;
        let mut block = storage.read_block(home)?;
        let offset = at % BLOCK_SIZE;
        block.data[offset..offset + SB_GOOD_INODE_SIZE].copy_from_slice(inode.inode.bytes());
        storage.write_block(&block)
    }

    fn new_inode(&mut self, mode: InodeMode, owner: InodeOwner) -> InodeRef {
        let mut inode = Inode::zeroed();
        inode.set_mode(mode);
        inode.set_uid(owner.uid);
        inode.set_gid(owner.gid);
        let id = self.next_inode;
        self.next_inode += 1;
        InodeRef::new(id, inode)
    }

    /// The images that mark blocks as used or free.
    fn allocation_images<D: BlockDevice>(
        storage: &mut Storage<'_, D>,
        first: PBlockId,
        count: u32,
        used: bool,
    ) -> Result<Vec<BlockImage>> {
        let mut bitmap = storage.read_block(BITMAP)?;
        for id in first..first + count as u64 {
            let mask = 1u8 << (id % 8);
            if used {
                bitmap.data[id as usize / 8] |= mask;
            } else {
                bitmap.data[id as usize / 8] &= !mask;
            }
        }
        let delta = |free: u32| if used { free - count } else { free + count };
        let mut table = storage.read_block(1)?;
        let mut desc = BlockGroupDesc::from_block(&table.data, 0);
        desc.set_free_blocks_count(delta(desc.get_free_blocks_count() as u32) as u64);
        table.data[..SB_GOOD_DESC_SIZE].copy_from_slice(&desc.raw);
        let mut base = storage.read_block(0)?;
        let mut superblock = SuperBlock::from_block(&base.data);
        superblock.set_free_blocks_count(delta(superblock.free_blocks_count() as u32) as u64);
        base.data[BASE_OFFSET..BASE_OFFSET + 1024].copy_from_slice(&superblock.raw);
        Ok(vec![
            BlockImage {
                home: BITMAP,
                data: bitmap.data,
            },
            BlockImage {
                home: 1,
                data: table.data,
            },
            BlockImage {
                home: 0,
                data: base.data,
            },
        ])
    }
}

impl CachePublisher for Layers {
    fn publish(&mut self, blocks: &StagedBlocks) {
        self.published += blocks.len();
    }

    fn publish_pending(&mut self, _blocks: &StagedBlocks) {}
}

impl<D: BlockDevice> Volume<D> for Layers {
    fn find_extent(
        &mut self,
        _storage: &mut Storage<'_, D>,
        inode: &InodeRef,
        iblock: LBlockId,
    ) -> Result<Vec<ExtentSearchStep>> {
        let extents = extents_of(&inode.inode)?;
        let index = extents
            .iter()
            .position(|(lblock, len, _)| *lblock <= iblock && iblock < lblock + len)
            .ok_or(extents.len());
        Ok(vec![ExtentSearchStep { pblock: 0, index }])
    }

    fn direct_append_shape(
        &mut self,
        _storage: &mut Storage<'_, D>,
        inode: &InodeRef,
        start: LBlockId,
        _count: u32,
    ) -> Result<Option<AppendShape>> {
        let extents = extents_of(&inode.inode)?;
        Ok(match extents.last() {
            None => Some(AppendShape {
                preferred_first: None,
                requires_merge: false,
            }),
            Some((lblock, len, pblock)) if lblock + len == start => Some(AppendShape {
                preferred_first: Some(pblock + *len as u64),
                requires_merge: extents.len() == 4,
            }),
            Some(_) => None,
        })
    }

    fn stage_direct_append_extent(
        &mut self,
        _storage: &mut Storage<'_, D>,
        inode: &mut InodeRef,
        start: LBlockId,
        first: PBlockId,
        count: u32,
    ) -> Result<()> {
        insert_extent(&mut inode.inode, start, count, first)?;
        let blocks = inode.inode.fs_block_count();
        inode.inode.set_fs_block_count(blocks + count as u64);
        Ok(())
    }

    fn extent_create_preallocated(
        &mut self,
        _storage: &mut Storage<'_, D>,
        inode: &mut InodeRef,
        start: LBlockId,
        count: u32,
        first: PBlockId,
    ) -> Result<()> {
        insert_extent(&mut inode.inode, start, count, first)
    }

    fn extent_data_blocks(
        &mut self,
        _storage: &mut Storage<'_, D>,
        inode: &InodeRef,
    ) -> Result<u32> {
        Ok(extents_of(&inode.inode)?.iter().map(|extent| extent.1).sum())
    }

    fn extent_tree_blocks(
        &mut self,
        _storage: &mut Storage<'_, D>,
        _inode: &InodeRef,
    ) -> Result<u32> {
        Ok(0)
    }

    fn alloc_direct_range(
        &mut self,
        storage: &mut Storage<'_, D>,
        _inode: InodeId,
        preferred_first: Option<PBlockId>,
        requires_merge: bool,
        count: u32,
    ) -> Result<RangeAllocation> {
        let bitmap = storage.read_block(BITMAP)?;
        let free = |id: u64| bitmap.data[id as usize / 8] & (1 << (id % 8)) == 0;
        let fits = |first: u64| {
            first + count as u64 <= JOURNAL && (first..first + count as u64).all(&free)
        };
        let first = match preferred_first {
            Some(first) if fits(first) => first,
            _ if requires_merge => return fault(ErrCode::ENOSPC),
            _ => match (FIRST_DATA..JOURNAL).find(|first| fits(*first)) {
                Some(first) => first,
                None => return fault(ErrCode::ENOSPC),
            },
        };
        Ok(RangeAllocation {
            first,
            images: Self::allocation_images(storage, first, count, true)?,
        })
    }

    fn extent_tail(
        &mut self,
        _storage: &mut Storage<'_, D>,
        inode: &InodeRef,
    ) -> Result<Option<ExtentTail>> {
        Ok(extents_of(&inode.inode)?
            .last()
            .map(|(lblock, len, pblock)| ExtentTail {
                start_lblock: *lblock,
                block_count: *len,
                start_pblock: *pblock,
            }))
    }

    fn extent_remove_tail(
        &mut self,
        _storage: &mut Storage<'_, D>,
        inode: &mut InodeRef,
        limit: u32,
    ) -> Result<Option<RemovedTail>> {
        let mut extents = extents_of(&inode.inode)?;
        let Some((_, len, pblock)) = extents.last_mut() else {
            return Ok(None);
        };
        let count = limit.min(*len);
        *len -= count;
        let start_pblock = *pblock + *len as u64;
        if *len == 0 {
            extents.pop();
        }
        set_extents(&mut inode.inode, &extents);
        Ok(Some(RemovedTail {
            start_pblock,
            block_count: count,
            metadata_blocks: Vec::new(),
            images: Vec::new(),
        }))
    }

    fn dealloc_block_range(
        &mut self,
        storage: &mut Storage<'_, D>,
        first: PBlockId,
        count: u32,
    ) -> Result<Vec<BlockImage>> {
        Self::allocation_images(storage, first, count, false)
    }

    fn dir_find_entry(
        &mut self,
        storage: &mut Storage<'_, D>,
        dir: &InodeRef,
        name: &str,
    ) -> Result<InodeId> {
        match Self::entries(storage, dir.id)?
            .iter()
            .find(|entry| entry.0 == name)
        {
            Some(entry) => Ok(entry.1),
            None => fault(ErrCode::ENOENT),
        }
    }

    fn dir_find_entry_location(
        &mut self,
        storage: &mut Storage<'_, D>,
        dir: &InodeRef,
        name: &str,
    ) -> Result<DirEntryLocation> {
        match Self::entries(storage, dir.id)?
            .iter()
            .find(|entry| entry.0 == name)
        {
            Some(entry) => Ok(DirEntryLocation {
                inode_id: entry.1,
                pblock: dir_block(dir.id),
                offset: 0,
            }),
            None => fault(ErrCode::ENOENT),
        }
    }

    fn dir_list_entries(
        &mut self,
        storage: &mut Storage<'_, D>,
        dir: &InodeRef,
    ) -> Result<Vec<DirEntry>> {
        Ok(Self::entries(storage, dir.id)?
            .into_iter()
            .map(|(name, inode, file_type)| DirEntry {
                inode,
                file_type,
                name,
            })
            .collect())
    }

    fn dir_is_empty(&mut self, storage: &mut Storage<'_, D>, dir: &InodeRef) -> Result<bool> {
        Ok(Self::entries(storage, dir.id)?
            .iter()
            .all(|entry| entry.0 == "." || entry.0 == ".."))
    }

    fn dir_has_insert_space(
        &mut self,
        _storage: &mut Storage<'_, D>,
        _dir: &InodeRef,
        _child: &InodeRef,
        _name: &str,
    ) -> Result<bool> {
        Ok(true)
    }

    fn prepare_empty_dir_slot(
        &mut self,
        _storage: &mut Storage<'_, D>,
        _dir: &mut InodeRef,
    ) -> Result<()> {
        Ok(())
    }

    fn dir_add_entry(
        &mut self,
        storage: &mut Storage<'_, D>,
        dir: &mut InodeRef,
        child: &InodeRef,
        name: &str,
    ) -> core::result::Result<(), DirAddFailure> {
        let mut entries = Self::entries(storage, dir.id).map_err(DirAddFailure::Unmodified)?;
        entries.push((name.to_string(), child.id, child.inode.file_type()));
        Self::store(storage, dir.id, &entries).map_err(DirAddFailure::Indeterminate)
    }

    fn dir_remove_entry(
        &mut self,
        storage: &mut Storage<'_, D>,
        dir: &InodeRef,
        name: &str,
    ) -> Result<()> {
        let entries = Self::removed(storage, dir.id, name)?;
        Self::store(storage, dir.id, &entries)
    }

    fn dir_replace_entry(
        &mut self,
        storage: &mut Storage<'_, D>,
        dir: &InodeRef,
        name: &str,
        target: InodeId,
        kind: FileType,
    ) -> Result<()> {
        let entries = Self::replaced(storage, dir.id, name, target, kind)?;
        Self::store(storage, dir.id, &entries)
    }

    fn dir_insert_images(
        &mut self,
        storage: &mut Storage<'_, D>,
        dir: &InodeRef,
        name: &str,
        target: InodeId,
        kind: FileType,
    ) -> Result<Vec<BlockImage>> {
        let mut entries = Self::entries(storage, dir.id)?;
        entries.push((name.to_string(), target, kind));
        Ok(Self::image(dir.id, &entries))
    }

    fn dir_replace_images(
        &mut self,
        storage: &mut Storage<'_, D>,
        dir: &InodeRef,
        name: &str,
        target: InodeId,
        kind: FileType,
    ) -> Result<Vec<BlockImage>> {
        Ok(Self::image(
            dir.id,
            &Self::replaced(storage, dir.id, name, target, kind)?,
        ))
    }

    fn dir_remove_images(
        &mut self,
        storage: &mut Storage<'_, D>,
        dir: &InodeRef,
        name: &str,
    ) -> Result<Vec<BlockImage>> {
        Ok(Self::image(dir.id, &Self::removed(storage, dir.id, name)?))
    }

    fn create_inode(
        &mut self,
        storage: &mut Storage<'_, D>,
        mode: InodeMode,
        owner: InodeOwner,
    ) -> Result<InodeRef> {
        if self.next_inode > INODES {
            return fault(ErrCode::ENOSPC);
        }
        let mut inode = self.new_inode(mode, owner);
        inode.inode.extent_init();
        Self::write_inode(storage, &inode)?;
        if inode.inode.is_dir() {
            Self::store(storage, inode.id, &[])?;
        }
        Ok(inode)
    }

    fn create_symlink_inode(
        &mut self,
        storage: &mut Storage<'_, D>,
        target: &[u8],
        owner: InodeOwner,
    ) -> Result<InodeRef> {
        let mut inode = self.new_inode(
            InodeMode::from_type_and_perm(FileType::SymLink, InodeMode::from_bits_retain(0o777)),
            owner,
        );
        if target.len() <= 60 {
            inode.inode.raw[40..40 + target.len()].copy_from_slice(target);
        } else {
            inode.inode.extent_init();
            let first = FIRST_DATA + 40;
            for image in Self::allocation_images(storage, first, 1, true)? {
                storage.write_block(&Block::new(image.home, image.data))?;
            }
            let mut block = Block::new(first, Box::new([0; BLOCK_SIZE]));
            block.data[..target.len()].copy_from_slice(target);
            storage.write_block(&block)?;
            insert_extent(&mut inode.inode, 0, 1, first)?;
        }
        inode.inode.set_size(target.len() as u64);
        Self::write_inode(storage, &inode)?;
        Ok(inode)
    }

    fn create_device_inode(
        &mut self,
        storage: &mut Storage<'_, D>,
        mode: InodeMode,
        major: u32,
        minor: u32,
        owner: InodeOwner,
    ) -> Result<InodeRef> {
        let mut inode = self.new_inode(mode, owner);
        inode.inode.set_device(major, minor);
        Self::write_inode(storage, &inode)?;
        Ok(inode)
    }

    fn free_inode(&mut self, storage: &mut Storage<'_, D>, inode: &mut InodeRef) -> Result<()> {
        inode.inode = Inode::zeroed();
        Self::write_inode(storage, inode)
    }

    fn link_inode(
        &mut self,
        storage: &mut Storage<'_, D>,
        parent: &mut InodeRef,
        child: &mut InodeRef,
        name: &str,
    ) -> Result<()> {
        let mut entries = Self::entries(storage, parent.id)?;
        entries.push((name.to_string(), child.id, child.inode.file_type()));
        Self::store(storage, parent.id, &entries)?;
        if child.inode.is_dir() {
            let mut inner = Self::entries(storage, child.id)?;
            inner.push(("..".to_string(), parent.id, FileType::Directory));
            Self::store(storage, child.id, &inner)?;
            parent.inode.set_link_count(parent.inode.link_count() + 1);
            Self::write_inode(storage, parent)?;
        }
        child.inode.set_link_count(child.inode.link_count() + 1);
        Self::write_inode(storage, child)
    }

    fn metadata_mutation_released(&mut self) {}
}

type Fs = Ext4<Memory, Layers>;

fn put_u32(data: &mut [u8; BLOCK_SIZE], at: usize, value: u32) {
    data[at..at + 4].copy_from_slice(&value.to_le_bytes());
}

fn formatted() -> Memory {
    let device = Memory(Rc::new(RefCell::new(Blocks {
        data: BTreeMap::new(),
        fail_reads: Vec::new(),
        fail_writes: Vec::new(),
        writes: Vec::new(),
        flushes: 0,
    })));
    let free = (JOURNAL - FIRST_DATA) as u32;
    let mut base = Box::new([0; BLOCK_SIZE]);
    put_u32(&mut base, BASE_OFFSET, INODES);
    put_u32(&mut base, BASE_OFFSET + 4, BLOCKS as u32);
    put_u32(&mut base, BASE_OFFSET + 12, free);
    put_u32(&mut base, BASE_OFFSET + 24, 2);
    put_u32(&mut base, BASE_OFFSET + 32, BLOCKS as u32);
    put_u32(&mut base, BASE_OFFSET + 40, INODES);
    base[BASE_OFFSET + 56..BASE_OFFSET + 58].copy_from_slice(&0xef53u16.to_le_bytes());
    device.put(0, base);
    let mut table = Box::new([0; BLOCK_SIZE]);
    put_u32(&mut table, 0, BITMAP as u32);
    put_u32(&mut table, 4, 3);
    put_u32(&mut table, 8, INODE_TABLE as u32);
    table[12..14].copy_from_slice(&(free as u16).to_le_bytes());
    device.put(1, table);
    let mut bitmap = Box::new([0; BLOCK_SIZE]);
    for id in (0..FIRST_DATA).chain(JOURNAL..BLOCKS) {
        bitmap[id as usize / 8] |= 1 << (id % 8);
    }
    device.put(BITMAP, bitmap);
    let mut root = Inode::zeroed();
    root.set_mode(InodeMode::from_type_and_perm(
        FileType::Directory,
        InodeMode::from_bits_retain(0o755),
    ));
    root.set_link_count(2);
    let mut inodes = Box::new([0; BLOCK_SIZE]);
    inodes[SB_GOOD_INODE_SIZE..2 * SB_GOOD_INODE_SIZE].copy_from_slice(root.bytes());
    device.put(INODE_TABLE, inodes);
    device.put(
        dir_block(EXT4_ROOT_INO),
        write_dir(&[
            (".".to_string(), EXT4_ROOT_INO, FileType::Directory),
            ("..".to_string(), EXT4_ROOT_INO, FileType::Directory),
        ]),
    );
    device
}

fn parts() -> (Memory, Fs) {
    let device = formatted();
    let superblock = SuperBlock::from_block(&device.bytes_of(0));
    let group = BlockGroupDesc::from_block(&device.bytes_of(1), 0);
    let layers = Layers {
        next_inode: 11,
        published: 0,
    };
    let fs = Ext4::new(device.clone(), layers, superblock, vec![group], Vec::new());
    (device, fs)
}

fn direct() -> (Memory, Fs) {
    let (device, mut fs) = parts();
    fs.initialize_direct().unwrap();
    (device, fs)
}

fn journaled() -> (Memory, Fs) {
    let (device, mut fs) = parts();
    let features = Features {
        checksum: ChecksumMode::V3,
        has_64bit: true,
    };
    let superblock = Superblock {
        block_size: BLOCK_SIZE as u32,
        max_len: JOURNAL_LEN,
        first: 1,
        sequence: 1,
        start: 0,
        errno: 0,
        features,
        uuid: *b"0123456789abcdef",
        checksum_type: CRC32C_CHKSUM,
    };
    let mut image = Box::new([0; 1024]);
    Header {
        block_type: BlockType::SuperblockV2,
        sequence: 1,
    }
    .encode_into(&mut image[..]);
    image[12..16].copy_from_slice(&(BLOCK_SIZE as u32).to_be_bytes());
    image[16..20].copy_from_slice(&JOURNAL_LEN.to_be_bytes());
    image[20..24].copy_from_slice(&1u32.to_be_bytes());
    image[40..44].copy_from_slice(&0x12u32.to_be_bytes());
    image[48..64].copy_from_slice(b"0123456789abcdef");
    image[80] = CRC32C_CHKSUM;
    update_superblock(&mut image, 1, 0, &superblock);
    fs.initialize_journal(JournalContext {
        superblock,
        logical_blocks: Vec::from_iter(JOURNAL..JOURNAL + JOURNAL_LEN as u64),
        journal_blocks: BTreeSet::from_iter(JOURNAL..JOURNAL + JOURNAL_LEN as u64),
        target_blocks: BLOCKS,
        head: 1,
        superblock_image: image,
        deferred_transaction: None,
    })
    .unwrap();
    (device, fs)
}

fn file_mode() -> InodeMode {
    InodeMode::from_bits_retain(MODE_FILE | 0o644)
}

fn dir_mode() -> InodeMode {
    InodeMode::from_bits_retain(0o755)
}

fn code<T>(outcome: Result<T>) -> ErrCode {
    match outcome {
        Ok(_) => panic!("the operation must fail"),
        Err(error) => error.code(),
    }
}

fn pattern(len: usize) -> Vec<u8> {
    (0..len).map(|at| (at * 7 + at / 256) as u8).collect()
}

fn names(fs: &mut Fs, dir: InodeId) -> Vec<String> {
    fs.listdir(dir)
        .unwrap()
        .into_iter()
        .map(|entry| entry.name)
        .collect()
}

#[test]
fn created_file_is_found_and_listed() {
    let (_, mut fs) = direct();
    let owner = InodeOwner { uid: 7, gid: 9 };
    let attr = fs
        .create_with_owner_and_attr(2, "a", file_mode(), owner)
        .unwrap();
    assert_eq!(attr.ino, 11);
    assert_eq!(attr.ftype, FileType::RegularFile);
    assert_eq!((attr.uid, attr.gid, attr.links), (7, 9, 1));
    assert_eq!(fs.lookup(2, "a").unwrap(), 11);
    assert_eq!(names(&mut fs, 2), [".", "..", "a"]);
    assert_eq!(fs.getattr(11).unwrap(), attr);
    assert_eq!(code(fs.lookup(2, "b")), ErrCode::ENOENT);
    assert_eq!(code(fs.lookup(11, "b")), ErrCode::ENOTDIR);
    assert_eq!(code(fs.listdir(11)), ErrCode::ENOTDIR);
    assert_eq!(code(fs.create(11, "b", file_mode())), ErrCode::ENOTDIR);
}

#[test]
fn second_file_of_a_name_is_refused_and_its_inode_released() {
    let (device, mut fs) = direct();
    fs.create(2, "a", file_mode()).unwrap();
    assert_eq!(code(fs.create(2, "a", file_mode())), ErrCode::EEXIST);
    let released = inode_in(&device.bytes_of(INODE_TABLE), 11 * SB_GOOD_INODE_SIZE);
    assert_eq!(released.mode().bits(), 0);
    assert_eq!(code(fs.getattr(12)), ErrCode::EINVAL);
    assert_eq!(names(&mut fs, 2), [".", "..", "a"]);
}

#[test]
fn created_file_that_cannot_be_linked_is_released() {
    let (device, mut fs) = direct();
    device.fail_write(dir_block(2));
    assert_eq!(code(fs.create(2, "a", file_mode())), ErrCode::EIO);
    assert_eq!(code(fs.getattr(11)), ErrCode::EINVAL);
    assert_eq!(names(&mut fs, 2), [".", ".."]);
}

#[test]
fn written_bytes_are_read_back() {
    let (_, mut fs) = direct();
    let file = fs.create(2, "a", file_mode()).unwrap();
    let data = pattern(2 * BLOCK_SIZE + 100);
    assert_eq!(fs.write(file, 4000, &data).unwrap(), data.len());
    let mut back = vec![0xff; data.len()];
    assert_eq!(fs.read(file, 4000, &mut back).unwrap(), data.len());
    assert_eq!(back, data);
    let attr = fs.getattr(file).unwrap();
    assert_eq!(attr.size, 4000 + data.len() as u64);
    assert_eq!(attr.blocks, 4 * 8);
    let mut head = vec![0xff; 4000];
    assert_eq!(fs.read(file, 0, &mut head).unwrap(), 4000);
    assert!(head.iter().all(|byte| *byte == 0));
}

#[test]
fn overwrite_changes_its_bytes_alone() {
    let (_, mut fs) = direct();
    let file = fs.create(2, "a", file_mode()).unwrap();
    let mut expected = pattern(3 * BLOCK_SIZE);
    fs.write(file, 0, &expected).unwrap();
    let patch = vec![0xee; 5000];
    fs.write_data_only(file, 100, &patch).unwrap();
    expected[100..5100].copy_from_slice(&patch);
    fs.write(file, 9000, &[1, 2, 3]).unwrap();
    expected[9000..9003].copy_from_slice(&[1, 2, 3]);
    let mut back = vec![0; expected.len()];
    assert_eq!(fs.read(file, 0, &mut back).unwrap(), expected.len());
    assert_eq!(back, expected);
    assert_eq!(fs.getattr(file).unwrap().size, 3 * BLOCK_SIZE as u64);
}

#[test]
fn read_stops_at_the_end_of_the_file() {
    let (_, mut fs) = direct();
    let file = fs.create(2, "a", file_mode()).unwrap();
    fs.write(file, 0, &pattern(100)).unwrap();
    let mut buf = [0xaa; 64];
    assert_eq!(fs.read(file, 90, &mut buf).unwrap(), 10);
    assert_eq!(buf[..10], pattern(100)[90..]);
    assert_eq!(buf[10..], [0xaa; 54]);
    assert_eq!(fs.read(file, 100, &mut buf).unwrap(), 0);
    assert_eq!(fs.read(file, 0, &mut []).unwrap(), 0);
    assert_eq!(code(fs.read(2, 0, &mut buf)), ErrCode::EISDIR);
}

#[test]
fn hole_between_extents_reads_as_zero() {
    let (_, mut fs) = direct();
    let file = fs.create(2, "a", file_mode()).unwrap();
    fs.write(file, 0, &pattern(10)).unwrap();
    fs.write(file, 4 * BLOCK_SIZE, &pattern(10)).unwrap();
    let mut back = vec![0xff; 4 * BLOCK_SIZE + 10];
    assert_eq!(fs.read(file, 0, &mut back).unwrap(), back.len());
    assert_eq!(back[..10], pattern(10));
    assert!(back[10..4 * BLOCK_SIZE].iter().all(|byte| *byte == 0));
    assert_eq!(back[4 * BLOCK_SIZE..], pattern(10));
}

#[test]
fn data_alone_is_not_written_to_a_hole() {
    let (device, mut fs) = direct();
    let file = fs.create(2, "a", file_mode()).unwrap();
    fs.write(file, 0, &pattern(BLOCK_SIZE)).unwrap();
    device.forget_writes();
    assert_eq!(
        code(fs.write_data_only(file, 0, &pattern(2 * BLOCK_SIZE))),
        ErrCode::ENOENT
    );
    assert!(device.writes().is_empty());
    assert_eq!(code(fs.write_data_only(2, 0, &[1])), ErrCode::EISDIR);
    assert_eq!(fs.write_data_only(file, 0, &[]).unwrap(), 0);
    assert_eq!(
        code(fs.write_data_only(file, usize::MAX - 1, &[1, 2])),
        ErrCode::EFBIG
    );
}

#[test]
fn neighbouring_blocks_are_written_in_order() {
    let (device, mut fs) = direct();
    let file = fs.create(2, "a", file_mode()).unwrap();
    fs.write(file, 0, &pattern(3 * BLOCK_SIZE)).unwrap();
    device.forget_writes();
    fs.write_data_only(file, 0, &pattern(3 * BLOCK_SIZE)).unwrap();
    assert_eq!(device.writes(), [FIRST_DATA, FIRST_DATA + 1, FIRST_DATA + 2]);
}

#[test]
fn failed_write_gives_its_blocks_back() {
    let (device, mut fs) = direct();
    let file = fs.create(2, "a", file_mode()).unwrap();
    let free = fs.read_super_block_cached().free_blocks_count();
    device.fail_write(FIRST_DATA + 1);
    assert_eq!(
        code(fs.write(file, 0, &pattern(2 * BLOCK_SIZE))),
        ErrCode::EIO
    );
    assert!(!fs.is_poisoned());
    assert_eq!(fs.read_super_block_cached().free_blocks_count(), free);
    assert!(!device.bit(FIRST_DATA));
    assert!(!device.bit(FIRST_DATA + 1));
}

#[test]
fn allocated_blocks_read_as_zero() {
    let (device, mut fs) = direct();
    let file = fs.create(2, "a", file_mode()).unwrap();
    device.put(FIRST_DATA, Box::new([0x5a; BLOCK_SIZE]));
    fs.allocate_blocks_for_write_range(file, 10, 20).unwrap();
    assert!(device.bit(FIRST_DATA));
    assert!(device.bytes_of(FIRST_DATA).iter().all(|byte| *byte == 0));
    assert_eq!(fs.getattr(file).unwrap().size, 0);
    assert_eq!(fs.getattr(file).unwrap().blocks, 8);
    fs.allocate_blocks_for_write_range(file, 0, 0).unwrap();
    assert_eq!(
        code(fs.allocate_blocks_for_write_range(file, usize::MAX, 2)),
        ErrCode::EFBIG
    );
    assert_eq!(
        code(fs.allocate_blocks_for_write_range(30, 0, 1)),
        ErrCode::EINVAL
    );
}

#[test]
fn attributes_that_are_set_are_read_back() {
    let (_, mut fs) = direct();
    let file = fs.create(2, "a", file_mode()).unwrap();
    let before = fs.getattr(file).unwrap();
    let mut attr = SetAttr::new();
    attr.uid = Some(0x1_0002);
    attr.mtime = Some(77);
    attr.mode = Some(InodeMode::from_bits_retain(MODE_FILE | 0o600));
    fs.setattr(file, attr).unwrap();
    let after = fs.getattr(file).unwrap();
    assert_eq!((after.uid, after.mtime), (0x1_0002, 77));
    assert_eq!(after.perm.bits(), 0o600);
    assert_eq!(
        (after.gid, after.size, after.atime, after.links),
        (before.gid, before.size, before.atime, before.links)
    );
    assert_eq!(code(fs.setattr(30, SetAttr::new())), ErrCode::EINVAL);
    assert_eq!(code(fs.getattr(0)), ErrCode::EINVAL);
    assert_eq!(code(fs.getattr(INODES + 1)), ErrCode::EINVAL);
}

#[test]
fn committed_size_allocates_nothing() {
    let (device, mut fs) = direct();
    let file = fs.create(2, "a", file_mode()).unwrap();
    device.forget_writes();
    fs.commit_inode_size(file, 0x1_2345_6789, Some(5)).unwrap();
    let attr = fs.getattr(file).unwrap();
    assert_eq!((attr.size, attr.mtime, attr.blocks), (0x1_2345_6789, 5, 0));
    assert_eq!(device.writes(), [INODE_TABLE]);
    fs.commit_inode_metadata(file, None, Some(8), None).unwrap();
    assert_eq!(fs.getattr(file).unwrap().atime, 8);
}

#[test]
fn truncation_releases_blocks_and_clears_the_end() {
    let (device, mut fs) = direct();
    let file = fs.create(2, "a", file_mode()).unwrap();
    let free = fs.read_super_block_cached().free_blocks_count();
    fs.write(file, 0, &pattern(4 * BLOCK_SIZE)).unwrap();
    assert_eq!(fs.read_super_block_cached().free_blocks_count(), free - 4);
    fs.truncate_inode(file, BLOCK_SIZE as u64 + 10).unwrap();
    let attr = fs.getattr(file).unwrap();
    assert_eq!((attr.size, attr.blocks), (BLOCK_SIZE as u64 + 10, 2 * 8));
    assert_eq!(fs.read_super_block_cached().free_blocks_count(), free - 2);
    assert!(device.bit(FIRST_DATA + 1) && !device.bit(FIRST_DATA + 2));
    fs.truncate_inode(file, 3 * BLOCK_SIZE as u64).unwrap();
    assert_eq!(fs.getattr(file).unwrap().blocks, 2 * 8);
    let mut back = vec![0xff; 3 * BLOCK_SIZE];
    assert_eq!(fs.read(file, 0, &mut back).unwrap(), back.len());
    assert_eq!(back[..BLOCK_SIZE + 10], pattern(BLOCK_SIZE + 10));
    assert!(back[BLOCK_SIZE + 10..].iter().all(|byte| *byte == 0));
    fs.truncate_inode(file, 0).unwrap();
    assert_eq!(fs.read_super_block_cached().free_blocks_count(), free);
    assert_eq!(fs.getattr(file).unwrap().blocks, 0);
}

#[test]
fn growing_a_file_writes_its_inode_alone() {
    let (device, mut fs) = direct();
    let file = fs.create(2, "a", file_mode()).unwrap();
    device.forget_writes();
    fs.truncate_inode(file, 1 << 40).unwrap();
    assert_eq!(device.writes(), [INODE_TABLE]);
    assert_eq!(fs.getattr(file).unwrap().size, 1 << 40);
    device.forget_writes();
    fs.truncate_inode(file, 1 << 40).unwrap();
    assert!(device.writes().is_empty());
    assert_eq!(code(fs.truncate_inode(30, 1)), ErrCode::EINVAL);
}

#[test]
fn hard_link_counts_and_last_name_gives_a_handle() {
    let (_, mut fs) = direct();
    let file = fs.create(2, "a", file_mode()).unwrap();
    fs.link(file, 2, "b").unwrap();
    assert_eq!(fs.getattr(file).unwrap().links, 2);
    assert_eq!(code(fs.link(file, 2, "b")), ErrCode::EEXIST);
    assert_eq!(code(fs.link(2, 2, "c")), ErrCode::EISDIR);
    assert_eq!(code(fs.link(file, file, "c")), ErrCode::ENOTDIR);
    assert!(fs.unlink(2, "a").unwrap().is_none());
    assert_eq!(fs.getattr(file).unwrap().links, 1);
    let handle = fs.unlink(2, "b").unwrap().unwrap();
    assert_eq!(handle.ino, file);
    assert_eq!(names(&mut fs, 2), [".", ".."]);
    assert_eq!(code(fs.unlink(2, "b")), ErrCode::ENOENT);
}

#[test]
fn directories_are_made_and_removed() {
    let (_, mut fs) = direct();
    let dir = fs.mkdir(2, "d", dir_mode()).unwrap();
    assert_eq!(names(&mut fs, dir), [".", ".."]);
    assert_eq!(fs.getattr(dir).unwrap().links, 2);
    assert_eq!(fs.getattr(2).unwrap().links, 3);
    assert_eq!(fs.getattr(dir).unwrap().ftype, FileType::Directory);
    fs.create(dir, "f", file_mode()).unwrap();
    assert_eq!(code(fs.rmdir(2, "d")), ErrCode::ENOTEMPTY);
    assert_eq!(code(fs.rmdir(dir, "f")), ErrCode::ENOTDIR);
    assert_eq!(code(fs.unlink(2, "d")), ErrCode::EISDIR);
    fs.unlink(dir, "f").unwrap().unwrap();
    assert_eq!(fs.rmdir(2, "d").unwrap().unwrap().ino, dir);
    assert_eq!(fs.getattr(2).unwrap().links, 2);
    assert_eq!(names(&mut fs, 2), [".", ".."]);
}

#[test]
fn rename_moves_a_name() {
    let (_, mut fs) = direct();
    let file = fs.create(2, "a", file_mode()).unwrap();
    assert!(fs.rename(2, "a", 2, "b").unwrap().is_none());
    assert_eq!(names(&mut fs, 2), [".", "..", "b"]);
    assert_eq!(fs.lookup(2, "b").unwrap(), file);
    assert_eq!(code(fs.rename(2, "a", 2, "c")), ErrCode::ENOENT);
    assert_eq!(code(fs.rename(file, "a", 2, "c")), ErrCode::ENOTDIR);
}

#[test]
fn rename_to_the_same_file_changes_nothing() {
    let (device, mut fs) = direct();
    let file = fs.create(2, "a", file_mode()).unwrap();
    fs.link(file, 2, "b").unwrap();
    device.forget_writes();
    assert!(fs.rename(2, "a", 2, "b").unwrap().is_none());
    assert!(device.writes().is_empty());
    assert_eq!(names(&mut fs, 2), [".", "..", "a", "b"]);
}

#[test]
fn rename_replaces_what_it_can() {
    let (_, mut fs) = direct();
    let kept = fs.create(2, "a", file_mode()).unwrap();
    let gone = fs.create(2, "b", file_mode()).unwrap();
    let dir = fs.mkdir(2, "d", dir_mode()).unwrap();
    assert_eq!(code(fs.rename(2, "a", 2, "d")), ErrCode::EISDIR);
    assert_eq!(code(fs.rename(2, "d", 2, "a")), ErrCode::ENOTDIR);
    let handle = fs.rename(2, "a", 2, "b").unwrap().unwrap();
    assert_eq!(handle.ino, gone);
    assert_eq!(fs.lookup(2, "b").unwrap(), kept);
    let full = fs.mkdir(2, "e", dir_mode()).unwrap();
    fs.create(full, "x", file_mode()).unwrap();
    assert_eq!(code(fs.rename(2, "d", 2, "e")), ErrCode::ENOTEMPTY);
    fs.unlink(full, "x").unwrap();
    assert_eq!(fs.rename(2, "d", 2, "e").unwrap().unwrap().ino, full);
    assert_eq!(fs.lookup(2, "e").unwrap(), dir);
    assert_eq!(fs.getattr(2).unwrap().links, 3);
}

#[test]
fn directory_does_not_move_below_itself() {
    let (_, mut fs) = direct();
    let outer = fs.mkdir(2, "outer", dir_mode()).unwrap();
    let inner = fs.mkdir(outer, "inner", dir_mode()).unwrap();
    assert_eq!(code(fs.rename(2, "outer", inner, "x")), ErrCode::EINVAL);
    let other = fs.mkdir(2, "other", dir_mode()).unwrap();
    fs.rename(outer, "inner", other, "inner").unwrap();
    assert_eq!(fs.lookup(inner, "..").unwrap(), other);
    assert_eq!(fs.getattr(outer).unwrap().links, 2);
    assert_eq!(fs.getattr(other).unwrap().links, 3);
}

#[test]
fn half_made_move_stops_further_changes() {
    let (device, mut fs) = direct();
    fs.create(2, "a", file_mode()).unwrap();
    let dir = fs.mkdir(2, "d", dir_mode()).unwrap();
    device.fail_write(dir_block(2));
    assert_eq!(code(fs.rename(2, "a", dir, "a")), ErrCode::EIO);
    assert!(fs.is_poisoned());
    assert_eq!(code(fs.create(2, "x", file_mode())), ErrCode::EROFS);
    assert_eq!(fs.lookup(2, "a").unwrap(), 11);
}

#[test]
fn exchange_swaps_two_names() {
    let (_, mut fs) = direct();
    let file = fs.create(2, "a", file_mode()).unwrap();
    let dir = fs.mkdir(2, "d", dir_mode()).unwrap();
    let sub = fs.mkdir(dir, "s", dir_mode()).unwrap();
    fs.rename_exchange(2, "a", dir, "s").unwrap();
    assert_eq!(fs.lookup(2, "a").unwrap(), sub);
    assert_eq!(fs.lookup(dir, "s").unwrap(), file);
    assert_eq!(fs.lookup(sub, "..").unwrap(), 2);
    assert_eq!(fs.getattr(dir).unwrap().links, 2);
    assert_eq!(fs.getattr(2).unwrap().links, 4);
    fs.rename_exchange(2, "a", dir, "s").unwrap();
    assert_eq!(fs.lookup(2, "a").unwrap(), file);
    assert_eq!(fs.lookup(dir, "s").unwrap(), sub);
    assert_eq!(code(fs.rename_exchange(2, "a", 2, "z")), ErrCode::ENOENT);
}

#[test]
fn symbolic_links_are_read() {
    let (_, mut fs) = direct();
    let owner = InodeOwner { uid: 0, gid: 0 };
    let fast = fs
        .symlink_with_owner_and_attr(2, "fast", b"some/where", owner)
        .unwrap();
    assert_eq!(fast.ftype, FileType::SymLink);
    let mut buf = [0; 32];
    assert_eq!(fs.readlink(fast.ino, 0, &mut buf).unwrap(), 10);
    assert_eq!(&buf[..10], b"some/where");
    assert_eq!(fs.readlink(fast.ino, 5, &mut buf[..3]).unwrap(), 3);
    assert_eq!(&buf[..3], b"whe");
    let target = pattern(200);
    let slow = fs
        .symlink_with_owner_and_attr(2, "slow", &target, owner)
        .unwrap();
    let mut long = vec![0; 300];
    assert_eq!(fs.readlink(slow.ino, 0, &mut long).unwrap(), 200);
    assert_eq!(long[..200], target);
    assert_eq!(code(fs.readlink(2, 0, &mut buf)), ErrCode::EINVAL);
}

#[test]
fn device_number_is_kept() {
    let (_, mut fs) = direct();
    let mode = InodeMode::from_bits_retain(MODE_BLOCKDEV | 0o600);
    let id = fs.mknod(2, "dev", mode, 259, 0x1_0002).unwrap();
    let attr = fs.getattr(id).unwrap();
    assert_eq!(attr.ftype, FileType::BlockDev);
    assert_eq!(attr.rdev, (259, 0x1_0002));
}

#[test]
fn extended_attributes_are_set_listed_and_removed() {
    let (device, mut fs) = direct();
    let file = fs.create(2, "a", file_mode()).unwrap();
    assert_eq!(code(fs.getxattr(file, "user.a")), ErrCode::ENODATA);
    assert!(fs.listxattr(file).unwrap().is_empty());
    fs.setxattr(file, "user.a", b"one").unwrap();
    fs.setxattr(file, "user.b", b"two").unwrap();
    assert_eq!(fs.getxattr(file, "user.a").unwrap(), b"one");
    fs.setxattr(file, "user.a", b"three").unwrap();
    assert_eq!(fs.getxattr(file, "user.a").unwrap(), b"three");
    assert_eq!(fs.getxattr(file, "user.b").unwrap(), b"two");
    assert_eq!(fs.listxattr(file).unwrap(), ["user.b", "user.a"]);
    assert_eq!(
        code(fs.setxattr_with_flags(file, "user.a", b"x", true, false)),
        ErrCode::EEXIST
    );
    assert_eq!(
        code(fs.setxattr_with_flags(file, "user.c", b"x", false, true)),
        ErrCode::ENODATA
    );
    assert_eq!(
        code(fs.setxattr(file, "user.c", &vec![0; BLOCK_SIZE])),
        ErrCode::ENOSPC
    );
    assert_eq!(fs.getxattr(file, "user.a").unwrap(), b"three");
    fs.removexattr(file, "user.a").unwrap();
    assert_eq!(code(fs.getxattr(file, "user.a")), ErrCode::ENODATA);
    assert_eq!(code(fs.removexattr(file, "user.a")), ErrCode::ENODATA);
    assert_eq!(fs.getxattr(file, "user.b").unwrap(), b"two");
    assert!(device.bit(FIRST_DATA));
}

#[test]
fn names_that_are_not_text_are_not_listed() {
    let (device, mut fs) = direct();
    let file = fs.create(2, "a", file_mode()).unwrap();
    fs.setxattr(file, "user.\u{e9}t\u{e9}", b"1").unwrap();
    fs.setxattr(file, "user.x", b"2").unwrap();
    assert_eq!(
        fs.listxattr(file).unwrap(),
        ["user.\u{e9}t\u{e9}", "user.x"]
    );
    let mut block = device.bytes_of(FIRST_DATA);
    let at = block
        .windows(2)
        .position(|pair| pair == "\u{e9}".as_bytes())
        .unwrap();
    block[at] = 0xff;
    device.put(FIRST_DATA, block);
    assert_eq!(fs.listxattr(file).unwrap(), ["user.x"]);
}

#[test]
fn unchangeable_file_system_refuses_changes() {
    let (device, mut fs) = parts();
    assert_eq!(code(fs.create(2, "a", file_mode())), ErrCode::EROFS);
    assert_eq!(code(fs.write(2, 0, &[1])), ErrCode::EROFS);
    assert_eq!(code(fs.truncate_inode(2, 0)), ErrCode::EROFS);
    assert_eq!(code(fs.setattr(2, SetAttr::new())), ErrCode::EROFS);
    assert_eq!(code(fs.unlink(2, "a")), ErrCode::EROFS);
    assert_eq!(code(fs.rename(2, "a", 2, "b")), ErrCode::EROFS);
    assert_eq!(code(fs.rename_exchange(2, "a", 2, "b")), ErrCode::EROFS);
    assert_eq!(code(fs.link(2, 2, "b")), ErrCode::EROFS);
    assert_eq!(code(fs.setxattr(2, "user.a", b"")), ErrCode::EROFS);
    assert_eq!(code(fs.removexattr(2, "user.a")), ErrCode::EROFS);
    assert_eq!(
        code(fs.prepare_buffered_write(2, 0, 1, 1, None)),
        ErrCode::EROFS
    );
    assert_eq!(
        code(fs.allocate_blocks_for_write_range(2, 0, 1)),
        ErrCode::EROFS
    );
    assert!(device.writes().is_empty());
    assert_eq!(fs.getattr(2).unwrap().ftype, FileType::Directory);
}

#[test]
fn prepared_append_stores_its_data_without_a_journal() {
    let (device, mut fs) = direct();
    let file = fs.create(2, "a", file_mode()).unwrap();
    let data = pattern(2 * BLOCK_SIZE);
    device.forget_writes();
    let stored = fs
        .prepare_buffered_write_with_data(file, 0, data.len(), data.len() as u64, None, Some(&data))
        .unwrap();
    assert!(stored);
    let writes = device.writes();
    assert_eq!(writes[..2], [FIRST_DATA, FIRST_DATA + 1]);
    assert_eq!(*writes.last().unwrap(), INODE_TABLE);
    fs.commit_inode_size(file, data.len() as u64, None).unwrap();
    let mut back = vec![0; data.len()];
    fs.read(file, 0, &mut back).unwrap();
    assert_eq!(back, data);
    let stored = fs
        .prepare_buffered_write_with_data(file, 0, data.len(), data.len() as u64, None, None)
        .unwrap();
    assert!(!stored);
}

#[test]
fn prepared_append_waits_in_the_journal() {
    let (device, mut fs) = journaled();
    let file = fs.create(2, "a", file_mode()).unwrap();
    let data = pattern(BLOCK_SIZE);
    device.forget_writes();
    let stored = fs
        .prepare_buffered_write_with_data(file, 0, data.len(), data.len() as u64, None, Some(&data))
        .unwrap();
    assert!(stored);
    assert_eq!(device.writes(), [FIRST_DATA]);
    fs.commit_inode_size(file, data.len() as u64, Some(3)).unwrap();
    assert_eq!(device.writes(), [FIRST_DATA]);
    assert_eq!(fs.getattr(file).unwrap().size, BLOCK_SIZE as u64);
    let mut back = vec![0; data.len()];
    fs.read(file, 0, &mut back).unwrap();
    assert_eq!(back, data);
    assert!(!device.bit(FIRST_DATA));
    fs.flush_deferred_journal(JournalCommitReason::DurabilityBoundary)
        .unwrap();
    assert!(device.bit(FIRST_DATA));
    let inode = inode_in(&device.bytes_of(INODE_TABLE), 10 * SB_GOOD_INODE_SIZE);
    assert_eq!((inode.size(), inode.mtime()), (BLOCK_SIZE as u64, 3));
    let free = fs.read_super_block_cached().free_blocks_count();
    assert_eq!(free, JOURNAL - FIRST_DATA - 1);
    assert_eq!(device.0.borrow().flushes, 4);
}

#[test]
fn prepared_overwrite_through_the_journal_stores_its_data() {
    let (device, mut fs) = journaled();
    let file = fs.create(2, "a", file_mode()).unwrap();
    let data = pattern(BLOCK_SIZE);
    fs.prepare_buffered_write_with_data(file, 0, data.len(), data.len() as u64, None, Some(&data))
        .unwrap();
    let again = vec![0x77; BLOCK_SIZE];
    let stored = fs
        .prepare_buffered_write_with_data(file, 0, data.len(), data.len() as u64, None, Some(&again))
        .unwrap();
    assert!(stored);
    assert_eq!(device.bytes_of(FIRST_DATA)[..], again[..]);
}

#[test]
fn names_change_through_the_journal() {
    let (device, mut fs) = journaled();
    let file = fs.create(2, "a", file_mode()).unwrap();
    fs.link(file, 2, "b").unwrap();
    assert_eq!(names(&mut fs, 2), [".", "..", "a", "b"]);
    assert!(fs.unlink(2, "a").unwrap().is_none());
    let handle = fs.unlink(2, "b").unwrap().unwrap();
    assert_eq!(handle.ino, file);
    fs.flush_deferred_journal(JournalCommitReason::DurabilityBoundary)
        .unwrap();
    let base = SuperBlock::from_block(&device.bytes_of(0));
    assert_eq!(base.last_orphan(), file);
    assert_eq!(parse_dir(&device.bytes_of(dir_block(2))[..]).len(), 2);
    let inode = inode_in(
        &device.bytes_of(INODE_TABLE),
        (file as usize - 1) * SB_GOOD_INODE_SIZE,
    );
    assert_eq!(inode.link_count(), 0);
}

#[test]
fn failed_commit_stops_further_changes() {
    let (device, mut fs) = journaled();
    let file = fs.create(2, "a", file_mode()).unwrap();
    device.fail_write(JOURNAL + 1);
    assert_eq!(code(fs.truncate_inode(file, 5)), ErrCode::EIO);
    assert!(fs.is_poisoned());
    assert_eq!(code(fs.truncate_inode(file, 5)), ErrCode::EROFS);
    assert_eq!(fs.getattr(file).unwrap().size, 0);
}

#[test]
fn failed_reads_are_passed_on() {
    let (device, mut fs) = direct();
    let file = fs.create(2, "a", file_mode()).unwrap();
    fs.write(file, 0, &pattern(BLOCK_SIZE)).unwrap();
    device.fail_read(INODE_TABLE);
    assert_eq!(code(fs.getattr(file)), ErrCode::EIO);
    device.fail_read(FIRST_DATA);
    let mut buf = [0xaa; 10];
    assert_eq!(code(fs.read(file, 1, &mut buf)), ErrCode::EIO);
    assert_eq!(buf, [0xaa; 10]);
    assert_eq!(fs.read(file, 1, &mut buf).unwrap(), 10);
}

#[test]
fn empty_write_to_a_directory_is_refused() {
    let (_, mut fs) = direct();
    let dir = fs.mkdir(2, "d", dir_mode()).unwrap();
    let file = fs.create(2, "a", file_mode()).unwrap();
    assert_eq!(code(fs.write(dir, 0, &[])), ErrCode::EISDIR);
    assert_eq!(code(fs.write(dir, 0, &[1])), ErrCode::EISDIR);
    assert_eq!(fs.write(file, 0, &[]).unwrap(), 0);
    assert_eq!(fs.getattr(file).unwrap().size, 0);
}

#[test]
fn prepared_range_is_forgotten_with_its_blocks() {
    let (_, mut fs) = direct();
    let file = fs.create(2, "a", file_mode()).unwrap();
    let size = 4 * BLOCK_SIZE as u64;
    fs.truncate_inode(file, size).unwrap();
    fs.prepare_buffered_write(file, 0, BLOCK_SIZE, size, None).unwrap();
    assert_eq!(fs.getattr(file).unwrap().blocks, 8);
    let range = WriteLogicalRange::checked(0, BLOCK_SIZE).unwrap().unwrap();
    assert!(fs.prepared_extent_probe(file, &range).hit);
    fs.truncate_inode(file, 0).unwrap();
    assert!(!fs.prepared_extent_probe(file, &range).hit);
    fs.truncate_inode(file, size).unwrap();
    fs.prepare_buffered_write(file, 0, BLOCK_SIZE, size, None).unwrap();
    assert_eq!(fs.getattr(file).unwrap().blocks, 8);
    let token = fs.prepared_extent_probe(file, &range).token;
    assert!(fs.prepared_extent_probe(file, &range).hit);
    fs.create(2, "b", file_mode()).unwrap();
    assert!(!fs.prepared_extent_probe(file, &range).hit);
    assert!(!fs.publish_prepared_extent(file, &range, token));
    fs.invalidate_prepared_extents();
    assert!(!fs.publish_prepared_extent(file, &range, token + 1));
    assert!(fs.publish_prepared_extent(file, &range, token + 2));
}

#[test]
fn unlink_undoes_a_link_that_waits() {
    let (_, mut fs) = journaled();
    let file = fs.create(2, "a", file_mode()).unwrap();
    let before = names(&mut fs, 2);
    fs.link(file, 2, "b").unwrap();
    assert_eq!(fs.lookup(2, "b").unwrap(), file);
    assert_eq!(fs.getattr(file).unwrap().links, 2);
    assert!(fs.unlink(2, "b").unwrap().is_none());
    assert_eq!(code(fs.lookup(2, "b")), ErrCode::ENOENT);
    assert_eq!(fs.getattr(file).unwrap().links, 1);
    assert_eq!(names(&mut fs, 2), before);
}

#[test]
fn listed_names_are_looked_up() {
    let (_, mut fs) = direct();
    let dir = fs.mkdir(2, "d", dir_mode()).unwrap();
    fs.create(2, "a", file_mode()).unwrap();
    fs.rename(2, "a", dir, "b").unwrap();
    for parent in [2, dir] {
        for entry in fs.listdir(parent).unwrap() {
            assert_eq!(fs.lookup(parent, &entry.name).unwrap(), entry.inode);
        }
    }
    assert_eq!(names(&mut fs, dir), [".", "..", "b"]);
    assert_eq!(code(fs.lookup(2, "a")), ErrCode::ENOENT);
}

#[test]
fn preparation_of_ranges_is_counted() {
    let (device, mut fs) = direct();
    let file = fs.create(2, "a", file_mode()).unwrap();
    assert_eq!(fs.prepare_stats(), PrepareStats::new());
    fs.allocate_blocks_for_write_range(file, 10, 20).unwrap();
    let stats = fs.prepare_stats();
    assert_eq!((stats.calls, stats.requested), (1, 1));
    assert_eq!((stats.mapped, stats.missing, stats.failures), (0, 1, 0));
    assert_eq!((stats.extent_queries, stats.full_traversals), (2, 0));
    fs.allocate_blocks_for_write_range(file, 0, 2 * BLOCK_SIZE).unwrap();
    let stats = fs.prepare_stats();
    assert_eq!((stats.calls, stats.requested), (2, 3));
    assert_eq!((stats.mapped, stats.missing, stats.failures), (1, 2, 0));
    assert_eq!((stats.extent_queries, stats.full_traversals), (5, 0));
    device.fail_write(FIRST_DATA + 2);
    assert_eq!(
        code(fs.allocate_blocks_for_write_range(file, 2 * BLOCK_SIZE, 1)),
        ErrCode::EIO
    );
    let stats = fs.prepare_stats();
    assert_eq!((stats.calls, stats.requested), (3, 4));
    assert_eq!((stats.mapped, stats.missing, stats.failures), (1, 3, 1));
    assert_eq!((stats.extent_queries, stats.full_traversals), (6, 1));
    assert_eq!((stats.inode_io, stats.bitmap_io), (0, 0));
}

#[test]
fn prepared_appends_are_counted() {
    for (_, mut fs) in [direct(), journaled()] {
        let file = fs.create(2, "a", file_mode()).unwrap();
        let data = pattern(2 * BLOCK_SIZE);
        let size = data.len() as u64;
        assert!(fs
            .prepare_buffered_write_with_data(file, 0, data.len(), size, None, Some(&data))
            .unwrap());
        let stats = fs.prepare_stats();
        assert_eq!((stats.calls, stats.requested), (1, 2));
        assert_eq!((stats.mapped, stats.missing, stats.failures), (0, 2, 0));
        assert_eq!((stats.inode_io, stats.bitmap_io), (2, 1));
        assert_eq!((stats.gdt_io, stats.superblock_io), (1, 1));
    }
    let (device, mut fs) = direct();
    let file = fs.create(2, "a", file_mode()).unwrap();
    let data = pattern(2 * BLOCK_SIZE);
    device.fail_write(FIRST_DATA);
    assert_eq!(
        code(fs.prepare_buffered_write_with_data(file, 0, data.len(), 0, None, Some(&data))),
        ErrCode::EIO
    );
    let stats = fs.prepare_stats();
    assert_eq!((stats.calls, stats.missing, stats.failures), (1, 2, 1));
    assert_eq!((stats.inode_io, stats.bitmap_io), (0, 0));
}

/// The names of a directory beyond those that its subdirectories have for it.
fn own_links(fs: &mut Fs, dir: InodeId) -> usize {
    let links = fs.getattr(dir).unwrap().links as usize;
    let mut subdirs = 0;
    for entry in fs.listdir(dir).unwrap() {
        let dotted = entry.name == "." || entry.name == "..";
        if !dotted && fs.getattr(entry.inode).unwrap().ftype == FileType::Directory {
            subdirs += 1;
        }
    }
    links - subdirs
}

#[test]
fn directories_have_names_for_their_subdirectories() {
    for (_, mut fs) in [direct(), journaled()] {
        let one = fs.mkdir(2, "one", dir_mode()).unwrap();
        let two = fs.mkdir(2, "two", dir_mode()).unwrap();
        let inner = fs.mkdir(one, "inner", dir_mode()).unwrap();
        fs.mkdir(two, "other", dir_mode()).unwrap();
        fs.create(one, "file", file_mode()).unwrap();
        let root = own_links(&mut fs, 2);
        for dir in [one, two, inner] {
            assert_eq!(own_links(&mut fs, dir), 2);
        }
        fs.rename(one, "inner", two, "inner").unwrap();
        assert_eq!(fs.getattr(one).unwrap().links, 2);
        assert_eq!(fs.getattr(two).unwrap().links, 4);
        fs.rename(two, "inner", two, "other").unwrap();
        assert_eq!(fs.getattr(two).unwrap().links, 3);
        fs.mkdir(one, "empty", dir_mode()).unwrap();
        fs.rename(two, "other", one, "empty").unwrap();
        assert_eq!(fs.getattr(one).unwrap().links, 3);
        assert_eq!(fs.getattr(two).unwrap().links, 2);
        fs.rename_exchange(one, "empty", one, "file").unwrap();
        fs.rename_exchange(one, "file", 2, "two").unwrap();
        assert_eq!(fs.lookup(inner, "..").unwrap(), 2);
        assert_eq!(fs.lookup(two, "..").unwrap(), one);
        for dir in [one, two, inner] {
            assert_eq!(own_links(&mut fs, dir), 2);
        }
        assert_eq!(own_links(&mut fs, 2), root);
    }
}

#[test]
fn second_exchange_restores_names_and_links() {
    let (_, mut fs) = direct();
    let dir = fs.mkdir(2, "d", dir_mode()).unwrap();
    let file = fs.create(2, "a", file_mode()).unwrap();
    let sub = fs.mkdir(dir, "s", dir_mode()).unwrap();
    let before: Vec<u16> = [2, dir, file, sub]
        .iter()
        .map(|&id| fs.getattr(id).unwrap().links)
        .collect();
    fs.rename_exchange(2, "a", dir, "s").unwrap();
    fs.rename_exchange(2, "a", dir, "s").unwrap();
    let after: Vec<u16> = [2, dir, file, sub]
        .iter()
        .map(|&id| fs.getattr(id).unwrap().links)
        .collect();
    assert_eq!(before, after);
    assert_eq!(fs.lookup(2, "a").unwrap(), file);
    assert_eq!(fs.lookup(dir, "s").unwrap(), sub);
    assert_eq!(fs.lookup(sub, "..").unwrap(), dir);
}

#[test]
fn refused_attribute_changes_nothing() {
    let (device, mut fs) = direct();
    let file = fs.create(2, "a", file_mode()).unwrap();
    assert_eq!(
        code(fs.setxattr_with_flags(file, "user.a", b"1", false, true)),
        ErrCode::ENODATA
    );
    assert_eq!(
        code(fs.setxattr(file, "user.a", &vec![0; BLOCK_SIZE])),
        ErrCode::ENOSPC
    );
    assert_eq!(code(fs.getxattr(file, "user.a")), ErrCode::ENODATA);
    assert!(!device.bit(FIRST_DATA));
    fs.setxattr(file, "user.a", b"one").unwrap();
    fs.setxattr(file, "user.b", b"two").unwrap();
    device.forget_writes();
    assert_eq!(
        code(fs.setxattr(file, "user.a", &vec![0; BLOCK_SIZE])),
        ErrCode::ENOSPC
    );
    assert_eq!(
        code(fs.setxattr_with_flags(file, "user.a", b"x", true, false)),
        ErrCode::EEXIST
    );
    assert_eq!(
        code(fs.setxattr_with_flags(file, "user.c", b"x", false, true)),
        ErrCode::ENODATA
    );
    assert!(device.writes().is_empty());
    assert_eq!(fs.getxattr(file, "user.a").unwrap(), b"one");
    assert_eq!(fs.getxattr(file, "user.b").unwrap(), b"two");
    assert_eq!(code(fs.getxattr(file, "user.c")), ErrCode::ENODATA);
    assert_eq!(fs.listxattr(file).unwrap(), ["user.a", "user.b"]);
}
