//! Allocation, extended attributes, range initialization and the metadata gate.

use another_ext4::append_range::{
    DIRECT_RANGE_MAX_BLOCKS, DIRECT_RANGE_MIN_BLOCKS, DIRECT_RANGE_ZERO_CHUNK_BLOCKS,
};
use another_ext4::device::{Block, BlockDevice, JournalCommitReason, JournalFlushPhase};
use another_ext4::error::{ErrCode, Ext4Error, Result};
use another_ext4::fs::Ext4;
use another_ext4::gate::METADATA_GATE_DIRECT_MAX;
use another_ext4::inode::{
    file_attr, FileType, Inode, InodeMode, InodeOwner, InodeRef, MODE_CHARDEV,
    SB_GOOD_INODE_SIZE,
};
use another_ext4::range::WriteLogicalRange;
use another_ext4::staged::{CachePublisher, StagedBlocks};
use another_ext4::superblock::{BlockGroupDesc, SuperBlock, BASE_OFFSET, SB_GOOD_DESC_SIZE};
use another_ext4::volume::{
    AppendShape, BlockImage, DirAddFailure, DirEntry, DirEntryLocation, ExtentSearchStep,
    ExtentTail, RangeAllocation, RemovedTail, Storage, Volume,
};
use another_ext4::{InodeId, LBlockId, PBlockId, BLOCK_SIZE};
use std::cell::{Cell, RefCell};
use std::collections::BTreeMap;
use std::rc::Rc;

/// Layers whose files are empty.
struct EmptyFiles {
    released: Rc<Cell<usize>>,
}

impl EmptyFiles {
    fn new() -> Self {
        Self {
            released: Rc::new(Cell::new(0)),
        }
    }
}

fn unsupported<T>() -> Result<T> {
    Err(Ext4Error::new(ErrCode::ENOTSUP))
}

impl CachePublisher for EmptyFiles {
    fn publish(&mut self, _blocks: &StagedBlocks) {}

    fn publish_pending(&mut self, _blocks: &StagedBlocks) {}
}

impl<D: BlockDevice> Volume<D> for EmptyFiles {
    fn find_extent(
        &mut self,
        _storage: &mut Storage<'_, D>,
        inode: &InodeRef,
        _iblock: LBlockId,
    ) -> Result<Vec<ExtentSearchStep>> {
        let root = inode.inode.inline_block();
        if root[0..2] != 0xf30au16.to_le_bytes() {
            return Err(Ext4Error::new(ErrCode::EIO));
        }
        Ok(vec![ExtentSearchStep {
            pblock: 0,
            index: Err(0),
        }])
    }

    fn direct_append_shape(
        &mut self,
        _storage: &mut Storage<'_, D>,
        _inode: &InodeRef,
        _start: LBlockId,
        _count: u32,
    ) -> Result<Option<AppendShape>> {
        Ok(Some(AppendShape {
            preferred_first: None,
            requires_merge: false,
        }))
    }

    fn stage_direct_append_extent(
        &mut self,
        _storage: &mut Storage<'_, D>,
        _inode: &mut InodeRef,
        _start: LBlockId,
        _first: PBlockId,
        _count: u32,
    ) -> Result<()> {
        unsupported()
    }

    fn extent_create_preallocated(
        &mut self,
        _storage: &mut Storage<'_, D>,
        _inode: &mut InodeRef,
        _start: LBlockId,
        _count: u32,
        _first: PBlockId,
    ) -> Result<()> {
        unsupported()
    }

    fn extent_data_blocks(
        &mut self,
        _storage: &mut Storage<'_, D>,
        _inode: &InodeRef,
    ) -> Result<u32> {
        Ok(0)
    }

    fn extent_tree_blocks(
        &mut self,
        _storage: &mut Storage<'_, D>,
        _inode: &InodeRef,
    ) -> Result<u32> {
        Ok(0)
    }

    fn alloc_direct_range(
        &mut self,
        _storage: &mut Storage<'_, D>,
        _inode: InodeId,
        _preferred_first: Option<PBlockId>,
        _requires_merge: bool,
        _count: u32,
    ) -> Result<RangeAllocation> {
        unsupported()
    }

    fn extent_tail(
        &mut self,
        _storage: &mut Storage<'_, D>,
        _inode: &InodeRef,
    ) -> Result<Option<ExtentTail>> {
        Ok(None)
    }

    fn extent_remove_tail(
        &mut self,
        _storage: &mut Storage<'_, D>,
        _inode: &mut InodeRef,
        _limit: u32,
    ) -> Result<Option<RemovedTail>> {
        Ok(None)
    }

    fn dealloc_block_range(
        &mut self,
        _storage: &mut Storage<'_, D>,
        _first: PBlockId,
        _count: u32,
    ) -> Result<Vec<BlockImage>> {
        unsupported()
    }

    fn dir_find_entry(
        &mut self,
        _storage: &mut Storage<'_, D>,
        _dir: &InodeRef,
        _name: &str,
    ) -> Result<InodeId> {
        unsupported()
    }

    fn dir_find_entry_location(
        &mut self,
        _storage: &mut Storage<'_, D>,
        _dir: &InodeRef,
        _name: &str,
    ) -> Result<DirEntryLocation> {
        unsupported()
    }

    fn dir_list_entries(
        &mut self,
        _storage: &mut Storage<'_, D>,
        _dir: &InodeRef,
    ) -> Result<Vec<DirEntry>> {
        unsupported()
    }

    fn dir_is_empty(&mut self, _storage: &mut Storage<'_, D>, _dir: &InodeRef) -> Result<bool> {
        unsupported()
    }

    fn dir_has_insert_space(
        &mut self,
        _storage: &mut Storage<'_, D>,
        _dir: &InodeRef,
        _child: &InodeRef,
        _name: &str,
    ) -> Result<bool> {
        unsupported()
    }

    fn prepare_empty_dir_slot(
        &mut self,
        _storage: &mut Storage<'_, D>,
        _dir: &mut InodeRef,
    ) -> Result<()> {
        unsupported()
    }

    fn dir_add_entry(
        &mut self,
        _storage: &mut Storage<'_, D>,
        _dir: &mut InodeRef,
        _child: &InodeRef,
        _name: &str,
    ) -> core::result::Result<(), DirAddFailure> {
        Err(DirAddFailure::Unmodified(Ext4Error::new(ErrCode::ENOTSUP)))
    }

    fn dir_remove_entry(
        &mut self,
        _storage: &mut Storage<'_, D>,
        _dir: &InodeRef,
        _name: &str,
    ) -> Result<()> {
        unsupported()
    }

    fn dir_replace_entry(
        &mut self,
        _storage: &mut Storage<'_, D>,
        _dir: &InodeRef,
        _name: &str,
        _target: InodeId,
        _kind: FileType,
    ) -> Result<()> {
        unsupported()
    }

    fn dir_insert_images(
        &mut self,
        _storage: &mut Storage<'_, D>,
        _dir: &InodeRef,
        _name: &str,
        _target: InodeId,
        _kind: FileType,
    ) -> Result<Vec<BlockImage>> {
        unsupported()
    }

    fn dir_replace_images(
        &mut self,
        _storage: &mut Storage<'_, D>,
        _dir: &InodeRef,
        _name: &str,
        _target: InodeId,
        _kind: FileType,
    ) -> Result<Vec<BlockImage>> {
        unsupported()
    }

    fn dir_remove_images(
        &mut self,
        _storage: &mut Storage<'_, D>,
        _dir: &InodeRef,
        _name: &str,
    ) -> Result<Vec<BlockImage>> {
        unsupported()
    }

    fn create_inode(
        &mut self,
        _storage: &mut Storage<'_, D>,
        _mode: InodeMode,
        _owner: InodeOwner,
    ) -> Result<InodeRef> {
        unsupported()
    }

    fn create_symlink_inode(
        &mut self,
        _storage: &mut Storage<'_, D>,
        _target: &[u8],
        _owner: InodeOwner,
    ) -> Result<InodeRef> {
        unsupported()
    }

    fn create_device_inode(
        &mut self,
        _storage: &mut Storage<'_, D>,
        _mode: InodeMode,
        _major: u32,
        _minor: u32,
        _owner: InodeOwner,
    ) -> Result<InodeRef> {
        unsupported()
    }

    fn free_inode(&mut self, _storage: &mut Storage<'_, D>, _inode: &mut InodeRef) -> Result<()> {
        unsupported()
    }

    fn link_inode(
        &mut self,
        _storage: &mut Storage<'_, D>,
        _parent: &mut InodeRef,
        _child: &mut InodeRef,
        _name: &str,
    ) -> Result<()> {
        unsupported()
    }

    fn metadata_mutation_released(&mut self) {
        self.released.set(self.released.get() + 1);
    }
}

#[test]
fn file_attr_is_derived_from_the_authoritative_in_memory_inode() {
    let mut inode = Inode::zeroed();
    inode.set_mode(InodeMode::from_bits_retain(MODE_CHARDEV | 0o640));
    inode.set_uid(0x12345);
    inode.set_gid(0x23456);
    inode.set_size(0x1_0000_0020);
    inode.set_block_count(17);
    inode.set_atime(11);
    inode.set_mtime(12);
    inode.set_ctime(13);
    inode.set_crtime(14);
    inode.set_link_count(2);
    inode.set_device(259, 0x1_0002);
    let inode = InodeRef::new(42, inode);

    let attr = file_attr(&inode);

    assert_eq!(attr.ino, 42);
    assert_eq!(attr.ftype, FileType::CharacterDev);
    assert_eq!(attr.perm.bits(), 0o640);
    assert_eq!(attr.uid, 0x12345);
    assert_eq!(attr.gid, 0x23456);
    assert_eq!(attr.size, 0x1_0000_0020);
    assert_eq!(attr.blocks, 17);
    assert_eq!(
        (attr.atime, attr.mtime, attr.ctime, attr.crtime),
        (11, 12, 13, 14)
    );
    assert_eq!(attr.links, 2);
    assert_eq!(attr.rdev, (259, 0x1_0002));
}

fn superblock_with_block_count(block_count: u32) -> SuperBlock {
    let mut data = [0u8; BLOCK_SIZE];
    data[BASE_OFFSET + 4..BASE_OFFSET + 8].copy_from_slice(&block_count.to_le_bytes());
    SuperBlock::from_block(&data)
}

/// A device that takes every write and reads as zero.
struct StubBlockDevice;

impl BlockDevice for StubBlockDevice {
    fn read_block(&mut self, block_id: PBlockId) -> Result<Block> {
        Ok(Block::new(block_id, Box::new([0u8; BLOCK_SIZE])))
    }

    fn write_block(&mut self, _block: &Block) -> Result<()> {
        Ok(())
    }

    fn flush(&mut self) -> Result<()> {
        Ok(())
    }

    fn supports_reliable_flush(&self) -> bool {
        true
    }

    fn diagnostic_enabled(&self) -> bool {
        false
    }

    fn diagnostic_cycles(&self) -> usize {
        0
    }

    fn record_journal_commit(&mut self, _bytes: usize) {}

    fn record_writeback_journal_commit(
        &mut self,
        _transaction_id: u32,
        _staged_blocks: usize,
        _cycles: usize,
        _reason: JournalCommitReason,
    ) {
    }

    fn record_writeback_journal_flush(
        &mut self,
        _transaction_id: u32,
        _phase: JournalFlushPhase,
        _cycles: usize,
    ) {
    }

    fn record_writeback_data_write(&mut self, _bytes: usize, _cycles: usize) {}

    fn record_writeback_alloc_extent(&mut self, _blocks: usize, _cycles: usize) {}
}

fn make_test_fs(block_count: u32) -> Ext4<StubBlockDevice, EmptyFiles> {
    make_test_fs_with_device(block_count, StubBlockDevice)
}

fn make_test_fs_with_device<D: BlockDevice>(block_count: u32, device: D) -> Ext4<D, EmptyFiles> {
    let mut fs = Ext4::new(
        device,
        EmptyFiles::new(),
        superblock_with_block_count(block_count),
        Vec::new(),
        Vec::new(),
    );
    fs.initialize_direct().unwrap();
    fs
}

struct RangeInitDevice {
    writes: usize,
    flushes: usize,
    fail_write_at: usize,
    fail_flush: bool,
}

impl RangeInitDevice {
    fn new() -> Self {
        Self {
            writes: 0,
            flushes: 0,
            fail_write_at: usize::MAX,
            fail_flush: false,
        }
    }
}

impl BlockDevice for RangeInitDevice {
    fn read_block(&mut self, block_id: PBlockId) -> Result<Block> {
        Ok(Block::new(block_id, Box::new([0; BLOCK_SIZE])))
    }

    fn write_block(&mut self, _block: &Block) -> Result<()> {
        Ok(())
    }

    fn write_blocks(&mut self, _start: PBlockId, _data: &[u8]) -> Result<()> {
        let write = self.writes;
        self.writes += 1;
        if write == self.fail_write_at {
            Err(Ext4Error::new(ErrCode::ENOMEM))
        } else {
            Ok(())
        }
    }

    fn flush(&mut self) -> Result<()> {
        self.flushes += 1;
        if self.fail_flush {
            Err(Ext4Error::new(ErrCode::EIO))
        } else {
            Ok(())
        }
    }

    fn supports_reliable_flush(&self) -> bool {
        true
    }

    fn diagnostic_enabled(&self) -> bool {
        false
    }

    fn diagnostic_cycles(&self) -> usize {
        0
    }

    fn record_journal_commit(&mut self, _bytes: usize) {}

    fn record_writeback_journal_commit(
        &mut self,
        _transaction_id: u32,
        _staged_blocks: usize,
        _cycles: usize,
        _reason: JournalCommitReason,
    ) {
    }

    fn record_writeback_journal_flush(
        &mut self,
        _transaction_id: u32,
        _phase: JournalFlushPhase,
        _cycles: usize,
    ) {
    }

    fn record_writeback_data_write(&mut self, _bytes: usize, _cycles: usize) {}

    fn record_writeback_alloc_extent(&mut self, _blocks: usize, _cycles: usize) {}
}

#[test]
fn direct_range_zero_failure_stops_before_flush() {
    let mut device = RangeInitDevice::new();
    device.fail_write_at = 1;
    let mut fs = make_test_fs_with_device(128, device);
    let zeros = [0; DIRECT_RANGE_ZERO_CHUNK_BLOCKS * BLOCK_SIZE];

    let error = fs
        .initialize_direct_range(32, DIRECT_RANGE_ZERO_CHUNK_BLOCKS * 2, &zeros)
        .unwrap_err();

    assert_eq!(error.code(), ErrCode::ENOMEM);
    assert_eq!(fs.device().writes, 2);
    assert_eq!(fs.device().flushes, 0);
}

#[test]
fn direct_range_zero_initialization_defers_flush_failure() {
    let mut device = RangeInitDevice::new();
    device.fail_flush = true;
    let mut fs = make_test_fs_with_device(128, device);
    let zeros = [0; DIRECT_RANGE_ZERO_CHUNK_BLOCKS * BLOCK_SIZE];

    fs.initialize_direct_range(32, DIRECT_RANGE_ZERO_CHUNK_BLOCKS * 2, &zeros)
        .unwrap();

    assert_eq!(fs.device().writes, 2);
    assert_eq!(fs.device().flushes, 0);
}

#[test]
fn direct_range_plan_filters_small_or_oversized_writes() {
    let mut fs = make_test_fs(1024);
    let mut inode = Inode::zeroed();
    inode.extent_init();
    let mut inode = InodeRef::new(2, inode);

    let oversized = WriteLogicalRange::checked(0, (DIRECT_RANGE_MAX_BLOCKS + 1) * BLOCK_SIZE)
        .unwrap()
        .unwrap();
    assert!(fs.direct_range_plan(&inode, &oversized).unwrap().is_none());
    let largest = WriteLogicalRange::checked(0, DIRECT_RANGE_MAX_BLOCKS * BLOCK_SIZE)
        .unwrap()
        .unwrap();
    assert!(fs.direct_range_plan(&inode, &largest).unwrap().is_some());
    let exact = WriteLogicalRange::checked(0, DIRECT_RANGE_MIN_BLOCKS * BLOCK_SIZE)
        .unwrap()
        .unwrap();
    assert!(fs.direct_range_plan(&inode, &exact).unwrap().is_some());

    inode
        .inode
        .set_size((DIRECT_RANGE_MIN_BLOCKS * BLOCK_SIZE) as u64);
    assert!(fs.direct_range_plan(&inode, &exact).unwrap().is_none());
}

#[test]
fn read_extent_or_hole_zero_fills_only_missing_extent() {
    let mut fs = make_test_fs(16);
    let mut inode = Inode::zeroed();
    inode.extent_init();
    let inode = InodeRef::new(2, inode);
    let mut buf = [0x5a; 16];

    fs.read_extent_or_hole(&inode, 0, 0, &mut buf).unwrap();

    assert_eq!(buf, [0; 16]);
}

#[test]
fn metadata_mutation_barrier_separates_direct_and_transactional_writers() {
    let mut fs = make_test_fs(16);

    fs.lock_direct_metadata_mutation().unwrap();
    fs.lock_direct_metadata_mutation().unwrap();
    assert_eq!(
        fs.lock_transactional_metadata_mutation()
            .expect_err("exclusive gate must not wait for direct owners")
            .code(),
        ErrCode::EAGAIN
    );
    fs.unlock_direct_metadata_mutation();
    fs.unlock_direct_metadata_mutation();

    fs.lock_transactional_metadata_mutation().unwrap();
    assert_eq!(
        fs.lock_direct_metadata_mutation()
            .expect_err("direct gate must not wait for exclusive owner")
            .code(),
        ErrCode::EAGAIN
    );
    assert_eq!(
        fs.lock_transactional_metadata_mutation()
            .expect_err("second exclusive owner must be rejected")
            .code(),
        ErrCode::EAGAIN
    );
    fs.unlock_transactional_metadata_mutation();
    fs.lock_transactional_metadata_mutation().unwrap();
    fs.unlock_transactional_metadata_mutation();
    fs.lock_direct_metadata_mutation().unwrap();
    fs.unlock_direct_metadata_mutation();
}

#[test]
fn metadata_mutation_barrier_notifies_only_after_guard_release() {
    let mut fs = make_test_fs(16);
    let notifications = fs.volume().released.clone();

    fs.lock_direct_metadata_mutation().unwrap();
    fs.lock_direct_metadata_mutation().unwrap();
    assert_eq!(notifications.get(), 0);
    fs.unlock_direct_metadata_mutation();
    assert_eq!(notifications.get(), 1);
    fs.unlock_direct_metadata_mutation();
    assert_eq!(notifications.get(), 2);

    fs.lock_transactional_metadata_mutation().unwrap();
    assert_eq!(notifications.get(), 2);
    fs.unlock_transactional_metadata_mutation();
    assert_eq!(notifications.get(), 3);
}

#[test]
fn metadata_mutation_barrier_rejects_direct_count_overflow() {
    let mut fs = make_test_fs(16);
    fs.metadata_mutation_barrier().direct = METADATA_GATE_DIRECT_MAX;
    assert_eq!(
        fs.lock_direct_metadata_mutation()
            .expect_err("direct count must not enter the exclusive bit")
            .code(),
        ErrCode::EAGAIN
    );
    fs.metadata_mutation_barrier().direct = 0;
}

#[test]
fn read_extent_or_hole_propagates_extent_corruption() {
    let mut fs = make_test_fs(16);
    let inode = InodeRef::new(2, Inode::zeroed());
    let mut buf = [0x5a; 16];

    let err = fs
        .read_extent_or_hole(&inode, 0, 0, &mut buf)
        .expect_err("invalid extent root must not be treated as a hole");

    assert_eq!(err.code(), ErrCode::EIO);
    assert_eq!(buf, [0x5a; 16]);
}

const TEST_BLOCK_COUNT: usize = 16;
const TEST_BLOCK_BITMAP: PBlockId = 2;
const TEST_INODE_BITMAP: PBlockId = 3;
const TEST_INODE_TABLE: PBlockId = 4;
const TEST_XATTR_BLOCK: PBlockId = 5;
const TEST_INITIAL_FREE_BLOCKS: u64 = (TEST_BLOCK_COUNT as u64) - 5;

struct FailingBlocks {
    blocks: BTreeMap<PBlockId, Block>,
    fail_reads: Vec<PBlockId>,
    fail_writes: Vec<PBlockId>,
}

/// A shared device that fails where it is told to.
#[derive(Clone)]
struct FailingBlockDevice(Rc<RefCell<FailingBlocks>>);

fn write_u16(data: &mut [u8; BLOCK_SIZE], offset: usize, value: u16) {
    data[offset..offset + 2].copy_from_slice(&value.to_le_bytes());
}

fn write_u32(data: &mut [u8; BLOCK_SIZE], offset: usize, value: u32) {
    data[offset..offset + 4].copy_from_slice(&value.to_le_bytes());
}

impl FailingBlockDevice {
    fn new() -> Self {
        let mut blocks = BTreeMap::new();
        for block_id in 0..TEST_BLOCK_COUNT as PBlockId {
            blocks.insert(block_id, Block::new(block_id, Box::new([0u8; BLOCK_SIZE])));
        }

        let sb = &mut blocks.get_mut(&0).unwrap().data;
        write_u32(sb, BASE_OFFSET, 16);
        write_u32(sb, BASE_OFFSET + 4, TEST_BLOCK_COUNT as u32);
        write_u32(sb, BASE_OFFSET + 12, TEST_INITIAL_FREE_BLOCKS as u32);
        write_u32(sb, BASE_OFFSET + 20, 0);
        write_u32(sb, BASE_OFFSET + 24, 2);
        write_u32(sb, BASE_OFFSET + 28, 2);
        write_u32(sb, BASE_OFFSET + 32, TEST_BLOCK_COUNT as u32);
        write_u32(sb, BASE_OFFSET + 36, TEST_BLOCK_COUNT as u32);
        write_u32(sb, BASE_OFFSET + 40, 16);
        write_u16(sb, BASE_OFFSET + 56, 0xef53);
        write_u32(sb, BASE_OFFSET + 84, 1);
        write_u16(sb, BASE_OFFSET + 88, SB_GOOD_INODE_SIZE as u16);
        write_u16(sb, BASE_OFFSET + 254, SB_GOOD_DESC_SIZE as u16);

        let bgdt = &mut blocks.get_mut(&1).unwrap().data;
        write_u32(bgdt, 0, TEST_BLOCK_BITMAP as u32);
        write_u32(bgdt, 4, TEST_INODE_BITMAP as u32);
        write_u32(bgdt, 8, TEST_INODE_TABLE as u32);
        write_u16(bgdt, 12, TEST_INITIAL_FREE_BLOCKS as u16);

        blocks.get_mut(&TEST_BLOCK_BITMAP).unwrap().data[0] = 0b0001_1111;

        let mut inode = Inode::zeroed();
        inode.set_mode(InodeMode::from_type_and_perm(
            FileType::RegularFile,
            InodeMode::from_bits_retain(0o644),
        ));
        inode.set_link_count(1);
        blocks.get_mut(&TEST_INODE_TABLE).unwrap().data
            [SB_GOOD_INODE_SIZE..2 * SB_GOOD_INODE_SIZE]
            .copy_from_slice(inode.bytes());

        Self(Rc::new(RefCell::new(FailingBlocks {
            blocks,
            fail_reads: Vec::new(),
            fail_writes: Vec::new(),
        })))
    }

    fn fail_once_on_read(&self, block_id: PBlockId) {
        self.0.borrow_mut().fail_reads.push(block_id);
    }

    fn fail_once_on_write(&self, block_id: PBlockId) {
        self.0.borrow_mut().fail_writes.push(block_id);
    }

    fn bytes_of(&self, block_id: PBlockId) -> Box<[u8; BLOCK_SIZE]> {
        self.0.borrow().blocks.get(&block_id).unwrap().data.clone()
    }

    fn block_bitmap_bit_is_set(&self, bit: usize) -> bool {
        (self.bytes_of(TEST_BLOCK_BITMAP)[bit / 8] & (1 << (bit % 8))) != 0
    }

    fn bg_free_blocks(&self) -> u64 {
        u16::from_le_bytes(self.bytes_of(1)[12..14].try_into().unwrap()) as u64
    }

    fn sb_free_blocks(&self) -> u64 {
        u32::from_le_bytes(
            self.bytes_of(0)[BASE_OFFSET + 12..BASE_OFFSET + 16]
                .try_into()
                .unwrap(),
        ) as u64
    }

    fn disk_inode_xattr_block(&self) -> PBlockId {
        let table = self.bytes_of(TEST_INODE_TABLE);
        let inode = &table[SB_GOOD_INODE_SIZE..2 * SB_GOOD_INODE_SIZE];
        let low = u32::from_le_bytes(inode[104..108].try_into().unwrap()) as u64;
        let high = u16::from_le_bytes(inode[118..120].try_into().unwrap()) as u64;
        high << 32 | low
    }

    fn fill_block(&self, block_id: PBlockId, byte: u8) {
        self.0
            .borrow_mut()
            .blocks
            .get_mut(&block_id)
            .unwrap()
            .data
            .fill(byte);
    }

    fn block_is_zero(&self, block_id: PBlockId) -> bool {
        self.bytes_of(block_id).iter().all(|byte| *byte == 0)
    }
}

fn take_failure(list: &mut Vec<PBlockId>, block_id: PBlockId) -> bool {
    if let Some(pos) = list.iter().position(|&id| id == block_id) {
        list.remove(pos);
        true
    } else {
        false
    }
}

impl BlockDevice for FailingBlockDevice {
    fn read_block(&mut self, block_id: PBlockId) -> Result<Block> {
        let mut state = self.0.borrow_mut();
        if take_failure(&mut state.fail_reads, block_id) {
            return Err(Ext4Error::new(ErrCode::EIO));
        }
        match state.blocks.get(&block_id) {
            Some(block) => Ok(Block::new(block_id, block.data.clone())),
            None => Err(Ext4Error::new(ErrCode::EIO)),
        }
    }

    fn write_block(&mut self, block: &Block) -> Result<()> {
        let mut state = self.0.borrow_mut();
        if take_failure(&mut state.fail_writes, block.id) {
            return Err(Ext4Error::new(ErrCode::EIO));
        }
        state
            .blocks
            .insert(block.id, Block::new(block.id, block.data.clone()));
        Ok(())
    }

    fn flush(&mut self) -> Result<()> {
        Ok(())
    }

    fn supports_reliable_flush(&self) -> bool {
        true
    }

    fn diagnostic_enabled(&self) -> bool {
        false
    }

    fn diagnostic_cycles(&self) -> usize {
        0
    }

    fn record_journal_commit(&mut self, _bytes: usize) {}

    fn record_writeback_journal_commit(
        &mut self,
        _transaction_id: u32,
        _staged_blocks: usize,
        _cycles: usize,
        _reason: JournalCommitReason,
    ) {
    }

    fn record_writeback_journal_flush(
        &mut self,
        _transaction_id: u32,
        _phase: JournalFlushPhase,
        _cycles: usize,
    ) {
    }

    fn record_writeback_data_write(&mut self, _bytes: usize, _cycles: usize) {}

    fn record_writeback_alloc_extent(&mut self, _blocks: usize, _cycles: usize) {}
}

type FailingFs = Ext4<FailingBlockDevice, EmptyFiles>;

fn load_failing_test_fs() -> (FailingBlockDevice, FailingFs) {
    let block_device = FailingBlockDevice::new();
    let superblock = SuperBlock::from_block(&block_device.bytes_of(0));
    assert!(superblock.is_supported());
    let group = BlockGroupDesc::from_block(&block_device.bytes_of(1), 0);
    let mut fs = Ext4::new(
        block_device.clone(),
        EmptyFiles::new(),
        superblock,
        vec![group],
        Vec::new(),
    );
    fs.initialize_direct().unwrap();
    (block_device, fs)
}

fn assert_xattr_alloc_rolled_back(fs: &FailingFs, block_device: &FailingBlockDevice) {
    assert!(!block_device.block_bitmap_bit_is_set(TEST_XATTR_BLOCK as usize));
    assert_eq!(block_device.bg_free_blocks(), TEST_INITIAL_FREE_BLOCKS);
    assert_eq!(block_device.sb_free_blocks(), TEST_INITIAL_FREE_BLOCKS);
    assert_eq!(
        fs.read_block_group(0).unwrap().desc.get_free_blocks_count(),
        TEST_INITIAL_FREE_BLOCKS
    );
    assert_eq!(
        fs.read_super_block_cached().free_blocks_count(),
        TEST_INITIAL_FREE_BLOCKS
    );
    assert_eq!(block_device.disk_inode_xattr_block(), 0);
}

fn assert_allocation_state(
    fs: &FailingFs,
    block_device: &FailingBlockDevice,
    allocated: bool,
    free_blocks: u64,
) {
    assert_eq!(
        block_device.block_bitmap_bit_is_set(TEST_XATTR_BLOCK as usize),
        allocated
    );
    assert_eq!(block_device.bg_free_blocks(), free_blocks);
    assert_eq!(block_device.sb_free_blocks(), free_blocks);
    assert_eq!(
        fs.read_block_group(0).unwrap().desc.get_free_blocks_count(),
        free_blocks
    );
    assert_eq!(
        fs.read_super_block_cached().free_blocks_count(),
        free_blocks
    );
}

#[test]
fn setxattr_rolls_back_when_new_xattr_block_read_fails() {
    let (block_device, mut fs) = load_failing_test_fs();
    block_device.fail_once_on_read(TEST_XATTR_BLOCK);

    let err = fs
        .setxattr_with_flags(2, "user.rollback", b"value", false, false)
        .unwrap_err();

    assert_eq!(err.code(), ErrCode::EIO);
    assert_xattr_alloc_rolled_back(&fs, &block_device);
}

#[test]
fn setxattr_rolls_back_when_new_xattr_block_write_fails() {
    let (block_device, mut fs) = load_failing_test_fs();
    block_device.fail_once_on_write(TEST_XATTR_BLOCK);

    let err = fs
        .setxattr_with_flags(2, "user.rollback", b"value", false, false)
        .unwrap_err();

    assert_eq!(err.code(), ErrCode::EIO);
    assert_xattr_alloc_rolled_back(&fs, &block_device);
}

#[test]
fn setxattr_rolls_back_when_inode_write_fails() {
    let (block_device, mut fs) = load_failing_test_fs();
    block_device.fail_once_on_write(TEST_INODE_TABLE);

    let err = fs
        .setxattr_with_flags(2, "user.rollback", b"value", false, false)
        .unwrap_err();

    assert_eq!(err.code(), ErrCode::EIO);
    assert_xattr_alloc_rolled_back(&fs, &block_device);
}

#[test]
fn setxattr_rolls_back_when_new_xattr_does_not_fit() {
    let (block_device, mut fs) = load_failing_test_fs();
    let value = vec![0x5au8; BLOCK_SIZE];

    let err = fs
        .setxattr_with_flags(2, "user.rollback", &value, false, false)
        .unwrap_err();

    assert_eq!(err.code(), ErrCode::ENOSPC);
    assert_xattr_alloc_rolled_back(&fs, &block_device);
}

#[test]
fn block_group_cache_updates_only_after_disk_write_succeeds() {
    let (block_device, mut fs) = load_failing_test_fs();
    let mut bg = fs.read_block_group(0).unwrap();
    bg.desc.set_free_blocks_count(TEST_INITIAL_FREE_BLOCKS - 1);
    block_device.fail_once_on_write(1);

    let err = fs.write_block_group_with_csum(&mut bg).unwrap_err();

    assert_eq!(err.code(), ErrCode::EIO);
    assert_eq!(
        fs.read_block_group(0).unwrap().desc.get_free_blocks_count(),
        TEST_INITIAL_FREE_BLOCKS
    );
    assert_eq!(block_device.bg_free_blocks(), TEST_INITIAL_FREE_BLOCKS);
}

#[test]
fn alloc_block_rolls_back_when_block_group_write_fails() {
    let (block_device, mut fs) = load_failing_test_fs();
    let inode = fs.read_inode(2).unwrap();
    block_device.fail_once_on_write(1);

    let err = fs.alloc_block(&inode).unwrap_err();

    assert_eq!(err.code(), ErrCode::EIO);
    assert_allocation_state(&fs, &block_device, false, TEST_INITIAL_FREE_BLOCKS);
}

#[test]
fn alloc_block_rolls_back_when_superblock_write_fails() {
    let (block_device, mut fs) = load_failing_test_fs();
    let inode = fs.read_inode(2).unwrap();
    block_device.fail_once_on_write(0);

    let err = fs.alloc_block(&inode).unwrap_err();

    assert_eq!(err.code(), ErrCode::EIO);
    assert_allocation_state(&fs, &block_device, false, TEST_INITIAL_FREE_BLOCKS);
}

#[test]
fn newly_reused_data_block_is_zeroed_before_mapping() {
    let (block_device, mut fs) = load_failing_test_fs();
    let inode = fs.read_inode(2).unwrap();
    block_device.fill_block(TEST_XATTR_BLOCK, 0xa5);

    let pblock = fs.alloc_zeroed_data_block(&inode).unwrap();

    assert_eq!(pblock, TEST_XATTR_BLOCK);
    assert!(block_device.block_is_zero(pblock));
    assert_allocation_state(&fs, &block_device, true, TEST_INITIAL_FREE_BLOCKS - 1);
}

#[test]
fn data_block_zero_write_failure_rolls_back_allocation() {
    let (block_device, mut fs) = load_failing_test_fs();
    let inode = fs.read_inode(2).unwrap();
    block_device.fill_block(TEST_XATTR_BLOCK, 0xa5);
    block_device.fail_once_on_write(TEST_XATTR_BLOCK);

    let err = fs.alloc_zeroed_data_block(&inode).unwrap_err();

    assert_eq!(err.code(), ErrCode::EIO);
    assert_allocation_state(&fs, &block_device, false, TEST_INITIAL_FREE_BLOCKS);
    assert!(!block_device.block_is_zero(TEST_XATTR_BLOCK));
}

#[test]
fn dealloc_block_rolls_back_when_block_group_write_fails() {
    let (block_device, mut fs) = load_failing_test_fs();
    let inode = fs.read_inode(2).unwrap();
    let pblock = fs.alloc_block(&inode).unwrap();
    assert_eq!(pblock, TEST_XATTR_BLOCK);
    assert_allocation_state(&fs, &block_device, true, TEST_INITIAL_FREE_BLOCKS - 1);
    block_device.fail_once_on_write(1);

    let err = fs.dealloc_block(pblock).unwrap_err();

    assert_eq!(err.code(), ErrCode::EIO);
    assert_allocation_state(&fs, &block_device, true, TEST_INITIAL_FREE_BLOCKS - 1);
}

#[test]
fn dealloc_block_rolls_back_when_superblock_write_fails() {
    let (block_device, mut fs) = load_failing_test_fs();
    let inode = fs.read_inode(2).unwrap();
    let pblock = fs.alloc_block(&inode).unwrap();
    assert_eq!(pblock, TEST_XATTR_BLOCK);
    assert_allocation_state(&fs, &block_device, true, TEST_INITIAL_FREE_BLOCKS - 1);
    block_device.fail_once_on_write(0);

    let err = fs.dealloc_block(pblock).unwrap_err();

    assert_eq!(err.code(), ErrCode::EIO);
    assert_allocation_state(&fs, &block_device, true, TEST_INITIAL_FREE_BLOCKS - 1);
}
