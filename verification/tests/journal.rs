//! Transactions with and without a journal, on a device in memory.

use another_ext4::commit_plan::CommitFailure;
use another_ext4::context::JournalContext;
use another_ext4::device::{Block, BlockDevice, Io, JournalCommitReason, JournalFlushPhase};
use another_ext4::error::{ErrCode, Ext4Error, Result};
use another_ext4::jbd2::{
    BlockType, ChecksumMode, Features, Header, Superblock, CRC32C_CHKSUM, MAGIC,
};
use another_ext4::journal_log::update_superblock;
use another_ext4::journal_transaction::{
    DirectTransactionCore, JournalTransactionCore, Transaction, TransactionCoreRef,
};
use another_ext4::staged::{CachePublisher, StagedBlocks};
use another_ext4::{PBlockId, BLOCK_SIZE};
use std::collections::{BTreeMap, BTreeSet};

const TEST_MAX_FAST_METADATA_IMAGES: usize = 16;
const TEST_LARGE_JOURNAL_BLOCKS: u32 = 64;

struct MemoryDevice {
    volatile: BTreeMap<PBlockId, Box<[u8; BLOCK_SIZE]>>,
    stable: BTreeMap<PBlockId, Box<[u8; BLOCK_SIZE]>>,
    operation: usize,
    fail_at: usize,
    fail_at_second: usize,
    write_order: Vec<PBlockId>,
    reads: usize,
    writes: usize,
    flushes: usize,
    journal_commits: Vec<(u32, usize, JournalCommitReason)>,
    journal_flushes: Vec<(u32, JournalFlushPhase)>,
}

impl MemoryDevice {
    fn new() -> Self {
        Self {
            volatile: BTreeMap::new(),
            stable: BTreeMap::new(),
            operation: 0,
            fail_at: usize::MAX,
            fail_at_second: usize::MAX,
            write_order: Vec::new(),
            reads: 0,
            writes: 0,
            flushes: 0,
            journal_commits: Vec::new(),
            journal_flushes: Vec::new(),
        }
    }

    fn step(&mut self) -> Result<()> {
        let operation = self.operation;
        self.operation += 1;
        if operation == self.fail_at || operation == self.fail_at_second {
            Err(Ext4Error::new(ErrCode::EIO))
        } else {
            Ok(())
        }
    }

    /// Power loss: only what the last flush covered survives.
    fn crash(&mut self) {
        self.volatile = self.stable.clone();
    }

    fn stable_block(&self, id: PBlockId) -> Option<Box<[u8; BLOCK_SIZE]>> {
        self.stable.get(&id).cloned()
    }
}

impl BlockDevice for MemoryDevice {
    fn read_block(&mut self, block_id: PBlockId) -> Result<Block> {
        self.reads += 1;
        Ok(Block::new(
            block_id,
            self.volatile
                .get(&block_id)
                .cloned()
                .unwrap_or_else(|| Box::new([0; BLOCK_SIZE])),
        ))
    }

    fn write_block(&mut self, block: &Block) -> Result<()> {
        self.writes += 1;
        self.step()?;
        self.write_order.push(block.id);
        self.volatile.insert(block.id, block.data.clone());
        Ok(())
    }

    fn flush(&mut self) -> Result<()> {
        self.flushes += 1;
        self.step()?;
        self.stable = self.volatile.clone();
        Ok(())
    }

    fn supports_reliable_flush(&self) -> bool {
        true
    }

    fn diagnostic_enabled(&self) -> bool {
        true
    }

    fn diagnostic_cycles(&self) -> usize {
        self.operation
    }

    fn record_writeback_journal_commit(
        &mut self,
        transaction_id: u32,
        staged_blocks: usize,
        _cycles: usize,
        reason: JournalCommitReason,
    ) {
        self.journal_commits
            .push((transaction_id, staged_blocks, reason));
    }

    fn record_writeback_journal_flush(
        &mut self,
        transaction_id: u32,
        phase: JournalFlushPhase,
        _cycles: usize,
    ) {
        self.journal_flushes.push((transaction_id, phase));
    }

    fn record_journal_commit(&mut self, _bytes: usize) {}

    fn record_writeback_data_write(&mut self, _bytes: usize, _cycles: usize) {}

    fn record_writeback_alloc_extent(&mut self, _blocks: usize, _cycles: usize) {}
}

fn device() -> Io<MemoryDevice> {
    Io::new(MemoryDevice::new())
}

fn device_failing_at(first: usize, second: usize) -> Io<MemoryDevice> {
    let mut device = MemoryDevice::new();
    device.fail_at = first;
    device.fail_at_second = second;
    Io::new(device)
}

struct Publisher(usize);

impl CachePublisher for Publisher {
    fn publish(&mut self, blocks: &StagedBlocks) {
        self.0 += blocks.len();
    }

    fn publish_pending(&mut self, _blocks: &StagedBlocks) {}
}

struct PendingPublisher {
    pending: usize,
    committed: usize,
}

impl CachePublisher for PendingPublisher {
    fn publish_pending(&mut self, blocks: &StagedBlocks) {
        self.pending += blocks.len();
    }

    fn publish(&mut self, blocks: &StagedBlocks) {
        self.committed += blocks.len();
    }
}

#[test]
fn direct_commit_writes_home_blocks_in_order_then_publishes() {
    let mut io = device();
    let mut publisher = Publisher(0);
    let mut core = DirectTransactionCore::new(128).unwrap();
    let mut transaction = core.start(3).unwrap();
    transaction.stage(9, Box::new([9; BLOCK_SIZE])).unwrap();
    transaction.stage(2, Box::new([2; BLOCK_SIZE])).unwrap();
    transaction.stage(5, Box::new([5; BLOCK_SIZE])).unwrap();

    transaction
        .commit(TransactionCoreRef::Direct(&mut core), &mut io, &mut publisher)
        .unwrap();

    assert_eq!(io.device().write_order, [2, 5, 9]);
    assert_eq!(publisher.0, 3);
    assert!(!core.is_poisoned());
    assert!(core.can_shutdown());
}

#[test]
fn direct_write_failure_never_publishes_and_poisons_backend() {
    let mut io = device_failing_at(1, usize::MAX);
    let mut publisher = Publisher(0);
    let mut core = DirectTransactionCore::new(128).unwrap();
    let mut transaction = core.start(2).unwrap();
    transaction.stage(2, Box::new([2; BLOCK_SIZE])).unwrap();
    transaction.stage(5, Box::new([5; BLOCK_SIZE])).unwrap();

    let error = transaction
        .commit(TransactionCoreRef::Direct(&mut core), &mut io, &mut publisher)
        .unwrap_err();

    assert_eq!(error.failure, CommitFailure::CheckpointFailed);
    assert_eq!(publisher.0, 0);
    assert!(core.is_poisoned());
    assert_eq!(core.start(1).err().unwrap().code(), ErrCode::EROFS);
}

#[test]
fn direct_validation_failure_releases_writer_without_poison() {
    let mut io = device();
    let mut publisher = Publisher(0);
    let mut core = DirectTransactionCore::new(8).unwrap();
    let mut transaction = core.start(1).unwrap();
    transaction.stage(8, Box::new([1; BLOCK_SIZE])).unwrap();

    let error = transaction
        .commit(TransactionCoreRef::Direct(&mut core), &mut io, &mut publisher)
        .unwrap_err();

    assert_eq!(error.failure, CommitFailure::BeforeCommit);
    assert!(!core.is_poisoned());
    assert!(core.start(1).is_ok());
}

#[test]
fn direct_backend_allows_only_one_transaction_owner() {
    let mut core = DirectTransactionCore::new(8).unwrap();
    let transaction = core.start(1).unwrap();
    assert_eq!(core.start(1).err().unwrap().code(), ErrCode::EAGAIN);
    transaction.abort(TransactionCoreRef::Direct(&mut core));
    assert!(core.start(1).is_ok());
}

#[test]
fn backend_rests_while_no_transaction_lives() {
    let mut core = DirectTransactionCore::new(8).unwrap();
    assert!(core.can_shutdown());
    let transaction = core.start(1).unwrap();
    assert!(!core.can_shutdown());
    transaction.abort(TransactionCoreRef::Direct(&mut core));
    assert!(core.can_shutdown());
    let mut transaction = core.start(1).unwrap();
    transaction.stage(2, Box::new([2; BLOCK_SIZE])).unwrap();
    let mut io = device_failing_at(0, usize::MAX);
    let mut publisher = Publisher(0);
    assert!(transaction
        .commit(TransactionCoreRef::Direct(&mut core), &mut io, &mut publisher)
        .is_err());
    assert!(core.is_poisoned());
    assert!(!core.can_shutdown());
    assert_eq!(core.start(1).err().unwrap().code(), ErrCode::EROFS);
    assert!(core.is_poisoned());
}

#[test]
fn ordinary_transactions_do_not_retain_rollback_images() {
    let mut io = device();
    let mut core = DirectTransactionCore::new(8).unwrap();
    let mut transaction = core.start(1).unwrap();

    transaction.read_for_update(&mut io, 1).unwrap()[0] = 1;

    assert!(transaction.staged_blocks().get(1).unwrap().original.is_none());
    transaction.abort(TransactionCoreRef::Direct(&mut core));
}

#[test]
fn direct_range_transactions_retain_rollback_images() {
    let mut io = device();
    let mut core = DirectTransactionCore::new(8).unwrap();
    let mut transaction = core.start_direct_range(1).unwrap();

    transaction.read_for_update(&mut io, 1).unwrap()[0] = 1;

    assert!(transaction.staged_blocks().get(1).unwrap().original.is_some());
    transaction.abort(TransactionCoreRef::Direct(&mut core));
}

fn staged_direct_range(
    core: &mut DirectTransactionCore,
    io: &mut Io<MemoryDevice>,
) -> Transaction {
    let mut transaction = core.start_direct_range(4).unwrap();
    for (home, value) in [(9, 9), (2, 2), (5, 5), (7, 7)] {
        transaction.read_for_update(io, home).unwrap().fill(value);
    }
    transaction
}

#[test]
fn direct_range_uses_allocation_order_and_inode_last() {
    let mut io = device();
    let mut publisher = Publisher(0);
    let mut core = DirectTransactionCore::new(128).unwrap();
    let transaction = staged_direct_range(&mut core, &mut io);

    transaction
        .commit_direct_range(
            TransactionCoreRef::Direct(&mut core),
            &mut io,
            &mut publisher,
            &[9, 2, 5],
            7,
        )
        .unwrap();

    assert_eq!(io.device().write_order, [9, 2, 5, 7]);
    assert_eq!(io.device().flushes, 1);
    assert_eq!(
        io.device().stable_block(9).unwrap().as_slice(),
        &[9; BLOCK_SIZE]
    );
    assert!(io.device().stable_block(7).is_none());
    assert_eq!(publisher.0, 4);
    assert!(!core.is_poisoned());
}

#[test]
fn direct_range_restores_failed_allocation_home_before_continuing() {
    let mut io = device_failing_at(1, usize::MAX);
    let mut publisher = Publisher(0);
    let mut core = DirectTransactionCore::new(128).unwrap();
    let transaction = staged_direct_range(&mut core, &mut io);

    let error = transaction
        .commit_direct_range(
            TransactionCoreRef::Direct(&mut core),
            &mut io,
            &mut publisher,
            &[9, 2, 5],
            7,
        )
        .unwrap_err();

    assert_eq!(error.failure, CommitFailure::BeforeCommit);
    assert_eq!(publisher.0, 0);
    assert_eq!(io.device().write_order, [9, 2, 9]);
    assert_eq!(io.device().volatile[&9].as_slice(), &[0; BLOCK_SIZE]);
    assert_eq!(io.device().volatile[&2].as_slice(), &[0; BLOCK_SIZE]);
    assert!(!core.is_poisoned());
}

#[test]
fn direct_range_restores_each_failed_allocation_home() {
    for failed_home in 0..3 {
        let mut io = device_failing_at(failed_home, usize::MAX);
        let mut publisher = Publisher(0);
        let mut core = DirectTransactionCore::new(128).unwrap();
        let transaction = staged_direct_range(&mut core, &mut io);

        let error = transaction
            .commit_direct_range(
                TransactionCoreRef::Direct(&mut core),
                &mut io,
                &mut publisher,
                &[9, 2, 5],
                7,
            )
            .unwrap_err();

        assert_eq!(error.failure, CommitFailure::BeforeCommit);
        assert_eq!(publisher.0, 0);
        for home in [9, 2, 5] {
            let image = io
                .device()
                .volatile
                .get(&home)
                .cloned()
                .unwrap_or_else(|| Box::new([0; BLOCK_SIZE]));
            assert_eq!(image.as_slice(), &[0; BLOCK_SIZE]);
        }
        assert!(!core.is_poisoned());
    }
}

#[test]
fn direct_range_rollback_write_failure_poisons_backend() {
    let mut io = device_failing_at(1, 2);
    let mut publisher = Publisher(0);
    let mut core = DirectTransactionCore::new(128).unwrap();
    let transaction = staged_direct_range(&mut core, &mut io);

    let error = transaction
        .commit_direct_range(
            TransactionCoreRef::Direct(&mut core),
            &mut io,
            &mut publisher,
            &[9, 2, 5],
            7,
        )
        .unwrap_err();

    assert_eq!(error.failure, CommitFailure::CheckpointFailed);
    assert_eq!(publisher.0, 0);
    assert!(core.is_poisoned());
}

#[test]
fn direct_range_rollback_flush_failure_poisons_backend() {
    let mut io = device_failing_at(1, 4);
    let mut publisher = Publisher(0);
    let mut core = DirectTransactionCore::new(128).unwrap();
    let transaction = staged_direct_range(&mut core, &mut io);

    let error = transaction
        .commit_direct_range(
            TransactionCoreRef::Direct(&mut core),
            &mut io,
            &mut publisher,
            &[9, 2, 5],
            7,
        )
        .unwrap_err();

    assert_eq!(error.failure, CommitFailure::CheckpointFailed);
    assert_eq!(publisher.0, 0);
    assert!(core.is_poisoned());
}

#[test]
fn direct_range_inode_write_failure_is_uncertain_and_poisons() {
    let mut io = device_failing_at(4, usize::MAX);
    let mut publisher = Publisher(0);
    let mut core = DirectTransactionCore::new(128).unwrap();
    let transaction = staged_direct_range(&mut core, &mut io);

    let error = transaction
        .commit_direct_range(
            TransactionCoreRef::Direct(&mut core),
            &mut io,
            &mut publisher,
            &[9, 2, 5],
            7,
        )
        .unwrap_err();

    assert_eq!(error.failure, CommitFailure::CommitUncertain);
    assert_eq!(publisher.0, 0);
    assert!(core.is_poisoned());
}

#[test]
fn direct_range_allocation_flush_failure_restores_all_homes() {
    let mut io = device_failing_at(3, usize::MAX);
    let mut publisher = Publisher(0);
    let mut core = DirectTransactionCore::new(128).unwrap();
    let transaction = staged_direct_range(&mut core, &mut io);

    let error = transaction
        .commit_direct_range(
            TransactionCoreRef::Direct(&mut core),
            &mut io,
            &mut publisher,
            &[9, 2, 5],
            7,
        )
        .unwrap_err();

    assert_eq!(error.failure, CommitFailure::BeforeCommit);
    assert_eq!(publisher.0, 0);
    for home in [9, 2, 5] {
        assert_eq!(
            io.device().stable_block(home).unwrap().as_slice(),
            &[0; BLOCK_SIZE]
        );
    }
    assert!(io.device().stable_block(7).is_none());
    assert!(!core.is_poisoned());
}

#[test]
fn direct_range_allocation_flush_rollback_failure_poisons_backend() {
    let mut io = device_failing_at(3, 4);
    let mut publisher = Publisher(0);
    let mut core = DirectTransactionCore::new(128).unwrap();
    let transaction = staged_direct_range(&mut core, &mut io);

    let error = transaction
        .commit_direct_range(
            TransactionCoreRef::Direct(&mut core),
            &mut io,
            &mut publisher,
            &[9, 2, 5],
            7,
        )
        .unwrap_err();

    assert_eq!(error.failure, CommitFailure::CheckpointFailed);
    assert_eq!(publisher.0, 0);
    assert!(core.is_poisoned());
}

#[test]
fn direct_range_rejects_out_of_range_inode_without_io() {
    let mut io = device();
    let mut publisher = Publisher(0);
    let mut core = DirectTransactionCore::new(8).unwrap();
    let mut transaction = core.start_direct_range(4).unwrap();
    for home in [1, 2, 3, 8] {
        transaction.read_for_update(&mut io, home).unwrap()[0] = 1;
    }

    let error = transaction
        .commit_direct_range(
            TransactionCoreRef::Direct(&mut core),
            &mut io,
            &mut publisher,
            &[1, 2, 3],
            8,
        )
        .unwrap_err();

    assert_eq!(error.failure, CommitFailure::BeforeCommit);
    assert_eq!(io.device().writes, 0);
    assert!(!core.is_poisoned());
}

#[test]
fn read_for_update_merges_shared_block_and_charges_one_credit() {
    let mut io = device();
    let mut core = JournalTransactionCore::new(context()).unwrap();
    let mut transaction = core.start(1).unwrap();

    transaction.read_for_update(&mut io, 42).unwrap()[10] = 1;
    transaction.read_for_update(&mut io, 42).unwrap()[11] = 2;
    assert_eq!(
        transaction.read(&mut io, 42).unwrap().bytes()[10..12],
        [1, 2]
    );
    assert_eq!(
        transaction.read_for_update(&mut io, 43).unwrap_err().code(),
        ErrCode::E2BIG
    );
}

fn context() -> JournalContext {
    context_with_ring(8, 7)
}

fn context_with_ring(max_len: u32, head: u32) -> JournalContext {
    let features = Features {
        checksum: ChecksumMode::V3,
        has_64bit: true,
    };
    let mut superblock = Superblock {
        block_size: BLOCK_SIZE as u32,
        max_len,
        first: 1,
        sequence: 7,
        start: 0,
        errno: 0,
        features,
        uuid: *b"0123456789abcdef",
        checksum_type: CRC32C_CHKSUM,
    };
    let mut image = Box::new([0; 1024]);
    Header {
        block_type: BlockType::SuperblockV2,
        sequence: 7,
    }
    .encode_into(&mut image[..]);
    image[12..16].copy_from_slice(&(BLOCK_SIZE as u32).to_be_bytes());
    image[16..20].copy_from_slice(&max_len.to_be_bytes());
    image[20..24].copy_from_slice(&1u32.to_be_bytes());
    image[24..28].copy_from_slice(&head.to_be_bytes());
    image[40..44].copy_from_slice(&0x12u32.to_be_bytes());
    image[48..64].copy_from_slice(b"0123456789abcdef");
    image[80] = CRC32C_CHKSUM;
    update_superblock(&mut image, head, 0, &superblock);
    superblock.sequence = head;
    JournalContext {
        superblock,
        logical_blocks: Vec::from_iter(100..100 + max_len as u64),
        journal_blocks: BTreeSet::from_iter(100..100 + max_len as u64),
        target_blocks: 1000,
        head,
        superblock_image: image,
        deferred_transaction: None,
    }
}

fn large_core() -> JournalTransactionCore {
    JournalTransactionCore::new(context_with_ring(
        TEST_LARGE_JOURNAL_BLOCKS,
        TEST_LARGE_JOURNAL_BLOCKS - 1,
    ))
    .unwrap()
}

fn assert_counted_commit_shape(homes: usize, expected_reads: usize, expected_writes: usize) {
    let mut io = device();
    let mut publisher = Publisher(0);
    let mut core = large_core();
    let mut transaction = core.start(homes).unwrap();
    for home in 42..42 + homes as u64 {
        transaction.read_for_update(&mut io, home).unwrap()[0] = home as u8;
    }

    transaction
        .commit(TransactionCoreRef::Journal(&mut core), &mut io, &mut publisher)
        .unwrap();

    assert_eq!(io.device().reads, expected_reads);
    assert_eq!(io.device().writes, expected_writes);
    assert_eq!(io.device().flushes, 4);
    assert_eq!(publisher.0, homes);
    assert!(!core.is_poisoned());
}

#[test]
fn journal_commit_four_homes_has_expected_fixed_io_shape() {
    // Reads: the superblock twice, and each home once. Writes: the superblock twice, the
    // descriptor, the images, the commit block, and each home.
    assert_counted_commit_shape(4, 6, 12);
}

#[test]
fn journal_commit_max_fast_metadata_images_has_expected_fixed_io_shape() {
    assert_counted_commit_shape(TEST_MAX_FAST_METADATA_IMAGES, 18, 36);
}

#[test]
fn journal_commit_records_transaction_reason_and_four_barriers() {
    let mut io = device();
    let mut publisher = Publisher(0);
    let mut core = JournalTransactionCore::new(context()).unwrap();
    let mut transaction = core.start(1).unwrap();
    transaction.stage(42, Box::new([0x33; BLOCK_SIZE])).unwrap();

    transaction
        .commit(TransactionCoreRef::Journal(&mut core), &mut io, &mut publisher)
        .unwrap();

    assert_eq!(
        io.device().journal_commits,
        [(7, 1, JournalCommitReason::Explicit)]
    );
    assert_eq!(
        io.device().journal_flushes,
        [
            (7, JournalFlushPhase::ActiveLog),
            (7, JournalFlushPhase::CommitRecord),
            (7, JournalFlushPhase::Checkpoint),
            (7, JournalFlushPhase::TailUpdate),
        ]
    );
}

#[test]
fn deferred_writeback_batches_share_one_journal_commit() {
    let mut io = device();
    let mut publisher = Publisher(0);
    let mut core = large_core();

    let mut first = core.start(1).unwrap();
    first.stage(42, Box::new([1; BLOCK_SIZE])).unwrap();
    first
        .defer_or_commit(
            TransactionCoreRef::Journal(&mut core),
            &mut io,
            &mut publisher,
            TEST_MAX_FAST_METADATA_IMAGES,
        )
        .unwrap();
    let mut second = core.start(1).unwrap();
    second.stage(43, Box::new([2; BLOCK_SIZE])).unwrap();
    second
        .defer_or_commit(
            TransactionCoreRef::Journal(&mut core),
            &mut io,
            &mut publisher,
            TEST_MAX_FAST_METADATA_IMAGES,
        )
        .unwrap();

    assert!(core.has_pending_transaction());
    assert_eq!(io.device().flushes, 0);

    assert!(core
        .flush_deferred_transaction(
            &mut io,
            &mut publisher,
            JournalCommitReason::DurabilityBoundary,
        )
        .unwrap());
    assert_eq!(io.device().flushes, 4);
    assert_eq!(publisher.0, 2);
    assert!(!core.has_pending_transaction());
}

#[test]
fn deferred_batch_publishes_live_view_before_durability() {
    let mut io = device();
    let mut publisher = PendingPublisher {
        pending: 0,
        committed: 0,
    };
    let mut core = large_core();
    let mut transaction = core.start(1).unwrap();
    transaction.stage(42, Box::new([0xA5; BLOCK_SIZE])).unwrap();

    transaction
        .defer_or_commit(
            TransactionCoreRef::Journal(&mut core),
            &mut io,
            &mut publisher,
            TEST_MAX_FAST_METADATA_IMAGES,
        )
        .unwrap();

    assert_eq!(publisher.pending, 1);
    assert_eq!(publisher.committed, 0);
    assert_eq!(core.deferred_block(42).unwrap()[0], 0xA5);
    assert!(core
        .flush_deferred_transaction(
            &mut io,
            &mut publisher,
            JournalCommitReason::DurabilityBoundary,
        )
        .unwrap());
    assert_eq!(publisher.committed, 1);
}

#[test]
fn extending_deferred_batch_uses_total_credit_limit() {
    let mut io = device();
    let mut publisher = Publisher(0);
    let mut core = large_core();

    let mut first = core.start(2).unwrap();
    first.stage(42, Box::new([1; BLOCK_SIZE])).unwrap();
    first.stage(43, Box::new([2; BLOCK_SIZE])).unwrap();
    first
        .defer_or_commit(
            TransactionCoreRef::Journal(&mut core),
            &mut io,
            &mut publisher,
            TEST_MAX_FAST_METADATA_IMAGES,
        )
        .unwrap();

    let mut extension = core.start(1).unwrap();
    extension.stage(44, Box::new([3; BLOCK_SIZE])).unwrap();
    assert_eq!(
        extension
            .stage(45, Box::new([4; BLOCK_SIZE]))
            .unwrap_err()
            .code(),
        ErrCode::E2BIG
    );
    extension
        .defer_or_commit(
            TransactionCoreRef::Journal(&mut core),
            &mut io,
            &mut publisher,
            TEST_MAX_FAST_METADATA_IMAGES,
        )
        .unwrap();

    assert!(core
        .flush_deferred_transaction(
            &mut io,
            &mut publisher,
            JournalCommitReason::DurabilityBoundary,
        )
        .unwrap());
    assert_eq!(publisher.0, 3);
}

#[test]
fn deferred_metadata_joins_pending_writeback_until_durability_boundary() {
    let mut io = device();
    let mut publisher = Publisher(0);
    let mut core = large_core();

    // The data reaches the device before the extent that refers to it is staged.
    io.write_block(&Block::new(50, Box::new([0xD0; BLOCK_SIZE])))
        .unwrap();
    let mut writeback = core.start(1).unwrap();
    writeback.stage(43, Box::new([0xE1; BLOCK_SIZE])).unwrap();
    writeback
        .defer_or_commit(
            TransactionCoreRef::Journal(&mut core),
            &mut io,
            &mut publisher,
            TEST_MAX_FAST_METADATA_IMAGES,
        )
        .unwrap();

    // The inode joins the same batch.
    let mut metadata = core
        .start_if_deferred(1)
        .unwrap()
        .expect("pending writeback must accept compatible metadata");
    metadata.stage(42, Box::new([0xC2; BLOCK_SIZE])).unwrap();
    metadata
        .defer_or_commit(
            TransactionCoreRef::Journal(&mut core),
            &mut io,
            &mut publisher,
            TEST_MAX_FAST_METADATA_IMAGES,
        )
        .unwrap();

    // Nothing is committed before it has to be.
    assert!(core.has_pending_transaction());
    assert_eq!(io.device().flushes, 0);
    assert!(io.device().journal_commits.is_empty());

    assert!(core
        .flush_deferred_transaction(
            &mut io,
            &mut publisher,
            JournalCommitReason::DurabilityBoundary,
        )
        .unwrap());

    let journal_commits = io.device().journal_commits.clone();
    assert_eq!(journal_commits.len(), 1);
    assert_eq!(journal_commits[0].1, 2);
    assert_eq!(
        journal_commits[0].2,
        JournalCommitReason::DurabilityBoundary
    );
    let transaction_id = journal_commits[0].0;
    assert_eq!(
        io.device().journal_flushes,
        [
            (transaction_id, JournalFlushPhase::ActiveLog),
            (transaction_id, JournalFlushPhase::CommitRecord),
            (transaction_id, JournalFlushPhase::Checkpoint),
            (transaction_id, JournalFlushPhase::TailUpdate),
        ]
    );
    let write_order = io.device().write_order.clone();
    let data_index = write_order
        .iter()
        .position(|block| *block == 50)
        .expect("data write must be recorded");
    let metadata_index = write_order
        .iter()
        .position(|block| *block == 42)
        .expect("metadata checkpoint must be recorded");
    assert!(data_index < metadata_index);
    io.device_mut().crash();
    assert_eq!(
        io.device().stable_block(50).unwrap().as_slice(),
        &[0xD0; BLOCK_SIZE]
    );
    assert_eq!(
        io.device().stable_block(42).unwrap().as_slice(),
        &[0xC2; BLOCK_SIZE]
    );
    assert_eq!(
        io.device().stable_block(43).unwrap().as_slice(),
        &[0xE1; BLOCK_SIZE]
    );
}

#[test]
fn metadata_without_pending_writeback_keeps_direct_path_available() {
    let mut io = device();
    let mut publisher = Publisher(0);
    let mut core = JournalTransactionCore::new(context()).unwrap();

    assert!(core.start_if_deferred(1).unwrap().is_none());

    let mut direct = core.start(1).unwrap();
    direct.stage(42, Box::new([0xD1; BLOCK_SIZE])).unwrap();
    direct
        .commit(TransactionCoreRef::Journal(&mut core), &mut io, &mut publisher)
        .unwrap();

    assert_eq!(
        io.device().journal_commits,
        [(7, 1, JournalCommitReason::Explicit)]
    );
    assert_eq!(io.device().flushes, 4);
}

#[test]
fn empty_deferred_writeback_never_creates_a_metadata_barrier_commit() {
    let mut io = device();
    let mut publisher = Publisher(0);
    let mut core = JournalTransactionCore::new(context()).unwrap();

    // A preparation that changed no home.
    core.start(1)
        .unwrap()
        .defer_or_commit(
            TransactionCoreRef::Journal(&mut core),
            &mut io,
            &mut publisher,
            TEST_MAX_FAST_METADATA_IMAGES,
        )
        .unwrap();

    let committed = core
        .flush_deferred_transaction(
            &mut io,
            &mut publisher,
            JournalCommitReason::DirectMetadataBarrier,
        )
        .unwrap();

    assert!(!committed);
    assert!(!core.has_pending_transaction());
    assert_eq!(io.device().flushes, 0);
    assert!(io.device().journal_commits.is_empty());
    assert!(io.device().journal_flushes.is_empty());
}

#[test]
fn encodes_escape_and_wraps_ring_without_losing_home_image() {
    let mut io = device();
    let mut core = JournalTransactionCore::new(context()).unwrap();
    let mut publisher = Publisher(0);
    let mut transaction = core.start(1).unwrap();
    let mut image = Box::new([0x5a; BLOCK_SIZE]);
    image[..4].copy_from_slice(&MAGIC.to_be_bytes());
    transaction.stage(42, image).unwrap();
    transaction
        .commit(TransactionCoreRef::Journal(&mut core), &mut io, &mut publisher)
        .unwrap();

    // The descriptor stands at 7; the escaped data wraps to 1, and the commit block to 2.
    assert_eq!(&io.device().stable_block(101).unwrap()[..4], &[0, 0, 0, 0]);
    assert_eq!(
        &io.device().stable_block(42).unwrap()[..4],
        &MAGIC.to_be_bytes()
    );
    assert_eq!(publisher.0, 1);
    assert!(!core.is_poisoned());
}

#[test]
fn commit_flush_failure_never_publishes_or_checkpoints() {
    // The superblock, the descriptor and the data share the first flush; the flush behind the
    // commit block is the sixth operation.
    let mut io = device_failing_at(5, usize::MAX);
    let mut core = JournalTransactionCore::new(context()).unwrap();
    let mut publisher = Publisher(0);
    let mut transaction = core.start(1).unwrap();
    transaction.stage(42, Box::new([0x33; BLOCK_SIZE])).unwrap();
    let error = transaction
        .commit(TransactionCoreRef::Journal(&mut core), &mut io, &mut publisher)
        .unwrap_err();
    assert_eq!(error.failure, CommitFailure::CommitUncertain);
    assert!(core.is_poisoned());
    assert_eq!(publisher.0, 0);
    io.device_mut().crash();
    assert!(io.device().stable_block(42).is_none());
}

#[test]
fn staging_is_deduplicated_and_reads_its_latest_write() {
    let mut io = device();
    let mut core = JournalTransactionCore::new(context()).unwrap();
    let mut transaction = core.start(1).unwrap();
    transaction.stage(42, Box::new([1; BLOCK_SIZE])).unwrap();
    transaction.stage(42, Box::new([2; BLOCK_SIZE])).unwrap();
    assert_eq!(transaction.read(&mut io, 42).unwrap().bytes()[0], 2);
    transaction.abort(TransactionCoreRef::Journal(&mut core));
    assert!(core.start(1).is_ok());
}

#[test]
fn refused_start_leaves_the_writer_token() {
    let mut io = device();
    let mut publisher = Publisher(0);
    let mut core = large_core();
    let mut first = core.start(1).unwrap();
    first.stage(42, Box::new([1; BLOCK_SIZE])).unwrap();
    first
        .defer_or_commit(
            TransactionCoreRef::Journal(&mut core),
            &mut io,
            &mut publisher,
            TEST_MAX_FAST_METADATA_IMAGES,
        )
        .unwrap();
    assert_eq!(core.start(usize::MAX).err().unwrap().code(), ErrCode::E2BIG);
    assert!(core.has_pending_transaction());
    let second = core.start(1).unwrap();
    assert_eq!(core.start(1).err().unwrap().code(), ErrCode::EAGAIN);
    second.abort(TransactionCoreRef::Journal(&mut core));
    assert!(core.has_pending_transaction());
}
