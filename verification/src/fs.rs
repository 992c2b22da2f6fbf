//! The mounted file system: its state, and the calls from which file operations are made.

use vstd::prelude::*;
use crate::bytes::{put_bytes, splice};
use crate::commit::{
    committed_by_journal, committed_directly, deferred_by_journal, deferred_flushed, heard,
    flush_told, heard_of_batch, heard_of_commit, heard_of_flush, heard_of_writes, published, refused,
};
use crate::commit_plan::CommitFailure;
use crate::context::JournalContext;
use crate::device::{
    extends, made_on, plain_all, since, traced, Block, BlockDevice, Event, Io, JournalCommitReason,
};
use crate::direct_range::range_committed;
use crate::error::{failed, ErrCode, Ext4Error, Result};
use crate::gate::MetadataMutationGate;
use crate::inode::{FileType, Inode, InodeMode, InodeOwner, InodeRef, SB_GOOD_INODE_SIZE};
use crate::journal_transaction::{
    restored, CommitError, DirectTransactionCore, JournalTransactionCore, Transaction,
    TransactionCoreRef,
};
use crate::prepared_extent::{PreparedExtentCache, PreparedExtentProbe};
use crate::range::WriteLogicalRange;
use crate::staged::{block_of, distinct_homes, holds_home, StagedBlock};
use crate::stats::PrepareStats;
use crate::superblock::{
    sealed_desc, sealed_inode, sealed_superblock, BlockGroupDesc, BlockGroupId, BlockGroupRef,
    SuperBlock, BASE_OFFSET, SB_GOOD_DESC_SIZE, SUPER_BLOCK_BYTES,
};
use crate::volume::{
    AppendShape, BlockImage, DirAddFailure, DirEntry, DirEntryLocation, ExtentSearchStep,
    ExtentTail, LayerCall, RangeAllocation, RemovedTail, Storage, Volume,
};
use crate::{InodeId, LBlockId, PBlockId, BLOCK_SIZE};

verus! {

broadcast use {Io::lemma_stays, Io::lemma_goes_on};

/// The inode of the root directory.
pub const EXT4_ROOT_INO: InodeId = 2;

/// Descriptors of block groups in one block.
pub const DESCS_PER_BLOCK: usize = 64;

/// How metadata reaches the device.
pub enum MetadataMutationMode {
    /// Metadata cannot be changed.
    ReadOnly,
    /// Home blocks are written in order.
    Direct(DirectTransactionCore),
    /// Changes are logged first.
    Journal(JournalTransactionCore),
}

/// The state of a mounted file system, beside its device and its layers.
pub ghost struct FsState {
    /// The cached superblock.
    pub superblock: Seq<u8>,
    /// The cached block group descriptors.
    pub groups: Seq<Seq<u8>>,
    /// The blocks that hold metadata of the file system: first block, and the one behind the last.
    pub reserved: Seq<(u64, u64)>,
    /// Who may change metadata.
    pub gate: MetadataMutationGate,
    /// Whether an earlier failure left the device in an unknown state.
    pub poisoned: bool,
    pub mode: MetadataMutationMode,
    /// The ranges that are known to be mapped.
    pub prepared: PreparedExtentCache,
}

impl FsState {
    /// The state is consistent.
    pub open spec fn inv(&self) -> bool {
        &&& self.superblock.len() == SUPER_BLOCK_BYTES
        &&& self.groups.len() <= u32::MAX
        &&& forall|i: int|
            0 <= i < self.groups.len() ==> (#[trigger] self.groups[i]).len() == SB_GOOD_DESC_SIZE
        &&& self.gate.inv()
        &&& self.prepared.inv()
        &&& self.mode matches MetadataMutationMode::Journal(journal) ==> journal.inv()
    }

    /// The images that wait for a commit.
    pub open spec fn batch(&self) -> Seq<StagedBlock> {
        match self.mode {
            MetadataMutationMode::Journal(journal) => journal.batch(),
            _ => Seq::empty(),
        }
    }

    /// Whether metadata can be changed.
    pub open spec fn mutable(&self) -> bool {
        !self.poisoned && !(self.mode is ReadOnly)
    }

    /// The block and the offset of an inode.
    pub open spec fn inode_position(&self, id: InodeId) -> Option<(PBlockId, int)> {
        let per_group = crate::bytes::le32_at(self.superblock, 40) as int;
        if id == 0 || per_group == 0 {
            None
        } else {
            let group = (id - 1) / per_group;
            let at = (id - 1) % per_group * SB_GOOD_INODE_SIZE;
            if group >= self.groups.len() {
                None
            } else {
                let home = crate::inode::halves64(self.groups[group], 8, 40) + at
                    / BLOCK_SIZE as int;
                if home > u64::MAX {
                    None
                } else {
                    Some((home as u64, at % BLOCK_SIZE as int))
                }
            }
        }
    }

    /// The block and the offset of a block group descriptor.
    pub open spec fn group_position(&self, id: int) -> (PBlockId, int) {
        (
            (crate::bytes::le32_at(self.superblock, 20) + 1 + id / DESCS_PER_BLOCK as int) as u64,
            id % DESCS_PER_BLOCK as int * SB_GOOD_DESC_SIZE,
        )
    }

    /// The cached superblock after `blocks` were published.
    pub open spec fn refreshed_superblock(&self, blocks: Seq<StagedBlock>) -> Seq<u8> {
        if holds_home(blocks, 0) {
            block_of(blocks, 0).image@.subrange(
                BASE_OFFSET as int,
                BASE_OFFSET + SUPER_BLOCK_BYTES,
            )
        } else {
            self.superblock
        }
    }

    /// The cached descriptors after `blocks` were published.
    pub open spec fn refreshed_groups(&self, blocks: Seq<StagedBlock>) -> Seq<Seq<u8>> {
        Seq::new(
            self.groups.len(),
            |i: int|
                {
                    let (home, at) = self.group_position(i);
                    if holds_home(blocks, home) {
                        block_of(blocks, home).image@.subrange(at, at + SB_GOOD_DESC_SIZE)
                    } else {
                        self.groups[i]
                    }
                },
        )
    }

    /// The state after `blocks` were published.
    pub open spec fn refreshed(&self, blocks: Seq<StagedBlock>) -> FsState {
        FsState {
            superblock: self.refreshed_superblock(blocks),
            groups: self.refreshed_groups(blocks),
            ..*self
        }
    }
}

/// A mounted file system.
pub struct Ext4<D: BlockDevice, V: Volume<D>> {
    io: Io<D>,
    volume: V,
    superblock: SuperBlock,
    groups: Vec<BlockGroupDesc>,
    reserved: Vec<(u64, u64)>,
    gate: MetadataMutationGate,
    poisoned: bool,
    mode: MetadataMutationMode,
    prepared: PreparedExtentCache,
    stats: PrepareStats,
}

/// Whether a call of the layers releases an inode with its blocks, or takes a number for a new
/// inode, which has none.
pub open spec fn takes_blocks(call: LayerCall) -> bool {
    match call {
        LayerCall::CreateInode { .. } => true,
        LayerCall::CreateSymlink { .. } => true,
        LayerCall::CreateDevice { .. } => true,
        LayerCall::FreeInode { .. } => true,
        _ => false,
    }
}

/// The bytes of each descriptor.
pub open spec fn descriptors(groups: Seq<BlockGroupDesc>) -> Seq<Seq<u8>> {
    Seq::new(groups.len(), |i: int| groups[i]@)
}

impl<D: BlockDevice, V: Volume<D>> Ext4<D, V> {
    /// The calls made so far.
    pub closed spec fn log(&self) -> Seq<Event> {
        self.io.log()
    }

    /// The state.
    pub closed spec fn state(&self) -> FsState {
        FsState {
            superblock: self.superblock@,
            groups: descriptors(self.groups@),
            reserved: self.reserved@,
            gate: self.gate,
            poisoned: self.poisoned,
            mode: self.mode,
            prepared: self.prepared,
        }
    }

    /// The state is consistent.
    pub open spec fn inv(&self) -> bool {
        self.state().inv()
    }

    /// The device.
    pub closed spec fn held(&self) -> D {
        self.io.held()
    }

    /// The layers.
    pub closed spec fn layers(&self) -> V {
        self.volume
    }

    /// What was counted while ranges were prepared.
    pub closed spec fn counts(&self) -> PrepareStats {
        self.stats
    }

    /// The file system with other counters.
    pub closed spec fn with_counts(self, stats: PrepareStats) -> Self {
        Ext4 { stats, ..self }
    }

    /// Counting changes the counters alone.
    pub broadcast proof fn lemma_with_counts(self, stats: PrepareStats)
        ensures
            #![trigger self.with_counts(stats)]
            self.with_counts(stats).counts() == stats,
            self.with_counts(stats).state() == self.state(),
            self.with_counts(stats).log() == self.log(),
            self.with_counts(stats).held() == self.held(),
            self.with_counts(stats).layers() == self.layers(),
    {
    }

    /// Nothing was called or counted, and the device and the layers are as they were.
    pub open spec fn quiet(&self, after: &Self) -> bool {
        &&& after.log() == self.log()
        &&& after.counts() == self.counts()
        &&& after.held() == self.held()
        &&& after.layers() == self.layers()
    }

    /// Nothing happened.
    pub open spec fn idle(&self, after: &Self) -> bool {
        self.quiet(after) && after.state() == self.state()
    }

    /// One call was made on the device, and on nothing else.
    pub open spec fn called(&self, after: &Self, event: Event) -> bool {
        &&& after.log() == self.log().push(event)
        &&& after.counts() == self.counts()
        &&& made_on(self.held(), event, after.held())
        &&& after.layers() == self.layers()
    }

    /// One call was made on the device, and nothing else happened.
    pub open spec fn did(&self, after: &Self, event: Event) -> bool {
        self.called(after, event) && after.state() == self.state()
    }

    /// One call of the layers was made, and nothing else happened. The layers have the device
    /// meanwhile. A call that takes blocks from an inode starts a new epoch of what is known to be
    /// mapped.
    pub open spec fn asked(&self, after: &Self, call: LayerCall) -> bool {
        &&& after.log() == self.log().push(Event::Layer { call })
        &&& after.counts() == self.counts()
        &&& self.layers().answers(&after.layers(), call)
        &&& if takes_blocks(call) {
            &&& after.state() == (FsState { prepared: after.state().prepared, ..self.state() })
            &&& self.state().prepared.renewed(&after.state().prepared)
        } else {
            after.state() == self.state()
        }
    }

    /// The record of calls went on without a call of the layers, and what it holds is all that was
    /// done to the device; what the layers were told is said elsewhere.
    pub closed spec fn followed(&self, after: &Self) -> bool {
        self.io.grew_to(&after.io) && after.stats == self.stats
    }

    /// Whatever was done to the device between two states is in the record.
    pub proof fn lemma_followed_is_recorded(&self, after: &Self)
        requires
            self.followed(after),
        ensures
            extends(self.log(), after.log()),
            after.counts() == self.counts(),
            traced(self.held(), since(self.log(), after.log()), after.held()),
            plain_all(since(self.log(), after.log())),
    {
        reveal(Io::grew_to);
    }

    /// A file system of the given parts, whose metadata cannot be changed yet.
    pub fn new(
        device: D,
        volume: V,
        superblock: SuperBlock,
        groups: Vec<BlockGroupDesc>,
        reserved: Vec<(u64, u64)>,
    ) -> (fs: Self)
        requires
            groups@.len() <= u32::MAX,
        ensures
            fs.inv(),
            fs.log() == Seq::<Event>::empty(),
            fs.held() == device,
            fs.layers() == volume,
            fs.state().superblock == superblock@,
            fs.state().groups == descriptors(groups@),
            fs.state().reserved == reserved@,
            fs.state().gate.idle(),
            !fs.state().poisoned,
            fs.state().mode is ReadOnly,
            fs.state().prepared.fresh(),
            fs.counts().fresh(),
    {
        Ext4 {
            io: Io::new(device),
            volume,
            superblock,
            groups,
            reserved,
            gate: MetadataMutationGate::new(),
            poisoned: false,
            mode: MetadataMutationMode::ReadOnly,
            prepared: PreparedExtentCache::new(),
            stats: PrepareStats::new(),
        }
    }

    /// Lets metadata be changed without a journal.
    pub fn initialize_direct(&mut self) -> (outcome: Result<()>)
        requires
            old(self).inv(),
        ensures
            final(self).inv(),
            old(self).quiet(final(self)),
            ({
                let blocks = crate::inode::halves64(old(self).state().superblock, 4, 336);
                if blocks == 0 {
                    &&& outcome == failed::<()>(ErrCode::EINVAL)
                    &&& final(self).state() == old(self).state()
                } else {
                    &&& outcome == Ok::<(), Ext4Error>(())
                    &&& final(self).state().mode matches MetadataMutationMode::Direct(core)
                    &&& core.target() == blocks
                    &&& !core.writing()
                    &&& !core.poisoned()
                    &&& final(self).state() == (FsState {
                        mode: final(self).state().mode,
                        ..old(self).state()
                    })
                }
            }),
    {
        match DirectTransactionCore::new(self.superblock.block_count()) {
            Ok(core) => {
                self.mode = MetadataMutationMode::Direct(core);
                Ok(())
            },
            Err(error) => Err(error),
        }
    }

    /// Lets metadata be changed through a journal.
    pub fn initialize_journal(&mut self, context: JournalContext) -> (outcome: Result<()>)
        requires
            old(self).inv(),
            context.batch_ordered(),
        ensures
            final(self).inv(),
            old(self).quiet(final(self)),
            match outcome {
                Ok(_) => {
                    &&& context.inv()
                    &&& final(self).state().mode matches MetadataMutationMode::Journal(core)
                    &&& core.context() == context
                    &&& !core.writing()
                    &&& !core.poisoned()
                    &&& final(self).state() == (FsState {
                        mode: final(self).state().mode,
                        ..old(self).state()
                    })
                },
                Err(error) => {
                    &&& final(self).state() == old(self).state()
                    &&& if !context.supported() {
                        error.code == ErrCode::ENOTSUP
                    } else {
                        !context.mapped() && error.code == ErrCode::EIO
                    }
                },
            },
    {
        match JournalTransactionCore::new(context) {
            Ok(core) => {
                self.mode = MetadataMutationMode::Journal(core);
                Ok(())
            },
            Err(error) => Err(error),
        }
    }

    /// The device.
    pub fn device(&self) -> (device: &D)
        ensures
            *device == self.held(),
    {
        self.io.device()
    }

    /// The layers.
    pub fn volume(&self) -> (volume: &V)
        ensures
            *volume == self.layers(),
    {
        &self.volume
    }

    /// What was counted while ranges were prepared.
    pub fn prepare_stats(&self) -> (stats: PrepareStats)
        ensures
            stats == self.counts(),
    {
        self.stats
    }

    /// Counts one range that is prepared.
    pub(crate) fn record_call(&mut self, blocks: u64)
        ensures
            *final(self) == old(self).with_counts(old(self).counts().with_call(blocks)),
    {
        self.stats.record_call(blocks);
    }

    /// Counts a mapped block.
    pub(crate) fn record_mapped(&mut self)
        ensures
            *final(self) == old(self).with_counts(old(self).counts().with_mapped()),
    {
        self.stats.record_mapped();
    }

    /// Counts a block that is not mapped.
    pub(crate) fn record_missing(&mut self)
        ensures
            *final(self) == old(self).with_counts(old(self).counts().with_missing(1)),
    {
        self.stats.record_missing_blocks(1);
    }

    /// Counts one range, none of which is mapped.
    pub(crate) fn record_missing_range(&mut self, blocks: u64)
        ensures
            *final(self) == old(self).with_counts(
                old(self).counts().with_call(blocks).with_missing(blocks),
            ),
    {
        self.stats.record_call(blocks);
        self.stats.record_missing_blocks(blocks);
    }

    /// Counts a failure to prepare a range.
    pub(crate) fn record_failure(&mut self)
        ensures
            *final(self) == old(self).with_counts(old(self).counts().with_failure()),
    {
        self.stats.record_failure();
    }

    /// Counts an inode that is staged.
    pub(crate) fn record_inode_io(&mut self)
        ensures
            *final(self) == old(self).with_counts(old(self).counts().with_inode_io()),
    {
        self.stats.record_inode_io();
    }

    /// Counts a commit of an allocation and its inode, or its failure.
    pub(crate) fn record_ending(&mut self, committed: bool)
        ensures
            *final(self) == old(self).with_counts(old(self).counts().with_ending(committed)),
    {
        if committed {
            self.stats.record_commit();
        } else {
            self.stats.record_failure();
        }
    }

    /// Counts a walk through an extent tree.
    pub(crate) fn record_block_count_full_traversal(&mut self)
        ensures
            *final(self) == old(self).with_counts(old(self).counts().with_traversal()),
    {
        self.stats.record_block_count_full_traversal();
    }

    /// Counts a search for a block.
    pub(crate) fn record_extent_query_attempt(&mut self)
        ensures
            *final(self) == old(self).with_counts(old(self).counts().with_query()),
    {
        self.stats.record_extent_query_attempt();
    }

    /// The barrier between direct and transactional writers.
    pub fn metadata_mutation_barrier(&mut self) -> (gate: &mut MetadataMutationGate)
        ensures
            *gate == old(self).state().gate,
            old(self).quiet(final(self)),
            final(self).state() == (FsState { gate: *final(gate), ..old(self).state() }),
    {
        &mut self.gate
    }

    /// The cached superblock.
    pub fn read_super_block_cached(&self) -> (sb: SuperBlock)
        ensures
            sb@ == self.state().superblock,
    {
        self.superblock
    }

    /// Fails once metadata cannot be changed.
    pub fn ensure_mutable(&self) -> (outcome: Result<()>)
        ensures
            outcome == if self.state().mutable() {
                Ok::<(), Ext4Error>(())
            } else {
                failed(ErrCode::EROFS)
            },
    {
        if self.poisoned {
            return Err(Ext4Error::new(ErrCode::EROFS));
        }
        match self.mode {
            MetadataMutationMode::ReadOnly => Err(Ext4Error::new(ErrCode::EROFS)),
            _ => Ok(()),
        }
    }

    /// Whether an earlier failure left the device in an unknown state.
    pub fn is_poisoned(&self) -> (poisoned: bool)
        ensures
            poisoned == self.state().poisoned,
    {
        self.poisoned
    }

    /// Stops every later change of metadata.
    pub(crate) fn poison(&mut self)
        ensures
            old(self).quiet(final(self)),
            final(self).state() == (FsState { poisoned: true, ..old(self).state() }),
    {
        self.poisoned = true;
    }

    /// Whether metadata changes are logged.
    pub fn uses_journal(&self) -> (uses: bool)
        ensures
            uses == (self.state().mode is Journal),
    {
        match self.mode {
            MetadataMutationMode::Journal(_) => true,
            _ => false,
        }
    }

    /// What asking for range allocation without a journal calls and returns.
    pub open spec fn asked_for_ranges(&self, after: &Self, supported: bool) -> bool {
        if self.state().mode is Direct {
            self.did(after, Event::ReliableFlush { reply: supported })
        } else {
            self.idle(after) && !supported
        }
    }

    /// Whether ranges can be allocated without a journal.
    pub(crate) fn supports_direct_range_stage(&mut self) -> (supported: bool)
        ensures
            old(self).asked_for_ranges(final(self), supported),
    {
        match self.mode {
            MetadataMutationMode::Direct(_) => self.io.supports_reliable_flush(),
            _ => false,
        }
    }

    /// Whether the journal owns a block of a range.
    pub open spec fn journal_owns(&self, start: PBlockId, end: PBlockId) -> bool {
        self.state().mode matches MetadataMutationMode::Journal(journal) && exists|block: PBlockId|
            start <= block < end && journal.context().journal_blocks@.contains(block)
    }

    /// Whether the journal owns a block of a range.
    pub(crate) fn journal_owns_block_range(&self, start: PBlockId, end: PBlockId) -> (owned: bool)
        ensures
            owned == self.journal_owns(start, end),
    {
        match &self.mode {
            MetadataMutationMode::Journal(journal) => journal.owns_block_range(start, end),
            _ => false,
        }
    }

    /// What reading a block calls and returns: an image that waits for a commit comes first.
    pub open spec fn block_read(&self, after: &Self, id: PBlockId, reply: Result<Block>) -> bool {
        if holds_home(self.state().batch(), id) {
            &&& self.idle(after)
            &&& reply matches Ok(block)
            &&& block.id == id
            &&& block.data@ == block_of(self.state().batch(), id).image@
        } else {
            self.did(after, Event::ReadBlock { id, reply })
        }
    }

    /// Reads one block.
    pub fn read_block(&mut self, id: PBlockId) -> (reply: Result<Block>)
        requires
            old(self).inv(),
        ensures
            old(self).block_read(final(self), id, reply),
    {
        match &self.mode {
            MetadataMutationMode::Journal(journal) => match journal.deferred_block(id) {
                Some(data) => {
                    return Ok(Block::new(id, data));
                },
                None => {},
            },
            _ => {},
        }
        self.io.read_block(id)
    }

    /// Writes one block.
    pub(crate) fn write_block(&mut self, block: &Block) -> (reply: Result<()>)
        ensures
            old(self).did(
                final(self),
                Event::WriteBlock { id: block.id, data: block.data@, reply },
            ),
    {
        self.io.write_block(block)
    }

    /// Writes consecutive blocks.
    pub(crate) fn write_blocks(&mut self, start: PBlockId, data: &[u8]) -> (reply: Result<()>)
        ensures
            old(self).did(final(self), Event::WriteBlocks { start, data: data@, reply }),
    {
        self.io.write_blocks(start, data)
    }

    /// What reading consecutive blocks calls and returns.
    pub open spec fn blocks_read(
        &self,
        after: &Self,
        start: PBlockId,
        before: Seq<u8>,
        buf: Seq<u8>,
        reply: Result<()>,
    ) -> bool {
        &&& buf.len() == before.len()
        &&& self.did(
            after,
            Event::ReadBlocks {
                start,
                len: before.len(),
                reply: match reply {
                    Ok(_) => Ok(buf),
                    Err(error) => Err(error),
                },
            },
        )
    }

    /// Reads consecutive blocks.
    pub(crate) fn read_blocks(&mut self, start: PBlockId, buf: &mut [u8]) -> (reply: Result<()>)
        ensures
            old(self).blocks_read(final(self), start, old(buf)@, final(buf)@, reply),
    {
        self.io.read_blocks(start, buf)
    }

    /// Asks whether the diagnostic hooks are to be called.
    pub(crate) fn diagnostic_enabled(&mut self) -> (reply: bool)
        ensures
            old(self).did(final(self), Event::Diagnostics { reply }),
    {
        self.io.diagnostic_enabled()
    }

    /// What reading the cycle counter calls and returns; it stays at zero without diagnostics.
    pub open spec fn timed(&self, after: &Self, diagnostic: bool, cycles: usize) -> bool {
        if diagnostic {
            self.did(after, Event::Cycles { reply: cycles })
        } else {
            self.idle(after) && cycles == 0
        }
    }

    /// Reads the cycle counter where diagnostics are on.
    pub(crate) fn cycles_if(&mut self, diagnostic: bool) -> (cycles: usize)
        ensures
            old(self).timed(final(self), diagnostic, cycles),
    {
        if diagnostic {
            self.io.diagnostic_cycles()
        } else {
            0
        }
    }

    /// Reports the data bytes that a prepared write stored.
    pub(crate) fn record_writeback_data_write(&mut self, bytes: usize, cycles: usize)
        ensures
            old(self).did(final(self), Event::RecordDataWrite { bytes, cycles }),
    {
        self.io.record_writeback_data_write(bytes, cycles)
    }

    /// Reports the blocks that a prepared write covered.
    pub(crate) fn record_writeback_alloc_extent(&mut self, blocks: usize, cycles: usize)
        ensures
            old(self).did(final(self), Event::RecordAllocExtent { blocks, cycles }),
    {
        self.io.record_writeback_alloc_extent(blocks, cycles)
    }
}

/// Whether a failed commit may have changed the device.
pub open spec fn uncertain(outcome: core::result::Result<(), CommitError>) -> bool {
    outcome matches Err(stop) && stop.failure != CommitFailure::BeforeCommit
}

/// Whether a commit published its images.
fn was_published(outcome: &core::result::Result<(), CommitError>) -> (told: bool)
    ensures
        told == published(*outcome),
{
    match outcome {
        Ok(_) => true,
        Err(stop) => stop.failure == CommitFailure::TailUpdateFailed,
    }
}

/// The outcome of a commit without how far it had come.
pub open spec fn brief(outcome: core::result::Result<(), CommitError>) -> Result<()> {
    match outcome {
        Ok(_) => Ok(()),
        Err(stop) => Err(stop.error),
    }
}

impl<D: BlockDevice, V: Volume<D>> Ext4<D, V> {
    /// A direct writer left the barrier.
    pub open spec fn direct_left(&self, after: &Self) -> bool {
        &&& after.log() == self.log().push(Event::Layer { call: LayerCall::Released })
        &&& after.counts() == self.counts()
        &&& after.held() == self.held()
        &&& self.layers().answers(&after.layers(), LayerCall::Released)
        &&& after.state() == (FsState {
            gate: MetadataMutationGate {
                direct: (self.state().gate.direct - 1) as u32,
                exclusive: self.state().gate.exclusive,
            },
            ..self.state()
        })
    }

    /// Lets a direct writer out of the barrier.
    pub fn unlock_direct_metadata_mutation(&mut self)
        requires
            old(self).inv(),
            old(self).state().gate.direct > 0,
        ensures
            final(self).inv(),
            old(self).direct_left(final(self)),
    {
        self.gate.leave_direct();
        self.volume.metadata_mutation_released();
        self.io.note(Ghost(LayerCall::Released));
    }

    /// The exclusive writer left the barrier.
    pub open spec fn exclusive_left(&self, after: &Self) -> bool {
        &&& after.log() == self.log().push(Event::Layer { call: LayerCall::Released })
        &&& after.counts() == self.counts()
        &&& after.held() == self.held()
        &&& self.layers().answers(&after.layers(), LayerCall::Released)
        &&& after.state() == (FsState {
            gate: MetadataMutationGate { direct: 0, exclusive: false },
            ..self.state()
        })
    }

    /// Lets the exclusive writer out of the barrier.
    pub fn unlock_transactional_metadata_mutation(&mut self)
        requires
            old(self).inv(),
            old(self).state().gate.exclusive,
        ensures
            final(self).inv(),
            old(self).exclusive_left(final(self)),
    {
        self.gate.leave_exclusive();
        self.volume.metadata_mutation_released();
        self.io.note(Ghost(LayerCall::Released));
    }

    /// What letting an exclusive writer into the barrier does.
    pub open spec fn exclusive_entered(&self, after: &Self, outcome: Result<()>) -> bool {
        if !self.state().gate.idle() {
            &&& self.idle(after)
            &&& outcome == failed::<()>(ErrCode::EAGAIN)
        } else {
            &&& outcome == Ok::<(), Ext4Error>(())
            &&& self.quiet(after)
            &&& after.state() == (FsState {
                gate: MetadataMutationGate { direct: 0, exclusive: true },
                ..self.state()
            })
        }
    }

    /// Lets an exclusive writer into the barrier.
    pub fn lock_transactional_metadata_mutation(&mut self) -> (outcome: Result<()>)
        requires
            old(self).inv(),
        ensures
            final(self).inv(),
            old(self).exclusive_entered(final(self), outcome),
    {
        self.gate.enter_exclusive()
    }

    /// What committing the images that wait does.
    pub open spec fn flushed(
        &self,
        after: &Self,
        reason: JournalCommitReason,
        outcome: Result<()>,
    ) -> bool {
        match self.state().mode {
            MetadataMutationMode::Journal(journal) => {
                &&& self.followed(after)
                &&& after.state().mode matches MetadataMutationMode::Journal(journal_after)
                &&& exists|reply: core::result::Result<bool, CommitError>|
                    {
                        &&& #[trigger] deferred_flushed(
                            journal,
                            journal_after,
                            reason,
                            self.log(),
                            after.log(),
                            reply,
                        )
                        &&& heard_of_flush(journal, self.layers(), after.layers(), reply)
                        &&& outcome == brief(crate::commit::bare(reply))
                        &&& after.state() == (FsState {
                            mode: after.state().mode,
                            poisoned: self.state().poisoned || uncertain(
                                crate::commit::bare(reply),
                            ),
                            prepared: after.state().prepared,
                            ..self.state()
                        })
                        &&& if flush_told(journal, reply) {
                            self.state().prepared.renewed(&after.state().prepared)
                        } else {
                            after.state().prepared == self.state().prepared
                        }
                    }
            },
            _ => self.idle(after) && outcome == Ok::<(), Ext4Error>(()),
        }
    }

    /// Commits the images that wait.
    pub fn flush_deferred_journal(&mut self, reason: JournalCommitReason) -> (outcome: Result<()>)
        requires
            old(self).inv(),
        ensures
            final(self).inv(),
            old(self).flushed(final(self), reason, outcome),
            final(self).state().gate == old(self).state().gate,
            final(self).state().mode is Journal == old(self).state().mode is Journal,
    {
        let ghost before = *self;
        let reply = match &mut self.mode {
            MetadataMutationMode::Journal(journal) => journal.flush_deferred_transaction(
                &mut self.io,
                &mut self.volume,
                reason,
            ),
            _ => {
                return Ok(());
            },
        };
        let outcome: Result<()> = match reply {
            Ok(any) => {
                if any {
                    self.prepared.invalidate();
                }
                Ok(())
            },
            Err(stop) => {
                if stop.failure != CommitFailure::BeforeCommit {
                    self.poisoned = true;
                }
                if stop.failure == CommitFailure::TailUpdateFailed {
                    self.prepared.invalidate();
                }
                Err(stop.error)
            },
        };
        assert(deferred_flushed(
            before.state().mode->Journal_0,
            self.state().mode->Journal_0,
            reason,
            before.log(),
            self.log(),
            reply,
        ));
        outcome
    }

    /// A direct writer came into the barrier.
    pub open spec fn direct_inside(&self, inside: &Self) -> bool {
        &&& self.quiet(inside)
        &&& inside.state() == (FsState {
            gate: MetadataMutationGate {
                direct: (self.state().gate.direct + 1) as u32,
                exclusive: false,
            },
            ..self.state()
        })
    }

    /// What letting a direct writer into the barrier does: images that wait are committed first.
    pub open spec fn direct_entered(&self, after: &Self, outcome: Result<()>) -> bool {
        if self.state().gate.exclusive || self.state().gate.direct
            == crate::gate::METADATA_GATE_DIRECT_MAX {
            &&& self.idle(after)
            &&& outcome == failed::<()>(ErrCode::EAGAIN)
        } else {
            exists|inside: Self, flushed: Self|
                {
                    &&& self.direct_inside(&inside)
                    &&& #[trigger] inside.flushed(
                        &flushed,
                        JournalCommitReason::DirectMetadataBarrier,
                        outcome,
                    )
                    &&& match outcome {
                        Ok(_) => flushed.idle(after),
                        Err(_) => flushed.direct_left(after),
                    }
                }
        }
    }

    /// Lets a direct writer into the barrier, and commits the images that wait.
    pub fn lock_direct_metadata_mutation(&mut self) -> (outcome: Result<()>)
        requires
            old(self).inv(),
        ensures
            final(self).inv(),
            old(self).direct_entered(final(self), outcome),
            outcome is Ok ==> final(self).state().gate == (MetadataMutationGate {
                direct: (old(self).state().gate.direct + 1) as u32,
                exclusive: false,
            }),
            outcome is Err ==> final(self).state().gate == old(self).state().gate,
    {
        match self.gate.enter_direct() {
            Ok(_) => {},
            Err(error) => {
                return Err(error);
            },
        }
        let ghost inside = *self;
        assert(old(self).direct_inside(&inside));
        let outcome = self.flush_deferred_journal(JournalCommitReason::DirectMetadataBarrier);
        let ghost flushed = *self;
        assert(inside.flushed(
            &flushed,
            JournalCommitReason::DirectMetadataBarrier,
            outcome,
        ));
        match outcome {
            Ok(_) => Ok(()),
            Err(error) => {
                self.unlock_direct_metadata_mutation();
                Err(error)
            },
        }
    }

    /// What starting a transaction does.
    pub open spec fn begun(
        &self,
        after: &Self,
        credits: usize,
        outcome: Result<Transaction>,
    ) -> bool {
        &&& self.quiet(after)
        &&& outcome is Ok ==> after.inv()
        &&& after.state() == (FsState { mode: after.state().mode, ..self.state() })
        &&& match self.state().mode {
            MetadataMutationMode::Journal(journal) => {
                &&& after.state().mode matches MetadataMutationMode::Journal(journal_after)
                &&& journal.started(&journal_after, credits, outcome)
            },
            MetadataMutationMode::Direct(direct) => {
                &&& after.state().mode matches MetadataMutationMode::Direct(direct_after)
                &&& direct.started(&direct_after, credits, false, outcome)
            },
            MetadataMutationMode::ReadOnly => {
                &&& after.state().mode is ReadOnly
                &&& outcome == failed::<Transaction>(ErrCode::EROFS)
            },
        }
    }

    /// Starts a transaction of up to `credits` blocks.
    pub(crate) fn transaction_start(&mut self, credits: usize) -> (outcome: Result<Transaction>)
        requires
            old(self).inv(),
        ensures
            final(self).inv(),
            old(self).begun(final(self), credits, outcome),
            outcome matches Ok(transaction) ==> transaction.inv(),
    {
        match &mut self.mode {
            MetadataMutationMode::Journal(journal) => journal.start(credits),
            MetadataMutationMode::Direct(direct) => direct.start(credits),
            MetadataMutationMode::ReadOnly => Err(Ext4Error::new(ErrCode::EROFS)),
        }
    }

    /// What starting a reversible transaction does.
    pub open spec fn begun_range(
        &self,
        after: &Self,
        credits: usize,
        outcome: Result<Transaction>,
    ) -> bool {
        &&& self.quiet(after)
        &&& after.state() == (FsState { mode: after.state().mode, ..self.state() })
        &&& match self.state().mode {
            MetadataMutationMode::Journal(_) => {
                &&& after.state().mode == self.state().mode
                &&& outcome == failed::<Transaction>(ErrCode::ENOTSUP)
            },
            MetadataMutationMode::Direct(direct) => {
                &&& after.state().mode matches MetadataMutationMode::Direct(direct_after)
                &&& direct.started(&direct_after, credits, true, outcome)
            },
            MetadataMutationMode::ReadOnly => {
                &&& after.state().mode is ReadOnly
                &&& outcome == failed::<Transaction>(ErrCode::EROFS)
            },
        }
    }

    /// Starts a transaction that can be rolled back after its first writes.
    pub(crate) fn transaction_start_direct_range(&mut self, credits: usize) -> (outcome: Result<
        Transaction,
    >)
        requires
            old(self).inv(),
        ensures
            final(self).inv(),
            old(self).begun_range(final(self), credits, outcome),
            outcome matches Ok(transaction) ==> transaction.inv(),
    {
        match &mut self.mode {
            MetadataMutationMode::Journal(_) => Err(Ext4Error::new(ErrCode::ENOTSUP)),
            MetadataMutationMode::Direct(direct) => direct.start_direct_range(credits),
            MetadataMutationMode::ReadOnly => Err(Ext4Error::new(ErrCode::EROFS)),
        }
    }

    /// What starting a transaction on top of images that wait does.
    pub open spec fn begun_if_deferred(
        &self,
        after: &Self,
        credits: usize,
        outcome: Result<Option<Transaction>>,
    ) -> bool {
        &&& self.quiet(after)
        &&& after.state() == (FsState { mode: after.state().mode, ..self.state() })
        &&& match self.state().mode {
            MetadataMutationMode::Journal(journal) => {
                &&& after.state().mode matches MetadataMutationMode::Journal(journal_after)
                &&& journal.extended(&journal_after, credits, outcome)
            },
            _ => {
                &&& after.state().mode == self.state().mode
                &&& outcome == Ok::<Option<Transaction>, Ext4Error>(None)
            },
        }
    }

    /// Starts a transaction only when it can extend images that wait for a commit.
    pub(crate) fn transaction_start_if_deferred(&mut self, credits: usize) -> (outcome: Result<
        Option<Transaction>,
    >)
        requires
            old(self).inv(),
        ensures
            final(self).inv(),
            old(self).begun_if_deferred(final(self), credits, outcome),
            outcome matches Ok(Some(transaction)) ==> transaction.inv(),
    {
        match &mut self.mode {
            MetadataMutationMode::Journal(journal) => journal.start_if_deferred(credits),
            _ => Ok(None),
        }
    }

    /// What starting a transaction does where images that wait may leave too little room.
    pub open spec fn begun_with_retry(
        &self,
        after: &Self,
        credits: usize,
        outcome: Result<Transaction>,
    ) -> bool {
        exists|tried: Self, first: Result<Transaction>|
            {
                &&& #[trigger] self.begun(&tried, credits, first)
                &&& if first matches Err(error) && error.code == ErrCode::E2BIG
                    && self.state().mode is Journal {
                    exists|flushed: Self, reply: Result<()>|
                        {
                            &&& #[trigger] tried.flushed(
                                &flushed,
                                JournalCommitReason::DurabilityBoundary,
                                reply,
                            )
                            &&& match reply {
                                Ok(_) => flushed.begun(after, credits, outcome),
                                Err(error) => flushed.idle(after) && outcome == Err::<
                                    Transaction,
                                    Ext4Error,
                                >(error),
                            }
                        }
                } else {
                    tried.idle(after) && outcome == first
                }
            }
    }

    /// Starts a transaction, and commits the images that wait where they leave too little room.
    pub(crate) fn transaction_start_with_deferred_retry(&mut self, credits: usize) -> (outcome:
        Result<Transaction>)
        requires
            old(self).inv(),
        ensures
            final(self).inv(),
            old(self).begun_with_retry(final(self), credits, outcome),
            outcome matches Ok(transaction) ==> transaction.inv(),
            final(self).state().gate == old(self).state().gate,
    {
        let first = self.transaction_start(credits);
        let ghost tried = *self;
        assert(old(self).begun(&tried, credits, first));
        match first {
            Ok(transaction) => Ok(transaction),
            Err(error) => {
                if error.code() == ErrCode::E2BIG && self.uses_journal() {
                    let reply = self.flush_deferred_journal(
                        JournalCommitReason::DurabilityBoundary,
                    );
                    let ghost flushed = *self;
                    assert(tried.flushed(
                        &flushed,
                        JournalCommitReason::DurabilityBoundary,
                        reply,
                    ));
                    match reply {
                        Ok(_) => self.transaction_start(credits),
                        Err(error) => Err(error),
                    }
                } else {
                    Err(error)
                }
            },
        }
    }

    /// What giving a transaction up does.
    pub open spec fn given_up(&self, after: &Self, transaction: Transaction) -> bool {
        &&& self.quiet(after)
        &&& after.state() == (FsState { mode: after.state().mode, ..self.state() })
        &&& match self.state().mode {
            MetadataMutationMode::Journal(journal) => {
                &&& after.state().mode matches MetadataMutationMode::Journal(journal_after)
                &&& !journal_after.writing()
                &&& journal_after.poisoned() == journal.poisoned()
                &&& journal_after.context() == restored(journal.context(), transaction.deferred())
            },
            MetadataMutationMode::Direct(direct) => {
                &&& after.state().mode matches MetadataMutationMode::Direct(direct_after)
                &&& !direct_after.writing()
                &&& direct_after.poisoned() == direct.poisoned()
                &&& direct_after.target() == direct.target()
            },
            MetadataMutationMode::ReadOnly => after.state().mode is ReadOnly,
        }
    }

    /// Gives a transaction up.
    pub(crate) fn transaction_abort(&mut self, transaction: Transaction)
        requires
            old(self).inv(),
            transaction.inv(),
        ensures
            final(self).inv(),
            old(self).given_up(final(self), transaction),
    {
        match &mut self.mode {
            MetadataMutationMode::Journal(journal) => transaction.abort(
                TransactionCoreRef::Journal(journal),
            ),
            MetadataMutationMode::Direct(direct) => transaction.abort(
                TransactionCoreRef::Direct(direct),
            ),
            MetadataMutationMode::ReadOnly => {},
        }
    }

    /// The state once a transaction was published, or was not: a publication brings the caches up
    /// to date, and starts a new epoch of what is known to be mapped.
    pub open spec fn caught_up(&self, after: &Self, transaction: Transaction, told: bool) -> bool {
        if told {
            &&& after.state() == (FsState {
                mode: after.state().mode,
                prepared: after.state().prepared,
                ..self.state().refreshed(transaction.staged())
            })
            &&& self.state().prepared.renewed(&after.state().prepared)
        } else {
            after.state() == (FsState { mode: after.state().mode, ..self.state() })
        }
    }

    /// Whether committing a transaction publishes it.
    pub open spec fn commit_told(
        &self,
        transaction: Transaction,
        outcome: core::result::Result<(), CommitError>,
    ) -> bool {
        match self.state().mode {
            MetadataMutationMode::Journal(_) => transaction.staged().len() > 0 && published(outcome),
            MetadataMutationMode::Direct(_) => transaction.staged().len() > 0 && outcome is Ok,
            MetadataMutationMode::ReadOnly => false,
        }
    }

    /// Whether letting a transaction wait for a commit, or committing it, publishes it.
    pub open spec fn deferral_told(
        &self,
        transaction: Transaction,
        outcome: core::result::Result<(), CommitError>,
    ) -> bool {
        match self.state().mode {
            MetadataMutationMode::Journal(_) => distinct_homes(
                transaction.batch(),
                transaction.staged(),
            ) > 0 && published(outcome),
            MetadataMutationMode::Direct(_) => transaction.staged().len() > 0 && outcome is Ok,
            MetadataMutationMode::ReadOnly => false,
        }
    }

    /// What committing a transaction does.
    pub open spec fn committed(
        &self,
        after: &Self,
        transaction: Transaction,
        outcome: core::result::Result<(), CommitError>,
    ) -> bool {
        &&& self.caught_up(after, transaction, self.commit_told(transaction, outcome))
        &&& match self.state().mode {
            MetadataMutationMode::Journal(journal) => {
                &&& after.state().mode matches MetadataMutationMode::Journal(journal_after)
                &&& committed_by_journal(
                    transaction,
                    journal,
                    journal_after,
                    self.log(),
                    after.log(),
                    outcome,
                )
                &&& heard_of_commit(transaction, self.layers(), after.layers(), outcome)
                &&& self.followed(after)
            },
            MetadataMutationMode::Direct(direct) => {
                &&& after.state().mode matches MetadataMutationMode::Direct(direct_after)
                &&& committed_directly(
                    transaction,
                    direct,
                    direct_after,
                    self.log(),
                    after.log(),
                    outcome,
                )
                &&& heard_of_writes(transaction, self.layers(), after.layers(), outcome)
                &&& self.followed(after)
            },
            MetadataMutationMode::ReadOnly => {
                &&& after.state().mode is ReadOnly
                &&& self.quiet(after)
                &&& refused(outcome, ErrCode::EROFS)
            },
        }
    }

    /// The caches as they will be once `transaction` is published.
    fn caches_after(&self, transaction: &Transaction) -> (caches: (SuperBlock, Vec<BlockGroupDesc>))
        requires
            self.inv(),
            transaction.inv(),
        ensures
            caches.0@ == self.state().refreshed_superblock(transaction.staged()),
            descriptors(caches.1@) == self.state().refreshed_groups(transaction.staged()),
    {
        let staged = transaction.staged_blocks();
        let superblock = match staged.get(0) {
            Some(block) => SuperBlock::from_block(block.bytes()),
            None => self.superblock,
        };
        let first: u64 = self.superblock.first_data_block() as u64 + 1;
        let mut groups: Vec<BlockGroupDesc> = Vec::new();
        let count: usize = self.groups.len();
        let mut at: usize = 0;
        while at < count
            invariant
                at <= count,
                count == self.groups@.len(),
                first == crate::bytes::le32_at(self.superblock@, 20) + 1,
                staged.inv(),
                staged@ == transaction.staged(),
                groups@.len() == at,
                forall|i: int|
                    0 <= i < at ==> (#[trigger] groups@[i])@
                        == self.state().refreshed_groups(transaction.staged())[i],
            decreases count - at,
        {
            let home: PBlockId = first + (at / DESCS_PER_BLOCK) as u64;
            assert(home == self.state().group_position(at as int).0);
            match staged.get(home) {
                Some(block) => {
                    groups.push(
                        BlockGroupDesc::from_block(
                            block.bytes(),
                            at % DESCS_PER_BLOCK * SB_GOOD_DESC_SIZE,
                        ),
                    );
                },
                None => {
                    groups.push(self.groups[at]);
                },
            }
            at = at + 1;
        }
        assert(descriptors(groups@) =~= self.state().refreshed_groups(transaction.staged()));
        (superblock, groups)
    }

    /// Brings the caches up to date, and starts a new epoch of what is known to be mapped.
    fn catch_up(&mut self, superblock: SuperBlock, groups: Vec<BlockGroupDesc>)
        requires
            old(self).state().prepared.inv(),
        ensures
            old(self).quiet(final(self)),
            old(self).followed(final(self)),
            final(self).state() == (FsState {
                superblock: superblock@,
                groups: descriptors(groups@),
                prepared: final(self).state().prepared,
                ..old(self).state()
            }),
            final(self).state().prepared.inv(),
            old(self).state().prepared.renewed(&final(self).state().prepared),
    {
        self.superblock = superblock;
        self.groups = groups;
        self.prepared.invalidate();
    }

    /// Commits a transaction.
    pub(crate) fn transaction_commit(&mut self, transaction: Transaction) -> (outcome:
        core::result::Result<(), CommitError>)
        requires
            old(self).inv(),
            transaction.inv(),
        ensures
            final(self).inv(),
            old(self).committed(final(self), transaction, outcome),
    {
        let (superblock, groups) = self.caches_after(&transaction);
        let any = !transaction.staged_blocks().is_empty();
        let outcome = match &mut self.mode {
            MetadataMutationMode::Journal(journal) => transaction.commit(
                TransactionCoreRef::Journal(journal),
                &mut self.io,
                &mut self.volume,
            ),
            MetadataMutationMode::Direct(direct) => transaction.commit(
                TransactionCoreRef::Direct(direct),
                &mut self.io,
                &mut self.volume,
            ),
            MetadataMutationMode::ReadOnly => Err(
                CommitError {
                    error: Ext4Error::new(ErrCode::EROFS),
                    failure: CommitFailure::BeforeCommit,
                },
            ),
        };
        if any && was_published(&outcome) {
            self.catch_up(superblock, groups);
        }
        outcome
    }

    /// What deferring a transaction does.
    pub open spec fn deferred(
        &self,
        after: &Self,
        transaction: Transaction,
        max_deferred_blocks: usize,
        outcome: core::result::Result<(), CommitError>,
    ) -> bool {
        &&& self.caught_up(after, transaction, self.deferral_told(transaction, outcome))
        &&& match self.state().mode {
            MetadataMutationMode::Journal(journal) => {
                &&& after.state().mode matches MetadataMutationMode::Journal(journal_after)
                &&& deferred_by_journal(
                    transaction,
                    journal,
                    journal_after,
                    self.log(),
                    after.log(),
                    max_deferred_blocks,
                    outcome,
                )
                &&& heard_of_batch(
                    transaction,
                    journal,
                    self.layers(),
                    after.layers(),
                    max_deferred_blocks,
                    outcome,
                )
                &&& self.followed(after)
            },
            MetadataMutationMode::Direct(direct) => {
                &&& after.state().mode matches MetadataMutationMode::Direct(direct_after)
                &&& committed_directly(
                    transaction,
                    direct,
                    direct_after,
                    self.log(),
                    after.log(),
                    outcome,
                )
                &&& heard_of_writes(transaction, self.layers(), after.layers(), outcome)
                &&& self.followed(after)
            },
            MetadataMutationMode::ReadOnly => {
                &&& after.state().mode is ReadOnly
                &&& self.quiet(after)
                &&& refused(outcome, ErrCode::EROFS)
            },
        }
    }

    /// Lets the images of a transaction wait for a commit, or commits it.
    pub(crate) fn transaction_defer_or_commit(
        &mut self,
        transaction: Transaction,
        max_deferred_blocks: usize,
    ) -> (outcome: core::result::Result<(), CommitError>)
        requires
            old(self).inv(),
            transaction.inv(),
        ensures
            final(self).inv(),
            old(self).deferred(final(self), transaction, max_deferred_blocks, outcome),
    {
        let (superblock, groups) = self.caches_after(&transaction);
        let any = match self.mode {
            MetadataMutationMode::Journal(_) => transaction.total_staged_len() > 0,
            _ => !transaction.staged_blocks().is_empty(),
        };
        let outcome = match &mut self.mode {
            MetadataMutationMode::Journal(journal) => transaction.defer_or_commit(
                TransactionCoreRef::Journal(journal),
                &mut self.io,
                &mut self.volume,
                max_deferred_blocks,
            ),
            MetadataMutationMode::Direct(direct) => transaction.defer_or_commit(
                TransactionCoreRef::Direct(direct),
                &mut self.io,
                &mut self.volume,
                max_deferred_blocks,
            ),
            MetadataMutationMode::ReadOnly => Err(
                CommitError {
                    error: Ext4Error::new(ErrCode::EROFS),
                    failure: CommitFailure::BeforeCommit,
                },
            ),
        };
        if any && was_published(&outcome) {
            self.catch_up(superblock, groups);
        }
        outcome
    }

    /// What committing a range allocation does.
    pub open spec fn range_done(
        &self,
        after: &Self,
        transaction: Transaction,
        homes: Seq<PBlockId>,
        inode_home: PBlockId,
        outcome: core::result::Result<(), CommitError>,
    ) -> bool {
        &&& self.caught_up(after, transaction, outcome is Ok)
        &&& match self.state().mode {
            MetadataMutationMode::Journal(journal) => {
                &&& after.state().mode matches MetadataMutationMode::Journal(journal_after)
                &&& refused(outcome, ErrCode::EINVAL)
                &&& self.quiet(after)
                &&& !journal_after.writing()
                &&& journal_after.poisoned() == journal.poisoned()
                &&& journal_after.context() == restored(journal.context(), transaction.deferred())
            },
            MetadataMutationMode::Direct(direct) => {
                &&& after.state().mode matches MetadataMutationMode::Direct(direct_after)
                &&& range_committed(
                    direct,
                    direct_after,
                    transaction.staged(),
                    homes,
                    inode_home,
                    self.log(),
                    after.log(),
                    outcome,
                )
                &&& heard(self.layers(), after.layers(), transaction.staged(), outcome is Ok)
                &&& self.followed(after)
            },
            MetadataMutationMode::ReadOnly => {
                &&& after.state().mode is ReadOnly
                &&& self.quiet(after)
                &&& refused(outcome, ErrCode::EROFS)
            },
        }
    }

    /// Commits a range allocation.
    pub(crate) fn transaction_commit_direct_range(
        &mut self,
        transaction: Transaction,
        homes: &[PBlockId],
        inode_home: PBlockId,
    ) -> (outcome: core::result::Result<(), CommitError>)
        requires
            old(self).inv(),
            transaction.inv(),
        ensures
            final(self).inv(),
            old(self).range_done(final(self), transaction, homes@, inode_home, outcome),
    {
        let (superblock, groups) = self.caches_after(&transaction);
        let outcome = match &mut self.mode {
            MetadataMutationMode::Journal(journal) => transaction.commit_direct_range(
                TransactionCoreRef::Journal(journal),
                &mut self.io,
                &mut self.volume,
                homes,
                inode_home,
            ),
            MetadataMutationMode::Direct(direct) => transaction.commit_direct_range(
                TransactionCoreRef::Direct(direct),
                &mut self.io,
                &mut self.volume,
                homes,
                inode_home,
            ),
            MetadataMutationMode::ReadOnly => Err(
                CommitError {
                    error: Ext4Error::new(ErrCode::EROFS),
                    failure: CommitFailure::BeforeCommit,
                },
            ),
        };
        if outcome.is_ok() {
            self.catch_up(superblock, groups);
        }
        outcome
    }

    /// What settling the outcome of a commit does: a commit that may have changed the device
    /// stops every later change.
    pub open spec fn settled(
        &self,
        after: &Self,
        outcome: core::result::Result<(), CommitError>,
        result: Result<()>,
    ) -> bool {
        &&& self.quiet(after)
        &&& after.state() == (FsState {
            poisoned: self.state().poisoned || uncertain(outcome),
            ..self.state()
        })
        &&& result == brief(outcome)
    }

    /// Settles the outcome of a commit.
    pub(crate) fn settle(&mut self, outcome: core::result::Result<(), CommitError>) -> (result:
        Result<()>)
        requires
            old(self).inv(),
        ensures
            final(self).inv(),
            old(self).settled(final(self), outcome, result),
    {
        match outcome {
            Ok(done) => {
                assert(done == ());
                Ok(())
            },
            Err(stop) => {
                if stop.failure != CommitFailure::BeforeCommit {
                    self.poisoned = true;
                }
                Err(stop.error)
            },
        }
    }
}

/// The inode at `at` of a block.
pub fn inode_in(block: &[u8; BLOCK_SIZE], at: usize) -> (inode: Inode)
    requires
        at + SB_GOOD_INODE_SIZE <= BLOCK_SIZE,
    ensures
        inode@ == block@.subrange(at as int, at + SB_GOOD_INODE_SIZE),
{
    let mut raw: [u8; SB_GOOD_INODE_SIZE] = [0u8;SB_GOOD_INODE_SIZE];
    put_bytes(
        &mut raw,
        0,
        vstd::slice::slice_subrange(block.as_slice(), at, at + SB_GOOD_INODE_SIZE),
    );
    let inode = Inode { raw };
    assert(inode@ =~= block@.subrange(at as int, at + SB_GOOD_INODE_SIZE));
    inode
}

/// The inode that a block holds at `at`, where the block could be read.
pub open spec fn inode_found(
    bytes: Result<Seq<u8>>,
    at: int,
    id: InodeId,
    outcome: Result<InodeRef>,
) -> bool {
    match bytes {
        Ok(block) => {
            &&& outcome matches Ok(found)
            &&& found.id == id
            &&& found.inode@ == block.subrange(at, at + SB_GOOD_INODE_SIZE)
        },
        Err(error) => outcome == Err::<InodeRef, Ext4Error>(error),
    }
}

/// The bytes of a block that was read.
pub open spec fn bytes_read(reply: Result<Block>) -> Result<Seq<u8>> {
    match reply {
        Ok(block) => Ok(block.data@),
        Err(error) => Err(error),
    }
}

impl<D: BlockDevice, V: Volume<D>> Ext4<D, V> {
    /// The block and the offset of an inode.
    pub(crate) fn inode_disk_pos(&self, id: InodeId) -> (position: Result<(PBlockId, usize)>)
        requires
            self.inv(),
        ensures
            match self.state().inode_position(id) {
                Some((home, at)) => {
                    &&& position matches Ok(found)
                    &&& found.0 == home
                    &&& found.1 == at
                    &&& at + SB_GOOD_INODE_SIZE <= BLOCK_SIZE
                },
                None => position == failed::<(PBlockId, usize)>(ErrCode::EINVAL),
            },
    {
        let per_group: u32 = self.superblock.inodes_per_group();
        if id == 0 || per_group == 0 {
            return Err(Ext4Error::new(ErrCode::EINVAL));
        }
        let group: u32 = (id - 1) / per_group;
        let at: u64 = ((id - 1) % per_group) as u64 * SB_GOOD_INODE_SIZE as u64;
        if group as usize >= self.groups.len() {
            return Err(Ext4Error::new(ErrCode::EINVAL));
        }
        assert(self.state().groups[group as int] == self.groups@[group as int]@);
        let first: PBlockId = self.groups[group as usize].inode_table_first_block();
        match first.checked_add(at / BLOCK_SIZE as u64) {
            Some(home) => Ok((home, (at % BLOCK_SIZE as u64) as usize)),
            None => Err(Ext4Error::new(ErrCode::EINVAL)),
        }
    }

    /// What reading an inode calls and returns.
    pub open spec fn inode_read(&self, after: &Self, id: InodeId, outcome: Result<InodeRef>) -> bool {
        match self.state().inode_position(id) {
            Some((home, at)) => exists|reply: Result<Block>|
                {
                    &&& #[trigger] self.block_read(after, home, reply)
                    &&& inode_found(bytes_read(reply), at, id, outcome)
                },
            None => self.idle(after) && outcome == failed::<InodeRef>(ErrCode::EINVAL),
        }
    }

    /// Reads an inode.
    pub fn read_inode(&mut self, id: InodeId) -> (outcome: Result<InodeRef>)
        requires
            old(self).inv(),
        ensures
            final(self).state() == old(self).state(),
            old(self).inode_read(final(self), id, outcome),
            outcome matches Ok(found) ==> found.id == id,
    {
        let (home, at) = match self.inode_disk_pos(id) {
            Ok(position) => position,
            Err(error) => {
                return Err(error);
            },
        };
        let reply = self.read_block(home);
        assert(old(self).block_read(self, home, reply));
        match reply {
            Ok(block) => Ok(InodeRef::new(id, inode_in(&block.data, at))),
            Err(error) => Err(error),
        }
    }

    /// What writing an inode with its checksum calls and returns.
    pub open spec fn inode_written(
        &self,
        after: &Self,
        inode: InodeRef,
        sealed: InodeRef,
        outcome: Result<()>,
    ) -> bool {
        &&& sealed.id == inode.id
        &&& sealed.inode@ == sealed_inode(inode.inode@, inode.id, self.state().superblock)
        &&& match self.state().inode_position(inode.id) {
            Some((home, at)) => exists|read: Self, reply: Result<Block>|
                {
                    &&& #[trigger] self.block_read(&read, home, reply)
                    &&& match reply {
                        Ok(block) => read.did(
                            after,
                            Event::WriteBlock {
                                id: block.id,
                                data: splice(block.data@, at, sealed.inode@),
                                reply: outcome,
                            },
                        ),
                        Err(error) => read.idle(after) && outcome == Err::<(), Ext4Error>(error),
                    }
                },
            None => self.idle(after) && outcome == failed::<()>(ErrCode::EINVAL),
        }
    }

    /// Writes an inode with its checksum.
    pub(crate) fn write_inode_with_csum(&mut self, inode: &mut InodeRef) -> (outcome: Result<()>)
        requires
            old(self).inv(),
        ensures
            final(self).state() == old(self).state(),
            old(self).inode_written(final(self), *old(inode), *final(inode), outcome),
    {
        let id: InodeId = inode.id;
        self.superblock.seal_inode(&mut inode.inode, id);
        let (home, at) = match self.inode_disk_pos(id) {
            Ok(position) => position,
            Err(error) => {
                return Err(error);
            },
        };
        let reply = self.read_block(home);
        let ghost read = *self;
        assert(old(self).block_read(&read, home, reply));
        match reply {
            Ok(block) => {
                let mut data: [u8; BLOCK_SIZE] = *block.data;
                put_bytes(&mut data, at, inode.inode.raw.as_slice());
                self.write_block(&Block::new(block.id, Box::new(data)))
            },
            Err(error) => Err(error),
        }
    }

    /// What reading a block through a transaction calls and returns.
    pub open spec fn staged_read(
        &self,
        after: &Self,
        transaction: Transaction,
        id: PBlockId,
        bytes: Result<Seq<u8>>,
    ) -> bool {
        if transaction.covers(id) {
            &&& self.idle(after)
            &&& bytes == Ok::<Seq<u8>, Ext4Error>(transaction.image_of(id))
        } else {
            exists|reply: Result<Block>|
                {
                    &&& #[trigger] self.did(after, Event::ReadBlock { id, reply })
                    &&& bytes == bytes_read(reply)
                }
        }
    }

    /// What reading an inode through a transaction calls and returns.
    pub open spec fn staged_inode_read(
        &self,
        after: &Self,
        transaction: Transaction,
        id: InodeId,
        outcome: Result<InodeRef>,
    ) -> bool {
        match self.state().inode_position(id) {
            Some((home, at)) => exists|bytes: Result<Seq<u8>>|
                {
                    &&& #[trigger] self.staged_read(after, transaction, home, bytes)
                    &&& inode_found(bytes, at, id, outcome)
                },
            None => self.idle(after) && outcome == failed::<InodeRef>(ErrCode::EINVAL),
        }
    }

    /// Reads an inode through a transaction.
    pub(crate) fn transaction_read_inode(&mut self, transaction: &Transaction, id: InodeId) -> (
    outcome: Result<InodeRef>)
        requires
            old(self).inv(),
            transaction.inv(),
        ensures
            final(self).state() == old(self).state(),
            old(self).staged_inode_read(final(self), *transaction, id, outcome),
            outcome matches Ok(found) ==> found.id == id,
    {
        let (home, at) = match self.inode_disk_pos(id) {
            Ok(position) => position,
            Err(error) => {
                return Err(error);
            },
        };
        let ghost before = *self;
        match transaction.read(&mut self.io, home) {
            Ok(view) => {
                let bytes = view.bytes();
                proof {
                    if !transaction.covers(home) {
                        let read = choose|read: Block|
                            {
                                &&& #[trigger] view.contents() == read.data@
                                &&& before.io.made(
                                    &self.io,
                                    Event::ReadBlock { id: home, reply: Ok(read) },
                                )
                            };
                        assert(before.did(
                            self,
                            Event::ReadBlock { id: home, reply: Ok(read) },
                        ));
                    }
                    assert(before.staged_read(self, *transaction, home, Ok(bytes@)));
                }
                Ok(InodeRef::new(id, inode_in(bytes, at)))
            },
            Err(error) => {
                assert(before.did(self, Event::ReadBlock { id: home, reply: Err(error) }));
                assert(before.staged_read(self, *transaction, home, Err(error)));
                Err(error)
            },
        }
    }

    /// What staging an inode with its checksum calls, changes and returns.
    pub open spec fn inode_staged(
        &self,
        after: &Self,
        before: Transaction,
        transaction: Transaction,
        inode: InodeRef,
        sealed: InodeRef,
        outcome: Result<()>,
    ) -> bool {
        &&& sealed.id == inode.id
        &&& sealed.inode@ == sealed_inode(inode.inode@, inode.id, self.state().superblock)
        &&& after.state() == self.state()
        &&& self.followed(after)
        &&& after.layers() == self.layers()
        &&& match self.state().inode_position(inode.id) {
            Some((home, at)) => before.patched(
                &transaction,
                self.log(),
                after.log(),
                home,
                at,
                sealed.inode@,
                outcome,
            ),
            None => {
                &&& self.idle(after)
                &&& transaction == before
                &&& outcome == failed::<()>(ErrCode::EINVAL)
            },
        }
    }

    /// Stages an inode with its checksum.
    pub(crate) fn transaction_stage_inode_with_csum(
        &mut self,
        transaction: &mut Transaction,
        inode: &mut InodeRef,
    ) -> (outcome: Result<()>)
        requires
            old(self).inv(),
            old(transaction).inv(),
        ensures
            final(self).state() == old(self).state(),
            final(transaction).inv(),
            final(transaction).deferred() == old(transaction).deferred(),
            old(self).inode_staged(
                final(self),
                *old(transaction),
                *final(transaction),
                *old(inode),
                *final(inode),
                outcome,
            ),
    {
        let id: InodeId = inode.id;
        self.superblock.seal_inode(&mut inode.inode, id);
        let (home, at) = match self.inode_disk_pos(id) {
            Ok(position) => position,
            Err(error) => {
                return Err(error);
            },
        };
        transaction.patch(&mut self.io, home, at, inode.inode.raw.as_slice())
    }

    /// What replacing bytes of a block inside a transaction calls, changes and returns.
    pub open spec fn block_staged(
        &self,
        after: &Self,
        before: Transaction,
        transaction: Transaction,
        home: PBlockId,
        at: int,
        patch: Seq<u8>,
        outcome: Result<()>,
    ) -> bool {
        &&& after.state() == self.state()
        &&& self.followed(after)
        &&& after.layers() == self.layers()
        &&& before.patched(
            &transaction,
            self.log(),
            after.log(),
            home,
            at,
            patch,
            outcome,
        )
    }

    /// Replaces bytes of a block inside a transaction.
    pub(crate) fn transaction_patch(
        &mut self,
        transaction: &mut Transaction,
        home: PBlockId,
        at: usize,
        patch: &[u8],
    ) -> (outcome: Result<()>)
        requires
            old(self).inv(),
            old(transaction).inv(),
            at + patch@.len() <= BLOCK_SIZE,
        ensures
            final(self).state() == old(self).state(),
            final(transaction).inv(),
            final(transaction).deferred() == old(transaction).deferred(),
            old(self).block_staged(
                final(self),
                *old(transaction),
                *final(transaction),
                home,
                at as int,
                patch@,
                outcome,
            ),
    {
        transaction.patch(&mut self.io, home, at, patch)
    }

    /// The cached descriptor of a block group.
    pub fn read_block_group(&self, id: BlockGroupId) -> (outcome: Result<BlockGroupRef>)
        ensures
            if id < self.state().groups.len() {
                &&& outcome matches Ok(group)
                &&& group.id == id
                &&& group.desc@ == self.state().groups[id as int]
            } else {
                outcome == failed::<BlockGroupRef>(ErrCode::EINVAL)
            },
    {
        if id as usize >= self.groups.len() {
            return Err(Ext4Error::new(ErrCode::EINVAL));
        }
        Ok(BlockGroupRef { id, desc: self.groups[id as usize] })
    }

    /// How many block groups there are.
    pub(crate) fn block_group_count(&self) -> (count: usize)
        ensures
            count == self.state().groups.len(),
    {
        self.groups.len()
    }

    /// What writing a descriptor calls, changes and returns: the cache follows the device.
    pub open spec fn group_written(
        &self,
        after: &Self,
        id: BlockGroupId,
        sealed: Seq<u8>,
        outcome: Result<()>,
    ) -> bool {
        let home = self.state().group_position(id as int).0;
        let at = self.state().group_position(id as int).1;
        if id >= self.state().groups.len() {
            self.idle(after) && outcome == failed::<()>(ErrCode::EINVAL)
        } else {
            exists|read: Self, reply: Result<Block>|
                {
                    &&& #[trigger] self.block_read(&read, home, reply)
                    &&& match reply {
                        Ok(block) => {
                            &&& read.called(
                                after,
                                Event::WriteBlock {
                                    id: block.id,
                                    data: splice(block.data@, at, sealed),
                                    reply: outcome,
                                },
                            )
                            &&& after.state() == (FsState {
                                groups: if outcome is Ok {
                                    self.state().groups.update(id as int, sealed)
                                } else {
                                    self.state().groups
                                },
                                ..self.state()
                            })
                        },
                        Err(error) => read.idle(after) && outcome == Err::<(), Ext4Error>(error),
                    }
                }
        }
    }

    /// Writes a descriptor with its checksum.
    pub fn write_block_group_with_csum(&mut self, group: &mut BlockGroupRef) -> (outcome: Result<
        (),
    >)
        requires
            old(self).inv(),
        ensures
            final(self).inv(),
            final(group).id == old(group).id,
            final(group).desc@ == sealed_desc(
                old(group).desc@,
                old(group).id,
                old(self).state().superblock,
            ),
            old(self).group_written(
                final(self),
                old(group).id,
                final(group).desc@,
                outcome,
            ),
    {
        let id: BlockGroupId = group.id;
        self.superblock.seal_desc(&mut group.desc, id);
        if id as usize >= self.groups.len() {
            return Err(Ext4Error::new(ErrCode::EINVAL));
        }
        let home: PBlockId = self.superblock.first_data_block() as u64 + 1 + (id as usize
            / DESCS_PER_BLOCK) as u64;
        let at: usize = id as usize % DESCS_PER_BLOCK * SB_GOOD_DESC_SIZE;
        let ghost place = old(self).state().group_position(id as int);
        assert((home, at as int) == place);
        let reply = self.read_block(home);
        let ghost read = *self;
        assert(old(self).block_read(&read, place.0, reply));
        match reply {
            Ok(block) => {
                let mut data: [u8; BLOCK_SIZE] = *block.data;
                put_bytes(&mut data, at, group.desc.raw.as_slice());
                let outcome = self.write_block(&Block::new(block.id, Box::new(data)));
                assert(self.groups@.len() == self.state().groups.len());
                if outcome.is_ok() {
                    let ghost cached = self.state();
                    self.groups[id as usize] = group.desc;
                    assert(self.state().groups =~= cached.groups.update(id as int, group.desc@));
                }
                outcome
            },
            Err(error) => Err(error),
        }
    }

    /// What writing the superblock calls, changes and returns: the cache follows the device.
    pub open spec fn superblock_written(
        &self,
        after: &Self,
        sealed: Seq<u8>,
        outcome: Result<()>,
    ) -> bool {
        exists|read: Self, reply: Result<Block>|
            {
                &&& #[trigger] self.block_read(&read, 0, reply)
                &&& match reply {
                    Ok(block) => {
                        &&& read.called(
                            after,
                            Event::WriteBlock {
                                id: block.id,
                                data: splice(block.data@, BASE_OFFSET as int, sealed),
                                reply: outcome,
                            },
                        )
                        &&& after.state() == (FsState {
                            superblock: if outcome is Ok {
                                sealed
                            } else {
                                self.state().superblock
                            },
                            ..self.state()
                        })
                    },
                    Err(error) => read.idle(after) && outcome == Err::<(), Ext4Error>(error),
                }
            }
    }

    /// Writes the superblock with its checksum.
    pub(crate) fn write_super_block(&mut self, superblock: SuperBlock) -> (outcome: Result<()>)
        requires
            old(self).inv(),
        ensures
            final(self).inv(),
            old(self).superblock_written(
                final(self),
                sealed_superblock(superblock@),
                outcome,
            ),
    {
        let mut sealed = superblock;
        sealed.seal();
        let reply = self.read_block(0);
        let ghost read = *self;
        assert(old(self).block_read(&read, 0, reply));
        match reply {
            Ok(block) => {
                let mut data: [u8; BLOCK_SIZE] = *block.data;
                put_bytes(&mut data, BASE_OFFSET, sealed.raw.as_slice());
                let outcome = self.write_block(&Block::new(block.id, Box::new(data)));
                if outcome.is_ok() {
                    self.superblock = sealed;
                }
                outcome
            },
            Err(error) => Err(error),
        }
    }

    /// Whether a block may hold data of a file: it exists, belongs to a group, and is neither
    /// metadata of the file system nor part of the journal.
    pub open spec fn data_range(&self, start: PBlockId, count: u64) -> bool {
        let state = self.state();
        &&& crate::bytes::le32_at(state.superblock, 20) <= start
        &&& start + count <= crate::inode::halves64(state.superblock, 4, 336)
        &&& forall|i: int|
            0 <= i < state.reserved.len() ==> !((#[trigger] state.reserved[i]).0 < start + count
                && start < state.reserved[i].1)
        &&& !self.journal_owns(start, (start + count) as u64)
    }

    /// Fails unless consecutive blocks may hold data of a file.
    pub(crate) fn validate_data_blocks(&self, start: PBlockId, count: u64) -> (outcome: Result<()>)
        ensures
            outcome == if self.data_range(start, count) {
                Ok::<(), Ext4Error>(())
            } else {
                failed(ErrCode::EIO)
            },
    {
        let end: u64 = match start.checked_add(count) {
            Some(end) => end,
            None => {
                return Err(Ext4Error::new(ErrCode::EIO));
            },
        };
        if start < self.superblock.first_data_block() as u64 || end
            > self.superblock.block_count() {
            return Err(Ext4Error::new(ErrCode::EIO));
        }
        let mut at: usize = 0;
        while at < self.reserved.len()
            invariant
                at <= self.reserved@.len(),
                end == start + count,
                forall|i: int|
                    0 <= i < at ==> !((#[trigger] self.reserved@[i]).0 < start + count && start
                        < self.reserved@[i].1),
            decreases self.reserved@.len() - at,
        {
            let range = self.reserved[at];
            if range.0 < end && start < range.1 {
                assert(self.state().reserved[at as int].0 < start + count);
                return Err(Ext4Error::new(ErrCode::EIO));
            }
            at = at + 1;
        }
        if self.journal_owns_block_range(start, end) {
            return Err(Ext4Error::new(ErrCode::EIO));
        }
        Ok(())
    }

    /// Whether a block exists and is not the first one.
    pub open spec fn valid_pblock(&self, pblock: PBlockId) -> bool {
        0 < pblock < crate::inode::halves64(self.state().superblock, 4, 336)
    }

    /// Fails unless a block exists and is not the first one.
    pub(crate) fn ensure_valid_pblock(&self, pblock: PBlockId) -> (outcome: Result<()>)
        ensures
            outcome == if self.valid_pblock(pblock) {
                Ok::<(), Ext4Error>(())
            } else {
                failed(ErrCode::EIO)
            },
    {
        if pblock == 0 || pblock >= self.superblock.block_count() {
            return Err(Ext4Error::new(ErrCode::EIO));
        }
        Ok(())
    }

    /// Asks whether a range is known to be mapped.
    pub fn prepared_extent_probe(&mut self, inode: InodeId, range: &WriteLogicalRange) -> (probe:
        PreparedExtentProbe)
        requires
            old(self).inv(),
        ensures
            final(self).inv(),
            old(self).quiet(final(self)),
            final(self).state() == (FsState {
                prepared: final(self).state().prepared,
                ..old(self).state()
            }),
            old(self).state().prepared.probed(
                &final(self).state().prepared,
                inode,
                *range,
                probe,
            ),
    {
        self.prepared.probe(inode, range)
    }

    /// Whether a probe found the range.
    pub fn prepared_extent_hit(probe: PreparedExtentProbe) -> (hit: bool)
        ensures
            hit == probe.hit,
    {
        probe.hit
    }

    /// The epoch of a probe.
    pub fn prepared_extent_token(probe: PreparedExtentProbe) -> (token: usize)
        ensures
            token == probe.token,
    {
        probe.token
    }

    /// Records that a range is mapped, unless a newer epoch has begun.
    pub fn publish_prepared_extent(
        &mut self,
        inode: InodeId,
        range: &WriteLogicalRange,
        expected_epoch: usize,
    ) -> (published: bool)
        requires
            old(self).inv(),
        ensures
            final(self).inv(),
            old(self).quiet(final(self)),
            final(self).state() == (FsState {
                prepared: final(self).state().prepared,
                ..old(self).state()
            }),
            published == (old(self).state().prepared.epoch() == expected_epoch),
            if published {
                old(self).state().prepared.recorded(
                    &final(self).state().prepared,
                    inode,
                    *range,
                )
            } else {
                final(self).state().prepared == old(self).state().prepared
            },
    {
        self.prepared.publish_if_current(inode, range, expected_epoch)
    }

    /// Forgets which ranges are mapped.
    pub fn invalidate_prepared_extents(&mut self)
        requires
            old(self).inv(),
        ensures
            final(self).inv(),
            old(self).quiet(final(self)),
            final(self).state() == (FsState {
                prepared: final(self).state().prepared,
                ..old(self).state()
            }),
            old(self).state().prepared.renewed(&final(self).state().prepared),
    {
        self.prepared.invalidate()
    }
}

/// The journal of a mode, where it has one.
fn journal_of(mode: &MetadataMutationMode) -> Option<&JournalTransactionCore> {
    match mode {
        MetadataMutationMode::Journal(journal) => Some(journal),
        _ => None,
    }
}

impl<D: BlockDevice, V: Volume<D>> Ext4<D, V> {
    /// Asks for the way to the leaf for `iblock`.
    pub(crate) fn find_extent(
        &mut self,
        inode: &InodeRef,
        iblock: LBlockId,
    ) -> (reply: Result<Vec<ExtentSearchStep>>)
        ensures
            old(self).asked(
                final(self),
                LayerCall::FindExtent {
                    inode: *inode,
                    iblock,
                    reply,
                },
            ),
    {
        let mut storage = Storage {
            device: self.io.device_mut(),
            journal: journal_of(&self.mode),
            transaction: None,
        };
        let reply = self.volume.find_extent(&mut storage, inode, iblock);
        self.io.note_lent(
            Ghost(
                LayerCall::FindExtent {
                    inode: *inode,
                    iblock,
                    reply,
                },
            ),
        );
        reply
    }

    /// Asks how a range would join the extents of a file.
    pub(crate) fn direct_append_shape(
        &mut self,
        inode: &InodeRef,
        start: LBlockId,
        count: u32,
    ) -> (reply: Result<Option<AppendShape>>)
        ensures
            old(self).asked(
                final(self),
                LayerCall::AppendShape {
                    inode: *inode,
                    start,
                    count,
                    reply,
                },
            ),
    {
        let mut storage = Storage {
            device: self.io.device_mut(),
            journal: journal_of(&self.mode),
            transaction: None,
        };
        let reply = self.volume.direct_append_shape(&mut storage, inode, start, count);
        self.io.note_lent(
            Ghost(
                LayerCall::AppendShape {
                    inode: *inode,
                    start,
                    count,
                    reply,
                },
            ),
        );
        reply
    }

    /// Adds an extent to the tree inside the inode.
    pub(crate) fn stage_direct_append_extent(
        &mut self,
        inode: &mut InodeRef,
        start: LBlockId,
        first: PBlockId,
        count: u32,
    ) -> (reply: Result<()>)
        ensures
            old(self).asked(
                final(self),
                LayerCall::StageAppend {
                    inode: *old(inode),
                    start,
                    first,
                    count,
                    after: *final(inode),
                    reply,
                },
            ),
    {
        let ghost inode_before = *inode;
        let mut storage = Storage {
            device: self.io.device_mut(),
            journal: journal_of(&self.mode),
            transaction: None,
        };
        let reply = self.volume.stage_direct_append_extent(&mut storage, inode, start, first, count);
        self.io.note_lent(
            Ghost(
                LayerCall::StageAppend {
                    inode: inode_before,
                    start,
                    first,
                    count,
                    after: *inode,
                    reply,
                },
            ),
        );
        reply
    }

    /// Adds an extent of allocated blocks to the tree.
    pub(crate) fn extent_create_preallocated(
        &mut self,
        inode: &mut InodeRef,
        start: LBlockId,
        count: u32,
        first: PBlockId,
    ) -> (reply: Result<()>)
        ensures
            old(self).asked(
                final(self),
                LayerCall::CreateExtent {
                    inode: *old(inode),
                    start,
                    count,
                    first,
                    after: *final(inode),
                    reply,
                },
            ),
    {
        let ghost inode_before = *inode;
        let mut storage = Storage {
            device: self.io.device_mut(),
            journal: journal_of(&self.mode),
            transaction: None,
        };
        let reply = self.volume.extent_create_preallocated(&mut storage, inode, start, count, first);
        self.io.note_lent(
            Ghost(
                LayerCall::CreateExtent {
                    inode: inode_before,
                    start,
                    count,
                    first,
                    after: *inode,
                    reply,
                },
            ),
        );
        reply
    }

    /// Asks for the number of data blocks of a file.
    pub(crate) fn extent_data_blocks(
        &mut self,
        inode: &InodeRef,
    ) -> (reply: Result<u32>)
        ensures
            old(self).asked(
                final(self),
                LayerCall::DataBlocks {
                    inode: *inode,
                    reply,
                },
            ),
    {
        let mut storage = Storage {
            device: self.io.device_mut(),
            journal: journal_of(&self.mode),
            transaction: None,
        };
        let reply = self.volume.extent_data_blocks(&mut storage, inode);
        self.io.note_lent(
            Ghost(
                LayerCall::DataBlocks {
                    inode: *inode,
                    reply,
                },
            ),
        );
        reply
    }

    /// Asks for the number of tree blocks of a file.
    pub(crate) fn extent_tree_blocks(
        &mut self,
        inode: &InodeRef,
    ) -> (reply: Result<u32>)
        ensures
            old(self).asked(
                final(self),
                LayerCall::TreeBlocks {
                    inode: *inode,
                    reply,
                },
            ),
    {
        let mut storage = Storage {
            device: self.io.device_mut(),
            journal: journal_of(&self.mode),
            transaction: None,
        };
        let reply = self.volume.extent_tree_blocks(&mut storage, inode);
        self.io.note_lent(
            Ghost(
                LayerCall::TreeBlocks {
                    inode: *inode,
                    reply,
                },
            ),
        );
        reply
    }

    /// Allocates consecutive blocks of one group.
    pub(crate) fn alloc_direct_range(
        &mut self,
        transaction: &Transaction,
        inode: InodeId,
        preferred_first: Option<PBlockId>,
        requires_merge: bool,
        count: u32,
    ) -> (reply: Result<RangeAllocation>)
        ensures
            old(self).asked(
                final(self),
                LayerCall::AllocRange {
                    inode,
                    preferred_first,
                    requires_merge,
                    count,
                    reply,
                },
            ),
    {
        let mut storage = Storage {
            device: self.io.device_mut(),
            journal: journal_of(&self.mode),
            transaction: Some(transaction),
        };
        let reply = self.volume.alloc_direct_range(
            &mut storage,
            inode,
            preferred_first,
            requires_merge,
            count,
        );
        self.io.note_lent(
            Ghost(
                LayerCall::AllocRange {
                    inode,
                    preferred_first,
                    requires_merge,
                    count,
                    reply,
                },
            ),
        );
        reply
    }

    /// Asks for the last extent of a file.
    pub(crate) fn extent_tail(
        &mut self,
        transaction: &Transaction,
        inode: &InodeRef,
    ) -> (reply: Result<Option<ExtentTail>>)
        ensures
            old(self).asked(
                final(self),
                LayerCall::Tail {
                    inode: *inode,
                    reply,
                },
            ),
    {
        let mut storage = Storage {
            device: self.io.device_mut(),
            journal: journal_of(&self.mode),
            transaction: Some(transaction),
        };
        let reply = self.volume.extent_tail(&mut storage, inode);
        self.io.note_lent(
            Ghost(
                LayerCall::Tail {
                    inode: *inode,
                    reply,
                },
            ),
        );
        reply
    }

    /// Cuts blocks from the last extent of a file.
    pub(crate) fn extent_remove_tail(
        &mut self,
        transaction: &Transaction,
        inode: &mut InodeRef,
        limit: u32,
    ) -> (reply: Result<Option<RemovedTail>>)
        ensures
            old(self).asked(
                final(self),
                LayerCall::RemoveTail {
                    inode: *old(inode),
                    limit,
                    after: *final(inode),
                    reply,
                },
            ),
    {
        let ghost inode_before = *inode;
        let mut storage = Storage {
            device: self.io.device_mut(),
            journal: journal_of(&self.mode),
            transaction: Some(transaction),
        };
        let reply = self.volume.extent_remove_tail(&mut storage, inode, limit);
        self.io.note_lent(
            Ghost(
                LayerCall::RemoveTail {
                    inode: inode_before,
                    limit,
                    after: *inode,
                    reply,
                },
            ),
        );
        reply
    }

    /// Releases consecutive blocks of one group.
    pub(crate) fn dealloc_block_range(
        &mut self,
        transaction: &Transaction,
        first: PBlockId,
        count: u32,
    ) -> (reply: Result<Vec<BlockImage>>)
        ensures
            old(self).asked(
                final(self),
                LayerCall::ReleaseRange {
                    first,
                    count,
                    reply,
                },
            ),
    {
        let mut storage = Storage {
            device: self.io.device_mut(),
            journal: journal_of(&self.mode),
            transaction: Some(transaction),
        };
        let reply = self.volume.dealloc_block_range(&mut storage, first, count);
        self.io.note_lent(
            Ghost(
                LayerCall::ReleaseRange {
                    first,
                    count,
                    reply,
                },
            ),
        );
        reply
    }

    /// Asks which inode a name stands for.
    pub(crate) fn dir_find_entry(
        &mut self,
        dir: &InodeRef,
        name: &str,
    ) -> (reply: Result<InodeId>)
        ensures
            old(self).asked(
                final(self),
                LayerCall::FindEntry {
                    dir: *dir,
                    name: name@,
                    reply,
                },
            ),
    {
        let mut storage = Storage {
            device: self.io.device_mut(),
            journal: journal_of(&self.mode),
            transaction: None,
        };
        let reply = self.volume.dir_find_entry(&mut storage, dir, name);
        self.io.note_lent(
            Ghost(
                LayerCall::FindEntry {
                    dir: *dir,
                    name: name@,
                    reply,
                },
            ),
        );
        reply
    }

    /// Asks where a name stands.
    pub(crate) fn dir_find_entry_location(
        &mut self,
        dir: &InodeRef,
        name: &str,
    ) -> (reply: Result<DirEntryLocation>)
        ensures
            old(self).asked(
                final(self),
                LayerCall::LocateEntry {
                    dir: *dir,
                    name: name@,
                    reply,
                },
            ),
    {
        let mut storage = Storage {
            device: self.io.device_mut(),
            journal: journal_of(&self.mode),
            transaction: None,
        };
        let reply = self.volume.dir_find_entry_location(&mut storage, dir, name);
        self.io.note_lent(
            Ghost(
                LayerCall::LocateEntry {
                    dir: *dir,
                    name: name@,
                    reply,
                },
            ),
        );
        reply
    }

    /// Asks for the entries of a directory.
    pub(crate) fn dir_list_entries(
        &mut self,
        dir: &InodeRef,
    ) -> (reply: Result<Vec<DirEntry>>)
        ensures
            old(self).asked(
                final(self),
                LayerCall::ListEntries {
                    dir: *dir,
                    reply,
                },
            ),
    {
        let mut storage = Storage {
            device: self.io.device_mut(),
            journal: journal_of(&self.mode),
            transaction: None,
        };
        let reply = self.volume.dir_list_entries(&mut storage, dir);
        self.io.note_lent(
            Ghost(
                LayerCall::ListEntries {
                    dir: *dir,
                    reply,
                },
            ),
        );
        reply
    }

    /// Asks whether a directory is empty.
    pub(crate) fn dir_is_empty(
        &mut self,
        dir: &InodeRef,
    ) -> (reply: Result<bool>)
        ensures
            old(self).asked(
                final(self),
                LayerCall::IsEmpty {
                    dir: *dir,
                    reply,
                },
            ),
    {
        let mut storage = Storage {
            device: self.io.device_mut(),
            journal: journal_of(&self.mode),
            transaction: None,
        };
        let reply = self.volume.dir_is_empty(&mut storage, dir);
        self.io.note_lent(
            Ghost(
                LayerCall::IsEmpty {
                    dir: *dir,
                    reply,
                },
            ),
        );
        reply
    }

    /// Asks whether an entry fits into a directory.
    pub(crate) fn dir_has_insert_space(
        &mut self,
        dir: &InodeRef,
        child: &InodeRef,
        name: &str,
    ) -> (reply: Result<bool>)
        ensures
            old(self).asked(
                final(self),
                LayerCall::HasSpace {
                    dir: *dir,
                    child: *child,
                    name: name@,
                    reply,
                },
            ),
    {
        let mut storage = Storage {
            device: self.io.device_mut(),
            journal: journal_of(&self.mode),
            transaction: None,
        };
        let reply = self.volume.dir_has_insert_space(&mut storage, dir, child, name);
        self.io.note_lent(
            Ghost(
                LayerCall::HasSpace {
                    dir: *dir,
                    child: *child,
                    name: name@,
                    reply,
                },
            ),
        );
        reply
    }

    /// Gives a directory a further block.
    pub(crate) fn prepare_empty_dir_slot(
        &mut self,
        dir: &mut InodeRef,
    ) -> (reply: Result<()>)
        ensures
            old(self).asked(
                final(self),
                LayerCall::GrowDirectory {
                    dir: *old(dir),
                    after: *final(dir),
                    reply,
                },
            ),
    {
        let ghost dir_before = *dir;
        let mut storage = Storage {
            device: self.io.device_mut(),
            journal: journal_of(&self.mode),
            transaction: None,
        };
        let reply = self.volume.prepare_empty_dir_slot(&mut storage, dir);
        self.io.note_lent(
            Ghost(
                LayerCall::GrowDirectory {
                    dir: dir_before,
                    after: *dir,
                    reply,
                },
            ),
        );
        reply
    }

    /// Adds an entry.
    pub(crate) fn dir_add_entry(
        &mut self,
        dir: &mut InodeRef,
        child: &InodeRef,
        name: &str,
    ) -> (reply: core::result::Result<(), DirAddFailure>)
        ensures
            old(self).asked(
                final(self),
                LayerCall::AddEntry {
                    dir: *old(dir),
                    child: *child,
                    name: name@,
                    after: *final(dir),
                    reply,
                },
            ),
    {
        let ghost dir_before = *dir;
        let mut storage = Storage {
            device: self.io.device_mut(),
            journal: journal_of(&self.mode),
            transaction: None,
        };
        let reply = self.volume.dir_add_entry(&mut storage, dir, child, name);
        self.io.note_lent(
            Ghost(
                LayerCall::AddEntry {
                    dir: dir_before,
                    child: *child,
                    name: name@,
                    after: *dir,
                    reply,
                },
            ),
        );
        reply
    }

    /// Removes an entry.
    pub(crate) fn dir_remove_entry(
        &mut self,
        dir: &InodeRef,
        name: &str,
    ) -> (reply: Result<()>)
        ensures
            old(self).asked(
                final(self),
                LayerCall::RemoveEntry {
                    dir: *dir,
                    name: name@,
                    reply,
                },
            ),
    {
        let mut storage = Storage {
            device: self.io.device_mut(),
            journal: journal_of(&self.mode),
            transaction: None,
        };
        let reply = self.volume.dir_remove_entry(&mut storage, dir, name);
        self.io.note_lent(
            Ghost(
                LayerCall::RemoveEntry {
                    dir: *dir,
                    name: name@,
                    reply,
                },
            ),
        );
        reply
    }

    /// Makes an entry stand for another inode.
    pub(crate) fn dir_replace_entry(
        &mut self,
        dir: &InodeRef,
        name: &str,
        target: InodeId,
        kind: FileType,
    ) -> (reply: Result<()>)
        ensures
            old(self).asked(
                final(self),
                LayerCall::ReplaceEntry {
                    dir: *dir,
                    name: name@,
                    target,
                    kind,
                    reply,
                },
            ),
    {
        let mut storage = Storage {
            device: self.io.device_mut(),
            journal: journal_of(&self.mode),
            transaction: None,
        };
        let reply = self.volume.dir_replace_entry(&mut storage, dir, name, target, kind);
        self.io.note_lent(
            Ghost(
                LayerCall::ReplaceEntry {
                    dir: *dir,
                    name: name@,
                    target,
                    kind,
                    reply,
                },
            ),
        );
        reply
    }

    /// Asks what adding an entry changes.
    pub(crate) fn dir_insert_images(
        &mut self,
        transaction: &Transaction,
        dir: &InodeRef,
        name: &str,
        target: InodeId,
        kind: FileType,
    ) -> (reply: Result<Vec<BlockImage>>)
        ensures
            old(self).asked(
                final(self),
                LayerCall::InsertImages {
                    dir: *dir,
                    name: name@,
                    target,
                    kind,
                    reply,
                },
            ),
    {
        let mut storage = Storage {
            device: self.io.device_mut(),
            journal: journal_of(&self.mode),
            transaction: Some(transaction),
        };
        let reply = self.volume.dir_insert_images(&mut storage, dir, name, target, kind);
        self.io.note_lent(
            Ghost(
                LayerCall::InsertImages {
                    dir: *dir,
                    name: name@,
                    target,
                    kind,
                    reply,
                },
            ),
        );
        reply
    }

    /// Asks what making an entry stand for another inode changes.
    pub(crate) fn dir_replace_images(
        &mut self,
        transaction: &Transaction,
        dir: &InodeRef,
        name: &str,
        target: InodeId,
        kind: FileType,
    ) -> (reply: Result<Vec<BlockImage>>)
        ensures
            old(self).asked(
                final(self),
                LayerCall::ReplaceImages {
                    dir: *dir,
                    name: name@,
                    target,
                    kind,
                    reply,
                },
            ),
    {
        let mut storage = Storage {
            device: self.io.device_mut(),
            journal: journal_of(&self.mode),
            transaction: Some(transaction),
        };
        let reply = self.volume.dir_replace_images(&mut storage, dir, name, target, kind);
        self.io.note_lent(
            Ghost(
                LayerCall::ReplaceImages {
                    dir: *dir,
                    name: name@,
                    target,
                    kind,
                    reply,
                },
            ),
        );
        reply
    }

    /// Asks what removing an entry changes.
    pub(crate) fn dir_remove_images(
        &mut self,
        transaction: &Transaction,
        dir: &InodeRef,
        name: &str,
    ) -> (reply: Result<Vec<BlockImage>>)
        ensures
            old(self).asked(
                final(self),
                LayerCall::RemoveImages {
                    dir: *dir,
                    name: name@,
                    reply,
                },
            ),
    {
        let mut storage = Storage {
            device: self.io.device_mut(),
            journal: journal_of(&self.mode),
            transaction: Some(transaction),
        };
        let reply = self.volume.dir_remove_images(&mut storage, dir, name);
        self.io.note_lent(
            Ghost(
                LayerCall::RemoveImages {
                    dir: *dir,
                    name: name@,
                    reply,
                },
            ),
        );
        reply
    }

    /// Allocates an inode.
    pub(crate) fn create_inode(
        &mut self,
        mode: InodeMode,
        owner: InodeOwner,
    ) -> (reply: Result<InodeRef>)
        requires
            old(self).inv(),
        ensures
            final(self).inv(),
            old(self).asked(
                final(self),
                LayerCall::CreateInode {
                    mode,
                    owner,
                    reply,
                },
            ),
    {
        let mut storage = Storage {
            device: self.io.device_mut(),
            journal: journal_of(&self.mode),
            transaction: None,
        };
        let reply = self.volume.create_inode(&mut storage, mode, owner);
        self.prepared.invalidate();
        self.io.note_lent(
            Ghost(
                LayerCall::CreateInode {
                    mode,
                    owner,
                    reply,
                },
            ),
        );
        reply
    }

    /// Allocates a symbolic link.
    pub(crate) fn create_symlink_inode(
        &mut self,
        target: &[u8],
        owner: InodeOwner,
    ) -> (reply: Result<InodeRef>)
        requires
            old(self).inv(),
        ensures
            final(self).inv(),
            old(self).asked(
                final(self),
                LayerCall::CreateSymlink {
                    target: target@,
                    owner,
                    reply,
                },
            ),
    {
        let mut storage = Storage {
            device: self.io.device_mut(),
            journal: journal_of(&self.mode),
            transaction: None,
        };
        let reply = self.volume.create_symlink_inode(&mut storage, target, owner);
        self.prepared.invalidate();
        self.io.note_lent(
            Ghost(
                LayerCall::CreateSymlink {
                    target: target@,
                    owner,
                    reply,
                },
            ),
        );
        reply
    }

    /// Allocates a device.
    pub(crate) fn create_device_inode(
        &mut self,
        mode: InodeMode,
        major: u32,
        minor: u32,
        owner: InodeOwner,
    ) -> (reply: Result<InodeRef>)
        requires
            old(self).inv(),
        ensures
            final(self).inv(),
            old(self).asked(
                final(self),
                LayerCall::CreateDevice {
                    mode,
                    major,
                    minor,
                    owner,
                    reply,
                },
            ),
    {
        let mut storage = Storage {
            device: self.io.device_mut(),
            journal: journal_of(&self.mode),
            transaction: None,
        };
        let reply = self.volume.create_device_inode(&mut storage, mode, major, minor, owner);
        self.prepared.invalidate();
        self.io.note_lent(
            Ghost(
                LayerCall::CreateDevice {
                    mode,
                    major,
                    minor,
                    owner,
                    reply,
                },
            ),
        );
        reply
    }

    /// Releases an inode.
    pub(crate) fn free_inode(
        &mut self,
        inode: &mut InodeRef,
    ) -> (reply: Result<()>)
        requires
            old(self).inv(),
        ensures
            final(self).inv(),
            old(self).asked(
                final(self),
                LayerCall::FreeInode {
                    inode: *old(inode),
                    after: *final(inode),
                    reply,
                },
            ),
    {
        let ghost inode_before = *inode;
        let mut storage = Storage {
            device: self.io.device_mut(),
            journal: journal_of(&self.mode),
            transaction: None,
        };
        let reply = self.volume.free_inode(&mut storage, inode);
        self.prepared.invalidate();
        self.io.note_lent(
            Ghost(
                LayerCall::FreeInode {
                    inode: inode_before,
                    after: *inode,
                    reply,
                },
            ),
        );
        reply
    }

    /// Adds a name for a new inode.
    pub(crate) fn link_inode(
        &mut self,
        parent: &mut InodeRef,
        child: &mut InodeRef,
        name: &str,
    ) -> (reply: Result<()>)
        ensures
            old(self).asked(
                final(self),
                LayerCall::LinkInode {
                    parent: *old(parent),
                    child: *old(child),
                    name: name@,
                    parent_after: *final(parent),
                    child_after: *final(child),
                    reply,
                },
            ),
    {
        let ghost parent_before = *parent;
        let ghost child_before = *child;
        let mut storage = Storage {
            device: self.io.device_mut(),
            journal: journal_of(&self.mode),
            transaction: None,
        };
        let reply = self.volume.link_inode(&mut storage, parent, child, name);
        self.io.note_lent(
            Ghost(
                LayerCall::LinkInode {
                    parent: parent_before,
                    child: child_before,
                    name: name@,
                    parent_after: *parent,
                    child_after: *child,
                    reply,
                },
            ),
        );
        reply
    }
}

} // verus!
