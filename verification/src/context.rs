//! The journal as a mount found it, and the images that wait for its next commit.

use vstd::prelude::*;
use std::collections::BTreeSet;
use crate::error::{failed, ErrCode, Ext4Error, Result};
use crate::jbd2::{ChecksumMode, Superblock, CRC32C_CHKSUM, SUPERBLOCK_BYTES};
use crate::staged::{ordered, StagedBlock, StagedBlocks};
use crate::{BLOCK_SIZE, PBlockId};

verus! {

/// A fully validated journal mapping and its current allocation cursor.
///
/// Entry `n` of `logical_blocks` is the block of the device that holds journal logical block `n`;
/// entry zero is the journal superblock.
pub struct JournalContext {
    pub superblock: Superblock,
    pub logical_blocks: Vec<PBlockId>,
    pub journal_blocks: BTreeSet<PBlockId>,
    /// Number of addressable blocks of the device.
    pub target_blocks: u64,
    /// Next journal logical block to allocate.
    pub head: u32,
    /// The journal superblock as it stands on disk.
    pub superblock_image: Box<[u8; SUPERBLOCK_BYTES]>,
    /// Metadata images accumulated before the next journal commit.
    pub deferred_transaction: Option<DeferredTransaction>,
}

/// Uncommitted metadata images retained for a bounded writeback batch.
pub struct DeferredTransaction {
    pub(crate) staged: StagedBlocks,
}

impl View for DeferredTransaction {
    type V = Seq<StagedBlock>;

    closed spec fn view(&self) -> Seq<StagedBlock> {
        self.staged@
    }
}

impl DeferredTransaction {
    /// A batch of `staged` images.
    pub(crate) fn new(staged: StagedBlocks) -> (batch: Self)
        ensures
            batch@ == staged@,
    {
        DeferredTransaction { staged }
    }

    /// The images of the batch.
    pub(crate) fn images(&self) -> (staged: &StagedBlocks)
        ensures
            staged@ == self@,
    {
        &self.staged
    }

    /// The images of the batch, which ends.
    pub(crate) fn into_images(self) -> (staged: StagedBlocks)
        ensures
            staged@ == self@,
    {
        self.staged
    }
}

/// The images of a batch; there are none without a batch.
pub open spec fn batch_of(deferred: Option<DeferredTransaction>) -> Seq<StagedBlock> {
    match deferred {
        Some(batch) => batch@,
        None => Seq::empty(),
    }
}

impl JournalContext {
    /// Whether the journal has a supported format and its sizes agree.
    pub open spec fn supported(&self) -> bool {
        &&& self.superblock.block_size == BLOCK_SIZE
        &&& self.superblock.features.checksum == ChecksumMode::V3 ==> self.superblock.checksum_type
            == CRC32C_CHKSUM
        &&& self.logical_blocks@.len() == self.superblock.max_len
        &&& self.journal_blocks@.len() == self.logical_blocks@.len()
        &&& self.superblock.first <= self.head < self.superblock.max_len
        &&& self.target_blocks != 0
    }

    /// Whether every journal block is mapped to a block that the journal owns.
    pub open spec fn mapped(&self) -> bool {
        forall|i: int|
            0 <= i < self.logical_blocks@.len() ==> {
                &&& #[trigger] self.logical_blocks@[i] != 0
                &&& self.journal_blocks@.contains(self.logical_blocks@[i])
            }
    }

    /// Whether the images that wait for a commit are in order.
    pub open spec fn batch_ordered(&self) -> bool {
        ordered(batch_of(self.deferred_transaction))
    }

    /// A context that a transaction can start from.
    pub open spec fn inv(&self) -> bool {
        self.supported() && self.mapped() && self.batch_ordered()
    }

    /// Checks the journal's format and its mapping.
    pub fn validate(&self) -> (checked: Result<()>)
        ensures
            checked == if !self.supported() {
                failed(ErrCode::ENOTSUP)
            } else if !self.mapped() {
                failed(ErrCode::EIO)
            } else {
                Ok(())
            },
    {
        broadcast use vstd::std_specs::btree::group_btree_axioms;

        let sb = &self.superblock;
        if sb.block_size as usize != BLOCK_SIZE || (sb.features.checksum == ChecksumMode::V3
            && sb.checksum_type != CRC32C_CHKSUM) || self.logical_blocks.len()
            != sb.max_len as usize || self.journal_blocks.len() != self.logical_blocks.len()
            || self.head < sb.first || self.head >= sb.max_len || self.target_blocks == 0 {
            return Err(Ext4Error::new(ErrCode::ENOTSUP));
        }
        let mut index: usize = 0;
        while index < self.logical_blocks.len()
            invariant
                index <= self.logical_blocks@.len(),
                self.supported(),
                forall|i: int|
                    0 <= i < index ==> {
                        &&& #[trigger] self.logical_blocks@[i] != 0
                        &&& self.journal_blocks@.contains(self.logical_blocks@[i])
                    },
            decreases self.logical_blocks@.len() - index,
        {
            broadcast use vstd::std_specs::btree::group_btree_axioms;

            let block: PBlockId = self.logical_blocks[index];
            if block == 0 || !self.journal_blocks.contains(&block) {
                assert(!self.mapped());
                return Err(Ext4Error::new(ErrCode::EIO));
            }
            index = index + 1;
        }
        Ok(())
    }
}

} // verus!
