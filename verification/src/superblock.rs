//! The superblock, block group descriptors, and the checksums of metadata.

use vstd::prelude::*;
use crate::bytes::{
    get_le16, get_le32, le16, le16_at, le32, le32_at, le64, put_bytes, put_le16, put_le32, splice,
    zeros,
};
use crate::crc32c;
use crate::inode::{
    attributes_of, halves32, halves64, wide48, with_halves64, Inode, InodeRef, SB_GOOD_INODE_SIZE,
};
use crate::{InodeId, PBlockId, BLOCK_SIZE};

verus! {

/// Offset of the superblock on the device.
pub const BASE_OFFSET: usize = 1024;

/// Bytes of the superblock.
pub const SUPER_BLOCK_BYTES: usize = 1024;

/// Bytes of one block group descriptor.
pub const SB_GOOD_DESC_SIZE: usize = 64;

/// Magic number of the superblock.
pub const SUPER_MAGIC: u16 = 0xef53;

/// Feature: metadata carries checksums.
pub const FEATURE_RO_COMPAT_METADATA_CSUM: u32 = 0x400;

/// Feature: the superblock holds the start value of checksums.
pub const FEATURE_INCOMPAT_CSUM_SEED: u32 = 0x2000;

/// Number of a block group.
pub type BlockGroupId = u32;

/// Where the superblock names the first orphan.
pub const ORPHAN_HEAD: usize = 232;

/// The superblock.
#[derive(Clone, Copy)]
pub struct SuperBlock {
    pub raw: [u8; SUPER_BLOCK_BYTES],
}

impl View for SuperBlock {
    type V = Seq<u8>;

    open spec fn view(&self) -> Seq<u8> {
        self.raw@
    }
}

/// A block group descriptor.
#[derive(Clone, Copy)]
pub struct BlockGroupDesc {
    pub raw: [u8; SB_GOOD_DESC_SIZE],
}

impl View for BlockGroupDesc {
    type V = Seq<u8>;

    open spec fn view(&self) -> Seq<u8> {
        self.raw@
    }
}

/// A block group descriptor and its number.
#[derive(Clone, Copy)]
pub struct BlockGroupRef {
    pub id: BlockGroupId,
    pub desc: BlockGroupDesc,
}

/// The start value of metadata checksums, as a superblock gives it.
pub open spec fn seed_in(raw: Seq<u8>) -> u32 {
    if le32_at(raw, 96) & FEATURE_INCOMPAT_CSUM_SEED != 0 {
        le32_at(raw, 624)
    } else {
        crc32c::crc32c(u32::MAX, raw.subrange(104, 120))
    }
}

/// Whether metadata carries checksums, as a superblock says.
pub open spec fn checksummed(raw: Seq<u8>) -> bool {
    le32_at(raw, 100) & FEATURE_RO_COMPAT_METADATA_CSUM != 0
}

/// A superblock with its checksum, where it carries one.
pub open spec fn sealed_superblock(raw: Seq<u8>) -> Seq<u8> {
    if checksummed(raw) {
        splice(raw, 1020, le32(crc32c::crc32c(u32::MAX, raw.take(1020))))
    } else {
        raw
    }
}

/// A descriptor with its checksum, where the file system carries one.
pub open spec fn sealed_desc(raw: Seq<u8>, group: BlockGroupId, super_raw: Seq<u8>) -> Seq<u8> {
    if checksummed(super_raw) {
        let cleared = splice(raw, 30, zeros(2));
        let sum = crc32c::crc32c(crc32c::crc32c(seed_in(super_raw), le32(group)), cleared);
        splice(raw, 30, le16(sum as u16))
    } else {
        raw
    }
}

/// A descriptor with the checksum of its block bitmap, where the file system carries one.
pub open spec fn with_bitmap_sum(raw: Seq<u8>, bitmap: Seq<u8>, super_raw: Seq<u8>) -> Seq<u8> {
    if checksummed(super_raw) {
        let sum = crc32c::crc32c(seed_in(super_raw), bitmap);
        splice(splice(raw, 24, le16(sum as u16)), 56, le16((sum >> 16) as u16))
    } else {
        raw
    }
}

/// Whether the inode has room for the upper half of its checksum.
pub open spec fn wide_sum(raw: Seq<u8>) -> bool {
    le16_at(raw, 128) >= 4
}

/// The checksum of an inode, taken with its checksum fields cleared.
pub open spec fn inode_sum(raw: Seq<u8>, id: InodeId, seed: u32) -> u32 {
    let low = splice(raw, 124, zeros(2));
    let cleared = if wide_sum(raw) {
        splice(low, 130, zeros(2))
    } else {
        low
    };
    crc32c::crc32c(
        crc32c::crc32c(crc32c::crc32c(seed, le32(id)), le32(le32_at(raw, 100))),
        cleared,
    )
}

/// An inode with its checksum, where the file system carries one.
pub open spec fn sealed_inode(raw: Seq<u8>, id: InodeId, super_raw: Seq<u8>) -> Seq<u8> {
    if checksummed(super_raw) {
        let sum = inode_sum(raw, id, seed_in(super_raw));
        let low = splice(raw, 124, le16(sum as u16));
        if wide_sum(raw) {
            splice(low, 130, le16((sum >> 16) as u16))
        } else {
            low
        }
    } else {
        raw
    }
}

/// The checksum of a block of extended attributes, taken with its checksum field cleared.
pub open spec fn xattr_sum(block: Seq<u8>, id: PBlockId, seed: u32) -> u32 {
    crc32c::crc32c(crc32c::crc32c(seed, le64(id)), splice(block, 16, zeros(4)))
}

/// Feeds a 32-bit number into the register.
fn update_le32(register: u32, value: u32) -> (next: u32)
    ensures
        next == crc32c::crc32c(register, le32(value)),
{
    let mut bytes: [u8; 4] = [0u8;4];
    put_le32(&mut bytes, 0, value);
    assert(bytes@ =~= le32(value));
    crc32c::update(register, &bytes)
}

/// The checksum of a block of extended attributes, taken with its checksum field cleared.
pub fn xattr_checksum(block: &[u8; BLOCK_SIZE], id: PBlockId, seed: u32) -> (sum: u32)
    ensures
        sum == xattr_sum(block@, id, seed),
{
    let mut bytes: [u8; 8] = [0u8;8];
    put_le32(&mut bytes, 0, id as u32);
    put_le32(&mut bytes, 4, (id >> 32) as u32);
    assert(bytes@ =~= le64(id));
    let start: u32 = crc32c::update(seed, &bytes);
    crc32c::update_masked(start, block, 16, 4)
}

impl SuperBlock {
    /// The superblock in the first block of a device.
    pub fn from_block(block: &[u8; BLOCK_SIZE]) -> (sb: SuperBlock)
        ensures
            sb@ == block@.subrange(BASE_OFFSET as int, BASE_OFFSET + SUPER_BLOCK_BYTES),
    {
        let mut raw: [u8; SUPER_BLOCK_BYTES] = [0u8;SUPER_BLOCK_BYTES];
        put_bytes(
            &mut raw,
            0,
            vstd::slice::slice_subrange(
                block.as_slice(),
                BASE_OFFSET,
                BASE_OFFSET + SUPER_BLOCK_BYTES,
            ),
        );
        let sb = SuperBlock { raw };
        assert(sb@ =~= block@.subrange(BASE_OFFSET as int, BASE_OFFSET + SUPER_BLOCK_BYTES));
        sb
    }

    /// The number of blocks.
    pub open spec fn blocks(&self) -> u64 {
        halves64(self@, 4, 336)
    }

    /// The number of blocks.
    pub fn block_count(&self) -> (count: u64)
        ensures
            count == self.blocks(),
    {
        (get_le32(&self.raw, 4) as u64) | ((get_le32(&self.raw, 336) as u64) << 32)
    }

    /// The number of free blocks.
    pub open spec fn free_blocks(&self) -> u64 {
        halves64(self@, 12, 344)
    }

    /// The number of free blocks.
    pub fn free_blocks_count(&self) -> (count: u64)
        ensures
            count == self.free_blocks(),
    {
        (get_le32(&self.raw, 12) as u64) | ((get_le32(&self.raw, 344) as u64) << 32)
    }

    /// Sets the number of free blocks.
    pub fn set_free_blocks_count(&mut self, count: u64)
        ensures
            final(self)@ == with_halves64(old(self)@, 12, 344, count),
    {
        put_le32(&mut self.raw, 12, count as u32);
        put_le32(&mut self.raw, 344, (count >> 32) as u32);
    }

    /// The inode at the head of the list of orphans.
    pub fn last_orphan(&self) -> (id: u32)
        ensures
            id == le32_at(self@, ORPHAN_HEAD as int),
    {
        get_le32(&self.raw, ORPHAN_HEAD)
    }

    /// Sets the inode at the head of the list of orphans.
    pub fn set_last_orphan(&mut self, id: u32)
        ensures
            final(self)@ == splice(old(self)@, ORPHAN_HEAD as int, le32(id)),
    {
        put_le32(&mut self.raw, ORPHAN_HEAD, id);
    }

    /// The first block that belongs to a group.
    pub open spec fn first_data(&self) -> u32 {
        le32_at(self@, 20)
    }

    /// The first block that belongs to a group.
    pub fn first_data_block(&self) -> (block: u32)
        ensures
            block == self.first_data(),
    {
        get_le32(&self.raw, 20)
    }

    /// The blocks of a group.
    pub open spec fn group_blocks(&self) -> u32 {
        le32_at(self@, 32)
    }

    /// The blocks of a group.
    pub fn blocks_per_group(&self) -> (count: u32)
        ensures
            count == self.group_blocks(),
    {
        get_le32(&self.raw, 32)
    }

    /// The inodes of a group.
    pub open spec fn group_inodes(&self) -> u32 {
        le32_at(self@, 40)
    }

    /// The inodes of a group.
    pub fn inodes_per_group(&self) -> (count: u32)
        ensures
            count == self.group_inodes(),
    {
        get_le32(&self.raw, 40)
    }

    /// Whether this is a superblock of the one supported layout.
    pub open spec fn supported(&self) -> bool {
        &&& le16_at(self@, 56) == SUPER_MAGIC
        &&& le32_at(self@, 24) == 2
        &&& le16_at(self@, 88) == SB_GOOD_INODE_SIZE
        &&& le16_at(self@, 254) == SB_GOOD_DESC_SIZE
        &&& 0 < self.group_blocks() <= 8 * BLOCK_SIZE
        &&& self.group_inodes() > 0
        &&& self.first_data() < self.blocks()
    }

    /// Whether this is a superblock of the one supported layout.
    pub fn is_supported(&self) -> (is: bool)
        ensures
            is == self.supported(),
    {
        get_le16(&self.raw, 56) == SUPER_MAGIC && get_le32(&self.raw, 24) == 2 && get_le16(
            &self.raw,
            88,
        ) as usize == SB_GOOD_INODE_SIZE && get_le16(&self.raw, 254) as usize == SB_GOOD_DESC_SIZE
            && self.blocks_per_group() > 0 && self.blocks_per_group() as usize <= 8 * BLOCK_SIZE
            && self.inodes_per_group() > 0 && (self.first_data_block() as u64) < self.block_count()
    }

    /// Whether a read-only compatible feature is set.
    pub fn has_read_only_compatible_feature(&self, feature: u32) -> (has: bool)
        ensures
            has == (le32_at(self@, 100) & feature != 0),
    {
        get_le32(&self.raw, 100) & feature != 0
    }

    /// The start value of metadata checksums.
    pub fn metadata_checksum_seed(&self) -> (seed: u32)
        ensures
            seed == seed_in(self@),
    {
        if get_le32(&self.raw, 96) & FEATURE_INCOMPAT_CSUM_SEED != 0 {
            get_le32(&self.raw, 624)
        } else {
            crc32c::update(
                u32::MAX,
                vstd::slice::slice_subrange(self.raw.as_slice(), 104, 120),
            )
        }
    }

    /// Whether metadata carries checksums.
    pub fn has_checksums(&self) -> (has: bool)
        ensures
            has == checksummed(self@),
    {
        self.has_read_only_compatible_feature(FEATURE_RO_COMPAT_METADATA_CSUM)
    }

    /// Stores the checksum, where there is one.
    pub fn seal(&mut self)
        ensures
            final(self)@ == sealed_superblock(old(self)@),
    {
        if self.has_checksums() {
            let sum: u32 = crc32c::update(
                u32::MAX,
                vstd::slice::slice_subrange(self.raw.as_slice(), 0, 1020),
            );
            assert(self@.subrange(0, 1020) =~= self@.take(1020));
            put_le32(&mut self.raw, 1020, sum);
        }
    }

    /// Stores the checksum of an inode, where there is one.
    pub fn seal_inode(&self, inode: &mut Inode, id: InodeId)
        ensures
            final(inode)@ == sealed_inode(old(inode)@, id, self@),
    {
        if self.has_checksums() {
            let wide = get_le16(&inode.raw, 128) >= 4;
            let mut cleared: [u8; SB_GOOD_INODE_SIZE] = inode.raw;
            crate::bytes::put_zeros(&mut cleared, 124, 2);
            if wide {
                crate::bytes::put_zeros(&mut cleared, 130, 2);
            }
            let named: u32 = update_le32(self.metadata_checksum_seed(), id);
            let dated: u32 = update_le32(named, get_le32(&inode.raw, 100));
            let sum: u32 = crc32c::update(dated, &cleared);
            put_le16(&mut inode.raw, 124, sum as u16);
            if wide {
                put_le16(&mut inode.raw, 130, (sum >> 16) as u16);
            }
        }
    }

    /// Stores the checksum of a descriptor, where there is one.
    pub fn seal_desc(&self, desc: &mut BlockGroupDesc, id: BlockGroupId)
        ensures
            final(desc)@ == sealed_desc(old(desc)@, id, self@),
    {
        if self.has_checksums() {
            let named: u32 = update_le32(self.metadata_checksum_seed(), id);
            let sum: u32 = crc32c::update_masked(named, &desc.raw, 30, 2);
            put_le16(&mut desc.raw, 30, sum as u16);
        }
    }

    /// Stores the checksum of a block bitmap in its descriptor, where there is one.
    pub fn seal_bitmap(&self, desc: &mut BlockGroupDesc, bitmap: &[u8])
        ensures
            final(desc)@ == with_bitmap_sum(old(desc)@, bitmap@, self@),
    {
        if self.has_checksums() {
            let sum: u32 = crc32c::update(self.metadata_checksum_seed(), bitmap);
            put_le16(&mut desc.raw, 24, sum as u16);
            put_le16(&mut desc.raw, 56, (sum >> 16) as u16);
        }
    }
}

impl BlockGroupDesc {
    /// The descriptor at `at` of a block of descriptors.
    pub fn from_block(block: &[u8; BLOCK_SIZE], at: usize) -> (desc: BlockGroupDesc)
        requires
            at + SB_GOOD_DESC_SIZE <= BLOCK_SIZE,
        ensures
            desc@ == block@.subrange(at as int, at + SB_GOOD_DESC_SIZE),
    {
        let mut raw: [u8; SB_GOOD_DESC_SIZE] = [0u8;SB_GOOD_DESC_SIZE];
        put_bytes(
            &mut raw,
            0,
            vstd::slice::slice_subrange(block.as_slice(), at, at + SB_GOOD_DESC_SIZE),
        );
        let desc = BlockGroupDesc { raw };
        assert(desc@ =~= block@.subrange(at as int, at + SB_GOOD_DESC_SIZE));
        desc
    }

    /// The block of the block bitmap.
    pub open spec fn bitmap_home(&self) -> PBlockId {
        halves64(self@, 0, 32)
    }

    /// The block of the block bitmap.
    pub fn block_bitmap_block(&self) -> (block: PBlockId)
        ensures
            block == self.bitmap_home(),
    {
        (get_le32(&self.raw, 0) as u64) | ((get_le32(&self.raw, 32) as u64) << 32)
    }

    /// The first block of the inode table.
    pub open spec fn table_home(&self) -> PBlockId {
        halves64(self@, 8, 40)
    }

    /// The first block of the inode table.
    pub fn inode_table_first_block(&self) -> (block: PBlockId)
        ensures
            block == self.table_home(),
    {
        (get_le32(&self.raw, 8) as u64) | ((get_le32(&self.raw, 40) as u64) << 32)
    }

    /// The number of free blocks.
    pub open spec fn free_blocks(&self) -> u32 {
        halves32(self@, 12, 44)
    }

    /// The number of free blocks.
    pub fn get_free_blocks_count(&self) -> (count: u64)
        ensures
            count == self.free_blocks(),
    {
        let low: u32 = get_le16(&self.raw, 12) as u32;
        let high: u32 = get_le16(&self.raw, 44) as u32;
        (low | (high << 16)) as u64
    }

    /// Sets the number of free blocks, of which 32 bits are kept.
    pub fn set_free_blocks_count(&mut self, count: u64)
        ensures
            final(self)@ == crate::inode::with_halves32(old(self)@, 12, 44, count as u32),
    {
        let low: u32 = count as u32;
        put_le16(&mut self.raw, 12, low as u16);
        put_le16(&mut self.raw, 44, (low >> 16) as u16);
    }
}

/// A stored number of free blocks is read back from a descriptor.
pub proof fn lemma_group_free_reads_back(raw: Seq<u8>, value: u32)
    requires
        raw.len() == SB_GOOD_DESC_SIZE,
    ensures
        halves32(crate::inode::with_halves32(raw, 12, 44, value), 12, 44) == value,
{
    broadcast use crate::bytes::lemma_le16_round_trip;

    let first = splice(raw, 12, le16(value as u16));
    let both = crate::inode::with_halves32(raw, 12, 44, value);
    assert(le16_at(both, 12) == le16_at(first, 12));
    assert((value as u16) as u32 | (((value >> 16) as u16) as u32) << 16 == value) by (bit_vector);
}

/// A stored number of free blocks is read back from a superblock.
pub proof fn lemma_free_reads_back(raw: Seq<u8>, value: u64)
    requires
        raw.len() == SUPER_BLOCK_BYTES,
    ensures
        halves64(with_halves64(raw, 12, 344, value), 12, 344) == value,
{
    broadcast use crate::bytes::lemma_le32_round_trip;

    let first = splice(raw, 12, le32(value as u32));
    let both = with_halves64(raw, 12, 344, value);
    assert(le32_at(both, 12) == le32_at(first, 12));
    assert((value as u32) as u64 | (((value >> 32) as u32) as u64) << 32 == value) by (bit_vector);
}

/// The checksum of an inode leaves its attributes.
pub proof fn lemma_checksum_keeps_inode(inode: InodeRef, sealed: InodeRef, super_raw: Seq<u8>)
    requires
        sealed.id == inode.id,
        sealed.inode@ == sealed_inode(inode.inode@, inode.id, super_raw),
        inode.inode@.len() == SB_GOOD_INODE_SIZE,
    ensures
        attributes_of(sealed) == attributes_of(inode),
{
    let raw = inode.inode@;
    if checksummed(super_raw) {
        let sum = inode_sum(raw, inode.id, seed_in(super_raw));
        let low = splice(raw, 124, le16(sum as u16));
        let both = splice(low, 130, le16((sum >> 16) as u16));
        lemma_outside_checksum(raw, low);
        lemma_outside_checksum(raw, both);
    }
}

/// Fields outside the checksum are the same where the bytes are.
proof fn lemma_outside_checksum(raw: Seq<u8>, other: Seq<u8>)
    requires
        raw.len() == SB_GOOD_INODE_SIZE,
        other.len() == SB_GOOD_INODE_SIZE,
        forall|i: int|
            0 <= i < SB_GOOD_INODE_SIZE && !(124 <= i < 126) && !(130 <= i < 132)
                ==> #[trigger] other[i] == raw[i],
    ensures
        le16_at(other, 0) == le16_at(raw, 0),
        halves32(other, 2, 120) == halves32(raw, 2, 120),
        halves32(other, 24, 122) == halves32(raw, 24, 122),
        halves64(other, 4, 108) == halves64(raw, 4, 108),
        le32_at(other, 8) == le32_at(raw, 8),
        le32_at(other, 12) == le32_at(raw, 12),
        le32_at(other, 16) == le32_at(raw, 16),
        le32_at(other, 144) == le32_at(raw, 144),
        le32_at(other, 100) == le32_at(raw, 100),
        le16_at(other, 26) == le16_at(raw, 26),
        wide48(other, 28, 116) == wide48(raw, 28, 116),
        le32_at(other, 40) == le32_at(raw, 40),
        le32_at(other, 44) == le32_at(raw, 44),
{
}

} // verus!
