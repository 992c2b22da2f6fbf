//! The parts of the JBD2 on-disk format that a commit writes.

use vstd::prelude::*;
use crate::bytes::{be32, put_be32, splice, zeros};
use crate::crc32c;
use crate::BLOCK_SIZE;

verus! {

/// Magic number of every journal header.
pub const MAGIC: u32 = 0xc03b_3998;

/// Bytes of a journal header.
pub const HEADER_BYTES: usize = 12;

/// Bytes of the checksum at the end of a descriptor block.
pub const BLOCK_TAIL_BYTES: usize = 4;

/// Bytes of the journal superblock.
pub const SUPERBLOCK_BYTES: usize = 1024;

/// Tag flag: the data block began with the magic number, which was cleared.
pub const FLAG_ESCAPE: u32 = 1;

/// Tag flag: the tag has the same UUID as the one before it.
pub const FLAG_SAME_UUID: u32 = 2;

/// Tag flag: the last tag of the descriptor block.
pub const FLAG_LAST_TAG: u32 = 8;

/// Superblock value that selects CRC-32C.
pub const CRC32C_CHKSUM: u8 = 4;

/// How journal blocks are protected.
#[derive(Clone, Copy, Debug, PartialEq, Eq, Structural)]
pub enum ChecksumMode {
    Unchecked,
    V3,
}

/// The journal features that change the log format.
#[derive(Clone, Copy, Debug, PartialEq, Eq, Structural)]
pub struct Features {
    pub checksum: ChecksumMode,
    pub has_64bit: bool,
}

impl Features {
    /// Bytes of one descriptor tag.
    pub open spec fn tag_size(self) -> nat {
        match self.checksum {
            ChecksumMode::V3 => 16,
            ChecksumMode::Unchecked => if self.has_64bit {
                12
            } else {
                8
            },
        }
    }

    /// Bytes of one descriptor tag.
    pub fn tag_bytes(&self) -> (bytes: usize)
        ensures
            bytes == self.tag_size(),
    {
        match self.checksum {
            ChecksumMode::V3 => 16,
            ChecksumMode::Unchecked => if self.has_64bit {
                12
            } else {
                8
            },
        }
    }
}

/// The fields of the journal superblock that a commit reads.
#[derive(Clone, Copy)]
pub struct Superblock {
    pub block_size: u32,
    /// Number of blocks of the journal.
    pub max_len: u32,
    /// First logical block of the log ring.
    pub first: u32,
    /// Sequence number of the next transaction.
    pub sequence: u32,
    /// First logical block of the live log, or zero for a clean journal.
    pub start: u32,
    pub errno: u32,
    pub features: Features,
    pub uuid: [u8; 16],
    pub checksum_type: u8,
}

/// The kinds of block that carry a journal header.
#[derive(Clone, Copy, Debug, PartialEq, Eq, Structural)]
pub enum BlockType {
    Descriptor,
    Commit,
    SuperblockV2,
}

impl BlockType {
    /// The number of the block type on disk.
    pub open spec fn number(self) -> u32 {
        match self {
            BlockType::Descriptor => 1,
            BlockType::Commit => 2,
            BlockType::SuperblockV2 => 4,
        }
    }
}

/// A journal header.
pub struct Header {
    pub block_type: BlockType,
    pub sequence: u32,
}

/// The bytes of a journal header.
pub open spec fn header_bytes(block_type: BlockType, sequence: u32) -> Seq<u8> {
    be32(MAGIC) + be32(block_type.number()) + be32(sequence)
}

impl Header {
    /// Stores the header at the start of `target`.
    pub fn encode_into(&self, target: &mut [u8])
        requires
            old(target)@.len() >= HEADER_BYTES,
        ensures
            final(target)@ == splice(old(target)@, 0, header_bytes(self.block_type, self.sequence)),
    {
        let ghost base = target@;
        let number: u32 = match self.block_type {
            BlockType::Descriptor => 1,
            BlockType::Commit => 2,
            BlockType::SuperblockV2 => 4,
        };
        put_be32(target, 0, MAGIC);
        put_be32(target, 4, number);
        put_be32(target, 8, self.sequence);
        assert(target@ =~= splice(base, 0, header_bytes(self.block_type, self.sequence)));
    }
}

/// The register value that journal checksums start from.
pub open spec fn seed_of(uuid: Seq<u8>) -> u32 {
    crc32c::crc32c(u32::MAX, uuid)
}

/// The register value that journal checksums start from.
pub fn checksum_seed(uuid: &[u8; 16]) -> (seed: u32)
    ensures
        seed == seed_of(uuid@),
{
    crc32c::update(u32::MAX, uuid)
}

/// The checksum of a logged data block.
pub open spec fn tag_checksum_of(seed: u32, sequence: u32, data: Seq<u8>) -> u32 {
    crc32c::crc32c(crc32c::crc32c(seed, be32(sequence)), data)
}

/// The checksum of a logged data block.
pub fn tag_checksum(seed: u32, sequence: u32, data: &[u8]) -> (checksum: u32)
    ensures
        checksum == tag_checksum_of(seed, sequence, data@),
{
    let mut number: [u8; 4] = [0u8;4];
    put_be32(&mut number, 0, sequence);
    assert(number@ =~= be32(sequence));
    let start: u32 = crc32c::update(seed, &number);
    crc32c::update(start, data)
}

/// The checksum of a descriptor block, taken with its tail cleared.
pub open spec fn block_checksum_of(seed: u32, block: Seq<u8>) -> u32 {
    crc32c::crc32c(
        seed,
        splice(block, block.len() - BLOCK_TAIL_BYTES, zeros(BLOCK_TAIL_BYTES as nat)),
    )
}

/// The checksum of a descriptor block, taken with its tail cleared.
pub fn block_checksum(seed: u32, block: &[u8; BLOCK_SIZE]) -> (checksum: u32)
    ensures
        checksum == block_checksum_of(seed, block@),
{
    crc32c::update_masked(seed, block, BLOCK_SIZE - BLOCK_TAIL_BYTES, BLOCK_TAIL_BYTES)
}

/// The checksum of a commit block, taken with its checksum field cleared.
pub open spec fn commit_checksum_of(seed: u32, block: Seq<u8>) -> u32 {
    crc32c::crc32c(seed, splice(block, 16, zeros(4)))
}

/// The checksum of a commit block, taken with its checksum field cleared.
pub fn commit_checksum(seed: u32, block: &[u8; BLOCK_SIZE]) -> (checksum: u32)
    ensures
        checksum == commit_checksum_of(seed, block@),
{
    crc32c::update_masked(seed, block, 16, 4)
}

/// The checksum of the journal superblock, taken with its checksum field cleared.
pub open spec fn superblock_checksum_of(image: Seq<u8>) -> u32 {
    crc32c::crc32c(u32::MAX, splice(image, 252, zeros(4)))
}

/// The checksum of the journal superblock, taken with its checksum field cleared.
pub fn superblock_checksum(image: &[u8; SUPERBLOCK_BYTES]) -> (checksum: u32)
    ensures
        checksum == superblock_checksum_of(image@),
{
    crc32c::update_masked(u32::MAX, image, 252, 4)
}

} // verus!
