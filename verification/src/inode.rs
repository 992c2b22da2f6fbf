//! Inodes as they stand in the inode table, and the attributes read from and stored in them.

use vstd::prelude::*;
use crate::bytes::{
    get_le16, get_le32, le16, le16_at, le32, le32_at, put_le16, put_le32, splice, zeros,
};
use crate::{InodeId, PBlockId};

verus! {

/// Bytes of one inode.
pub const SB_GOOD_INODE_SIZE: usize = 256;

/// Bytes of the sectors in which the blocks of an inode are counted.
pub const INODE_BLOCK_SIZE: usize = 512;

/// Sectors of one block.
pub const SECTORS_PER_BLOCK: u64 = 8;

/// Bytes of the block map that stands inside an inode.
pub const INLINE_BLOCK_BYTES: usize = 60;

/// Mask of the type of a mode.
pub const MODE_TYPE_MASK: u16 = 0xf000;

/// Mask of the permissions of a mode.
pub const MODE_PERM_MASK: u16 = 0x0fff;

pub const MODE_FIFO: u16 = 0x1000;

pub const MODE_CHARDEV: u16 = 0x2000;

pub const MODE_DIRECTORY: u16 = 0x4000;

pub const MODE_BLOCKDEV: u16 = 0x6000;

pub const MODE_FILE: u16 = 0x8000;

pub const MODE_SOFTLINK: u16 = 0xa000;

pub const MODE_SOCKET: u16 = 0xc000;

/// Inode flag: the block map is an extent tree.
pub const FLAG_EXTENTS: u32 = 0x8_0000;

/// Magic number of an extent node.
pub const EXTENT_MAGIC: u16 = 0xf30a;

/// Entries that fit into the extent node inside an inode.
pub const ROOT_EXTENT_ENTRIES: u16 = 4;

/// What an inode is.
#[derive(Clone, Copy, Debug, PartialEq, Eq, Structural)]
pub enum FileType {
    Unknown,
    RegularFile,
    Directory,
    CharacterDev,
    BlockDev,
    Fifo,
    Socket,
    SymLink,
}

/// File type and permissions.
#[derive(Clone, Copy, Debug, PartialEq, Eq, Structural)]
pub struct InodeMode {
    pub bits: u16,
}

/// The type in mode bits.
pub open spec fn type_of(bits: u16) -> FileType {
    let kind = bits & MODE_TYPE_MASK;
    if kind == MODE_FIFO {
        FileType::Fifo
    } else if kind == MODE_CHARDEV {
        FileType::CharacterDev
    } else if kind == MODE_DIRECTORY {
        FileType::Directory
    } else if kind == MODE_BLOCKDEV {
        FileType::BlockDev
    } else if kind == MODE_FILE {
        FileType::RegularFile
    } else if kind == MODE_SOFTLINK {
        FileType::SymLink
    } else if kind == MODE_SOCKET {
        FileType::Socket
    } else {
        FileType::Unknown
    }
}

/// The mode bits of a type.
pub open spec fn type_bits(kind: FileType) -> u16 {
    match kind {
        FileType::Unknown => 0,
        FileType::RegularFile => MODE_FILE,
        FileType::Directory => MODE_DIRECTORY,
        FileType::CharacterDev => MODE_CHARDEV,
        FileType::BlockDev => MODE_BLOCKDEV,
        FileType::Fifo => MODE_FIFO,
        FileType::Socket => MODE_SOCKET,
        FileType::SymLink => MODE_SOFTLINK,
    }
}

impl InodeMode {
    /// The mode with the given bits.
    pub fn from_bits_retain(bits: u16) -> (mode: Self)
        ensures
            mode.bits == bits,
    {
        InodeMode { bits }
    }

    /// The bits of the mode.
    pub fn bits(&self) -> (bits: u16)
        ensures
            bits == self.bits,
    {
        self.bits
    }

    /// The mode of the given type and permissions.
    pub fn from_type_and_perm(kind: FileType, perm: InodeMode) -> (mode: Self)
        ensures
            mode.bits == type_bits(kind) | (perm.bits & MODE_PERM_MASK),
    {
        let bits: u16 = match kind {
            FileType::Unknown => 0,
            FileType::RegularFile => MODE_FILE,
            FileType::Directory => MODE_DIRECTORY,
            FileType::CharacterDev => MODE_CHARDEV,
            FileType::BlockDev => MODE_BLOCKDEV,
            FileType::Fifo => MODE_FIFO,
            FileType::Socket => MODE_SOCKET,
            FileType::SymLink => MODE_SOFTLINK,
        };
        InodeMode { bits: bits | (perm.bits & MODE_PERM_MASK) }
    }

    /// The type in the mode.
    pub fn file_type(&self) -> (kind: FileType)
        ensures
            kind == type_of(self.bits),
    {
        let kind: u16 = self.bits & MODE_TYPE_MASK;
        if kind == MODE_FIFO {
            FileType::Fifo
        } else if kind == MODE_CHARDEV {
            FileType::CharacterDev
        } else if kind == MODE_DIRECTORY {
            FileType::Directory
        } else if kind == MODE_BLOCKDEV {
            FileType::BlockDev
        } else if kind == MODE_FILE {
            FileType::RegularFile
        } else if kind == MODE_SOFTLINK {
            FileType::SymLink
        } else if kind == MODE_SOCKET {
            FileType::Socket
        } else {
            FileType::Unknown
        }
    }
}

/// A mode says which type it was made of, and keeps the permissions.
pub proof fn lemma_mode_reads_back(kind: FileType, perm: u16)
    ensures
        type_of(type_bits(kind) | (perm & MODE_PERM_MASK)) == kind,
        (type_bits(kind) | (perm & MODE_PERM_MASK)) & MODE_PERM_MASK == perm & MODE_PERM_MASK,
{
    let bits = type_bits(kind);
    assert((bits | (perm & 0x0fff)) & 0xf000 == bits && (bits | (perm & 0x0fff)) & 0x0fff == perm
        & 0x0fff) by (bit_vector)
        requires
            bits == 0 || bits == 0x1000 || bits == 0x2000 || bits == 0x4000 || bits == 0x6000
                || bits == 0x8000 || bits == 0xa000 || bits == 0xc000,
    ;
}

/// An inode.
#[derive(Clone, Copy)]
pub struct Inode {
    pub raw: [u8; SB_GOOD_INODE_SIZE],
}

impl View for Inode {
    type V = Seq<u8>;

    open spec fn view(&self) -> Seq<u8> {
        self.raw@
    }
}

/// An inode and its number.
#[derive(Clone, Copy)]
pub struct InodeRef {
    pub id: InodeId,
    pub inode: Inode,
}

impl InodeRef {
    /// The inode with the given number.
    pub fn new(id: InodeId, inode: Inode) -> (found: Self)
        ensures
            found == (InodeRef { id, inode }),
    {
        InodeRef { id, inode }
    }
}

/// A 48-bit number whose low part stands at `low` and whose high part stands at `high`.
pub open spec fn wide48(raw: Seq<u8>, low: int, high: int) -> u64 {
    (le32_at(raw, low) as u64) | ((le16_at(raw, high) as u64) << 32)
}

/// Stores a 48-bit number.
pub open spec fn with_wide48(raw: Seq<u8>, low: int, high: int, value: u64) -> Seq<u8> {
    splice(splice(raw, low, le32(value as u32)), high, le16((value >> 32) as u16))
}

/// A 32-bit number in two halves.
pub open spec fn halves32(raw: Seq<u8>, low: int, high: int) -> u32 {
    (le16_at(raw, low) as u32) | ((le16_at(raw, high) as u32) << 16)
}

/// Stores a 32-bit number in two halves.
pub open spec fn with_halves32(raw: Seq<u8>, low: int, high: int, value: u32) -> Seq<u8> {
    splice(splice(raw, low, le16(value as u16)), high, le16((value >> 16) as u16))
}

/// A 64-bit number in two halves.
pub open spec fn halves64(raw: Seq<u8>, low: int, high: int) -> u64 {
    (le32_at(raw, low) as u64) | ((le32_at(raw, high) as u64) << 32)
}

/// Stores a 64-bit number in two halves.
pub open spec fn with_halves64(raw: Seq<u8>, low: int, high: int, value: u64) -> Seq<u8> {
    splice(splice(raw, low, le32(value as u32)), high, le32((value >> 32) as u32))
}

/// The device number as one word.
pub open spec fn encoded_device(major: u32, minor: u32) -> u32 {
    (minor & 0xff) | (major << 8) | ((minor & !0xffu32) << 12)
}

/// Major and minor number of a word.
pub open spec fn decoded_device(word: u32) -> (u32, u32) {
    ((word & 0xfff00) >> 8, (word & 0xff) | ((word >> 12) & 0xfff00))
}

/// The bytes of the block map that stands inside an inode.
pub open spec fn inline_of(raw: Seq<u8>) -> Seq<u8> {
    raw.subrange(40, 100)
}

/// The inode with an empty extent tree.
pub open spec fn with_empty_tree(raw: Seq<u8>) -> Seq<u8> {
    let cleared = splice(raw, 40, zeros(60));
    let marked = splice(cleared, 40, le16(EXTENT_MAGIC));
    let sized = splice(marked, 44, le16(ROOT_EXTENT_ENTRIES));
    splice(sized, 32, le32(le32_at(raw, 32) | FLAG_EXTENTS))
}

/// Whether the blocks of a file are kept in an extent tree.
pub open spec fn has_extents(raw: Seq<u8>) -> bool {
    le32_at(raw, 32) & FLAG_EXTENTS != 0
}

impl Inode {
    /// An inode of zero bytes.
    pub fn zeroed() -> (inode: Self)
        ensures
            inode@ == zeros(SB_GOOD_INODE_SIZE as nat),
    {
        let inode = Inode { raw: [0u8;SB_GOOD_INODE_SIZE] };
        assert(inode@ =~= zeros(SB_GOOD_INODE_SIZE as nat));
        inode
    }

    /// The bytes of the inode.
    pub fn bytes(&self) -> (bytes: &[u8; SB_GOOD_INODE_SIZE])
        ensures
            bytes@ == self@,
    {
        &self.raw
    }

    /// Type and permissions.
    pub fn mode(&self) -> (mode: InodeMode)
        ensures
            mode.bits == le16_at(self@, 0),
    {
        InodeMode { bits: get_le16(&self.raw, 0) }
    }

    /// Sets type and permissions.
    pub fn set_mode(&mut self, mode: InodeMode)
        ensures
            final(self)@ == splice(old(self)@, 0, le16(mode.bits)),
    {
        put_le16(&mut self.raw, 0, mode.bits);
    }

    /// The type.
    pub open spec fn kind(&self) -> FileType {
        type_of(le16_at(self@, 0))
    }

    /// The type.
    pub fn file_type(&self) -> (kind: FileType)
        ensures
            kind == self.kind(),
    {
        self.mode().file_type()
    }

    /// The permissions.
    pub fn perm(&self) -> (perm: InodeMode)
        ensures
            perm.bits == le16_at(self@, 0) & MODE_PERM_MASK,
    {
        InodeMode { bits: self.mode().bits & MODE_PERM_MASK }
    }

    /// Whether the inode is a regular file.
    pub fn is_file(&self) -> (is: bool)
        ensures
            is == (self.kind() == FileType::RegularFile),
    {
        self.file_type() == FileType::RegularFile
    }

    /// Whether the inode is a directory.
    pub fn is_dir(&self) -> (is: bool)
        ensures
            is == (self.kind() == FileType::Directory),
    {
        self.file_type() == FileType::Directory
    }

    /// Whether the inode is a symbolic link.
    pub fn is_softlink(&self) -> (is: bool)
        ensures
            is == (self.kind() == FileType::SymLink),
    {
        self.file_type() == FileType::SymLink
    }

    /// Whether the inode is a device.
    pub open spec fn device_kind(&self) -> bool {
        self.kind() == FileType::CharacterDev || self.kind() == FileType::BlockDev
    }

    /// Whether the inode is a device.
    pub fn is_device(&self) -> (is: bool)
        ensures
            is == self.device_kind(),
    {
        let kind = self.file_type();
        kind == FileType::CharacterDev || kind == FileType::BlockDev
    }

    /// The owner.
    pub fn uid(&self) -> (value: u32)
        ensures
            value == halves32(self@, 2, 120),
    {
        (get_le16(&self.raw, 2) as u32) | ((get_le16(&self.raw, 120) as u32) << 16)
    }

    /// Sets the owner.
    pub fn set_uid(&mut self, value: u32)
        ensures
            final(self)@ == with_halves32(old(self)@, 2, 120, value),
    {
        put_le16(&mut self.raw, 2, value as u16);
        put_le16(&mut self.raw, 120, (value >> 16) as u16);
    }

    /// The group.
    pub fn gid(&self) -> (value: u32)
        ensures
            value == halves32(self@, 24, 122),
    {
        (get_le16(&self.raw, 24) as u32) | ((get_le16(&self.raw, 122) as u32) << 16)
    }

    /// Sets the group.
    pub fn set_gid(&mut self, value: u32)
        ensures
            final(self)@ == with_halves32(old(self)@, 24, 122, value),
    {
        put_le16(&mut self.raw, 24, value as u16);
        put_le16(&mut self.raw, 122, (value >> 16) as u16);
    }

    /// The size in bytes.
    pub open spec fn byte_size(&self) -> u64 {
        halves64(self@, 4, 108)
    }

    /// The size in bytes.
    pub fn size(&self) -> (value: u64)
        ensures
            value == self.byte_size(),
    {
        (get_le32(&self.raw, 4) as u64) | ((get_le32(&self.raw, 108) as u64) << 32)
    }

    /// Sets the size in bytes.
    pub fn set_size(&mut self, value: u64)
        ensures
            final(self)@ == with_halves64(old(self)@, 4, 108, value),
    {
        put_le32(&mut self.raw, 4, value as u32);
        put_le32(&mut self.raw, 108, (value >> 32) as u32);
    }

    /// The sectors that the inode holds.
    pub open spec fn sectors(&self) -> u64 {
        wide48(self@, 28, 116)
    }

    /// The sectors that the inode holds.
    pub fn block_count(&self) -> (value: u64)
        ensures
            value == self.sectors(),
    {
        (get_le32(&self.raw, 28) as u64) | ((get_le16(&self.raw, 116) as u64) << 32)
    }

    /// Sets the sectors that the inode holds, of which 48 bits are kept.
    pub fn set_block_count(&mut self, value: u64)
        ensures
            final(self)@ == with_wide48(old(self)@, 28, 116, value),
    {
        put_le32(&mut self.raw, 28, value as u32);
        put_le16(&mut self.raw, 116, (value >> 32) as u16);
    }

    /// The blocks that the inode holds.
    pub fn fs_block_count(&self) -> (value: u64)
        ensures
            value == self.sectors() / SECTORS_PER_BLOCK,
    {
        self.block_count() / SECTORS_PER_BLOCK
    }

    /// Sets the blocks that the inode holds.
    pub fn set_fs_block_count(&mut self, value: u64)
        ensures
            final(self)@ == with_wide48(
                old(self)@,
                28,
                116,
                value.wrapping_mul(SECTORS_PER_BLOCK),
            ),
    {
        self.set_block_count(value.wrapping_mul(SECTORS_PER_BLOCK));
    }

    /// The block of the extended attributes, or zero.
    pub open spec fn attribute_block(&self) -> PBlockId {
        wide48(self@, 104, 118)
    }

    /// The block of the extended attributes, or zero.
    pub fn xattr_block(&self) -> (value: PBlockId)
        ensures
            value == self.attribute_block(),
    {
        (get_le32(&self.raw, 104) as u64) | ((get_le16(&self.raw, 118) as u64) << 32)
    }

    /// Sets the block of the extended attributes, of which 48 bits are kept.
    pub fn set_xattr_block(&mut self, value: PBlockId)
        ensures
            final(self)@ == with_wide48(old(self)@, 104, 118, value),
    {
        put_le32(&mut self.raw, 104, value as u32);
        put_le16(&mut self.raw, 118, (value >> 32) as u16);
    }

    /// Whether the block map is an extent tree.
    pub fn uses_extents(&self) -> (is: bool)
        ensures
            is == has_extents(self@),
    {
        get_le32(&self.raw, 32) & FLAG_EXTENTS != 0
    }

    /// Gives the inode an empty extent tree.
    pub fn extent_init(&mut self)
        ensures
            final(self)@ == with_empty_tree(old(self)@),
    {
        let flags: u32 = get_le32(&self.raw, 32);
        crate::bytes::put_zeros(&mut self.raw, 40, INLINE_BLOCK_BYTES);
        put_le16(&mut self.raw, 40, EXTENT_MAGIC);
        put_le16(&mut self.raw, 44, ROOT_EXTENT_ENTRIES);
        put_le32(&mut self.raw, 32, flags | FLAG_EXTENTS);
    }

    /// The block map that stands inside the inode.
    pub fn inline_block(&self) -> (bytes: &[u8])
        ensures
            bytes@ == inline_of(self@),
    {
        vstd::slice::slice_subrange(self.raw.as_slice(), 40, 100)
    }

    /// Major and minor number of a device.
    pub open spec fn device_number(&self) -> (u32, u32) {
        if le32_at(self@, 40) != 0 {
            let word = le32_at(self@, 40);
            ((word >> 8) & 0xff, word & 0xff)
        } else {
            decoded_device(le32_at(self@, 44))
        }
    }

    /// Major and minor number of a device.
    pub fn device(&self) -> (number: (u32, u32))
        ensures
            number == self.device_number(),
    {
        let short: u32 = get_le32(&self.raw, 40);
        if short != 0 {
            return ((short >> 8) & 0xff, short & 0xff);
        }
        let word: u32 = get_le32(&self.raw, 44);
        ((word & 0xfff00) >> 8, (word & 0xff) | ((word >> 12) & 0xfff00))
    }

    /// Stores the number of a device.
    pub fn set_device(&mut self, major: u32, minor: u32)
        ensures
            final(self)@ == with_device(old(self)@, major, minor),
    {
        if major < 256 && minor < 256 {
            put_le32(&mut self.raw, 40, (major << 8) | minor);
            put_le32(&mut self.raw, 44, 0);
        } else {
            put_le32(&mut self.raw, 40, 0);
            put_le32(
                &mut self.raw,
                44,
                (minor & 0xff) | (major << 8) | ((minor & !0xffu32) << 12),
            );
        }
    }

    /// The number of names.
    pub fn link_count(&self) -> (value: u16)
        ensures
            value == le16_at(self@, 26),
    {
        get_le16(&self.raw, 26)
    }

    /// Sets the number of names.
    pub fn set_link_count(&mut self, value: u16)
        ensures
            final(self)@ == splice(old(self)@, 26, le16(value)),
    {
        put_le16(&mut self.raw, 26, value);
    }

    /// The access time in seconds.
    pub fn atime(&self) -> (value: u32)
        ensures
            value == le32_at(self@, 8),
    {
        get_le32(&self.raw, 8)
    }

    /// Sets the access time in seconds.
    pub fn set_atime(&mut self, value: u32)
        ensures
            final(self)@ == splice(old(self)@, 8, le32(value)),
    {
        put_le32(&mut self.raw, 8, value);
    }

    /// The change time in seconds.
    pub fn ctime(&self) -> (value: u32)
        ensures
            value == le32_at(self@, 12),
    {
        get_le32(&self.raw, 12)
    }

    /// Sets the change time in seconds.
    pub fn set_ctime(&mut self, value: u32)
        ensures
            final(self)@ == splice(old(self)@, 12, le32(value)),
    {
        put_le32(&mut self.raw, 12, value);
    }

    /// The modification time in seconds.
    pub fn mtime(&self) -> (value: u32)
        ensures
            value == le32_at(self@, 16),
    {
        get_le32(&self.raw, 16)
    }

    /// Sets the modification time in seconds.
    pub fn set_mtime(&mut self, value: u32)
        ensures
            final(self)@ == splice(old(self)@, 16, le32(value)),
    {
        put_le32(&mut self.raw, 16, value);
    }

    /// The creation time in seconds.
    pub fn crtime(&self) -> (value: u32)
        ensures
            value == le32_at(self@, 144),
    {
        get_le32(&self.raw, 144)
    }

    /// Sets the creation time in seconds.
    pub fn set_crtime(&mut self, value: u32)
        ensures
            final(self)@ == splice(old(self)@, 144, le32(value)),
    {
        put_le32(&mut self.raw, 144, value);
    }

    /// The generation, which tells apart the files that had this number.
    pub fn generation(&self) -> (value: u32)
        ensures
            value == le32_at(self@, 100),
    {
        get_le32(&self.raw, 100)
    }

    /// Sets the number of the next orphan.
    pub fn set_next_orphan(&mut self, value: u32)
        ensures
            final(self)@ == splice(old(self)@, 20, le32(value)),
    {
        put_le32(&mut self.raw, 20, value);
    }
}

/// The inode with the number of a device.
pub open spec fn with_device(raw: Seq<u8>, major: u32, minor: u32) -> Seq<u8> {
    if major < 256 && minor < 256 {
        splice(splice(raw, 40, le32((major << 8) | minor)), 44, le32(0))
    } else {
        splice(splice(raw, 40, le32(0)), 44, le32(encoded_device(major, minor)))
    }
}

/// A stored device number is read back, for every number that the format can hold.
pub proof fn lemma_device_reads_back(inode: Inode, after: Inode, major: u32, minor: u32)
    requires
        after@ == with_device(inode@, major, minor),
        inode@.len() == SB_GOOD_INODE_SIZE,
        major < 0x1000,
        minor < 0x10_0000,
    ensures
        after.device_number() == (major, minor),
{
    broadcast use crate::bytes::lemma_le32_round_trip;

    let raw = inode@;
    if major < 256 && minor < 256 {
        let word = (major << 8) | minor;
        let first = splice(raw, 40, le32(word));
        assert(le32_at(first, 40) == word);
        assert(le32_at(after@, 40) == le32_at(first, 40));
        assert(le32_at(after@, 44) == 0);
        assert((word >> 8) & 0xff == major && word & 0xff == minor && (word == 0 ==> major == 0
            && minor == 0)) by (bit_vector)
            requires
                word == (major << 8) | minor,
                major < 256,
                minor < 256,
        ;
        assert((0u32 & 0xfff00) >> 8 == 0 && (0u32 & 0xff) | ((0u32 >> 12) & 0xfff00) == 0)
            by (bit_vector);
    } else {
        let first = splice(raw, 40, le32(0));
        assert(le32_at(first, 40) == 0);
        assert(le32_at(after@, 40) == le32_at(first, 40));
        let word = encoded_device(major, minor);
        assert(le32_at(after@, 44) == word);
        assert((word & 0xfff00) >> 8 == major && (word & 0xff) | ((word >> 12) & 0xfff00)
            == minor) by (bit_vector)
            requires
                word == (minor & 0xff) | (major << 8) | ((minor & !0xffu32) << 12),
                major < 0x1000,
                minor < 0x10_0000,
        ;
    }
}

/// A stored size is read back.
pub proof fn lemma_size_reads_back(raw: Seq<u8>, value: u64)
    requires
        raw.len() == SB_GOOD_INODE_SIZE,
    ensures
        halves64(with_halves64(raw, 4, 108, value), 4, 108) == value,
{
    broadcast use crate::bytes::lemma_le32_round_trip;

    let first = splice(raw, 4, le32(value as u32));
    let both = with_halves64(raw, 4, 108, value);
    assert(le32_at(both, 4) == le32_at(first, 4));
    assert((value as u32) as u64 | (((value >> 32) as u32) as u64) << 32 == value) by (bit_vector);
}

/// A stored block of extended attributes is read back, as long as its number has 48 bits.
pub proof fn lemma_wide48_reads_back(raw: Seq<u8>, low: int, high: int, value: u64)
    requires
        raw.len() == SB_GOOD_INODE_SIZE,
        0 <= low,
        low + 4 <= high,
        high + 2 <= raw.len(),
        value < 0x1_0000_0000_0000,
    ensures
        wide48(with_wide48(raw, low, high, value), low, high) == value,
{
    broadcast use crate::bytes::lemma_le32_round_trip, crate::bytes::lemma_le16_round_trip;

    let first = splice(raw, low, le32(value as u32));
    let both = with_wide48(raw, low, high, value);
    assert(le32_at(both, low) == le32_at(first, low));
    assert((value as u32) as u64 | (((value >> 32) as u16) as u64) << 32 == value) by (bit_vector)
        requires
            value < 0x1_0000_0000_0000,
    ;
}

/// The attributes of a file.
#[derive(Clone, Copy, Debug, PartialEq, Eq)]
pub struct FileAttr {
    pub ino: InodeId,
    pub generation: u32,
    pub size: u64,
    pub blocks: u64,
    pub atime: u32,
    pub mtime: u32,
    pub ctime: u32,
    pub crtime: u32,
    pub ftype: FileType,
    pub perm: InodeMode,
    pub links: u16,
    pub uid: u32,
    pub gid: u32,
    pub rdev: (u32, u32),
}

/// The attributes that an inode holds.
pub open spec fn attributes_of(file: InodeRef) -> FileAttr {
    let raw = file.inode@;
    FileAttr {
        ino: file.id,
        generation: le32_at(raw, 100),
        size: file.inode.byte_size(),
        blocks: file.inode.sectors(),
        atime: le32_at(raw, 8),
        mtime: le32_at(raw, 16),
        ctime: le32_at(raw, 12),
        crtime: le32_at(raw, 144),
        ftype: file.inode.kind(),
        perm: InodeMode { bits: le16_at(raw, 0) & MODE_PERM_MASK },
        links: le16_at(raw, 26),
        uid: halves32(raw, 2, 120),
        gid: halves32(raw, 24, 122),
        rdev: if file.inode.device_kind() {
            file.inode.device_number()
        } else {
            (0, 0)
        },
    }
}

/// The attributes that an inode holds.
pub fn file_attr(inode: &InodeRef) -> (attr: FileAttr)
    ensures
        attr == attributes_of(*inode),
{
    let rdev: (u32, u32) = if inode.inode.is_device() {
        inode.inode.device()
    } else {
        (0, 0)
    };
    FileAttr {
        ino: inode.id,
        generation: inode.inode.generation(),
        size: inode.inode.size(),
        blocks: inode.inode.block_count(),
        atime: inode.inode.atime(),
        mtime: inode.inode.mtime(),
        ctime: inode.inode.ctime(),
        crtime: inode.inode.crtime(),
        ftype: inode.inode.file_type(),
        perm: inode.inode.perm(),
        links: inode.inode.link_count(),
        uid: inode.inode.uid(),
        gid: inode.inode.gid(),
        rdev,
    }
}

/// Owner and group of a new inode.
#[derive(Clone, Copy)]
pub struct InodeOwner {
    pub uid: u32,
    pub gid: u32,
}

/// The attributes to set on an inode.
#[derive(Clone, Copy)]
pub struct SetAttr {
    /// File type and permissions.
    pub mode: Option<InodeMode>,
    pub uid: Option<u32>,
    pub gid: Option<u32>,
    /// Size in bytes.
    pub size: Option<u64>,
    /// Access time in seconds.
    pub atime: Option<u32>,
    /// Modification time in seconds.
    pub mtime: Option<u32>,
    /// Change time in seconds.
    pub ctime: Option<u32>,
    /// Creation time in seconds.
    pub crtime: Option<u32>,
}

/// The value at `low` and `high`, where there is one to store.
pub open spec fn owner_set(raw: Seq<u8>, low: int, high: int, value: Option<u32>) -> Seq<u8> {
    match value {
        Some(value) => with_halves32(raw, low, high, value),
        None => raw,
    }
}

/// The value at `at`, where there is one to store.
pub open spec fn time_set(raw: Seq<u8>, at: int, value: Option<u32>) -> Seq<u8> {
    match value {
        Some(value) => splice(raw, at, le32(value)),
        None => raw,
    }
}

impl SetAttr {
    /// No attribute.
    pub fn new() -> (attr: Self)
        ensures
            attr == (SetAttr {
                mode: None,
                uid: None,
                gid: None,
                size: None,
                atime: None,
                mtime: None,
                ctime: None,
                crtime: None,
            }),
    {
        SetAttr {
            mode: None,
            uid: None,
            gid: None,
            size: None,
            atime: None,
            mtime: None,
            ctime: None,
            crtime: None,
        }
    }

    /// Whether the attributes are such as writeback changes.
    pub open spec fn writeback_only(&self) -> bool {
        &&& self.mode is None
        &&& self.uid is None
        &&& self.gid is None
        &&& self.size is Some || self.atime is Some || self.mtime is Some || self.ctime is Some
            || self.crtime is Some
    }

    /// Whether the attributes are such as writeback changes.
    pub fn is_writeback_metadata_only(&self) -> (only: bool)
        ensures
            only == self.writeback_only(),
    {
        self.mode.is_none() && self.uid.is_none() && self.gid.is_none() && (self.size.is_some()
            || self.atime.is_some() || self.mtime.is_some() || self.ctime.is_some()
            || self.crtime.is_some())
    }

    /// The inode with the attributes stored.
    pub open spec fn applied(&self, raw: Seq<u8>) -> Seq<u8> {
        let mode_set = match self.mode {
            Some(mode) => splice(raw, 0, le16(mode.bits)),
            None => raw,
        };
        let owned = owner_set(owner_set(mode_set, 2, 120, self.uid), 24, 122, self.gid);
        let sized = match self.size {
            Some(size) => with_halves64(owned, 4, 108, size),
            None => owned,
        };
        time_set(
            time_set(time_set(time_set(sized, 8, self.atime), 16, self.mtime), 12, self.ctime),
            144,
            self.crtime,
        )
    }

    /// Stores the attributes in `inode`.
    pub fn apply_to(&self, inode: &mut Inode)
        ensures
            final(inode)@ == self.applied(old(inode)@),
    {
        if let Some(mode) = self.mode {
            inode.set_mode(mode);
        }
        if let Some(uid) = self.uid {
            inode.set_uid(uid);
        }
        if let Some(gid) = self.gid {
            inode.set_gid(gid);
        }
        if let Some(size) = self.size {
            inode.set_size(size);
        }
        if let Some(atime) = self.atime {
            inode.set_atime(atime);
        }
        if let Some(mtime) = self.mtime {
            inode.set_mtime(mtime);
        }
        if let Some(ctime) = self.ctime {
            inode.set_ctime(ctime);
        }
        if let Some(crtime) = self.crtime {
            inode.set_crtime(crtime);
        }
    }
}

/// A number that was stored in two 16-bit halves is read back.
proof fn lemma_halves32_read_back(raw: Seq<u8>, low: int, high: int, value: u32)
    requires
        0 <= low,
        low + 2 <= high,
        high + 2 <= raw.len(),
    ensures
        with_halves32(raw, low, high, value).len() == raw.len(),
        halves32(with_halves32(raw, low, high, value), low, high) == value,
        forall|i: int|
            0 <= i < raw.len() && !(low <= i < low + 2) && !(high <= i < high + 2)
                ==> #[trigger] with_halves32(raw, low, high, value)[i] == raw[i],
{
    broadcast use crate::bytes::lemma_le16_round_trip;

    let first = splice(raw, low, le16(value as u16));
    let both = with_halves32(raw, low, high, value);
    assert(le16_at(both, low) == le16_at(first, low));
    assert((value as u16) as u32 | (((value >> 16) as u16) as u32) << 16 == value) by (bit_vector);
}

/// The attributes of a file once some of them are set.
pub open spec fn attributes_with(before: FileAttr, number: (u32, u32), attr: SetAttr) -> FileAttr {
    let mode = attr.mode;
    let ftype = if mode is Some {
        type_of(mode->0.bits)
    } else {
        before.ftype
    };
    FileAttr {
        ftype,
        perm: if mode is Some {
            InodeMode { bits: mode->0.bits & MODE_PERM_MASK }
        } else {
            before.perm
        },
        uid: if attr.uid is Some {
            attr.uid->0
        } else {
            before.uid
        },
        gid: if attr.gid is Some {
            attr.gid->0
        } else {
            before.gid
        },
        size: if attr.size is Some {
            attr.size->0
        } else {
            before.size
        },
        atime: if attr.atime is Some {
            attr.atime->0
        } else {
            before.atime
        },
        mtime: if attr.mtime is Some {
            attr.mtime->0
        } else {
            before.mtime
        },
        ctime: if attr.ctime is Some {
            attr.ctime->0
        } else {
            before.ctime
        },
        crtime: if attr.crtime is Some {
            attr.crtime->0
        } else {
            before.crtime
        },
        rdev: if ftype == FileType::CharacterDev || ftype == FileType::BlockDev {
            number
        } else {
            (0, 0)
        },
        ..before
    }
}

/// Whether two inodes have the same bytes outside two fields.
spec fn same_but(before: Seq<u8>, after: Seq<u8>, low: int, high: int, len: int) -> bool {
    &&& before.len() == SB_GOOD_INODE_SIZE
    &&& after.len() == SB_GOOD_INODE_SIZE
    &&& forall|i: int|
        0 <= i < SB_GOOD_INODE_SIZE && !(low <= i < low + len) && !(high <= i < high + len)
            ==> #[trigger] after[i] == before[i]
}

/// Storing an owner changes its field alone.
proof fn lemma_owner_step(raw: Seq<u8>, low: int, high: int, value: Option<u32>)
    requires
        raw.len() == SB_GOOD_INODE_SIZE,
        0 <= low,
        low + 2 <= high,
        high + 2 <= SB_GOOD_INODE_SIZE,
    ensures
        same_but(raw, owner_set(raw, low, high, value), low, high, 2),
        halves32(owner_set(raw, low, high, value), low, high) == match value {
            Some(value) => value,
            None => halves32(raw, low, high),
        },
{
    if let Some(value) = value {
        lemma_halves32_read_back(raw, low, high, value);
    }
}

/// Storing a time changes its field alone.
proof fn lemma_time_step(raw: Seq<u8>, at: int, value: Option<u32>)
    requires
        raw.len() == SB_GOOD_INODE_SIZE,
        0 <= at,
        at + 4 <= SB_GOOD_INODE_SIZE,
    ensures
        same_but(raw, time_set(raw, at, value), at, at, 4),
        le32_at(time_set(raw, at, value), at) == match value {
            Some(value) => value,
            None => le32_at(raw, at),
        },
{
    broadcast use crate::bytes::lemma_le32_round_trip;

}

/// The fields of an inode after a chain of stores are those of the stores.
proof fn lemma_chain(
    raw: Seq<u8>,
    m: Seq<u8>,
    u: Seq<u8>,
    g: Seq<u8>,
    s: Seq<u8>,
    a: Seq<u8>,
    t: Seq<u8>,
    c: Seq<u8>,
    last: Seq<u8>,
)
    requires
        same_but(raw, m, 0, 0, 2),
        same_but(m, u, 2, 120, 2),
        same_but(u, g, 24, 122, 2),
        same_but(g, s, 4, 108, 4),
        same_but(s, a, 8, 8, 4),
        same_but(a, t, 16, 16, 4),
        same_but(t, c, 12, 12, 4),
        same_but(c, last, 144, 144, 4),
    ensures
        le16_at(last, 0) == le16_at(m, 0),
        halves32(last, 2, 120) == halves32(u, 2, 120),
        halves32(m, 2, 120) == halves32(raw, 2, 120),
        halves32(last, 24, 122) == halves32(g, 24, 122),
        halves32(u, 24, 122) == halves32(raw, 24, 122),
        halves64(last, 4, 108) == halves64(s, 4, 108),
        halves64(g, 4, 108) == halves64(raw, 4, 108),
        le32_at(last, 8) == le32_at(a, 8),
        le32_at(s, 8) == le32_at(raw, 8),
        le32_at(last, 16) == le32_at(t, 16),
        le32_at(a, 16) == le32_at(raw, 16),
        le32_at(last, 12) == le32_at(c, 12),
        le32_at(t, 12) == le32_at(raw, 12),
        le32_at(c, 144) == le32_at(raw, 144),
        le32_at(last, 100) == le32_at(raw, 100),
        le16_at(last, 26) == le16_at(raw, 26),
        wide48(last, 28, 116) == wide48(raw, 28, 116),
        le32_at(last, 40) == le32_at(raw, 40),
        le32_at(last, 44) == le32_at(raw, 44),
{
}

/// Attributes that are set are read back, and the others are as before.
pub proof fn lemma_attributes_read_back(before: InodeRef, after: InodeRef, attr: SetAttr)
    requires
        after.id == before.id,
        after.inode@ == attr.applied(before.inode@),
        before.inode@.len() == SB_GOOD_INODE_SIZE,
    ensures
        attributes_of(after) == attributes_with(
            attributes_of(before),
            before.inode.device_number(),
            attr,
        ),
{
    broadcast use crate::bytes::lemma_le16_round_trip;

    let raw = before.inode@;
    let m = match attr.mode {
        Some(mode) => splice(raw, 0, le16(mode.bits)),
        None => raw,
    };
    let u = owner_set(m, 2, 120, attr.uid);
    let g = owner_set(u, 24, 122, attr.gid);
    let s = match attr.size {
        Some(size) => with_halves64(g, 4, 108, size),
        None => g,
    };
    let a = time_set(s, 8, attr.atime);
    let t = time_set(a, 16, attr.mtime);
    let c = time_set(t, 12, attr.ctime);
    let last = time_set(c, 144, attr.crtime);
    lemma_owner_step(m, 2, 120, attr.uid);
    lemma_owner_step(u, 24, 122, attr.gid);
    if let Some(size) = attr.size {
        lemma_size_reads_back(g, size);
    }
    assert(same_but(g, s, 4, 108, 4));
    lemma_time_step(s, 8, attr.atime);
    lemma_time_step(a, 16, attr.mtime);
    lemma_time_step(t, 12, attr.ctime);
    lemma_time_step(c, 144, attr.crtime);
    lemma_chain(raw, m, u, g, s, a, t, c, last);
}

} // verus!
