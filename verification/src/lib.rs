//! Crash-consistent metadata transactions and file operations of an ext4 file system.

use vstd::prelude::*;

pub mod alloc_record;
pub mod append_range;
pub mod appended_content;
pub mod attr;
pub mod attr_readback;
pub mod balloc;
pub mod birth;
pub mod bytes;
pub mod commit;
pub mod commit_plan;
pub mod content;
pub mod context;
pub mod crc32c;
pub mod data;
pub mod data_read;
pub mod dir_links;
pub mod direct_range;
pub mod error;
pub mod device;
pub mod durability;
pub mod extent;
pub mod file_write;
pub mod file_xattr;
pub mod fs;
pub mod gate;
pub mod grow;
pub mod guard;
pub mod inode;
pub mod jbd2;
pub mod journal_log;
pub mod journal_transaction;
pub mod namespace;
pub mod link_count;
pub mod logged_content;
pub mod mapped;
pub mod move_links;
pub mod name_moves;
pub mod naming;
pub mod prepare;
pub mod prepare_journal;
pub mod prepared_content;
pub mod prepared_extent;
pub mod range;
pub mod readback;
pub mod rename;
pub mod replace_links;
pub mod resize;
pub mod shrink;
pub mod sight;
pub mod staged;
pub mod stats;
pub mod stored_content;
pub mod superblock;
pub mod token;
pub mod trace;
pub mod tree;
pub mod truncate;
pub mod unlink;
pub mod unlink_links;
pub mod volume;
pub mod whole_content;
pub mod xattr;
pub mod xattr_law;
pub mod xattr_readback;

verus! {

/// Bytes of one file system block.
pub const BLOCK_SIZE: usize = 4096;

/// Number of a block inside a file.
pub type LBlockId = u32;

/// Number of a block on the device.
pub type PBlockId = u64;

/// Number of an inode.
pub type InodeId = u32;

} // verus!
