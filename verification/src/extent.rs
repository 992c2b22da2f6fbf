//! Extents, as they stand in the nodes of a file's extent tree.

use vstd::prelude::*;
use crate::bytes::{get_le16, get_le32, le16_at, le32_at};
use crate::{LBlockId, PBlockId};

verus! {

/// Bytes of a node's header, and of each of its entries.
pub const EXTENT_ENTRY_BYTES: usize = 12;

/// The longest initialized extent; a larger length marks an extent without data.
pub const EXTENT_MAX_INIT_LEN: u16 = 0x8000;

/// The blocks that an extent maps.
#[derive(Clone, Copy, Debug, PartialEq, Eq, Structural)]
pub struct Extent {
    pub start_lblock: LBlockId,
    pub block_count: u32,
    pub start_pblock: PBlockId,
}

/// The blocks of a file that an extent maps, and where they stand.
#[derive(Clone, Copy, Debug, PartialEq, Eq, Structural)]
pub struct ExtentWriteRange {
    pub start_lblock: LBlockId,
    pub end_lblock: LBlockId,
    pub start_pblock: PBlockId,
}

impl ExtentWriteRange {
    /// Whether the range maps `lblock`.
    pub open spec fn maps(&self, lblock: LBlockId) -> bool {
        self.start_lblock <= lblock < self.end_lblock
    }
}

/// The number of blocks that a stored length stands for.
pub open spec fn extent_len(stored: u16) -> u32 {
    if stored <= EXTENT_MAX_INIT_LEN {
        stored as u32
    } else {
        (stored - EXTENT_MAX_INIT_LEN) as u32
    }
}

/// Whether a node has room for the entry at `index`.
pub open spec fn has_entry(node: Seq<u8>, index: nat) -> bool {
    (index + 2) * EXTENT_ENTRY_BYTES <= node.len()
}

/// The extent at `index` of a leaf node.
pub open spec fn extent_in(node: Seq<u8>, index: nat) -> Extent {
    let at = ((index + 1) * EXTENT_ENTRY_BYTES) as int;
    Extent {
        start_lblock: le32_at(node, at),
        block_count: extent_len(le16_at(node, at + 4)),
        start_pblock: (le32_at(node, at + 8) as u64) | ((le16_at(node, at + 6) as u64) << 32),
    }
}

/// The depth of the tree below a node.
pub open spec fn depth_in(node: Seq<u8>) -> u16 {
    le16_at(node, 6)
}

/// The depth of the tree below a node.
pub fn node_depth(node: &[u8]) -> (depth: u16)
    requires
        node@.len() >= EXTENT_ENTRY_BYTES,
    ensures
        depth == depth_in(node@),
{
    get_le16(node, 6)
}

/// The extent at `index` of a leaf node, if the node has room for it.
pub fn extent_at(node: &[u8], index: usize) -> (extent: Option<Extent>)
    ensures
        match extent {
            Some(found) => has_entry(node@, index as nat) && found == extent_in(
                node@,
                index as nat,
            ),
            None => !has_entry(node@, index as nat),
        },
{
    let len: usize = node.len();
    if len < 2 * EXTENT_ENTRY_BYTES || index > (len - 2 * EXTENT_ENTRY_BYTES) / EXTENT_ENTRY_BYTES {
        return None;
    }
    let at: usize = (index + 1) * EXTENT_ENTRY_BYTES;
    let stored: u16 = get_le16(node, at + 4);
    let block_count: u32 = if stored <= EXTENT_MAX_INIT_LEN {
        stored as u32
    } else {
        (stored - EXTENT_MAX_INIT_LEN) as u32
    };
    Some(
        Extent {
            start_lblock: get_le32(node, at),
            block_count,
            start_pblock: (get_le32(node, at + 8) as u64) | ((get_le16(node, at + 6) as u64)
                << 32),
        },
    )
}

} // verus!
