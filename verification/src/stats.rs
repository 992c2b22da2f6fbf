//! Counters of how ranges of blocks are prepared for writes.

use vstd::prelude::*;

verus! {

/// What was counted while ranges of blocks were prepared. Each counter starts again at zero once
/// it is full.
#[derive(Clone, Copy, Debug, PartialEq, Eq, Structural)]
pub struct PrepareStats {
    /// Ranges that were prepared.
    pub calls: u64,
    /// Blocks of those ranges.
    pub requested: u64,
    /// Blocks that were mapped already.
    pub mapped: u64,
    /// Blocks that were not mapped yet.
    pub missing: u64,
    /// Preparations that failed.
    pub failures: u64,
    /// Inodes that were staged or stored.
    pub inode_io: u64,
    /// Block bitmaps that were stored.
    pub bitmap_io: u64,
    /// Group descriptors that were stored.
    pub gdt_io: u64,
    /// Superblocks that were stored.
    pub superblock_io: u64,
    /// Extent trees that were walked to count the blocks of a file.
    pub full_traversals: u64,
    /// Searches for the place of a block.
    pub extent_queries: u64,
}

impl PrepareStats {
    /// The counters with one more range of `blocks` blocks.
    pub open spec fn with_call(self, blocks: u64) -> Self {
        PrepareStats {
            calls: self.calls.wrapping_add(1),
            requested: self.requested.wrapping_add(blocks),
            ..self
        }
    }

    /// The counters with one more mapped block.
    pub open spec fn with_mapped(self) -> Self {
        PrepareStats { mapped: self.mapped.wrapping_add(1), ..self }
    }

    /// The counters with more blocks that are not mapped.
    pub open spec fn with_missing(self, blocks: u64) -> Self {
        PrepareStats { missing: self.missing.wrapping_add(blocks), ..self }
    }

    /// The counters with one more failure.
    pub open spec fn with_failure(self) -> Self {
        PrepareStats { failures: self.failures.wrapping_add(1), ..self }
    }

    /// The counters with one more inode.
    pub open spec fn with_inode_io(self) -> Self {
        PrepareStats { inode_io: self.inode_io.wrapping_add(1), ..self }
    }

    /// The counters with one more commit of an allocation and its inode.
    pub open spec fn with_commit(self) -> Self {
        PrepareStats {
            inode_io: self.inode_io.wrapping_add(1),
            bitmap_io: self.bitmap_io.wrapping_add(1),
            gdt_io: self.gdt_io.wrapping_add(1),
            superblock_io: self.superblock_io.wrapping_add(1),
            ..self
        }
    }

    /// The counters with one more commit, or one more failure.
    pub open spec fn with_ending(self, committed: bool) -> Self {
        if committed {
            self.with_commit()
        } else {
            self.with_failure()
        }
    }

    /// The counters with one more walk through an extent tree.
    pub open spec fn with_traversal(self) -> Self {
        PrepareStats { full_traversals: self.full_traversals.wrapping_add(1), ..self }
    }

    /// The counters with one more search for a block.
    pub open spec fn with_query(self) -> Self {
        PrepareStats { extent_queries: self.extent_queries.wrapping_add(1), ..self }
    }

    /// Whether nothing was counted yet.
    pub open spec fn fresh(self) -> bool {
        self == (PrepareStats {
            calls: 0,
            requested: 0,
            mapped: 0,
            missing: 0,
            failures: 0,
            inode_io: 0,
            bitmap_io: 0,
            gdt_io: 0,
            superblock_io: 0,
            full_traversals: 0,
            extent_queries: 0,
        })
    }

    /// Counters that counted nothing.
    pub fn new() -> (stats: Self)
        ensures
            stats.fresh(),
    {
        PrepareStats {
            calls: 0,
            requested: 0,
            mapped: 0,
            missing: 0,
            failures: 0,
            inode_io: 0,
            bitmap_io: 0,
            gdt_io: 0,
            superblock_io: 0,
            full_traversals: 0,
            extent_queries: 0,
        }
    }

    /// Counts one range.
    pub fn record_call(&mut self, blocks: u64)
        ensures
            *final(self) == old(self).with_call(blocks),
    {
        self.calls = self.calls.wrapping_add(1);
        self.requested = self.requested.wrapping_add(blocks);
    }

    /// Counts a mapped block.
    pub fn record_mapped(&mut self)
        ensures
            *final(self) == old(self).with_mapped(),
    {
        self.mapped = self.mapped.wrapping_add(1);
    }

    /// Counts blocks that are not mapped.
    pub fn record_missing_blocks(&mut self, blocks: u64)
        ensures
            *final(self) == old(self).with_missing(blocks),
    {
        self.missing = self.missing.wrapping_add(blocks);
    }

    /// Counts a failure.
    pub fn record_failure(&mut self)
        ensures
            *final(self) == old(self).with_failure(),
    {
        self.failures = self.failures.wrapping_add(1);
    }

    /// Counts an inode.
    pub fn record_inode_io(&mut self)
        ensures
            *final(self) == old(self).with_inode_io(),
    {
        self.inode_io = self.inode_io.wrapping_add(1);
    }

    /// Counts a commit of an allocation and its inode.
    pub fn record_commit(&mut self)
        ensures
            *final(self) == old(self).with_commit(),
    {
        self.bitmap_io = self.bitmap_io.wrapping_add(1);
        self.gdt_io = self.gdt_io.wrapping_add(1);
        self.superblock_io = self.superblock_io.wrapping_add(1);
        self.record_inode_io();
    }

    /// Counts a walk through an extent tree.
    pub fn record_block_count_full_traversal(&mut self)
        ensures
            *final(self) == old(self).with_traversal(),
    {
        self.full_traversals = self.full_traversals.wrapping_add(1);
    }

    /// Counts a search for a block.
    pub fn record_extent_query_attempt(&mut self)
        ensures
            *final(self) == old(self).with_query(),
    {
        self.extent_queries = self.extent_queries.wrapping_add(1);
    }
}

} // verus!
