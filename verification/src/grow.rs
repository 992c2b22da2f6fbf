//! Giving blocks to the byte ranges of a file, and writing to them.

use vstd::prelude::*;
use crate::balloc::blocks_in;
use crate::bytes::le16_at;
use crate::device::BlockDevice;
use crate::error::{failed, ErrCode, Ext4Error, Result};
use crate::extent::{depth_in, node_depth};
use crate::fs::Ext4;
use crate::inode::{
    inline_of, with_wide48, Inode, InodeRef, SECTORS_PER_BLOCK,
};
use crate::range::{addressable, range_of, WriteLogicalRange};
use crate::volume::{LayerCall, Volume};
use crate::{InodeId, LBlockId, PBlockId};

verus! {

broadcast use Ext4::lemma_with_counts;

/// The longest run of blocks that one extent takes at once.
pub const MAX_NEW_EXTENT_BLOCKS: usize = 65535;

/// Whether an inode is in no use.
pub open spec fn is_free(inode: Inode) -> bool {
    le16_at(inode@, 0) == 0
}

/// Whether the extents of a file stand inside its inode.
pub open spec fn flat(inode: Inode) -> bool {
    depth_in(inline_of(inode@)) == 0
}

/// The end of the blocks from `start` on that one extent can take, of which those before `end` are
/// known to belong to it.
pub open spec fn joint_end(
    lblocks: Seq<LBlockId>,
    homes: Seq<PBlockId>,
    start: int,
    end: int,
) -> int
    decreases lblocks.len() - end,
{
    if start < end < lblocks.len() && end < homes.len() && end - start < MAX_NEW_EXTENT_BLOCKS
        && lblocks[end] == lblocks[start] + (end - start) && homes[end] == homes[start] + (end
        - start) {
        joint_end(lblocks, homes, start, end + 1)
    } else {
        end
    }
}

/// The end of the blocks from `start` on that one extent can take.
fn find_joint_end(lblocks: &Vec<LBlockId>, homes: &Vec<PBlockId>, start: usize) -> (end: usize)
    requires
        start < lblocks@.len(),
        lblocks@.len() == homes@.len(),
    ensures
        end == joint_end(lblocks@, homes@, start as int, start + 1),
        start < end <= lblocks@.len(),
        end - start <= MAX_NEW_EXTENT_BLOCKS,
        lblocks@[start as int] + (end - start) <= u32::MAX + 1,
        homes@[start as int] + (end - start) <= u64::MAX + 1,
{
    let count: usize = lblocks.len();
    let mut end: usize = start + 1;
    while end < count
        invariant
            start < end <= count,
            count == lblocks@.len(),
            count == homes@.len(),
            end - start <= MAX_NEW_EXTENT_BLOCKS,
            lblocks@[start as int] + (end - start) <= u32::MAX + 1,
            homes@[start as int] + (end - start) <= u64::MAX + 1,
            joint_end(lblocks@, homes@, start as int, start + 1) == joint_end(
                lblocks@,
                homes@,
                start as int,
                end as int,
            ),
        ensures
            end == joint_end(lblocks@, homes@, start as int, start + 1),
            start < end <= count,
            end - start <= MAX_NEW_EXTENT_BLOCKS,
            lblocks@[start as int] + (end - start) <= u32::MAX + 1,
            homes@[start as int] + (end - start) <= u64::MAX + 1,
        decreases count - end,
    {
        let more: usize = end - start;
        if more >= MAX_NEW_EXTENT_BLOCKS {
            break;
        }
        match lblocks[start].checked_add(more as u32) {
            Some(lblock) => {
                if lblocks[end] != lblock {
                    break;
                }
            },
            None => {
                break;
            },
        }
        match homes[start].checked_add(more as u64) {
            Some(home) => {
                if homes[end] != home {
                    break;
                }
            },
            None => {
                break;
            },
        }
        end = end + 1;
    }
    end
}

impl<D: BlockDevice, V: Volume<D>> Ext4<D, V> {
    /// What counting the blocks of a file calls, changes and returns, once its data blocks are
    /// counted.
    pub open spec fn tree_counted(
        &self,
        after: &Self,
        inode: InodeRef,
        counted: InodeRef,
        data_blocks: u32,
        outcome: Result<()>,
    ) -> bool {
        exists|reply: Result<u32>|
            {
                &&& #[trigger] self.asked(after, LayerCall::TreeBlocks { inode, reply })
                &&& match reply {
                    Ok(tree_blocks) => {
                        &&& outcome == Ok::<(), Ext4Error>(())
                        &&& counted.id == inode.id
                        &&& counted.inode@ == with_wide48(
                            inode.inode@,
                            28,
                            116,
                            ((data_blocks + tree_blocks) * SECTORS_PER_BLOCK) as u64,
                        )
                    },
                    Err(error) => counted == inode && outcome == Err::<(), Ext4Error>(error),
                }
            }
    }

    /// What counting the blocks of a file calls, changes and returns; that it is done is counted
    /// too.
    pub open spec fn blocks_counted(
        &self,
        after: &Self,
        inode: InodeRef,
        counted: InodeRef,
        outcome: Result<()>,
    ) -> bool {
        exists|asked: Self, reply: Result<u32>|
            {
                &&& #[trigger] self.with_counts(self.counts().with_traversal()).asked(
                    &asked,
                    LayerCall::DataBlocks { inode, reply },
                )
                &&& match reply {
                    Ok(data_blocks) => asked.tree_counted(
                        after,
                        inode,
                        counted,
                        data_blocks,
                        outcome,
                    ),
                    Err(error) => {
                        &&& asked.idle(after)
                        &&& counted == inode
                        &&& outcome == Err::<(), Ext4Error>(error)
                    },
                }
            }
    }

    /// Counts the blocks of a file.
    pub(crate) fn recompute_inode_block_count(&mut self, inode: &mut InodeRef) -> (outcome: Result<
        (),
    >)
        requires
            old(self).inv(),
        ensures
            final(self).state() == old(self).state(),
            old(self).blocks_counted(final(self), *old(inode), *final(inode), outcome),
    {
        self.record_block_count_full_traversal();
        let reply = self.extent_data_blocks(inode);
        let ghost asked = *self;
        assert(old(self).with_counts(old(self).counts().with_traversal()).asked(
            &asked,
            LayerCall::DataBlocks { inode: *inode, reply },
        ));
        let data_blocks: u32 = match reply {
            Ok(count) => count,
            Err(error) => {
                return Err(error);
            },
        };
        let reply = self.extent_tree_blocks(inode);
        assert(asked.asked(self, LayerCall::TreeBlocks { inode: *inode, reply }));
        match reply {
            Ok(tree_blocks) => {
                inode.inode.set_block_count(
                    (data_blocks as u64 + tree_blocks as u64) * SECTORS_PER_BLOCK,
                );
                assert(asked.tree_counted(self, *old(inode), *inode, data_blocks, Ok(())));
                Ok(())
            },
            Err(error) => {
                assert(asked.tree_counted(self, *old(inode), *inode, data_blocks, Err(error)));
                Err(error)
            },
        }
    }

    /// What counting the blocks of a file calls, changes and returns where `added` data blocks are
    /// new: while the extents stand inside the inode, there are no tree blocks to count.
    pub open spec fn range_counted(
        &self,
        after: &Self,
        inode: InodeRef,
        counted: InodeRef,
        added: nat,
        was_flat: bool,
        outcome: Result<()>,
    ) -> bool {
        let blocks = inode.inode.sectors() / SECTORS_PER_BLOCK + added;
        if was_flat && flat(inode.inode) {
            &&& self.idle(after)
            &&& if blocks > u64::MAX {
                counted == inode && outcome == failed::<()>(ErrCode::EFBIG)
            } else {
                &&& outcome == Ok::<(), Ext4Error>(())
                &&& counted.id == inode.id
                &&& counted.inode@ == with_wide48(
                    inode.inode@,
                    28,
                    116,
                    (blocks as u64).wrapping_mul(SECTORS_PER_BLOCK),
                )
            }
        } else {
            self.blocks_counted(after, inode, counted, outcome)
        }
    }

    /// Counts the blocks of a file after data blocks were added.
    fn update_inode_block_count_after_range(
        &mut self,
        inode: &mut InodeRef,
        added: usize,
        was_flat: bool,
    ) -> (outcome: Result<()>)
        requires
            old(self).inv(),
        ensures
            final(self).state() == old(self).state(),
            old(self).range_counted(
                final(self),
                *old(inode),
                *final(inode),
                added as nat,
                was_flat,
                outcome,
            ),
    {
        if was_flat && node_depth(inode.inode.inline_block()) == 0 {
            return match inode.inode.fs_block_count().checked_add(added as u64) {
                Some(blocks) => {
                    inode.inode.set_fs_block_count(blocks);
                    Ok(())
                },
                None => Err(Ext4Error::new(ErrCode::EFBIG)),
            };
        }
        self.recompute_inode_block_count(inode)
    }

    /// What looking for the blocks of a range that are not mapped calls, counts and returns;
    /// `found.0` are those met so far.
    pub open spec fn missing_found(
        &self,
        after: &Self,
        inode: InodeRef,
        iblock: int,
        last: int,
        done: Seq<LBlockId>,
        found: (Seq<LBlockId>, Result<()>),
    ) -> bool
        decreases last + 1 - iblock,
    {
        if iblock > last {
            self.idle(after) && found == (done, Ok::<(), Ext4Error>(()))
        } else {
            exists|queried: Self, reply: Result<PBlockId>|
                {
                    &&& #[trigger] self.block_located(&queried, inode, iblock as u32, reply)
                    &&& match reply {
                        Ok(_) => queried.with_counts(
                            queried.counts().with_mapped(),
                        ).missing_found(after, inode, iblock + 1, last, done, found),
                        Err(error) => if error.code == ErrCode::ENOENT {
                            queried.with_counts(queried.counts().with_missing(1)).missing_found(
                                after,
                                inode,
                                iblock + 1,
                                last,
                                done.push(iblock as u32),
                                found,
                            )
                        } else {
                            queried.idle(after) && found == (done, Err::<(), Ext4Error>(error))
                        },
                    }
                }
        }
    }

    /// Looks for the blocks of a range that are not mapped.
    fn find_missing(&mut self, inode: &InodeRef, range: &WriteLogicalRange) -> (found: (
        Vec<LBlockId>,
        Result<()>,
    ))
        requires
            old(self).inv(),
            range.inv(),
        ensures
            final(self).state() == old(self).state(),
            old(self).missing_found(
                final(self),
                *inode,
                range.first_lblock as int,
                range.last_lblock as int,
                Seq::empty(),
                (found.0@, found.1),
            ),
    {
        let mut missing: Vec<LBlockId> = Vec::new();
        assert(missing@ =~= Seq::<LBlockId>::empty());
        let mut iblock: u64 = range.first_lblock as u64;
        while iblock <= range.last_lblock as u64
            invariant
                self.inv(),
                self.state() == old(self).state(),
                iblock <= range.last_lblock + 1,
                forall|end: Self, found: (Seq<LBlockId>, Result<()>)|
                    #[trigger] self.missing_found(
                        &end,
                        *inode,
                        iblock as int,
                        range.last_lblock as int,
                        missing@,
                        found,
                    ) ==> old(self).missing_found(
                        &end,
                        *inode,
                        range.first_lblock as int,
                        range.last_lblock as int,
                        Seq::empty(),
                        found,
                    ),
            decreases range.last_lblock + 1 - iblock,
        {
            let ghost before = *self;
            let ghost done = (iblock, missing@);
            let reply = self.extent_query(inode, iblock as u32);
            let ghost queried = *self;
            assert(before.block_located(&queried, *inode, done.0 as int as u32, reply));
            match reply {
                Ok(_) => {
                    self.record_mapped();
                },
                Err(error) => {
                    if error.code() == ErrCode::ENOENT {
                        self.record_missing();
                        missing.push(iblock as u32);
                    } else {
                        assert(before.missing_found(
                            self,
                            *inode,
                            done.0 as int,
                            range.last_lblock as int,
                            done.1,
                            (done.1, Err(error)),
                        ));
                        return (missing, Err(error));
                    }
                },
            }
            iblock = iblock + 1;
            assert forall|end: Self, found: (Seq<LBlockId>, Result<()>)|
                #[trigger] self.missing_found(
                    &end,
                    *inode,
                    iblock as int,
                    range.last_lblock as int,
                    missing@,
                    found,
                ) implies old(self).missing_found(
                &end,
                *inode,
                range.first_lblock as int,
                range.last_lblock as int,
                Seq::empty(),
                found,
            ) by {
                assert(before.block_located(&queried, *inode, done.0 as int as u32, reply));
                assert(before.missing_found(
                    &end,
                    *inode,
                    done.0 as int,
                    range.last_lblock as int,
                    done.1,
                    found,
                ));
            }
        }
        assert(self.missing_found(
            self,
            *inode,
            iblock as int,
            range.last_lblock as int,
            missing@,
            (missing@, Ok(())),
        ));
        (missing, Ok(()))
    }

    /// What checking the places of new blocks calls and returns.
    pub open spec fn places_checked(
        &self,
        after: &Self,
        inode: InodeRef,
        lblock: int,
        home: int,
        left: nat,
        outcome: Result<()>,
    ) -> bool
        decreases left,
    {
        if left == 0 {
            self.idle(after) && outcome == Ok::<(), Ext4Error>(())
        } else {
            exists|queried: Self, reply: Result<PBlockId>|
                {
                    &&& #[trigger] self.block_located(&queried, inode, lblock as u32, reply)
                    &&& match reply {
                        Ok(found) => if found == home {
                            queried.places_checked(
                                after,
                                inode,
                                lblock + 1,
                                home + 1,
                                (left - 1) as nat,
                                outcome,
                            )
                        } else {
                            queried.idle(after) && outcome == failed::<()>(ErrCode::EIO)
                        },
                        Err(error) => queried.idle(after) && outcome == Err::<(), Ext4Error>(
                            error,
                        ),
                    }
                }
        }
    }

    /// Checks the places of new blocks.
    fn check_places(&mut self, inode: &InodeRef, lblock: LBlockId, home: PBlockId, count: usize) -> (
    outcome: Result<()>)
        requires
            old(self).inv(),
            lblock + count <= u32::MAX + 1,
            home + count <= u64::MAX + 1,
        ensures
            final(self).state() == old(self).state(),
            old(self).places_checked(
                final(self),
                *inode,
                lblock as int,
                home as int,
                count as nat,
                outcome,
            ),
    {
        let mut done: usize = 0;
        while done < count
            invariant
                self.inv(),
                self.state() == old(self).state(),
                done <= count,
                lblock + count <= u32::MAX + 1,
                home + count <= u64::MAX + 1,
                forall|end: Self, outcome: Result<()>|
                    #[trigger] self.places_checked(
                        &end,
                        *inode,
                        lblock + done,
                        home + done,
                        (count - done) as nat,
                        outcome,
                    ) ==> old(self).places_checked(
                        &end,
                        *inode,
                        lblock as int,
                        home as int,
                        count as nat,
                        outcome,
                    ),
            decreases count - done,
        {
            let ghost before = *self;
            let ghost checked = done;
            let reply = self.extent_query(inode, lblock + done as u32);
            let ghost queried = *self;
            assert(before.block_located(&queried, *inode, (lblock + checked) as u32, reply));
            match reply {
                Ok(found) => {
                    if found != home + done as u64 {
                        assert(before.places_checked(
                            self,
                            *inode,
                            lblock + checked,
                            home + checked,
                            (count - checked) as nat,
                            failed(ErrCode::EIO),
                        ));
                        return Err(Ext4Error::new(ErrCode::EIO));
                    }
                },
                Err(error) => {
                    assert(before.places_checked(
                        self,
                        *inode,
                        lblock + checked,
                        home + checked,
                        (count - checked) as nat,
                        Err(error),
                    ));
                    return Err(error);
                },
            }
            done = done + 1;
            assert forall|end: Self, outcome: Result<()>|
                #[trigger] self.places_checked(
                    &end,
                    *inode,
                    lblock + done,
                    home + done,
                    (count - done) as nat,
                    outcome,
                ) implies old(self).places_checked(
                &end,
                *inode,
                lblock as int,
                home as int,
                count as nat,
                outcome,
            ) by {
                assert(before.block_located(&queried, *inode, (lblock + checked) as u32, reply));
                assert(before.places_checked(
                    &end,
                    *inode,
                    lblock + checked,
                    home + checked,
                    (count - checked) as nat,
                    outcome,
                ));
            }
        }
        assert(self.places_checked(
            self,
            *inode,
            lblock + done,
            home + done,
            (count - done) as nat,
            Ok(()),
        ));
        Ok(())
    }
}

impl<D: BlockDevice, V: Volume<D>> Ext4<D, V> {
    /// What adding one extent calls, changes and returns: the places of its blocks are checked.
    pub open spec fn extent_created(
        &self,
        after: &Self,
        inode: InodeRef,
        created: InodeRef,
        lblock: LBlockId,
        home: PBlockId,
        count: nat,
        outcome: Result<()>,
    ) -> bool {
        exists|asked: Self, reply: Result<()>|
            {
                &&& #[trigger] self.asked(
                    &asked,
                    LayerCall::CreateExtent {
                        inode,
                        start: lblock,
                        count: count as u32,
                        first: home,
                        after: created,
                        reply,
                    },
                )
                &&& match reply {
                    Ok(_) => asked.places_checked(
                        after,
                        created,
                        lblock as int,
                        home as int,
                        count,
                        outcome,
                    ),
                    Err(error) => asked.idle(after) && outcome == Err::<(), Ext4Error>(error),
                }
            }
    }

    /// Adds one extent, and checks the places of its blocks.
    fn create_extent(
        &mut self,
        inode: &mut InodeRef,
        lblock: LBlockId,
        home: PBlockId,
        count: usize,
    ) -> (outcome: Result<()>)
        requires
            old(self).inv(),
            count <= MAX_NEW_EXTENT_BLOCKS,
            lblock + count <= u32::MAX + 1,
            home + count <= u64::MAX + 1,
        ensures
            final(self).state() == old(self).state(),
            old(self).extent_created(
                final(self),
                *old(inode),
                *final(inode),
                lblock,
                home,
                count as nat,
                outcome,
            ),
    {
        let reply = self.extent_create_preallocated(inode, lblock, count as u32, home);
        let ghost asked = *self;
        assert(old(self).asked(
            &asked,
            LayerCall::CreateExtent {
                inode: *old(inode),
                start: lblock,
                count: count as nat as u32,
                first: home,
                after: *inode,
                reply,
            },
        ));
        match reply {
            Ok(_) => self.check_places(inode, lblock, home, count),
            Err(error) => Err(error),
        }
    }

    /// What adding the extents of new blocks calls, changes and returns, from block `at` on.
    pub open spec fn extents_created(
        &self,
        after: &Self,
        inode: InodeRef,
        created: InodeRef,
        missing: Seq<LBlockId>,
        homes: Seq<PBlockId>,
        at: int,
        outcome: Result<()>,
    ) -> bool
        decreases missing.len() - at,
    {
        let end = joint_end(missing, homes, at, at + 1);
        if !(0 <= at < end <= missing.len()) {
            &&& self.idle(after)
            &&& created == inode
            &&& outcome == Ok::<(), Ext4Error>(())
        } else {
            exists|added: Self, grown: InodeRef, reply: Result<()>|
                {
                    &&& #[trigger] self.extent_created(
                        &added,
                        inode,
                        grown,
                        missing[at],
                        homes[at],
                        (end - at) as nat,
                        reply,
                    )
                    &&& match reply {
                        Ok(_) => added.extents_created(
                            after,
                            grown,
                            created,
                            missing,
                            homes,
                            end,
                            outcome,
                        ),
                        Err(error) => {
                            &&& added.idle(after)
                            &&& created == grown
                            &&& outcome == Err::<(), Ext4Error>(error)
                        },
                    }
                }
        }
    }

    /// Adds the extents of new blocks.
    fn create_extents(
        &mut self,
        inode: &mut InodeRef,
        missing: &Vec<LBlockId>,
        homes: &Vec<PBlockId>,
    ) -> (outcome: Result<()>)
        requires
            old(self).inv(),
            missing@.len() == homes@.len(),
        ensures
            final(self).state() == old(self).state(),
            old(self).extents_created(
                final(self),
                *old(inode),
                *final(inode),
                missing@,
                homes@,
                0,
                outcome,
            ),
    {
        let ghost first = *inode;
        let mut at: usize = 0;
        while at < missing.len()
            invariant
                self.inv(),
                self.state() == old(self).state(),
                first == *old(inode),
                missing@.len() == homes@.len(),
                at <= missing@.len(),
                forall|end: Self, created: InodeRef, outcome: Result<()>|
                    #[trigger] self.extents_created(
                        &end,
                        *inode,
                        created,
                        missing@,
                        homes@,
                        at as int,
                        outcome,
                    ) ==> old(self).extents_created(
                        &end,
                        first,
                        created,
                        missing@,
                        homes@,
                        0,
                        outcome,
                    ),
            decreases missing@.len() - at,
        {
            let ghost before = *self;
            let ghost earlier = *inode;
            let ghost tried = at;
            let next: usize = find_joint_end(missing, homes, at);
            let reply = self.create_extent(inode, missing[at], homes[at], next - at);
            let ghost added = *self;
            assert(before.extent_created(
                &added,
                earlier,
                *inode,
                missing@[tried as int],
                homes@[tried as int],
                (next - tried) as nat,
                reply,
            ));
            match reply {
                Ok(_) => {},
                Err(error) => {
                    assert(before.extents_created(
                        self,
                        earlier,
                        *inode,
                        missing@,
                        homes@,
                        tried as int,
                        Err(error),
                    ));
                    return Err(error);
                },
            }
            at = next;
            assert forall|end: Self, created: InodeRef, outcome: Result<()>|
                #[trigger] self.extents_created(
                    &end,
                    *inode,
                    created,
                    missing@,
                    homes@,
                    at as int,
                    outcome,
                ) implies old(self).extents_created(
                &end,
                first,
                created,
                missing@,
                homes@,
                0,
                outcome,
            ) by {
                assert(before.extent_created(
                    &added,
                    earlier,
                    *inode,
                    missing@[tried as int],
                    homes@[tried as int],
                    (next - tried) as nat,
                    reply,
                ));
                assert(before.extents_created(
                    &end,
                    earlier,
                    created,
                    missing@,
                    homes@,
                    tried as int,
                    outcome,
                ));
            }
        }
        assert(self.extents_created(
            self,
            *inode,
            *inode,
            missing@,
            homes@,
            at as int,
            Ok(()),
        ));
        Ok(())
    }

    /// What recording new blocks in the inode calls, changes and returns.
    pub open spec fn growth_recorded(
        &self,
        after: &Self,
        inode: InodeRef,
        recorded: InodeRef,
        added: nat,
        was_flat: bool,
        outcome: Result<()>,
    ) -> bool {
        exists|counted: Self, counted_inode: InodeRef, reply: Result<()>|
            {
                &&& #[trigger] self.range_counted(
                    &counted,
                    inode,
                    counted_inode,
                    added,
                    was_flat,
                    reply,
                )
                &&& match reply {
                    Ok(_) => counted.inode_written(after, counted_inode, recorded, outcome),
                    Err(error) => {
                        &&& counted.idle(after)
                        &&& recorded == counted_inode
                        &&& outcome == Err::<(), Ext4Error>(error)
                    },
                }
            }
    }

    /// What adding blocks to a file calls, changes and returns, once they are allocated.
    pub open spec fn homes_installed(
        &self,
        after: &Self,
        inode: InodeRef,
        installed: InodeRef,
        missing: Seq<LBlockId>,
        homes: Seq<PBlockId>,
        outcome: Result<()>,
    ) -> bool {
        exists|created: Self, grown: InodeRef, reply: Result<()>|
            {
                &&& #[trigger] self.extents_created(
                    &created,
                    inode,
                    grown,
                    missing,
                    homes,
                    0,
                    reply,
                )
                &&& match reply {
                    Ok(_) => created.growth_recorded(
                        after,
                        grown,
                        installed,
                        missing.len(),
                        flat(inode.inode),
                        outcome,
                    ),
                    Err(error) => {
                        &&& created.idle(after)
                        &&& installed == grown
                        &&& outcome == Err::<(), Ext4Error>(error)
                    },
                }
            }
    }

    /// What allocating blocks and adding them to a file calls, changes and returns.
    pub open spec fn blocks_installed(
        &self,
        after: &Self,
        inode: InodeRef,
        installed: InodeRef,
        missing: Seq<LBlockId>,
        skip_zero: bool,
        outcome: Result<()>,
    ) -> bool {
        exists|taken: Self, homes: Result<Seq<PBlockId>>|
            {
                &&& #[trigger] self.blocks_allocated(
                    &taken,
                    inode.id,
                    Seq::empty(),
                    missing.len(),
                    skip_zero,
                    homes,
                )
                &&& match homes {
                    Ok(blocks) => taken.homes_installed(
                        after,
                        inode,
                        installed,
                        missing,
                        blocks,
                        outcome,
                    ),
                    Err(error) => {
                        &&& taken.idle(after)
                        &&& installed == inode
                        &&& outcome == Err::<(), Ext4Error>(error)
                    },
                }
            }
    }

    /// Allocates blocks, and adds them to a file.
    fn install_blocks(&mut self, inode: &mut InodeRef, missing: &Vec<LBlockId>, skip_zero: bool) -> (
    outcome: Result<()>)
        requires
            old(self).inv(),
        ensures
            final(self).inv(),
            old(self).frame_kept(final(self)),
            old(self).blocks_installed(
                final(self),
                *old(inode),
                *final(inode),
                missing@,
                skip_zero,
                outcome,
            ),
    {
        let was_flat: bool = node_depth(inode.inode.inline_block()) == 0;
        let reply = self.alloc_zeroed_data_blocks(inode, missing.len(), skip_zero);
        let ghost taken = *self;
        assert(old(self).blocks_allocated(
            &taken,
            inode.id,
            Seq::empty(),
            missing@.len(),
            skip_zero,
            blocks_in(reply),
        ));
        let homes = match reply {
            Ok(homes) => homes,
            Err(error) => {
                return Err(error);
            },
        };
        let reply = self.create_extents(inode, missing, &homes);
        let ghost created = *self;
        let ghost grown = *inode;
        assert(taken.extents_created(
            &created,
            *old(inode),
            grown,
            missing@,
            homes@,
            0,
            reply,
        ));
        match reply {
            Ok(_) => {},
            Err(error) => {
                assert(taken.homes_installed(
                    self,
                    *old(inode),
                    *inode,
                    missing@,
                    homes@,
                    Err(error),
                ));
                return Err(error);
            },
        }
        let outcome = self.record_growth(inode, missing.len(), was_flat);
        assert(taken.homes_installed(
            self,
            *old(inode),
            *inode,
            missing@,
            homes@,
            outcome,
        ));
        outcome
    }

    /// Records new blocks in the inode.
    fn record_growth(&mut self, inode: &mut InodeRef, added: usize, was_flat: bool) -> (outcome:
        Result<()>)
        requires
            old(self).inv(),
        ensures
            final(self).state() == old(self).state(),
            old(self).growth_recorded(
                final(self),
                *old(inode),
                *final(inode),
                added as nat,
                was_flat,
                outcome,
            ),
    {
        let reply = self.update_inode_block_count_after_range(inode, added, was_flat);
        let ghost counted = *self;
        assert(old(self).range_counted(
            &counted,
            *old(inode),
            *inode,
            added as nat,
            was_flat,
            reply,
        ));
        match reply {
            Ok(_) => self.write_inode_with_csum(inode),
            Err(error) => Err(error),
        }
    }

    /// What writing a counted inode after `error` calls, changes and returns.
    pub open spec fn repair_written(
        &self,
        after: &Self,
        inode: InodeRef,
        repaired: InodeRef,
        error: Ext4Error,
        outcome: Result<()>,
    ) -> bool {
        exists|written: Self, reply: Result<()>|
            {
                &&& #[trigger] self.inode_written(&written, inode, repaired, reply)
                &&& match reply {
                    Ok(_) => written.idle(after) && outcome == Err::<(), Ext4Error>(error),
                    Err(fault) => written.gave_out(after) && outcome == Err::<(), Ext4Error>(
                        fault,
                    ),
                }
            }
    }

    /// What giving an allocation up after `error` calls, changes and returns: the blocks that the
    /// file has are counted again, and where that fails nothing may change any more.
    pub open spec fn growth_given_up(
        &self,
        after: &Self,
        inode: InodeRef,
        repaired: InodeRef,
        error: Ext4Error,
        outcome: Result<()>,
    ) -> bool {
        exists|counted: Self, counted_inode: InodeRef, reply: Result<()>|
            {
                &&& #[trigger] self.blocks_counted(&counted, inode, counted_inode, reply)
                &&& match reply {
                    Ok(_) => counted.repair_written(
                        after,
                        counted_inode,
                        repaired,
                        error,
                        outcome,
                    ),
                    Err(fault) => {
                        &&& counted.gave_out(after)
                        &&& repaired == counted_inode
                        &&& outcome == Err::<(), Ext4Error>(fault)
                    },
                }
            }
    }

    /// Gives an allocation up after `error`.
    fn give_growth_up(&mut self, inode: &mut InodeRef, error: Ext4Error) -> (outcome: Result<()>)
        requires
            old(self).inv(),
        ensures
            final(self).inv(),
            old(self).frame_kept(final(self)),
            outcome is Err,
            old(self).growth_given_up(
                final(self),
                *old(inode),
                *final(inode),
                error,
                outcome,
            ),
    {
        let reply = self.recompute_inode_block_count(inode);
        let ghost counted = *self;
        let ghost counted_inode = *inode;
        assert(old(self).blocks_counted(&counted, *old(inode), counted_inode, reply));
        match reply {
            Ok(_) => {},
            Err(fault) => {
                self.poison();
                return Err(fault);
            },
        }
        let reply = self.write_inode_with_csum(inode);
        let ghost written = *self;
        assert(counted.inode_written(&written, counted_inode, *inode, reply));
        let outcome: Result<()> = match reply {
            Ok(_) => Err(error),
            Err(fault) => {
                self.poison();
                Err(fault)
            },
        };
        assert(counted.repair_written(self, counted_inode, *inode, error, outcome));
        outcome
    }

    /// What adding missing blocks calls, changes and returns, with what happens on failure.
    pub open spec fn gaps_filled(
        &self,
        after: &Self,
        inode: InodeRef,
        filled: InodeRef,
        missing: Seq<LBlockId>,
        skip_zero: bool,
        outcome: Result<()>,
    ) -> bool {
        exists|tried: Self, installed: InodeRef, reply: Result<()>|
            {
                &&& #[trigger] self.blocks_installed(
                    &tried,
                    inode,
                    installed,
                    missing,
                    skip_zero,
                    reply,
                )
                &&& match reply {
                    Ok(_) => {
                        &&& tried.idle(after)
                        &&& filled == installed
                        &&& outcome == Ok::<(), Ext4Error>(())
                    },
                    Err(error) => tried.with_counts(tried.counts().with_failure()).growth_given_up(
                        after,
                        installed,
                        filled,
                        error,
                        outcome,
                    ),
                }
            }
    }

    /// What giving blocks to a range of a file calls, changes and returns: blocks that are mapped
    /// stay where they are.
    pub open spec fn range_filled(
        &self,
        after: &Self,
        inode: InodeRef,
        filled: InodeRef,
        range: WriteLogicalRange,
        skip_zero: bool,
        outcome: Result<()>,
    ) -> bool {
        exists|looked: Self, found: (Seq<LBlockId>, Result<()>)|
            {
                &&& #[trigger] self.with_counts(
                    self.counts().with_call(range.block_count as u64),
                ).missing_found(
                    &looked,
                    inode,
                    range.first_lblock as int,
                    range.last_lblock as int,
                    Seq::empty(),
                    found,
                )
                &&& match found.1 {
                    Err(error) => {
                        let failed = looked.with_counts(looked.counts().with_failure());
                        if found.0.len() > 0 {
                            failed.growth_given_up(after, inode, filled, error, outcome)
                        } else {
                            &&& failed.idle(after)
                            &&& filled == inode
                            &&& outcome == Err::<(), Ext4Error>(error)
                        }
                    },
                    Ok(_) => if found.0.len() > 0 {
                        looked.gaps_filled(after, inode, filled, found.0, skip_zero, outcome)
                    } else {
                        &&& looked.idle(after)
                        &&& filled == inode
                        &&& outcome == Ok::<(), Ext4Error>(())
                    },
                }
            }
    }

    /// Gives blocks to a range of a file.
    pub(crate) fn ensure_blocks_for_write_range_locked(
        &mut self,
        inode: &mut InodeRef,
        range: &WriteLogicalRange,
        skip_zero: bool,
    ) -> (outcome: Result<()>)
        requires
            old(self).inv(),
            range.inv(),
        ensures
            final(self).inv(),
            old(self).frame_kept(final(self)),
            old(self).range_filled(
                final(self),
                *old(inode),
                *final(inode),
                *range,
                skip_zero,
                outcome,
            ),
    {
        self.record_call(range.block_count as u64);
        let (missing, looked_up) = self.find_missing(inode, range);
        let ghost looked = *self;
        assert(old(self).with_counts(
            old(self).counts().with_call(range.block_count as u64),
        ).missing_found(
            &looked,
            *inode,
            range.first_lblock as int,
            range.last_lblock as int,
            Seq::empty(),
            (missing@, looked_up),
        ));
        match looked_up {
            Ok(done) => {
                assert(done == ());
            },
            Err(error) => {
                self.record_failure();
                if missing.len() == 0 {
                    return Err(error);
                }
                return self.give_growth_up(inode, error);
            },
        }
        if missing.len() == 0 {
            return Ok(());
        }
        let reply = self.install_blocks(inode, &missing, skip_zero);
        let ghost tried = *self;
        let ghost installed = *inode;
        assert(looked.blocks_installed(
            &tried,
            *old(inode),
            installed,
            missing@,
            skip_zero,
            reply,
        ));
        let outcome: Result<()> = match reply {
            Ok(_) => Ok(()),
            Err(error) => {
                self.record_failure();
                self.give_growth_up(inode, error)
            },
        };
        assert(looked.gaps_filled(
            self,
            *old(inode),
            *inode,
            missing@,
            skip_zero,
            outcome,
        ));
        outcome
    }

    /// What giving blocks to a range of a file calls, changes and returns, inside the barrier.
    pub open spec fn range_given(
        &self,
        after: &Self,
        id: InodeId,
        range: WriteLogicalRange,
        outcome: Result<()>,
    ) -> bool {
        exists|read: Self, found: Result<InodeRef>|
            {
                &&& #[trigger] self.inode_read(&read, id, found)
                &&& match found {
                    Err(error) => read.idle(after) && outcome == Err::<(), Ext4Error>(error),
                    Ok(inode) => if is_free(inode.inode) {
                        read.idle(after) && outcome == failed::<()>(ErrCode::EINVAL)
                    } else {
                        exists|filled: InodeRef| #[trigger]
                            read.range_filled(after, inode, filled, range, false, outcome)
                    },
                }
            }
    }

    /// Gives blocks to a range of a file, inside the barrier.
    pub(crate) fn give_range(&mut self, id: InodeId, range: &WriteLogicalRange) -> (outcome: Result<
        (),
    >)
        requires
            old(self).inv(),
            range.inv(),
        ensures
            final(self).inv(),
            old(self).frame_kept(final(self)),
            old(self).range_given(final(self), id, *range, outcome),
    {
        let found = self.read_inode(id);
        let ghost read = *self;
        assert(old(self).inode_read(&read, id, found));
        let mut inode = match found {
            Ok(inode) => inode,
            Err(error) => {
                return Err(error);
            },
        };
        if inode.inode.mode().bits() == 0 {
            return Err(Ext4Error::new(ErrCode::EINVAL));
        }
        let ghost original = inode;
        let outcome = self.ensure_blocks_for_write_range_locked(&mut inode, range, false);
        assert(read.range_filled(self, original, inode, *range, false, outcome));
        outcome
    }

    /// Gives blocks to the bytes that will be written.
    pub fn allocate_blocks_for_write_range(&mut self, id: InodeId, offset: usize, len: usize) -> (
    outcome: Result<()>)
        requires
            old(self).inv(),
        ensures
            final(self).inv(),
            final(self).state().gate == old(self).state().gate,
            if !old(self).state().mutable() {
                old(self).idle(final(self)) && outcome == failed::<()>(ErrCode::EROFS)
            } else if len == 0 {
                old(self).idle(final(self)) && outcome == Ok::<(), Ext4Error>(())
            } else if !addressable(offset, len) {
                old(self).idle(final(self)) && outcome == failed::<()>(ErrCode::EFBIG)
            } else {
                old(self).with_direct_gate(
                    final(self),
                    |inside: Self, left: Self, outcome: Result<()>|
                        inside.range_given(&left, id, range_of(offset, len), outcome),
                    outcome,
                )
            },
    {
        match self.ensure_mutable() {
            Ok(_) => {},
            Err(error) => {
                return Err(error);
            },
        }
        let range = match WriteLogicalRange::checked(offset, len) {
            Ok(Some(range)) => range,
            Ok(None) => {
                return Ok(());
            },
            Err(error) => {
                return Err(error);
            },
        };
        let lock = self.lock_direct_metadata_mutation();
        let ghost inside = *self;
        assert(old(self).direct_entered(&inside, lock));
        match lock {
            Ok(_) => {},
            Err(error) => {
                return Err(error);
            },
        }
        let outcome = self.give_range(id, &range);
        self.unlock_direct_metadata_mutation();
        outcome
    }
}

} // verus!
