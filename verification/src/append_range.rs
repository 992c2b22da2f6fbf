//! Adding consecutive blocks behind the end of a file, without a journal.

use vstd::prelude::*;
use crate::bytes::zeros;
use crate::content::{held, lemma_extends, stored, Disk};
use crate::data_read::{least, zeroed_bytes};
use crate::device::{extends, since, BlockDevice, Event};
use crate::error::{failed, ErrCode, Ext4Error, Result};
use crate::fs::Ext4;
use crate::inode::InodeRef;
use crate::journal_transaction::{CommitError, Transaction};
use crate::range::WriteLogicalRange;
use crate::volume::{AppendShape, BlockImage, LayerCall, RangeAllocation, Volume};
use crate::{InodeId, LBlockId, PBlockId, BLOCK_SIZE};

verus! {

broadcast use Ext4::lemma_with_counts;

/// The shortest range that is allocated as a whole.
pub const DIRECT_RANGE_MIN_BLOCKS: usize = 1;

/// The longest range that is allocated as a whole.
pub const DIRECT_RANGE_MAX_BLOCKS: usize = 256;

/// The blocks that are cleared with one request.
pub const DIRECT_RANGE_ZERO_CHUNK_BLOCKS: usize = 8;

/// The blocks that one range allocation may change.
pub const RANGE_CREDITS: usize = 4;

/// How a range is to be allocated.
#[derive(Clone, Copy, Debug, PartialEq, Eq)]
pub struct DirectRangePlan {
    pub start_lblock: LBlockId,
    pub count: u32,
    pub preferred_first: Option<PBlockId>,
    pub requires_merge: bool,
}

/// What became of a range that was to be prepared.
#[derive(Clone, Copy, Debug, PartialEq, Eq, Structural)]
pub enum DirectRangePrepare {
    /// The range cannot be prepared as a whole.
    Unsupported,
    /// The blocks of the range were cleared.
    Initialized,
    /// The blocks of the range hold the data.
    DataWritten,
}

/// The first `len` bytes of the data at hand, where it has as many.
pub open spec fn usable(data: Option<Seq<u8>>, len: nat) -> Option<Seq<u8>> {
    match data {
        Some(bytes) => if bytes.len() >= len {
            Some(bytes.take(len as int))
        } else {
            None
        },
        None => None,
    }
}

/// The bytes of the data at hand.
pub open spec fn data_in(data: Option<&[u8]>) -> Option<Seq<u8>> {
    match data {
        Some(bytes) => Some(bytes@),
        None => None,
    }
}

/// The first `len` bytes of the data at hand, where it has as many.
pub(crate) fn usable_data(data: Option<&[u8]>, len: usize) -> (found: Option<&[u8]>)
    ensures
        data_in(found) == usable(data_in(data), len as nat),
{
    match data {
        Some(bytes) => {
            if bytes.len() < len {
                return None;
            }
            let first = vstd::slice::slice_subrange(bytes, 0, len);
            assert(first@ =~= bytes@.take(len as int));
            Some(first)
        },
        None => None,
    }
}

/// What became of a range that was prepared, with data or without.
pub open spec fn prepared_with(data: Option<Seq<u8>>) -> DirectRangePrepare {
    if data is Some {
        DirectRangePrepare::DataWritten
    } else {
        DirectRangePrepare::Initialized
    }
}

/// The blocks of the images.
pub open spec fn homes_of(images: Seq<BlockImage>) -> Seq<PBlockId> {
    Seq::new(images.len(), |i: int| images[i].home)
}

impl<D: BlockDevice, V: Volume<D>> Ext4<D, V> {
    /// What clearing consecutive blocks calls and returns, once `done` are cleared.
    pub open spec fn range_cleared(
        &self,
        after: &Self,
        first: PBlockId,
        done: int,
        count: int,
        source: Seq<u8>,
        outcome: Result<()>,
    ) -> bool
        decreases count - done,
    {
        let blocks = least(DIRECT_RANGE_ZERO_CHUNK_BLOCKS as int, count - done);
        if done >= count {
            self.idle(after) && outcome == Ok::<(), Ext4Error>(())
        } else if first + done > u64::MAX {
            self.idle(after) && outcome == failed::<()>(ErrCode::EFBIG)
        } else {
            exists|written: Self, reply: Result<()>|
                {
                    &&& #[trigger] self.did(
                        &written,
                        Event::WriteBlocks {
                            start: (first + done) as u64,
                            data: source.take(blocks * BLOCK_SIZE),
                            reply,
                        },
                    )
                    &&& match reply {
                        Ok(_) => written.range_cleared(
                            after,
                            first,
                            done + blocks,
                            count,
                            source,
                            outcome,
                        ),
                        Err(error) => written.idle(after) && outcome == Err::<(), Ext4Error>(
                            error,
                        ),
                    }
                }
        }
    }

    /// Clears consecutive blocks with the bytes of `zeros`.
    pub fn initialize_direct_range(&mut self, first: PBlockId, count: usize, zeros: &[u8]) -> (
    outcome: Result<()>)
        requires
            old(self).inv(),
            zeros@.len() >= DIRECT_RANGE_ZERO_CHUNK_BLOCKS * BLOCK_SIZE,
        ensures
            final(self).state() == old(self).state(),
            old(self).range_cleared(final(self), first, 0, count as int, zeros@, outcome),
    {
        let mut done: usize = 0;
        while done < count
            invariant
                self.inv(),
                self.state() == old(self).state(),
                zeros@.len() >= DIRECT_RANGE_ZERO_CHUNK_BLOCKS * BLOCK_SIZE,
                done <= count,
                forall|end: Self, outcome: Result<()>|
                    #[trigger] self.range_cleared(
                        &end,
                        first,
                        done as int,
                        count as int,
                        zeros@,
                        outcome,
                    ) ==> old(self).range_cleared(
                        &end,
                        first,
                        0,
                        count as int,
                        zeros@,
                        outcome,
                    ),
            decreases count - done,
        {
            let ghost before = *self;
            let ghost tried = done;
            let left: usize = count - done;
            let blocks: usize = if DIRECT_RANGE_ZERO_CHUNK_BLOCKS < left {
                DIRECT_RANGE_ZERO_CHUNK_BLOCKS
            } else {
                left
            };
            let pblock: PBlockId = match first.checked_add(done as u64) {
                Some(pblock) => pblock,
                None => {
                    assert(self.range_cleared(
                        self,
                        first,
                        done as int,
                        count as int,
                        zeros@,
                        failed(ErrCode::EFBIG),
                    ));
                    return Err(Ext4Error::new(ErrCode::EFBIG));
                },
            };
            let part = vstd::slice::slice_subrange(zeros, 0, blocks * BLOCK_SIZE);
            assert(part@ =~= zeros@.take(blocks * BLOCK_SIZE));
            let reply = self.write_blocks(pblock, part);
            let ghost written = *self;
            assert(before.did(
                &written,
                Event::WriteBlocks {
                    start: (first + tried) as u64,
                    data: zeros@.take(blocks * BLOCK_SIZE),
                    reply,
                },
            ));
            match reply {
                Ok(_) => {},
                Err(error) => {
                    assert(before.range_cleared(
                        self,
                        first,
                        tried as int,
                        count as int,
                        zeros@,
                        Err(error),
                    ));
                    return Err(error);
                },
            }
            done = done + blocks;
            assert forall|end: Self, outcome: Result<()>|
                #[trigger] self.range_cleared(
                    &end,
                    first,
                    done as int,
                    count as int,
                    zeros@,
                    outcome,
                ) implies old(self).range_cleared(
                &end,
                first,
                0,
                count as int,
                zeros@,
                outcome,
            ) by {
                assert(before.did(
                    &written,
                    Event::WriteBlocks {
                        start: (first + tried) as u64,
                        data: zeros@.take(blocks * BLOCK_SIZE),
                        reply,
                    },
                ));
                assert(before.range_cleared(
                    &end,
                    first,
                    tried as int,
                    count as int,
                    zeros@,
                    outcome,
                ));
            }
        }
        assert(self.range_cleared(self, first, done as int, count as int, zeros@, Ok(())));
        Ok(())
    }

    /// Writes `count` consecutive blocks.
    pub(crate) fn write_direct_range_data(&mut self, first: PBlockId, count: usize, data: &[u8]) -> (
    outcome: Result<()>)
        ensures
            if count * BLOCK_SIZE > usize::MAX {
                old(self).idle(final(self)) && outcome == failed::<()>(ErrCode::EFBIG)
            } else if data@.len() < count * BLOCK_SIZE {
                old(self).idle(final(self)) && outcome == failed::<()>(ErrCode::EINVAL)
            } else {
                old(self).did(
                    final(self),
                    Event::WriteBlocks {
                        start: first,
                        data: data@.take(count * BLOCK_SIZE),
                        reply: outcome,
                    },
                )
            },
    {
        let total: usize = match count.checked_mul(BLOCK_SIZE) {
            Some(total) => total,
            None => {
                return Err(Ext4Error::new(ErrCode::EFBIG));
            },
        };
        if data.len() < total {
            return Err(Ext4Error::new(ErrCode::EINVAL));
        }
        let part = vstd::slice::slice_subrange(data, 0, total);
        assert(part@ =~= data@.take(count * BLOCK_SIZE));
        self.write_blocks(first, part)
    }

    /// What storing data, or zero bytes, in new blocks calls and returns.
    pub open spec fn range_stored(
        &self,
        after: &Self,
        first: PBlockId,
        count: u32,
        data: Option<Seq<u8>>,
        outcome: Result<()>,
    ) -> bool {
        match data {
            Some(bytes) => self.did(
                after,
                Event::WriteBlocks { start: first, data: bytes, reply: outcome },
            ),
            None => self.range_cleared(
                after,
                first,
                0,
                count as int,
                zeros((DIRECT_RANGE_ZERO_CHUNK_BLOCKS * BLOCK_SIZE) as nat),
                outcome,
            ),
        }
    }

    /// Stores data, or zero bytes, in new blocks.
    pub(crate) fn store_range(&mut self, first: PBlockId, count: u32, data: Option<&[u8]>) -> (
    outcome: Result<()>)
        requires
            old(self).inv(),
            count <= DIRECT_RANGE_MAX_BLOCKS,
            data_in(data) matches Some(bytes) ==> bytes.len() == count * BLOCK_SIZE,
        ensures
            final(self).state() == old(self).state(),
            old(self).range_stored(final(self), first, count, data_in(data), outcome),
    {
        match data {
            Some(bytes) => {
                assert(bytes@.take(count * BLOCK_SIZE) =~= bytes@);
                self.write_direct_range_data(first, count as usize, bytes)
            },
            None => {
                let source: Vec<u8> = zeroed_bytes(DIRECT_RANGE_ZERO_CHUNK_BLOCKS * BLOCK_SIZE);
                self.initialize_direct_range(first, count as usize, source.as_slice())
            },
        }
    }

    /// What planning a range calls and returns: a range that is short enough and begins behind the
    /// end of the file is allocated as a whole, if the extents of the file can take it.
    pub open spec fn range_planned(
        &self,
        after: &Self,
        inode: InodeRef,
        range: WriteLogicalRange,
        outcome: Result<Option<DirectRangePlan>>,
    ) -> bool {
        let size = inode.inode.byte_size();
        if range.block_count > u32::MAX {
            self.idle(after) && outcome == failed::<Option<DirectRangePlan>>(ErrCode::EFBIG)
        } else if range.first_lblock + range.block_count > u32::MAX || !(DIRECT_RANGE_MIN_BLOCKS
            <= range.block_count <= DIRECT_RANGE_MAX_BLOCKS) {
            self.idle(after) && outcome == Ok::<Option<DirectRangePlan>, Ext4Error>(None)
        } else if size + (BLOCK_SIZE - 1) > u64::MAX {
            self.idle(after) && outcome == failed::<Option<DirectRangePlan>>(ErrCode::EFBIG)
        } else if range.first_lblock < (size + (BLOCK_SIZE - 1)) / BLOCK_SIZE as int {
            self.idle(after) && outcome == Ok::<Option<DirectRangePlan>, Ext4Error>(None)
        } else {
            exists|reply: Result<Option<AppendShape>>|
                {
                    &&& #[trigger] self.asked(
                        after,
                        LayerCall::AppendShape {
                            inode,
                            start: range.first_lblock,
                            count: range.block_count as u32,
                            reply,
                        },
                    )
                    &&& outcome == match reply {
                        Ok(Some(shape)) => Ok::<Option<DirectRangePlan>, Ext4Error>(
                            Some(
                                DirectRangePlan {
                                    start_lblock: range.first_lblock,
                                    count: range.block_count as u32,
                                    preferred_first: shape.preferred_first,
                                    requires_merge: shape.requires_merge,
                                },
                            ),
                        ),
                        Ok(None) => Ok(None),
                        Err(error) => Err(error),
                    }
                }
        }
    }

    /// Plans a range.
    pub fn direct_range_plan(&mut self, inode: &InodeRef, range: &WriteLogicalRange) -> (outcome:
        Result<Option<DirectRangePlan>>)
        requires
            old(self).inv(),
        ensures
            final(self).state() == old(self).state(),
            old(self).range_planned(final(self), *inode, *range, outcome),
            outcome matches Ok(Some(plan)) ==> 1 <= plan.count <= DIRECT_RANGE_MAX_BLOCKS,
    {
        if range.block_count as u64 > u32::MAX as u64 {
            return Err(Ext4Error::new(ErrCode::EFBIG));
        }
        let count: u32 = range.block_count as u32;
        if range.first_lblock.checked_add(count).is_none() || range.block_count
            < DIRECT_RANGE_MIN_BLOCKS || range.block_count > DIRECT_RANGE_MAX_BLOCKS {
            return Ok(None);
        }
        let persistent_blocks: u64 = match inode.inode.size().checked_add(BLOCK_SIZE as u64 - 1) {
            Some(size) => size / BLOCK_SIZE as u64,
            None => {
                return Err(Ext4Error::new(ErrCode::EFBIG));
            },
        };
        if (range.first_lblock as u64) < persistent_blocks {
            return Ok(None);
        }
        let reply = self.direct_append_shape(inode, range.first_lblock, count);
        assert(old(self).asked(
            self,
            LayerCall::AppendShape { inode: *inode, start: range.first_lblock, count, reply },
        ));
        match reply {
            Ok(Some(shape)) => Ok(
                Some(
                    DirectRangePlan {
                        start_lblock: range.first_lblock,
                        count,
                        preferred_first: shape.preferred_first,
                        requires_merge: shape.requires_merge,
                    },
                ),
            ),
            Ok(None) => Ok(None),
            Err(error) => Err(error),
        }
    }

    /// What staging images from number `at` on calls, changes and returns.
    pub open spec fn images_staged(
        &self,
        after: &Self,
        before: Transaction,
        transaction: Transaction,
        images: Seq<BlockImage>,
        at: int,
        outcome: Result<()>,
    ) -> bool
        decreases images.len() - at,
    {
        if at >= images.len() {
            &&& self.idle(after)
            &&& transaction == before
            &&& outcome == Ok::<(), Ext4Error>(())
        } else {
            exists|staged: Self, grown: Transaction, reply: Result<()>|
                {
                    &&& #[trigger] self.block_staged(
                        &staged,
                        before,
                        grown,
                        images[at].home,
                        0,
                        images[at].data@,
                        reply,
                    )
                    &&& match reply {
                        Ok(_) => staged.images_staged(
                            after,
                            grown,
                            transaction,
                            images,
                            at + 1,
                            outcome,
                        ),
                        Err(error) => {
                            &&& staged.idle(after)
                            &&& transaction == grown
                            &&& outcome == Err::<(), Ext4Error>(error)
                        },
                    }
                }
        }
    }

    /// Stages images.
    pub(crate) fn stage_images(&mut self, transaction: &mut Transaction, images: &Vec<BlockImage>) -> (
    outcome: Result<()>)
        requires
            old(self).inv(),
            old(transaction).inv(),
        ensures
            final(self).state() == old(self).state(),
            final(transaction).inv(),
            final(transaction).deferred() == old(transaction).deferred(),
            old(self).images_staged(
                final(self),
                *old(transaction),
                *final(transaction),
                images@,
                0,
                outcome,
            ),
    {
        let ghost first = *transaction;
        let mut at: usize = 0;
        while at < images.len()
            invariant
                self.inv(),
                self.state() == old(self).state(),
                transaction.inv(),
                transaction.deferred() == old(transaction).deferred(),
                first == *old(transaction),
                at <= images@.len(),
                forall|end: Self, ended: Transaction, outcome: Result<()>|
                    #[trigger] self.images_staged(
                        &end,
                        *transaction,
                        ended,
                        images@,
                        at as int,
                        outcome,
                    ) ==> old(self).images_staged(&end, first, ended, images@, 0, outcome),
            decreases images@.len() - at,
        {
            let ghost before = *self;
            let ghost earlier = *transaction;
            let ghost tried = at;
            let image = &images[at];
            let reply = self.transaction_patch(transaction, image.home, 0, image.data.as_slice());
            let ghost staged = *self;
            assert(before.block_staged(
                &staged,
                earlier,
                *transaction,
                images@[tried as int].home,
                0,
                images@[tried as int].data@,
                reply,
            ));
            match reply {
                Ok(_) => {},
                Err(error) => {
                    assert(before.images_staged(
                        self,
                        earlier,
                        *transaction,
                        images@,
                        tried as int,
                        Err(error),
                    ));
                    return Err(error);
                },
            }
            at = at + 1;
            assert forall|end: Self, ended: Transaction, outcome: Result<()>|
                #[trigger] self.images_staged(
                    &end,
                    *transaction,
                    ended,
                    images@,
                    at as int,
                    outcome,
                ) implies old(self).images_staged(&end, first, ended, images@, 0, outcome) by {
                assert(before.block_staged(
                    &staged,
                    earlier,
                    *transaction,
                    images@[tried as int].home,
                    0,
                    images@[tried as int].data@,
                    reply,
                ));
                assert(before.images_staged(
                    &end,
                    earlier,
                    ended,
                    images@,
                    tried as int,
                    outcome,
                ));
            }
        }
        assert(self.images_staged(
            self,
            *transaction,
            *transaction,
            images@,
            at as int,
            Ok(()),
        ));
        Ok(())
    }

    /// What recording an allocation in a transaction calls, changes and returns.
    pub open spec fn allocation_staged(
        &self,
        after: &Self,
        before: Transaction,
        transaction: Transaction,
        allocation: RangeAllocation,
        outcome: Result<(PBlockId, Seq<PBlockId>)>,
    ) -> bool {
        exists|reply: Result<()>|
            {
                &&& #[trigger] self.images_staged(
                    after,
                    before,
                    transaction,
                    allocation.images@,
                    0,
                    reply,
                )
                &&& outcome == match reply {
                    Ok(_) => Ok::<(PBlockId, Seq<PBlockId>), Ext4Error>(
                        (allocation.first, homes_of(allocation.images@)),
                    ),
                    Err(error) => Err(error),
                }
            }
    }

    /// What allocating a range inside a transaction calls, changes and returns: the first block,
    /// and the blocks that record the allocation.
    pub open spec fn range_taken(
        &self,
        after: &Self,
        before: Transaction,
        transaction: Transaction,
        inode: InodeId,
        plan: DirectRangePlan,
        outcome: Result<(PBlockId, Seq<PBlockId>)>,
    ) -> bool {
        exists|asked: Self, reply: Result<RangeAllocation>|
            {
                &&& #[trigger] self.asked(
                    &asked,
                    LayerCall::AllocRange {
                        inode,
                        preferred_first: plan.preferred_first,
                        requires_merge: plan.requires_merge,
                        count: plan.count,
                        reply,
                    },
                )
                &&& match reply {
                    Ok(allocation) => asked.allocation_staged(
                        after,
                        before,
                        transaction,
                        allocation,
                        outcome,
                    ),
                    Err(error) => {
                        &&& asked.idle(after)
                        &&& transaction == before
                        &&& outcome == Err::<(PBlockId, Seq<PBlockId>), Ext4Error>(error)
                    },
                }
            }
    }

    /// Allocates a range inside a transaction.
    pub(crate) fn transaction_alloc_direct_range(
        &mut self,
        transaction: &mut Transaction,
        inode: InodeId,
        plan: &DirectRangePlan,
    ) -> (outcome: Result<(PBlockId, Vec<PBlockId>)>)
        requires
            old(self).inv(),
            old(transaction).inv(),
        ensures
            final(self).state() == old(self).state(),
            final(transaction).inv(),
            final(transaction).deferred() == old(transaction).deferred(),
            old(self).range_taken(
                final(self),
                *old(transaction),
                *final(transaction),
                inode,
                *plan,
                taken_in(outcome),
            ),
    {
        let reply = self.alloc_direct_range(
            transaction,
            inode,
            plan.preferred_first,
            plan.requires_merge,
            plan.count,
        );
        let ghost asked = *self;
        let ghost answer = reply;
        assert(old(self).asked(
            &asked,
            LayerCall::AllocRange {
                inode,
                preferred_first: plan.preferred_first,
                requires_merge: plan.requires_merge,
                count: plan.count,
                reply: answer,
            },
        ));
        let allocation = match reply {
            Ok(allocation) => allocation,
            Err(error) => {
                return Err(error);
            },
        };
        let reply = self.stage_images(transaction, &allocation.images);
        assert(asked.images_staged(
            self,
            *old(transaction),
            *transaction,
            allocation.images@,
            0,
            reply,
        ));
        let outcome: Result<(PBlockId, Vec<PBlockId>)> = match reply {
            Ok(_) => Ok((allocation.first, image_homes(&allocation.images))),
            Err(error) => Err(error),
        };
        assert(asked.allocation_staged(
            self,
            *old(transaction),
            *transaction,
            allocation,
            taken_in(outcome),
        ));
        outcome
    }
}

/// The allocation of an outcome.
pub open spec fn taken_in(outcome: Result<(PBlockId, Vec<PBlockId>)>) -> Result<
    (PBlockId, Seq<PBlockId>),
> {
    match outcome {
        Ok(taken) => Ok((taken.0, taken.1@)),
        Err(error) => Err(error),
    }
}

/// The blocks of the images.
fn image_homes(images: &Vec<BlockImage>) -> (homes: Vec<PBlockId>)
    ensures
        homes@ == homes_of(images@),
{
    let mut homes: Vec<PBlockId> = Vec::new();
    while homes.len() < images.len()
        invariant
            homes@.len() <= images@.len(),
            homes@ == homes_of(images@).take(homes@.len() as int),
        decreases images@.len() - homes@.len(),
    {
        let ghost before = homes@;
        homes.push(images[homes.len()].home);
        assert(homes@ =~= homes_of(images@).take(before.len() as int + 1));
    }
    assert(homes@ =~= homes_of(images@));
    homes
}

impl<D: BlockDevice, V: Volume<D>> Ext4<D, V> {
    /// What committing a prepared range calls, changes and returns.
    pub open spec fn direct_finished(
        &self,
        after: &Self,
        transaction: Transaction,
        homes: Seq<PBlockId>,
        inode_home: PBlockId,
        prepared: DirectRangePrepare,
        outcome: Result<DirectRangePrepare>,
    ) -> bool {
        exists|done: Self, reply: core::result::Result<(), CommitError>, result: Result<()>|
            {
                &&& #[trigger] self.range_done(&done, transaction, homes, inode_home, reply)
                &&& #[trigger] done.with_counts(
                    done.counts().with_ending(reply is Ok),
                ).settled(after, reply, result)
                &&& outcome == match result {
                    Ok(_) => Ok::<DirectRangePrepare, Ext4Error>(prepared),
                    Err(error) => Err(error),
                }
            }
    }

    /// What staging the inode of a prepared range, and what follows, calls, changes and returns.
    pub open spec fn direct_staged(
        &self,
        after: &Self,
        inode: InodeRef,
        sealed: InodeRef,
        transaction: Transaction,
        homes: Seq<PBlockId>,
        prepared: DirectRangePrepare,
        outcome: Result<DirectRangePrepare>,
    ) -> bool {
        match self.state().inode_position(inode.id) {
            None => {
                &&& self.given_up(after, transaction)
                &&& sealed == inode
                &&& outcome == failed::<DirectRangePrepare>(ErrCode::EINVAL)
            },
            Some((inode_home, _)) => exists|staged: Self, grown: Transaction, reply: Result<()>|
                {
                    &&& #[trigger] self.inode_staged(
                        &staged,
                        transaction,
                        grown,
                        inode,
                        sealed,
                        reply,
                    )
                    &&& match reply {
                        Ok(_) => staged.with_counts(
                            staged.counts().with_inode_io(),
                        ).direct_finished(after, grown, homes, inode_home, prepared, outcome),
                        Err(error) => {
                            &&& staged.with_counts(staged.counts().with_failure()).given_up(
                                after,
                                grown,
                            )
                            &&& outcome == Err::<DirectRangePrepare, Ext4Error>(error)
                        },
                    }
                },
        }
    }

    /// What adding the extent of a prepared range, and what follows, calls, changes and returns.
    pub open spec fn direct_appended(
        &self,
        after: &Self,
        inode: InodeRef,
        sealed: InodeRef,
        plan: DirectRangePlan,
        transaction: Transaction,
        taken: (PBlockId, Seq<PBlockId>),
        prepared: DirectRangePrepare,
        outcome: Result<DirectRangePrepare>,
    ) -> bool {
        exists|asked: Self, grown: InodeRef, reply: Result<()>|
            {
                &&& #[trigger] self.asked(
                    &asked,
                    LayerCall::StageAppend {
                        inode,
                        start: plan.start_lblock,
                        first: taken.0,
                        count: plan.count,
                        after: grown,
                        reply,
                    },
                )
                &&& match reply {
                    Ok(_) => asked.direct_staged(
                        after,
                        grown,
                        sealed,
                        transaction,
                        taken.1,
                        prepared,
                        outcome,
                    ),
                    Err(error) => {
                        &&& asked.with_counts(asked.counts().with_failure()).given_up(
                            after,
                            transaction,
                        )
                        &&& sealed == grown
                        &&& outcome == Err::<DirectRangePrepare, Ext4Error>(error)
                    },
                }
            }
    }

    /// What storing data in a new range, and what follows, calls, changes and returns: the data
    /// reaches the device before anything refers to it.
    pub open spec fn direct_initialized(
        &self,
        after: &Self,
        inode: InodeRef,
        sealed: InodeRef,
        plan: DirectRangePlan,
        data: Option<Seq<u8>>,
        transaction: Transaction,
        taken: (PBlockId, Seq<PBlockId>),
        outcome: Result<DirectRangePrepare>,
    ) -> bool {
        exists|stored: Self, reply: Result<()>|
            {
                &&& #[trigger] self.with_counts(
                    self.counts().with_call(plan.count as u64).with_missing(plan.count as u64),
                ).range_stored(&stored, taken.0, plan.count, data, reply)
                &&& match reply {
                    Ok(_) => stored.direct_appended(
                        after,
                        inode,
                        sealed,
                        plan,
                        transaction,
                        taken,
                        prepared_with(data),
                        outcome,
                    ),
                    Err(error) => {
                        &&& stored.with_counts(stored.counts().with_failure()).given_up(
                            after,
                            transaction,
                        )
                        &&& sealed == inode
                        &&& outcome == not_stored(error)
                    },
                }
            }
    }

    /// What allocating a planned range, and what follows, calls, changes and returns.
    pub open spec fn direct_allocated(
        &self,
        after: &Self,
        inode: InodeRef,
        sealed: InodeRef,
        plan: DirectRangePlan,
        data: Option<Seq<u8>>,
        transaction: Transaction,
        outcome: Result<DirectRangePrepare>,
    ) -> bool {
        exists|taken: Self, grown: Transaction, reply: Result<(PBlockId, Seq<PBlockId>)>|
            {
                &&& #[trigger] self.range_taken(
                    &taken,
                    transaction,
                    grown,
                    inode.id,
                    plan,
                    reply,
                )
                &&& match reply {
                    Ok(allocation) => taken.direct_initialized(
                        after,
                        inode,
                        sealed,
                        plan,
                        data,
                        grown,
                        allocation,
                        outcome,
                    ),
                    Err(error) => {
                        &&& taken.given_up(after, grown)
                        &&& sealed == inode
                        &&& outcome == not_taken(error)
                    },
                }
            }
    }

    /// What preparing a planned range calls, changes and returns.
    pub open spec fn direct_started(
        &self,
        after: &Self,
        inode: InodeRef,
        sealed: InodeRef,
        plan: DirectRangePlan,
        data: Option<Seq<u8>>,
        outcome: Result<DirectRangePrepare>,
    ) -> bool {
        exists|begun: Self, reply: Result<Transaction>|
            {
                &&& #[trigger] self.begun_range(&begun, RANGE_CREDITS, reply)
                &&& match reply {
                    Ok(transaction) => begun.direct_allocated(
                        after,
                        inode,
                        sealed,
                        plan,
                        data,
                        transaction,
                        outcome,
                    ),
                    Err(error) => {
                        &&& begun.idle(after)
                        &&& sealed == inode
                        &&& outcome == Err::<DirectRangePrepare, Ext4Error>(error)
                    },
                }
            }
    }

    /// What preparing a range without a journal calls, changes and returns.
    pub open spec fn direct_range_prepared(
        &self,
        after: &Self,
        inode: InodeRef,
        sealed: InodeRef,
        range: WriteLogicalRange,
        data: Option<Seq<u8>>,
        outcome: Result<DirectRangePrepare>,
    ) -> bool {
        exists|planned: Self, reply: Result<Option<DirectRangePlan>>|
            {
                &&& #[trigger] self.range_planned(&planned, inode, range, reply)
                &&& match reply {
                    Ok(Some(plan)) => planned.direct_started(
                        after,
                        inode,
                        sealed,
                        plan,
                        usable(data, (plan.count * BLOCK_SIZE) as nat),
                        outcome,
                    ),
                    Ok(None) => {
                        &&& planned.idle(after)
                        &&& sealed == inode
                        &&& outcome == Ok::<DirectRangePrepare, Ext4Error>(
                            DirectRangePrepare::Unsupported,
                        )
                    },
                    Err(error) => {
                        &&& planned.idle(after)
                        &&& sealed == inode
                        &&& outcome == Err::<DirectRangePrepare, Ext4Error>(error)
                    },
                }
            }
    }

    /// Commits a prepared range.
    fn finish_direct(
        &mut self,
        transaction: Transaction,
        homes: &Vec<PBlockId>,
        inode_home: PBlockId,
        prepared: DirectRangePrepare,
    ) -> (outcome: Result<DirectRangePrepare>)
        requires
            old(self).inv(),
            transaction.inv(),
        ensures
            final(self).inv(),
            final(self).state().gate == old(self).state().gate,
            old(self).direct_finished(
                final(self),
                transaction,
                homes@,
                inode_home,
                prepared,
                outcome,
            ),
    {
        let reply = self.transaction_commit_direct_range(
            transaction,
            homes.as_slice(),
            inode_home,
        );
        let ghost done = *self;
        assert(old(self).range_done(&done, transaction, homes@, inode_home, reply));
        self.record_ending(reply.is_ok());
        let result = self.settle(reply);
        assert(done.with_counts(done.counts().with_ending(reply is Ok)).settled(
            self,
            reply,
            result,
        ));
        match result {
            Ok(_) => Ok(prepared),
            Err(error) => Err(error),
        }
    }

    /// Adds the extent of a prepared range, stages the inode and commits.
    fn append_direct(
        &mut self,
        inode: &mut InodeRef,
        plan: &DirectRangePlan,
        transaction: Transaction,
        taken: (PBlockId, Vec<PBlockId>),
        prepared: DirectRangePrepare,
    ) -> (outcome: Result<DirectRangePrepare>)
        requires
            old(self).inv(),
            transaction.inv(),
        ensures
            final(self).inv(),
            final(self).state().gate == old(self).state().gate,
            old(self).direct_appended(
                final(self),
                *old(inode),
                *final(inode),
                *plan,
                transaction,
                (taken.0, taken.1@),
                prepared,
                outcome,
            ),
    {
        let mut transaction = transaction;
        let reply = self.stage_direct_append_extent(
            inode,
            plan.start_lblock,
            taken.0,
            plan.count,
        );
        let ghost asked = *self;
        let ghost grown = *inode;
        let ghost begun = transaction;
        assert(old(self).asked(
            &asked,
            LayerCall::StageAppend {
                inode: *old(inode),
                start: plan.start_lblock,
                first: taken.0,
                count: plan.count,
                after: grown,
                reply,
            },
        ));
        match reply {
            Ok(_) => {},
            Err(error) => {
                self.record_failure();
                self.transaction_abort(transaction);
                return Err(error);
            },
        }
        let inode_home: PBlockId = match self.inode_disk_pos(inode.id) {
            Ok((home, _)) => home,
            Err(error) => {
                self.transaction_abort(transaction);
                assert(asked.direct_staged(
                    self,
                    grown,
                    *inode,
                    begun,
                    taken.1@,
                    prepared,
                    Err(error),
                ));
                return Err(error);
            },
        };
        let reply = self.transaction_stage_inode_with_csum(&mut transaction, inode);
        let ghost staged = *self;
        assert(asked.inode_staged(&staged, begun, transaction, grown, *inode, reply));
        let outcome: Result<DirectRangePrepare> = match reply {
            Ok(_) => {
                self.record_inode_io();
                self.finish_direct(transaction, &taken.1, inode_home, prepared)
            },
            Err(error) => {
                self.record_failure();
                self.transaction_abort(transaction);
                Err(error)
            },
        };
        assert(asked.direct_staged(
            self,
            grown,
            *inode,
            begun,
            taken.1@,
            prepared,
            outcome,
        ));
        outcome
    }

    /// Allocates a planned range, stores its data, and commits.
    fn allocate_direct(
        &mut self,
        inode: &mut InodeRef,
        plan: &DirectRangePlan,
        data: Option<&[u8]>,
        transaction: Transaction,
    ) -> (outcome: Result<DirectRangePrepare>)
        requires
            old(self).inv(),
            transaction.inv(),
            plan.count <= DIRECT_RANGE_MAX_BLOCKS,
            data_in(data) matches Some(bytes) ==> bytes.len() == plan.count * BLOCK_SIZE,
        ensures
            final(self).inv(),
            final(self).state().gate == old(self).state().gate,
            old(self).direct_allocated(
                final(self),
                *old(inode),
                *final(inode),
                *plan,
                data_in(data),
                transaction,
                outcome,
            ),
    {
        let ghost begun = transaction;
        let mut transaction = transaction;
        let reply = self.transaction_alloc_direct_range(&mut transaction, inode.id, plan);
        let ghost taken_state = *self;
        let ghost answer = taken_in(reply);
        assert(old(self).range_taken(
            &taken_state,
            begun,
            transaction,
            inode.id,
            *plan,
            answer,
        ));
        let taken = match reply {
            Ok(taken) => taken,
            Err(error) => {
                self.transaction_abort(transaction);
                return if error.code() == ErrCode::ENOSPC {
                    Ok(DirectRangePrepare::Unsupported)
                } else {
                    Err(error)
                };
            },
        };
        let ghost allocation = (taken.0, taken.1@);
        let ghost granted = transaction;
        self.record_missing_range(plan.count as u64);
        let reply = self.store_range(taken.0, plan.count, data);
        let ghost stored = *self;
        assert(taken_state.with_counts(
            taken_state.counts().with_call(plan.count as u64).with_missing(plan.count as u64),
        ).range_stored(
            &stored,
            allocation.0,
            plan.count,
            data_in(data),
            reply,
        ));
        let outcome: Result<DirectRangePrepare> = match reply {
            Ok(_) => {
                let prepared: DirectRangePrepare = if data.is_some() {
                    DirectRangePrepare::DataWritten
                } else {
                    DirectRangePrepare::Initialized
                };
                self.append_direct(inode, plan, transaction, taken, prepared)
            },
            Err(error) => {
                self.record_failure();
                self.transaction_abort(transaction);
                if error.code() == ErrCode::ENOMEM {
                    Ok(DirectRangePrepare::Unsupported)
                } else {
                    Err(error)
                }
            },
        };
        assert(taken_state.direct_initialized(
            self,
            *old(inode),
            *inode,
            *plan,
            data_in(data),
            granted,
            allocation,
            outcome,
        ));
        outcome
    }

    /// Prepares a range without a journal.
    pub(crate) fn try_prepare_direct_range(
        &mut self,
        inode: &mut InodeRef,
        range: &WriteLogicalRange,
        real_data: Option<&[u8]>,
    ) -> (outcome: Result<DirectRangePrepare>)
        requires
            old(self).inv(),
        ensures
            final(self).inv(),
            final(self).state().gate == old(self).state().gate,
            old(self).direct_range_prepared(
                final(self),
                *old(inode),
                *final(inode),
                *range,
                data_in(real_data),
                outcome,
            ),
    {
        let reply = self.direct_range_plan(inode, range);
        let ghost planned = *self;
        assert(old(self).range_planned(&planned, *inode, *range, reply));
        let plan = match reply {
            Ok(Some(plan)) => plan,
            Ok(None) => {
                return Ok(DirectRangePrepare::Unsupported);
            },
            Err(error) => {
                return Err(error);
            },
        };
        let data = usable_data(real_data, plan.count as usize * BLOCK_SIZE);
        let reply = self.transaction_start_direct_range(RANGE_CREDITS);
        let ghost begun = *self;
        let ghost answer = reply;
        assert(planned.begun_range(&begun, RANGE_CREDITS, answer));
        let outcome: Result<DirectRangePrepare> = match reply {
            Ok(transaction) => self.allocate_direct(inode, &plan, data, transaction),
            Err(error) => Err(error),
        };
        assert(planned.direct_started(
            self,
            *old(inode),
            *inode,
            plan,
            usable(data_in(real_data), (plan.count * BLOCK_SIZE) as nat),
            outcome,
        ));
        outcome
    }
}

/// What a range that could not be allocated becomes: another way is left where there is no room for
/// it as a whole.
pub open spec fn not_taken(error: Ext4Error) -> Result<DirectRangePrepare> {
    if error.code == ErrCode::ENOSPC {
        Ok(DirectRangePrepare::Unsupported)
    } else {
        Err(error)
    }
}

/// What a range whose data could not be stored becomes.
pub open spec fn not_stored(error: Ext4Error) -> Result<DirectRangePrepare> {
    if error.code == ErrCode::ENOMEM {
        Ok(DirectRangePrepare::Unsupported)
    } else {
        Err(error)
    }
}

/// Whether consecutive blocks of a device hold data, or zero bytes, and the others are as before.
pub open spec fn range_holds(
    disk: Disk,
    after: Disk,
    first: PBlockId,
    done: int,
    count: int,
    data: Option<Seq<u8>>,
) -> bool {
    forall|id: PBlockId| #[trigger]
        after[id] == if first + done <= id < first + count {
            match data {
                Some(bytes) => bytes.subrange(
                    (id - first) * BLOCK_SIZE,
                    (id - first + 1) * BLOCK_SIZE,
                ),
                None => zeros(BLOCK_SIZE as nat),
            }
        } else {
            disk[id]
        }
}

impl<D: BlockDevice, V: Volume<D>> Ext4<D, V> {
    /// Clearing blocks leaves zero bytes on the device.
    proof fn lemma_cleared_range_holds_zero(
        &self,
        after: &Self,
        first: PBlockId,
        done: int,
        count: int,
        disk: Disk,
    )
        requires
            self.range_cleared(
                after,
                first,
                done,
                count,
                zeros((DIRECT_RANGE_ZERO_CHUNK_BLOCKS * BLOCK_SIZE) as nat),
                Ok(()),
            ),
            0 <= done,
        ensures
            extends(self.log(), after.log()),
            range_holds(disk, held(disk, since(self.log(), after.log())), first, done, count, None),
        decreases count - done,
    {
        let blocks = least(DIRECT_RANGE_ZERO_CHUNK_BLOCKS as int, count - done);
        let source = zeros((DIRECT_RANGE_ZERO_CHUNK_BLOCKS * BLOCK_SIZE) as nat);
        let calls = since(self.log(), after.log());
        assert(self.log().take(self.log().len() as int) =~= self.log());
        if done >= count {
            assert(calls =~= Seq::<Event>::empty());
        } else {
            let (written, reply) = choose|written: Self, reply: Result<()>|
                {
                    &&& #[trigger] self.did(
                        &written,
                        Event::WriteBlocks {
                            start: (first + done) as u64,
                            data: source.take(blocks * BLOCK_SIZE),
                            reply,
                        },
                    )
                    &&& match reply {
                        Ok(_) => written.range_cleared(
                            after,
                            first,
                            done + blocks,
                            count,
                            source,
                            Ok(()),
                        ),
                        Err(error) => written.idle(after) && Ok::<(), Ext4Error>(()) == Err::<
                            (),
                            Ext4Error,
                        >(error),
                    }
                };
            let chunk = source.take(blocks * BLOCK_SIZE);
            let call = Event::WriteBlocks { start: (first + done) as u64, data: chunk, reply };
            let middle = stored(disk, call);
            written.lemma_cleared_range_holds_zero(after, first, done + blocks, count, middle);
            assert(written.log().take(self.log().len() as int) =~= self.log());
            lemma_extends(self.log(), written.log(), after.log());
            assert(after.log()[self.log().len() as int] == after.log().take(
                written.log().len() as int,
            )[self.log().len() as int]);
            assert(calls[0] == call);
            assert(calls.skip(1) =~= since(written.log(), after.log()));
            let last = held(disk, calls);
            assert(chunk.len() / BLOCK_SIZE as nat == blocks);
            assert forall|id: PBlockId| #[trigger]
                last[id] == if first + done <= id < first + count {
                    zeros(BLOCK_SIZE as nat)
                } else {
                    disk[id]
                } by {
                if first + done <= id < first + done + blocks {
                    let at = id - (first + done);
                    assert(chunk.subrange(at * BLOCK_SIZE, (at + 1) * BLOCK_SIZE) =~= zeros(
                        BLOCK_SIZE as nat,
                    ));
                }
            }
        }
    }

    /// New blocks hold the data of a write, or zero bytes where there is none, once they are
    /// stored; no other block changes.
    pub proof fn lemma_stored_range_holds_data(
        &self,
        after: &Self,
        first: PBlockId,
        count: u32,
        data: Option<Seq<u8>>,
        disk: Disk,
    )
        requires
            self.range_stored(after, first, count, data, Ok(())),
            data matches Some(bytes) ==> bytes.len() == count * BLOCK_SIZE,
        ensures
            extends(self.log(), after.log()),
            range_holds(
                disk,
                held(disk, since(self.log(), after.log())),
                first,
                0,
                count as int,
                data,
            ),
    {
        match data {
            Some(bytes) => {
                let call = Event::WriteBlocks { start: first, data: bytes, reply: Ok(()) };
                let calls = since(self.log(), after.log());
                assert(calls =~= seq![call]);
                assert(calls.skip(1) =~= Seq::<Event>::empty());
                reveal_with_fuel(held, 3);
                assert(held(disk, calls) == stored(disk, call));
                assert(bytes.len() / BLOCK_SIZE as nat == count);
                assert(after.log().take(self.log().len() as int) =~= self.log());
            },
            None => {
                self.lemma_cleared_range_holds_zero(after, first, 0, count as int, disk);
            },
        }
    }

    /// A range that was prepared was stored before the extent that refers to it, and with it
    /// anything that makes it durable, came to be.
    pub proof fn lemma_data_precedes_its_extent(
        &self,
        after: &Self,
        inode: InodeRef,
        sealed: InodeRef,
        plan: DirectRangePlan,
        data: Option<Seq<u8>>,
        transaction: Transaction,
        taken: (PBlockId, Seq<PBlockId>),
        prepared: DirectRangePrepare,
    )
        requires
            self.direct_initialized(
                after,
                inode,
                sealed,
                plan,
                data,
                transaction,
                taken,
                Ok(prepared),
            ),
            prepared != DirectRangePrepare::Unsupported,
        ensures
            exists|stored: Self|
                {
                    &&& #[trigger] self.with_counts(
                        self.counts().with_call(plan.count as u64).with_missing(plan.count as u64),
                    ).range_stored(&stored, taken.0, plan.count, data, Ok(()))
                    &&& stored.direct_appended(
                        after,
                        inode,
                        sealed,
                        plan,
                        transaction,
                        taken,
                        prepared_with(data),
                        Ok(prepared),
                    )
                },
    {
        let (stored, reply) = choose|stored: Self, reply: Result<()>|
            {
                &&& #[trigger] self.with_counts(
                    self.counts().with_call(plan.count as u64).with_missing(plan.count as u64),
                ).range_stored(&stored, taken.0, plan.count, data, reply)
                &&& match reply {
                    Ok(_) => stored.direct_appended(
                        after,
                        inode,
                        sealed,
                        plan,
                        transaction,
                        taken,
                        prepared_with(data),
                        Ok(prepared),
                    ),
                    Err(error) => {
                        &&& stored.with_counts(stored.counts().with_failure()).given_up(
                            after,
                            transaction,
                        )
                        &&& sealed == inode
                        &&& Ok::<DirectRangePrepare, Ext4Error>(prepared) == not_stored(error)
                    },
                }
            };
        match reply {
            Ok(done) => {
                assert(done == ());
            },
            Err(_) => {},
        }
    }
}

} // verus!
