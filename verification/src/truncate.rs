//! Changing the size of a file.
//!
//! A file that shrinks loses its extents from the end, one block group at a time, each in a
//! transaction of its own. The size is set with the last of them.

use vstd::prelude::*;
use crate::bytes::{le32_at, put_zeros, splice, zeros};
use crate::device::{Block, BlockDevice, Event, JournalCommitReason};
use crate::error::{failed, ErrCode, Ext4Error, Result};
use crate::fs::Ext4;
use crate::grow::is_free;
use crate::inode::{halves64, with_halves64, with_wide48, InodeRef, SECTORS_PER_BLOCK};
use crate::journal_transaction::{CommitError, Transaction};
use crate::superblock::SuperBlock;
use crate::volume::{BlockImage, ExtentTail, LayerCall, RemovedTail, Volume};
use crate::{InodeId, LBlockId, PBlockId, BLOCK_SIZE};

verus! {

/// The blocks that one step may change.
pub const TRUNCATE_CREDITS: usize = 32;

/// The steps after which a file that still is too long is given up. It would have had far more
/// blocks than a file can have, so that it is damaged.
pub const TRUNCATE_MAX_STEPS: u64 = 0xffff_ffff_ffff_ffff;

/// The sizes of a file that is truncated.
#[derive(Clone, Copy)]
pub struct Cut {
    pub old_size: u64,
    pub new_size: u64,
}

impl Cut {
    /// The blocks that the file keeps.
    pub open spec fn kept(&self) -> int {
        (self.new_size + (BLOCK_SIZE - 1)) / BLOCK_SIZE as int
    }

    /// Whether the file shrinks.
    pub open spec fn shrinks(&self) -> bool {
        self.new_size < self.old_size
    }

    /// The bytes that the last block keeps.
    pub open spec fn rest(&self) -> int {
        self.new_size as int % BLOCK_SIZE as int
    }

    /// The blocks that the file keeps.
    fn keep_blocks(&self) -> (count: u64)
        ensures
            count == self.kept(),
    {
        let whole: u64 = self.new_size / BLOCK_SIZE as u64;
        if self.new_size % BLOCK_SIZE as u64 == 0 {
            whole
        } else {
            whole + 1
        }
    }
}

/// The larger of two numbers.
pub open spec fn greatest(left: int, right: int) -> int {
    if left < right {
        right
    } else {
        left
    }
}

impl<D: BlockDevice, V: Volume<D>> Ext4<D, V> {
    /// How many blocks the next step cuts from the last extent, if there are any to cut: those
    /// behind the end of the file that stand in the last block group of the extent.
    pub open spec fn removal(&self, tail: ExtentTail, kept: int) -> Result<Option<u32>> {
        let state = self.state();
        let first = le32_at(state.superblock, 20) as int;
        let per_group = le32_at(state.superblock, 32) as int;
        let end = tail.start_lblock + tail.block_count;
        let end_home = tail.start_pblock + tail.block_count;
        let beyond = end - greatest(kept, tail.start_lblock as int);
        let in_group = (end_home - 1 - first) % per_group + 1;
        if end > u32::MAX {
            failed(ErrCode::EIO)
        } else if end <= kept {
            Ok(None)
        } else if end_home > u64::MAX || tail.start_pblock < first || end_home <= first || end_home
            > halves64(state.superblock, 4, 336) || self.journal_owns(
            tail.start_pblock,
            end_home as u64,
        ) || per_group == 0 {
            failed(ErrCode::EIO)
        } else {
            Ok(
                Some(
                    (if beyond < in_group {
                        beyond
                    } else {
                        in_group
                    }) as u32,
                ),
            )
        }
    }

    /// How many blocks the next step cuts from the last extent.
    fn remove_limit(&self, tail: &ExtentTail, kept: u64) -> (limit: Result<Option<u32>>)
        requires
            self.inv(),
        ensures
            limit == self.removal(*tail, kept as int),
    {
        let end: LBlockId = match tail.start_lblock.checked_add(tail.block_count) {
            Some(end) => end,
            None => {
                return Err(Ext4Error::new(ErrCode::EIO));
            },
        };
        if end as u64 <= kept {
            return Ok(None);
        }
        let end_home: PBlockId = match tail.start_pblock.checked_add(tail.block_count as u64) {
            Some(end) => end,
            None => {
                return Err(Ext4Error::new(ErrCode::EIO));
            },
        };
        let superblock: SuperBlock = self.read_super_block_cached();
        let first: PBlockId = superblock.first_data_block() as u64;
        let per_group: u64 = superblock.blocks_per_group() as u64;
        if tail.start_pblock < first || end_home <= first || end_home > superblock.block_count()
            || self.journal_owns_block_range(tail.start_pblock, end_home) || per_group == 0 {
            return Err(Ext4Error::new(ErrCode::EIO));
        }
        let in_group: u64 = (end_home - 1 - first) % per_group + 1;
        let from: u64 = if kept < tail.start_lblock as u64 {
            tail.start_lblock as u64
        } else {
            kept
        };
        let beyond: u64 = end as u64 - from;
        let limit: u64 = if beyond < in_group {
            beyond
        } else {
            in_group
        };
        Ok(Some(limit as u32))
    }

    /// What releasing consecutive blocks inside a transaction calls, changes and returns.
    pub open spec fn range_released(
        &self,
        after: &Self,
        before: Transaction,
        transaction: Transaction,
        first: PBlockId,
        count: u32,
        outcome: Result<()>,
    ) -> bool {
        exists|asked: Self, reply: Result<Vec<BlockImage>>|
            {
                &&& #[trigger] self.asked(&asked, LayerCall::ReleaseRange { first, count, reply })
                &&& match reply {
                    Ok(images) => asked.images_staged(
                        after,
                        before,
                        transaction,
                        images@,
                        0,
                        outcome,
                    ),
                    Err(error) => {
                        &&& asked.idle(after)
                        &&& transaction == before
                        &&& outcome == Err::<(), Ext4Error>(error)
                    },
                }
            }
    }

    /// Releases consecutive blocks inside a transaction.
    fn transaction_dealloc_block_range(
        &mut self,
        transaction: &mut Transaction,
        first: PBlockId,
        count: u32,
    ) -> (outcome: Result<()>)
        requires
            old(self).inv(),
            old(transaction).inv(),
        ensures
            final(self).state() == old(self).state(),
            final(transaction).inv(),
            final(transaction).deferred() == old(transaction).deferred(),
            old(self).range_released(
                final(self),
                *old(transaction),
                *final(transaction),
                first,
                count,
                outcome,
            ),
    {
        let reply = self.dealloc_block_range(transaction, first, count);
        let ghost asked = *self;
        let ghost answer = reply;
        assert(old(self).asked(&asked, LayerCall::ReleaseRange { first, count, reply: answer }));
        match reply {
            Ok(images) => self.stage_images(transaction, &images),
            Err(error) => Err(error),
        }
    }

    /// What releasing single blocks inside a transaction calls, changes and returns, from block
    /// number `at` on.
    pub open spec fn singles_released(
        &self,
        after: &Self,
        before: Transaction,
        transaction: Transaction,
        homes: Seq<PBlockId>,
        at: int,
        outcome: Result<()>,
    ) -> bool
        decreases homes.len() - at,
    {
        if at >= homes.len() {
            &&& self.idle(after)
            &&& transaction == before
            &&& outcome == Ok::<(), Ext4Error>(())
        } else {
            exists|released: Self, grown: Transaction, reply: Result<()>|
                {
                    &&& #[trigger] self.range_released(
                        &released,
                        before,
                        grown,
                        homes[at],
                        1,
                        reply,
                    )
                    &&& match reply {
                        Ok(_) => released.singles_released(
                            after,
                            grown,
                            transaction,
                            homes,
                            at + 1,
                            outcome,
                        ),
                        Err(error) => {
                            &&& released.idle(after)
                            &&& transaction == grown
                            &&& outcome == Err::<(), Ext4Error>(error)
                        },
                    }
                }
        }
    }

    /// Releases single blocks inside a transaction.
    fn release_singles(&mut self, transaction: &mut Transaction, homes: &Vec<PBlockId>) -> (outcome:
        Result<()>)
        requires
            old(self).inv(),
            old(transaction).inv(),
        ensures
            final(self).state() == old(self).state(),
            final(transaction).inv(),
            final(transaction).deferred() == old(transaction).deferred(),
            old(self).singles_released(
                final(self),
                *old(transaction),
                *final(transaction),
                homes@,
                0,
                outcome,
            ),
    {
        let ghost first = *transaction;
        let mut at: usize = 0;
        while at < homes.len()
            invariant
                self.inv(),
                self.state() == old(self).state(),
                transaction.inv(),
                transaction.deferred() == old(transaction).deferred(),
                first == *old(transaction),
                at <= homes@.len(),
                forall|end: Self, ended: Transaction, outcome: Result<()>|
                    #[trigger] self.singles_released(
                        &end,
                        *transaction,
                        ended,
                        homes@,
                        at as int,
                        outcome,
                    ) ==> old(self).singles_released(&end, first, ended, homes@, 0, outcome),
            decreases homes@.len() - at,
        {
            let ghost before = *self;
            let ghost earlier = *transaction;
            let ghost tried = at;
            let reply = self.transaction_dealloc_block_range(transaction, homes[at], 1);
            let ghost released = *self;
            assert(before.range_released(
                &released,
                earlier,
                *transaction,
                homes@[tried as int],
                1,
                reply,
            ));
            match reply {
                Ok(_) => {},
                Err(error) => {
                    assert(before.singles_released(
                        self,
                        earlier,
                        *transaction,
                        homes@,
                        tried as int,
                        Err(error),
                    ));
                    return Err(error);
                },
            }
            at = at + 1;
            assert forall|end: Self, ended: Transaction, outcome: Result<()>|
                #[trigger] self.singles_released(
                    &end,
                    *transaction,
                    ended,
                    homes@,
                    at as int,
                    outcome,
                ) implies old(self).singles_released(&end, first, ended, homes@, 0, outcome) by {
                assert(before.range_released(
                    &released,
                    earlier,
                    *transaction,
                    homes@[tried as int],
                    1,
                    reply,
                ));
                assert(before.singles_released(
                    &end,
                    earlier,
                    ended,
                    homes@,
                    tried as int,
                    outcome,
                ));
            }
        }
        assert(self.singles_released(
            self,
            *transaction,
            *transaction,
            homes@,
            at as int,
            Ok(()),
        ));
        Ok(())
    }

    /// What committing a step calls, changes and returns: when it fails, nothing may change any
    /// more.
    pub open spec fn cut_committed(
        &self,
        after: &Self,
        transaction: Transaction,
        finished: bool,
        outcome: Result<bool>,
    ) -> bool {
        exists|done: Self, reply: core::result::Result<(), CommitError>|
            {
                &&& #[trigger] self.committed(&done, transaction, reply)
                &&& match reply {
                    Ok(_) => done.idle(after) && outcome == Ok::<bool, Ext4Error>(finished),
                    Err(stop) => done.gave_out(after) && outcome == Err::<bool, Ext4Error>(
                        stop.error,
                    ),
                }
            }
    }

    /// What staging the inode of a step and committing it calls, changes and returns.
    pub open spec fn cut_staged(
        &self,
        after: &Self,
        inode: InodeRef,
        transaction: Transaction,
        finished: bool,
        outcome: Result<bool>,
    ) -> bool {
        exists|staged: Self, grown: Transaction, sealed: InodeRef, reply: Result<()>|
            {
                &&& #[trigger] self.inode_staged(
                    &staged,
                    transaction,
                    grown,
                    inode,
                    sealed,
                    reply,
                )
                &&& match reply {
                    Ok(_) => staged.cut_committed(after, grown, finished, outcome),
                    Err(error) => staged.given_up(after, grown) && outcome == Err::<
                        bool,
                        Ext4Error,
                    >(error),
                }
            }
    }

    /// Stages the inode of a step, and commits it.
    fn stage_cut(&mut self, inode: InodeRef, transaction: Transaction, finished: bool) -> (outcome:
        Result<bool>)
        requires
            old(self).inv(),
            transaction.inv(),
        ensures
            final(self).inv(),
            final(self).state().gate == old(self).state().gate,
            old(self).cut_staged(final(self), inode, transaction, finished, outcome),
    {
        let ghost begun = transaction;
        let mut transaction = transaction;
        let mut sealed = inode;
        let reply = self.transaction_stage_inode_with_csum(&mut transaction, &mut sealed);
        let ghost staged = *self;
        assert(old(self).inode_staged(&staged, begun, transaction, inode, sealed, reply));
        match reply {
            Ok(_) => {},
            Err(error) => {
                self.transaction_abort(transaction);
                return Err(error);
            },
        }
        let ghost grown = transaction;
        let reply = self.transaction_commit(transaction);
        let ghost done = *self;
        assert(staged.committed(&done, grown, reply));
        let outcome: Result<bool> = match reply {
            Ok(_) => Ok(finished),
            Err(stop) => {
                self.poison();
                Err(stop.error)
            },
        };
        assert(staged.cut_committed(self, grown, finished, outcome));
        outcome
    }

    /// What setting the size of a file, and what follows, calls, changes and returns.
    pub open spec fn cut_sized(
        &self,
        after: &Self,
        inode: InodeRef,
        transaction: Transaction,
        new_size: u64,
        outcome: Result<bool>,
    ) -> bool {
        exists|sized: InodeRef|
            {
                &&& sized.id == inode.id
                &&& sized.inode@ == with_halves64(inode.inode@, 4, 108, new_size)
                &&& #[trigger] self.cut_staged(after, sized, transaction, true, outcome)
            }
    }

    /// What counting the blocks that are left, and what follows, calls, changes and returns.
    pub open spec fn cut_counted(
        &self,
        after: &Self,
        inode: InodeRef,
        transaction: Transaction,
        released: int,
        outcome: Result<bool>,
    ) -> bool {
        let left = inode.inode.sectors() / SECTORS_PER_BLOCK - released;
        if left < 0 {
            self.given_up(after, transaction) && outcome == failed::<bool>(ErrCode::EIO)
        } else {
            exists|counted: InodeRef|
                {
                    &&& counted.id == inode.id
                    &&& counted.inode@ == with_wide48(
                        inode.inode@,
                        28,
                        116,
                        (left as u64).wrapping_mul(SECTORS_PER_BLOCK),
                    )
                    &&& #[trigger] self.cut_staged(after, counted, transaction, false, outcome)
                }
        }
    }

    /// What releasing the tree blocks of a cut, and what follows, calls, changes and returns.
    pub open spec fn cut_tree_released(
        &self,
        after: &Self,
        inode: InodeRef,
        transaction: Transaction,
        removed: RemovedTail,
        outcome: Result<bool>,
    ) -> bool {
        exists|released: Self, grown: Transaction, reply: Result<()>|
            {
                &&& #[trigger] self.singles_released(
                    &released,
                    transaction,
                    grown,
                    removed.metadata_blocks@,
                    0,
                    reply,
                )
                &&& match reply {
                    Ok(_) => released.cut_counted(
                        after,
                        inode,
                        grown,
                        removed.block_count + removed.metadata_blocks@.len(),
                        outcome,
                    ),
                    Err(error) => released.given_up(after, grown) && outcome == Err::<
                        bool,
                        Ext4Error,
                    >(error),
                }
            }
    }

    /// What releasing the data blocks of a cut, and what follows, calls, changes and returns.
    pub open spec fn cut_data_released(
        &self,
        after: &Self,
        inode: InodeRef,
        transaction: Transaction,
        removed: RemovedTail,
        outcome: Result<bool>,
    ) -> bool {
        exists|released: Self, grown: Transaction, reply: Result<()>|
            {
                &&& #[trigger] self.range_released(
                    &released,
                    transaction,
                    grown,
                    removed.start_pblock,
                    removed.block_count,
                    reply,
                )
                &&& match reply {
                    Ok(_) => released.cut_tree_released(after, inode, grown, removed, outcome),
                    Err(error) => released.given_up(after, grown) && outcome == Err::<
                        bool,
                        Ext4Error,
                    >(error),
                }
            }
    }

    /// What staging the tree blocks that a cut changed, and what follows, calls, changes and
    /// returns.
    pub open spec fn cut_imaged(
        &self,
        after: &Self,
        inode: InodeRef,
        transaction: Transaction,
        removed: RemovedTail,
        outcome: Result<bool>,
    ) -> bool {
        exists|staged: Self, grown: Transaction, reply: Result<()>|
            {
                &&& #[trigger] self.images_staged(
                    &staged,
                    transaction,
                    grown,
                    removed.images@,
                    0,
                    reply,
                )
                &&& match reply {
                    Ok(_) => staged.cut_data_released(after, inode, grown, removed, outcome),
                    Err(error) => staged.given_up(after, grown) && outcome == Err::<
                        bool,
                        Ext4Error,
                    >(error),
                }
            }
    }

    /// Records a cut, and commits it.
    fn record_cut(&mut self, inode: InodeRef, transaction: Transaction, removed: &RemovedTail) -> (
    outcome: Result<bool>)
        requires
            old(self).inv(),
            transaction.inv(),
        ensures
            final(self).inv(),
            final(self).state().gate == old(self).state().gate,
            old(self).cut_imaged(final(self), inode, transaction, *removed, outcome),
    {
        let ghost begun = transaction;
        let mut transaction = transaction;
        let reply = self.stage_images(&mut transaction, &removed.images);
        let ghost staged = *self;
        let ghost imaged = transaction;
        assert(old(self).images_staged(&staged, begun, imaged, removed.images@, 0, reply));
        match reply {
            Ok(_) => {},
            Err(error) => {
                self.transaction_abort(transaction);
                return Err(error);
            },
        }
        let reply = self.transaction_dealloc_block_range(
            &mut transaction,
            removed.start_pblock,
            removed.block_count,
        );
        let ghost freed = *self;
        let ghost lightened = transaction;
        assert(staged.range_released(
            &freed,
            imaged,
            lightened,
            removed.start_pblock,
            removed.block_count,
            reply,
        ));
        match reply {
            Ok(_) => {},
            Err(error) => {
                self.transaction_abort(transaction);
                assert(staged.cut_data_released(self, inode, imaged, *removed, Err(error)));
                return Err(error);
            },
        }
        let reply = self.release_singles(&mut transaction, &removed.metadata_blocks);
        let ghost pruned = *self;
        let ghost last = transaction;
        assert(freed.singles_released(
            &pruned,
            lightened,
            last,
            removed.metadata_blocks@,
            0,
            reply,
        ));
        match reply {
            Ok(_) => {},
            Err(error) => {
                self.transaction_abort(transaction);
                assert(freed.cut_tree_released(self, inode, lightened, *removed, Err(error)));
                assert(staged.cut_data_released(self, inode, imaged, *removed, Err(error)));
                return Err(error);
            },
        }
        let outcome = self.count_cut(
            inode,
            transaction,
            removed.block_count,
            removed.metadata_blocks.len(),
        );
        assert(freed.cut_tree_released(self, inode, lightened, *removed, outcome));
        assert(staged.cut_data_released(self, inode, imaged, *removed, outcome));
        outcome
    }

    /// Counts the blocks that are left, and commits the cut.
    fn count_cut(
        &mut self,
        inode: InodeRef,
        transaction: Transaction,
        data_blocks: u32,
        tree_blocks: usize,
    ) -> (outcome: Result<bool>)
        requires
            old(self).inv(),
            transaction.inv(),
        ensures
            final(self).inv(),
            final(self).state().gate == old(self).state().gate,
            old(self).cut_counted(
                final(self),
                inode,
                transaction,
                data_blocks + tree_blocks,
                outcome,
            ),
    {
        let blocks: u64 = inode.inode.fs_block_count();
        let left: Option<u64> = match blocks.checked_sub(data_blocks as u64) {
            Some(rest) => rest.checked_sub(tree_blocks as u64),
            None => None,
        };
        match left {
            Some(left) => {
                let mut counted = inode;
                counted.inode.set_fs_block_count(left);
                let outcome = self.stage_cut(counted, transaction, false);
                assert(old(self).cut_staged(self, counted, transaction, false, outcome));
                outcome
            },
            None => {
                self.transaction_abort(transaction);
                Err(Ext4Error::new(ErrCode::EIO))
            },
        }
    }

    /// What cutting blocks from the last extent, and what follows, calls, changes and returns.
    pub open spec fn cut_removed(
        &self,
        after: &Self,
        inode: InodeRef,
        transaction: Transaction,
        limit: u32,
        outcome: Result<bool>,
    ) -> bool {
        exists|asked: Self, shorter: InodeRef, reply: Result<Option<RemovedTail>>|
            {
                &&& #[trigger] self.asked(
                    &asked,
                    LayerCall::RemoveTail { inode, limit, after: shorter, reply },
                )
                &&& match reply {
                    Ok(Some(removed)) => asked.cut_imaged(
                        after,
                        shorter,
                        transaction,
                        removed,
                        outcome,
                    ),
                    Ok(None) => asked.given_up(after, transaction) && outcome == failed::<bool>(
                        ErrCode::EIO,
                    ),
                    Err(error) => asked.given_up(after, transaction) && outcome == Err::<
                        bool,
                        Ext4Error,
                    >(error),
                }
            }
    }

    /// What a step does to a file whose last extent is known.
    pub open spec fn cut_decided(
        &self,
        after: &Self,
        inode: InodeRef,
        tail: Option<ExtentTail>,
        transaction: Transaction,
        cut: Cut,
        outcome: Result<bool>,
    ) -> bool {
        match tail {
            None => self.cut_sized(after, inode, transaction, cut.new_size, outcome),
            Some(last) => match self.removal(last, cut.kept()) {
                Err(error) => self.given_up(after, transaction) && outcome == Err::<
                    bool,
                    Ext4Error,
                >(error),
                Ok(None) => self.cut_sized(after, inode, transaction, cut.new_size, outcome),
                Ok(Some(limit)) => self.cut_removed(after, inode, transaction, limit, outcome),
            },
        }
    }

    /// Carries out what a step does to a file whose last extent is known.
    fn decide_cut(
        &mut self,
        inode: InodeRef,
        tail: Option<ExtentTail>,
        transaction: Transaction,
        cut: &Cut,
    ) -> (outcome: Result<bool>)
        requires
            old(self).inv(),
            transaction.inv(),
        ensures
            final(self).inv(),
            final(self).state().gate == old(self).state().gate,
            old(self).cut_decided(final(self), inode, tail, transaction, *cut, outcome),
    {
        let limit: Option<u32> = match tail {
            Some(last) => match self.remove_limit(&last, cut.keep_blocks()) {
                Ok(limit) => limit,
                Err(error) => {
                    self.transaction_abort(transaction);
                    return Err(error);
                },
            },
            None => None,
        };
        match limit {
            Some(limit) => {
                let mut shorter = inode;
                let reply = self.extent_remove_tail(&transaction, &mut shorter, limit);
                let ghost asked = *self;
                let ghost answer = reply;
                assert(old(self).asked(
                    &asked,
                    LayerCall::RemoveTail { inode, limit, after: shorter, reply: answer },
                ));
                match reply {
                    Ok(Some(removed)) => {
                        let outcome = self.record_cut(shorter, transaction, &removed);
                        assert(asked.cut_imaged(self, shorter, transaction, removed, outcome));
                        outcome
                    },
                    Ok(None) => {
                        self.transaction_abort(transaction);
                        Err(Ext4Error::new(ErrCode::EIO))
                    },
                    Err(error) => {
                        self.transaction_abort(transaction);
                        Err(error)
                    },
                }
            },
            None => {
                let mut sized = inode;
                sized.inode.set_size(cut.new_size);
                let outcome = self.stage_cut(sized, transaction, true);
                assert(old(self).cut_staged(self, sized, transaction, true, outcome));
                outcome
            },
        }
    }

    /// What clearing the end of a block calls and returns.
    pub open spec fn rest_cleared(
        &self,
        after: &Self,
        home: PBlockId,
        rest: int,
        outcome: Result<()>,
    ) -> bool {
        exists|read: Self, reply: Result<Block>|
            {
                &&& #[trigger] self.block_read(&read, home, reply)
                &&& match reply {
                    Ok(block) => read.did(
                        after,
                        Event::WriteBlock {
                            id: block.id,
                            data: splice(block.data@, rest, zeros((BLOCK_SIZE - rest) as nat)),
                            reply: outcome,
                        },
                    ),
                    Err(error) => read.idle(after) && outcome == Err::<(), Ext4Error>(error),
                }
            }
    }

    /// What clearing the last block behind the end of a file calls and returns; a block that is
    /// not mapped reads as zero bytes already.
    pub open spec fn end_cleared(
        &self,
        after: &Self,
        inode: InodeRef,
        cut: Cut,
        outcome: Result<()>,
    ) -> bool {
        let last = cut.new_size as int / BLOCK_SIZE as int;
        if last > u32::MAX {
            self.idle(after) && outcome == failed::<()>(ErrCode::EFBIG)
        } else {
            exists|queried: Self, found: Result<PBlockId>|
                {
                    &&& #[trigger] self.block_located(&queried, inode, last as u32, found)
                    &&& match found {
                        Ok(home) => queried.rest_cleared(after, home, cut.rest(), outcome),
                        Err(error) => {
                            &&& queried.idle(after)
                            &&& outcome == if error.code == ErrCode::ENOENT {
                                Ok::<(), Ext4Error>(())
                            } else {
                                Err(error)
                            }
                        },
                    }
                }
        }
    }

    /// Clears the last block behind the end of a file.
    fn clear_end(&mut self, inode: &InodeRef, cut: &Cut) -> (outcome: Result<()>)
        requires
            old(self).inv(),
        ensures
            final(self).state() == old(self).state(),
            old(self).end_cleared(final(self), *inode, *cut, outcome),
    {
        let last: u64 = cut.new_size / BLOCK_SIZE as u64;
        let rest: usize = (cut.new_size % BLOCK_SIZE as u64) as usize;
        if last > u32::MAX as u64 {
            return Err(Ext4Error::new(ErrCode::EFBIG));
        }
        let found = self.extent_query(inode, last as u32);
        let ghost queried = *self;
        assert(old(self).block_located(
            &queried,
            *inode,
            (cut.new_size as int / BLOCK_SIZE as int) as u32,
            found,
        ));
        match found {
            Ok(home) => {
                let reply = self.read_block(home);
                let ghost read = *self;
                assert(queried.block_read(&read, home, reply));
                match reply {
                    Ok(block) => {
                        let mut image: [u8; BLOCK_SIZE] = *block.data;
                        put_zeros(&mut image, rest, BLOCK_SIZE - rest);
                        self.write_block(&Block::new(block.id, Box::new(image)))
                    },
                    Err(error) => Err(error),
                }
            },
            Err(error) => {
                if error.code() == ErrCode::ENOENT {
                    Ok(())
                } else {
                    Err(error)
                }
            },
        }
    }

    /// What a step does to a file once its last extent is known: the first step of a file that
    /// shrinks clears its last block.
    pub open spec fn cut_cleared(
        &self,
        after: &Self,
        inode: InodeRef,
        tail: Option<ExtentTail>,
        transaction: Transaction,
        cut: Cut,
        first: bool,
        outcome: Result<bool>,
    ) -> bool {
        if !first || !cut.shrinks() || cut.rest() == 0 {
            self.cut_decided(after, inode, tail, transaction, cut, outcome)
        } else {
            exists|cleared: Self, reply: Result<()>|
                {
                    &&& #[trigger] self.end_cleared(&cleared, inode, cut, reply)
                    &&& match reply {
                        Ok(_) => cleared.cut_decided(
                            after,
                            inode,
                            tail,
                            transaction,
                            cut,
                            outcome,
                        ),
                        Err(error) => cleared.given_up(after, transaction) && outcome == Err::<
                            bool,
                            Ext4Error,
                        >(error),
                    }
                }
        }
    }

    /// What a step does to a file that was read.
    pub open spec fn cut_looked_up(
        &self,
        after: &Self,
        inode: InodeRef,
        transaction: Transaction,
        cut: Cut,
        first: bool,
        outcome: Result<bool>,
    ) -> bool {
        if !cut.shrinks() || !crate::inode::has_extents(inode.inode@) {
            self.cut_cleared(after, inode, None, transaction, cut, first, outcome)
        } else {
            exists|asked: Self, reply: Result<Option<ExtentTail>>|
                {
                    &&& #[trigger] self.asked(&asked, LayerCall::Tail { inode, reply })
                    &&& match reply {
                        Ok(tail) => asked.cut_cleared(
                            after,
                            inode,
                            tail,
                            transaction,
                            cut,
                            first,
                            outcome,
                        ),
                        Err(error) => asked.given_up(after, transaction) && outcome == Err::<
                            bool,
                            Ext4Error,
                        >(error),
                    }
                }
        }
    }

    /// Carries out a step on a file that was read.
    fn look_up_cut(
        &mut self,
        inode: InodeRef,
        transaction: Transaction,
        cut: &Cut,
        first: bool,
    ) -> (outcome: Result<bool>)
        requires
            old(self).inv(),
            transaction.inv(),
        ensures
            final(self).inv(),
            final(self).state().gate == old(self).state().gate,
            old(self).cut_looked_up(final(self), inode, transaction, *cut, first, outcome),
    {
        let shrinks: bool = cut.new_size < cut.old_size;
        let mut tail: Option<ExtentTail> = None;
        if shrinks && inode.inode.uses_extents() {
            let reply = self.extent_tail(&transaction, &inode);
            assert(old(self).asked(self, LayerCall::Tail { inode, reply }));
            match reply {
                Ok(found) => {
                    tail = found;
                },
                Err(error) => {
                    self.transaction_abort(transaction);
                    return Err(error);
                },
            }
        }
        let ghost asked = *self;
        if first && shrinks && cut.new_size % BLOCK_SIZE as u64 != 0 {
            let reply = self.clear_end(&inode, cut);
            let ghost cleared = *self;
            assert(asked.end_cleared(&cleared, inode, *cut, reply));
            match reply {
                Ok(_) => {},
                Err(error) => {
                    self.transaction_abort(transaction);
                    assert(asked.cut_cleared(
                        self,
                        inode,
                        tail,
                        transaction,
                        *cut,
                        first,
                        Err(error),
                    ));
                    return Err(error);
                },
            }
        }
        let outcome = self.decide_cut(inode, tail, transaction, cut);
        assert(asked.cut_cleared(self, inode, tail, transaction, *cut, first, outcome));
        outcome
    }

    /// What reading the file of a step, and what follows, calls, changes and returns.
    pub open spec fn cut_opened(
        &self,
        after: &Self,
        id: InodeId,
        transaction: Transaction,
        cut: Cut,
        first: bool,
        outcome: Result<bool>,
    ) -> bool {
        exists|read: Self, found: Result<InodeRef>|
            {
                &&& #[trigger] self.staged_inode_read(&read, transaction, id, found)
                &&& match found {
                    Ok(inode) => read.cut_looked_up(
                        after,
                        inode,
                        transaction,
                        cut,
                        first,
                        outcome,
                    ),
                    Err(error) => read.given_up(after, transaction) && outcome == Err::<
                        bool,
                        Ext4Error,
                    >(error),
                }
            }
    }

    /// What one step calls, changes and returns: whether it was the last one.
    pub open spec fn step_cut(
        &self,
        after: &Self,
        id: InodeId,
        cut: Cut,
        first: bool,
        outcome: Result<bool>,
    ) -> bool {
        exists|begun: Self, reply: Result<Transaction>|
            {
                &&& #[trigger] self.begun(&begun, TRUNCATE_CREDITS, reply)
                &&& match reply {
                    Ok(transaction) => begun.cut_opened(
                        after,
                        id,
                        transaction,
                        cut,
                        first,
                        outcome,
                    ),
                    Err(error) => begun.idle(after) && outcome == Err::<bool, Ext4Error>(error),
                }
            }
    }

    /// Takes one step.
    fn cut_step(&mut self, id: InodeId, cut: &Cut, first: bool) -> (outcome: Result<bool>)
        requires
            old(self).inv(),
        ensures
            final(self).inv(),
            final(self).state().gate == old(self).state().gate,
            old(self).step_cut(final(self), id, *cut, first, outcome),
    {
        let reply = self.transaction_start(TRUNCATE_CREDITS);
        let ghost begun = *self;
        let ghost answer = reply;
        assert(old(self).begun(&begun, TRUNCATE_CREDITS, answer));
        let transaction = match reply {
            Ok(transaction) => transaction,
            Err(error) => {
                return Err(error);
            },
        };
        let found = self.transaction_read_inode(&transaction, id);
        let ghost read = *self;
        assert(begun.staged_inode_read(&read, transaction, id, found));
        let outcome: Result<bool> = match found {
            Ok(inode) => self.look_up_cut(inode, transaction, cut, first),
            Err(error) => {
                self.transaction_abort(transaction);
                Err(error)
            },
        };
        assert(begun.cut_opened(self, id, transaction, *cut, first, outcome));
        outcome
    }

    /// What the steps of a truncation call, change and return, when `left` more may be taken.
    pub open spec fn steps_cut(
        &self,
        after: &Self,
        id: InodeId,
        cut: Cut,
        left: nat,
        first: bool,
        outcome: Result<()>,
    ) -> bool
        decreases left,
    {
        if left == 0 {
            self.idle(after) && outcome == failed::<()>(ErrCode::EIO)
        } else {
            exists|stepped: Self, reply: Result<bool>|
                {
                    &&& #[trigger] self.step_cut(&stepped, id, cut, first, reply)
                    &&& match reply {
                        Ok(finished) => if finished {
                            stepped.idle(after) && outcome == Ok::<(), Ext4Error>(())
                        } else {
                            stepped.steps_cut(
                                after,
                                id,
                                cut,
                                (left - 1) as nat,
                                false,
                                outcome,
                            )
                        },
                        Err(error) => stepped.idle(after) && outcome == Err::<(), Ext4Error>(
                            error,
                        ),
                    }
                }
        }
    }

    /// Takes the steps of a truncation.
    fn cut_steps(&mut self, id: InodeId, cut: &Cut) -> (outcome: Result<()>)
        requires
            old(self).inv(),
        ensures
            final(self).inv(),
            final(self).state().gate == old(self).state().gate,
            old(self).steps_cut(
                final(self),
                id,
                *cut,
                TRUNCATE_MAX_STEPS as nat,
                true,
                outcome,
            ),
    {
        let mut left: u64 = TRUNCATE_MAX_STEPS;
        let mut first: bool = true;
        while left > 0
            invariant
                self.inv(),
                self.state().gate == old(self).state().gate,
                forall|end: Self, outcome: Result<()>|
                    #[trigger] self.steps_cut(&end, id, *cut, left as nat, first, outcome)
                        ==> old(self).steps_cut(
                        &end,
                        id,
                        *cut,
                        TRUNCATE_MAX_STEPS as nat,
                        true,
                        outcome,
                    ),
            decreases left,
        {
            let ghost before = *self;
            let ghost tried = (left, first);
            let reply = self.cut_step(id, cut, first);
            let ghost stepped = *self;
            assert(before.step_cut(&stepped, id, *cut, tried.1, reply));
            match reply {
                Ok(finished) => {
                    if finished {
                        assert(before.steps_cut(
                            self,
                            id,
                            *cut,
                            tried.0 as nat,
                            tried.1,
                            Ok(()),
                        ));
                        return Ok(());
                    }
                },
                Err(error) => {
                    assert(before.steps_cut(
                        self,
                        id,
                        *cut,
                        tried.0 as nat,
                        tried.1,
                        Err(error),
                    ));
                    return Err(error);
                },
            }
            left = left - 1;
            first = false;
            assert forall|end: Self, outcome: Result<()>|
                #[trigger] self.steps_cut(
                    &end,
                    id,
                    *cut,
                    left as nat,
                    first,
                    outcome,
                ) implies old(self).steps_cut(
                &end,
                id,
                *cut,
                TRUNCATE_MAX_STEPS as nat,
                true,
                outcome,
            ) by {
                assert(before.step_cut(&stepped, id, *cut, tried.1, reply));
                assert(before.steps_cut(
                    &end,
                    id,
                    *cut,
                    tried.0 as nat,
                    tried.1,
                    outcome,
                ));
            }
        }
        assert(self.steps_cut(self, id, *cut, left as nat, first, failed(ErrCode::EIO)));
        Err(Ext4Error::new(ErrCode::EIO))
    }

    /// What truncating a file whose size is known calls, changes and returns.
    pub open spec fn file_resized(
        &self,
        after: &Self,
        id: InodeId,
        new_size: u64,
        outcome: Result<()>,
    ) -> bool {
        exists|read: Self, found: Result<InodeRef>|
            {
                &&& #[trigger] self.inode_read(&read, id, found)
                &&& match found {
                    Ok(inode) => if is_free(inode.inode) {
                        read.idle(after) && outcome == failed::<()>(ErrCode::EINVAL)
                    } else if inode.inode.byte_size() == new_size {
                        read.idle(after) && outcome == Ok::<(), Ext4Error>(())
                    } else {
                        read.steps_cut(
                            after,
                            id,
                            (Cut { old_size: inode.inode.byte_size(), new_size }),
                            TRUNCATE_MAX_STEPS as nat,
                            true,
                            outcome,
                        )
                    },
                    Err(error) => read.idle(after) && outcome == Err::<(), Ext4Error>(error),
                }
            }
    }

    /// What truncating a file calls, changes and returns, inside the barrier.
    pub open spec fn truncated(
        &self,
        after: &Self,
        id: InodeId,
        new_size: u64,
        outcome: Result<()>,
    ) -> bool {
        exists|flushed: Self, reply: Result<()>|
            {
                &&& #[trigger] self.flushed(
                    &flushed,
                    JournalCommitReason::DurabilityBoundary,
                    reply,
                )
                &&& match reply {
                    Ok(_) => flushed.file_resized(after, id, new_size, outcome),
                    Err(error) => flushed.idle(after) && outcome == Err::<(), Ext4Error>(error),
                }
            }
    }

    /// What truncating a file calls, changes and returns, with the barrier.
    pub open spec fn size_changed(
        &self,
        after: &Self,
        id: InodeId,
        new_size: u64,
        outcome: Result<()>,
    ) -> bool {
        self.changed_exclusively(
            after,
            |inside: Self, left: Self, outcome: Result<()>|
                inside.truncated(&left, id, new_size, outcome),
            outcome,
        )
    }

    /// Truncates a file, inside the barrier.
    fn truncate_locked(&mut self, id: InodeId, new_size: u64) -> (outcome: Result<()>)
        requires
            old(self).inv(),
        ensures
            final(self).inv(),
            final(self).state().gate == old(self).state().gate,
            old(self).truncated(final(self), id, new_size, outcome),
    {
        let reply = self.flush_deferred_journal(JournalCommitReason::DurabilityBoundary);
        let ghost flushed = *self;
        assert(old(self).flushed(&flushed, JournalCommitReason::DurabilityBoundary, reply));
        match reply {
            Ok(_) => {},
            Err(error) => {
                return Err(error);
            },
        }
        let found = self.read_inode(id);
        let ghost read = *self;
        assert(flushed.inode_read(&read, id, found));
        let inode = match found {
            Ok(inode) => inode,
            Err(error) => {
                assert(flushed.file_resized(self, id, new_size, Err(error)));
                return Err(error);
            },
        };
        if inode.inode.mode().bits() == 0 {
            assert(flushed.file_resized(self, id, new_size, failed(ErrCode::EINVAL)));
            return Err(Ext4Error::new(ErrCode::EINVAL));
        }
        let old_size: u64 = inode.inode.size();
        if old_size == new_size {
            assert(flushed.file_resized(self, id, new_size, Ok(())));
            return Ok(());
        }
        let cut = Cut { old_size, new_size };
        let outcome = self.cut_steps(id, &cut);
        assert(flushed.file_resized(self, id, new_size, outcome));
        outcome
    }

    /// Changes the size of a file, and releases the blocks behind the new end.
    pub fn truncate_inode(&mut self, inode_id: InodeId, new_size: u64) -> (outcome: Result<()>)
        requires
            old(self).inv(),
        ensures
            final(self).inv(),
            final(self).state().gate == old(self).state().gate,
            old(self).size_changed(final(self), inode_id, new_size, outcome),
    {
        match self.ensure_mutable() {
            Ok(_) => {},
            Err(error) => {
                return Err(error);
            },
        }
        let lock = self.lock_transactional_metadata_mutation();
        let ghost inside = *self;
        assert(old(self).exclusive_entered(&inside, lock));
        match lock {
            Ok(_) => {},
            Err(error) => {
                return Err(error);
            },
        }
        let outcome = self.truncate_locked(inode_id, new_size);
        self.unlock_transactional_metadata_mutation();
        outcome
    }
}

impl<D: BlockDevice, V: Volume<D>> Ext4<D, V> {
    /// What setting the size of a file in a transaction of its own calls, changes and returns.
    pub open spec fn size_set(
        &self,
        after: &Self,
        id: InodeId,
        new_size: u64,
        outcome: Result<bool>,
    ) -> bool {
        exists|begun: Self, reply: Result<Transaction>|
            {
                &&& #[trigger] self.begun(&begun, TRUNCATE_CREDITS, reply)
                &&& match reply {
                    Ok(transaction) => begun.size_staged(
                        after,
                        id,
                        transaction,
                        new_size,
                        outcome,
                    ),
                    Err(error) => begun.idle(after) && outcome == Err::<bool, Ext4Error>(error),
                }
            }
    }

    /// What setting the size of a file inside a transaction calls, changes and returns.
    pub open spec fn size_staged(
        &self,
        after: &Self,
        id: InodeId,
        transaction: Transaction,
        new_size: u64,
        outcome: Result<bool>,
    ) -> bool {
        exists|read: Self, found: Result<InodeRef>|
            {
                &&& #[trigger] self.staged_inode_read(&read, transaction, id, found)
                &&& match found {
                    Ok(inode) => read.cut_sized(after, inode, transaction, new_size, outcome),
                    Err(error) => read.given_up(after, transaction) && outcome == Err::<
                        bool,
                        Ext4Error,
                    >(error),
                }
            }
    }

    /// A file that grows has its size set, and nothing else is done to it.
    pub proof fn lemma_growing_sets_the_size_alone(
        &self,
        after: &Self,
        id: InodeId,
        cut: Cut,
        left: nat,
        outcome: Result<()>,
    )
        requires
            self.steps_cut(after, id, cut, left, true, outcome),
            left > 0,
            cut.old_size < cut.new_size,
        ensures
            exists|set: Self, reply: Result<bool>|
                {
                    &&& #[trigger] self.size_set(&set, id, cut.new_size, reply)
                    &&& set.idle(after)
                    &&& outcome == match reply {
                        Ok(_) => Ok::<(), Ext4Error>(()),
                        Err(error) => Err(error),
                    }
                },
    {
        let (stepped, reply) = choose|stepped: Self, reply: Result<bool>|
            {
                &&& #[trigger] self.step_cut(&stepped, id, cut, true, reply)
                &&& match reply {
                    Ok(finished) => if finished {
                        stepped.idle(after) && outcome == Ok::<(), Ext4Error>(())
                    } else {
                        stepped.steps_cut(after, id, cut, (left - 1) as nat, false, outcome)
                    },
                    Err(error) => stepped.idle(after) && outcome == Err::<(), Ext4Error>(error),
                }
            };
        let (begun, start) = choose|begun: Self, start: Result<Transaction>|
            {
                &&& #[trigger] self.begun(&begun, TRUNCATE_CREDITS, start)
                &&& match start {
                    Ok(transaction) => begun.cut_opened(
                        &stepped,
                        id,
                        transaction,
                        cut,
                        true,
                        reply,
                    ),
                    Err(error) => begun.idle(&stepped) && reply == Err::<bool, Ext4Error>(error),
                }
            };
        if let Ok(transaction) = start {
            let (read, found) = choose|read: Self, found: Result<InodeRef>|
                {
                    &&& #[trigger] begun.staged_inode_read(&read, transaction, id, found)
                    &&& match found {
                        Ok(inode) => read.cut_looked_up(
                            &stepped,
                            inode,
                            transaction,
                            cut,
                            true,
                            reply,
                        ),
                        Err(error) => read.given_up(&stepped, transaction) && reply == Err::<
                            bool,
                            Ext4Error,
                        >(error),
                    }
                };
            if let Ok(inode) = found {
                assert(read.cut_sized(&stepped, inode, transaction, cut.new_size, reply));
                let sized = choose|sized: InodeRef|
                    {
                        &&& sized.id == inode.id
                        &&& sized.inode@ == with_halves64(inode.inode@, 4, 108, cut.new_size)
                        &&& #[trigger] read.cut_staged(&stepped, sized, transaction, true, reply)
                    };
                read.lemma_stage_says_whether_finished(&stepped, sized, transaction, true, reply);
            }
            assert(begun.size_staged(&stepped, id, transaction, cut.new_size, reply));
        }
        assert(self.size_set(&stepped, id, cut.new_size, reply));
    }

    /// A step that is committed says whether it was the last one.
    proof fn lemma_stage_says_whether_finished(
        &self,
        after: &Self,
        inode: InodeRef,
        transaction: Transaction,
        finished: bool,
        outcome: Result<bool>,
    )
        requires
            self.cut_staged(after, inode, transaction, finished, outcome),
        ensures
            outcome matches Ok(last) ==> last == finished,
    {
        let (staged, grown, sealed, reply) = choose|
            staged: Self,
            grown: Transaction,
            sealed: InodeRef,
            reply: Result<()>,
        |
            {
                &&& #[trigger] self.inode_staged(
                    &staged,
                    transaction,
                    grown,
                    inode,
                    sealed,
                    reply,
                )
                &&& match reply {
                    Ok(_) => staged.cut_committed(after, grown, finished, outcome),
                    Err(error) => staged.given_up(after, grown) && outcome == Err::<
                        bool,
                        Ext4Error,
                    >(error),
                }
            };
        if reply is Ok {
            assert(staged.cut_committed(after, grown, finished, outcome));
        }
    }

    /// A step that cuts blocks is not the last one.
    pub(crate) proof fn lemma_cut_is_not_the_last(
        &self,
        after: &Self,
        inode: InodeRef,
        transaction: Transaction,
        limit: u32,
        outcome: Result<bool>,
    )
        requires
            self.cut_removed(after, inode, transaction, limit, outcome),
        ensures
            outcome != Ok::<bool, Ext4Error>(true),
    {
        let (asked, shorter, reply) = choose|
            asked: Self,
            shorter: InodeRef,
            reply: Result<Option<RemovedTail>>,
        |
            {
                &&& #[trigger] self.asked(
                    &asked,
                    LayerCall::RemoveTail { inode, limit, after: shorter, reply },
                )
                &&& match reply {
                    Ok(Some(removed)) => asked.cut_imaged(
                        after,
                        shorter,
                        transaction,
                        removed,
                        outcome,
                    ),
                    Ok(None) => asked.given_up(after, transaction) && outcome == failed::<bool>(
                        ErrCode::EIO,
                    ),
                    Err(error) => asked.given_up(after, transaction) && outcome == Err::<
                        bool,
                        Ext4Error,
                    >(error),
                }
            };
        if let Ok(Some(removed)) = reply {
            let (imaged, first, told) = choose|imaged: Self, first: Transaction, told: Result<()>|
                {
                    &&& #[trigger] asked.images_staged(
                        &imaged,
                        transaction,
                        first,
                        removed.images@,
                        0,
                        told,
                    )
                    &&& match told {
                        Ok(_) => imaged.cut_data_released(after, shorter, first, removed, outcome),
                        Err(error) => imaged.given_up(after, first) && outcome == Err::<
                            bool,
                            Ext4Error,
                        >(error),
                    }
                };
            if told is Ok {
                let (freed, second, said) = choose|
                    freed: Self,
                    second: Transaction,
                    said: Result<()>,
                |
                    {
                        &&& #[trigger] imaged.range_released(
                            &freed,
                            first,
                            second,
                            removed.start_pblock,
                            removed.block_count,
                            said,
                        )
                        &&& match said {
                            Ok(_) => freed.cut_tree_released(
                                after,
                                shorter,
                                second,
                                removed,
                                outcome,
                            ),
                            Err(error) => freed.given_up(after, second) && outcome == Err::<
                                bool,
                                Ext4Error,
                            >(error),
                        }
                    };
                if said is Ok {
                    freed.lemma_release_is_not_the_last(after, shorter, second, removed, outcome);
                }
            }
        }
    }

    /// A step that releases tree blocks is not the last one.
    proof fn lemma_release_is_not_the_last(
        &self,
        after: &Self,
        inode: InodeRef,
        transaction: Transaction,
        removed: RemovedTail,
        outcome: Result<bool>,
    )
        requires
            self.cut_tree_released(after, inode, transaction, removed, outcome),
        ensures
            outcome != Ok::<bool, Ext4Error>(true),
    {
        let (released, grown, reply) = choose|
            released: Self,
            grown: Transaction,
            reply: Result<()>,
        |
            {
                &&& #[trigger] self.singles_released(
                    &released,
                    transaction,
                    grown,
                    removed.metadata_blocks@,
                    0,
                    reply,
                )
                &&& match reply {
                    Ok(_) => released.cut_counted(
                        after,
                        inode,
                        grown,
                        removed.block_count + removed.metadata_blocks@.len(),
                        outcome,
                    ),
                    Err(error) => released.given_up(after, grown) && outcome == Err::<
                        bool,
                        Ext4Error,
                    >(error),
                }
            };
        let count = removed.block_count + removed.metadata_blocks@.len();
        let left = inode.inode.sectors() / SECTORS_PER_BLOCK - count;
        if reply is Ok && left >= 0 {
            let counted = choose|counted: InodeRef|
                {
                    &&& counted.id == inode.id
                    &&& counted.inode@ == with_wide48(
                        inode.inode@,
                        28,
                        116,
                        (left as u64).wrapping_mul(SECTORS_PER_BLOCK),
                    )
                    &&& #[trigger] released.cut_staged(after, counted, grown, false, outcome)
                };
            released.lemma_stage_says_whether_finished(after, counted, grown, false, outcome);
        }
    }

    /// The new size of a file that shrinks is recorded only once the last extent of the file
    /// ends with the blocks that the file keeps, or there is none.
    pub proof fn lemma_size_is_recorded_last(
        &self,
        after: &Self,
        inode: InodeRef,
        transaction: Transaction,
        cut: Cut,
        first: bool,
    )
        requires
            self.cut_looked_up(after, inode, transaction, cut, first, Ok(true)),
            cut.shrinks(),
            crate::inode::has_extents(inode.inode@),
        ensures
            exists|asked: Self, tail: Option<ExtentTail>|
                {
                    &&& #[trigger] self.asked(&asked, LayerCall::Tail { inode, reply: Ok(tail) })
                    &&& tail matches Some(last) ==> last.start_lblock + last.block_count
                        <= cut.kept()
                },
    {
        let (asked, reply) = choose|asked: Self, reply: Result<Option<ExtentTail>>|
            {
                &&& #[trigger] self.asked(&asked, LayerCall::Tail { inode, reply })
                &&& match reply {
                    Ok(tail) => asked.cut_cleared(
                        after,
                        inode,
                        tail,
                        transaction,
                        cut,
                        first,
                        Ok(true),
                    ),
                    Err(error) => asked.given_up(after, transaction) && Ok::<bool, Ext4Error>(true)
                        == Err::<bool, Ext4Error>(error),
                }
            };
        let tail = reply->Ok_0;
        assert(self.asked(&asked, LayerCall::Tail { inode, reply: Ok(tail) }));
        let cleared = if !first || cut.rest() == 0 {
            asked
        } else {
            let (cleared, said) = choose|cleared: Self, said: Result<()>|
                {
                    &&& #[trigger] asked.end_cleared(&cleared, inode, cut, said)
                    &&& match said {
                        Ok(_) => cleared.cut_decided(
                            after,
                            inode,
                            tail,
                            transaction,
                            cut,
                            Ok(true),
                        ),
                        Err(error) => cleared.given_up(after, transaction) && Ok::<
                            bool,
                            Ext4Error,
                        >(true) == Err::<bool, Ext4Error>(error),
                    }
                };
            cleared
        };
        assert(cleared.cut_decided(after, inode, tail, transaction, cut, Ok(true)));
        if let Some(last) = tail {
            if let Ok(Some(limit)) = cleared.removal(last, cut.kept()) {
                cleared.lemma_cut_is_not_the_last(after, inode, transaction, limit, Ok(true));
            }
        }
    }
}

} // verus!
