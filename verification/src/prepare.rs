//! Preparing the blocks of a buffered write.

use vstd::prelude::*;
use crate::append_range::{data_in, usable, usable_data, DirectRangePlan, DirectRangePrepare};
use crate::device::BlockDevice;
use crate::error::{failed, ErrCode, Ext4Error, Result};
use crate::fs::{Ext4, FsState};
use crate::grow::is_free;
use crate::inode::InodeRef;
use crate::prepared_extent::PreparedExtentProbe;
use crate::range::{addressable, range_of, WriteLogicalRange};
use crate::volume::Volume;
use crate::InodeId;

verus! {

impl<D: BlockDevice, V: Volume<D>> Ext4<D, V> {
    /// Whether a range is mapped was looked up.
    pub open spec fn probed(
        &self,
        after: &Self,
        id: InodeId,
        range: WriteLogicalRange,
        probe: PreparedExtentProbe,
    ) -> bool {
        &&& self.quiet(after)
        &&& after.state() == (FsState { prepared: after.state().prepared, ..self.state() })
        &&& self.state().prepared.probed(&after.state().prepared, id, range, probe)
    }

    /// That a range is mapped was recorded.
    pub open spec fn range_published(
        &self,
        after: &Self,
        id: InodeId,
        range: WriteLogicalRange,
    ) -> bool {
        &&& self.quiet(after)
        &&& after.state() == (FsState { prepared: after.state().prepared, ..self.state() })
        &&& self.state().prepared.recorded(&after.state().prepared, id, range)
    }

    /// What giving blocks to a range, and recording that, calls, changes and returns.
    pub open spec fn range_settled(
        &self,
        after: &Self,
        id: InodeId,
        range: WriteLogicalRange,
        outcome: Result<bool>,
    ) -> bool {
        exists|given: Self, reply: Result<()>|
            {
                &&& #[trigger] self.range_given(&given, id, range, reply)
                &&& match reply {
                    Ok(_) => {
                        &&& given.range_published(after, id, range)
                        &&& outcome == Ok::<bool, Ext4Error>(false)
                    },
                    Err(error) => given.idle(after) && outcome == Err::<bool, Ext4Error>(error),
                }
            }
    }

    /// What giving blocks to a range calls, changes and returns where it may be known to be mapped.
    pub open spec fn range_secured(
        &self,
        after: &Self,
        id: InodeId,
        range: WriteLogicalRange,
        outcome: Result<bool>,
    ) -> bool {
        exists|looked: Self, probe: PreparedExtentProbe|
            {
                &&& #[trigger] self.probed(&looked, id, range, probe)
                &&& if self.state().prepared.knows(id, range) {
                    looked.idle(after) && outcome == Ok::<bool, Ext4Error>(false)
                } else {
                    looked.range_settled(after, id, range, outcome)
                }
            }
    }

    /// Gives blocks to a range, unless it is known to be mapped.
    fn secure_range(&mut self, id: InodeId, range: &WriteLogicalRange) -> (outcome: Result<bool>)
        requires
            old(self).inv(),
            range.inv(),
        ensures
            final(self).inv(),
            final(self).state().gate == old(self).state().gate,
            old(self).range_secured(final(self), id, *range, outcome),
    {
        let probe = self.prepared_extent_probe(id, range);
        let ghost looked = *self;
        assert(old(self).probed(&looked, id, *range, probe));
        if Self::prepared_extent_hit(probe) {
            return Ok(false);
        }
        let reply = self.give_range(id, range);
        let ghost given = *self;
        assert(looked.range_given(&given, id, *range, reply));
        match reply {
            Ok(_) => {
                let published: bool = self.publish_prepared_extent(
                    id,
                    range,
                    Self::prepared_extent_token(probe),
                );
                assert(published);
                Ok(false)
            },
            Err(error) => Err(error),
        }
    }

    /// What asking whether a range of an inode can be allocated as a whole calls and returns.
    pub open spec fn plan_tried(
        &self,
        after: &Self,
        id: InodeId,
        range: WriteLogicalRange,
        outcome: Result<bool>,
    ) -> bool {
        exists|read: Self, found: Result<InodeRef>|
            {
                &&& #[trigger] self.inode_read(&read, id, found)
                &&& match found {
                    Ok(inode) => if is_free(inode.inode) {
                        read.idle(after) && outcome == failed::<bool>(ErrCode::EINVAL)
                    } else {
                        read.plan_asked(after, inode, range, outcome)
                    },
                    Err(error) => read.idle(after) && outcome == Err::<bool, Ext4Error>(error),
                }
            }
    }

    /// What asking for a plan calls and returns.
    pub open spec fn plan_asked(
        &self,
        after: &Self,
        inode: InodeRef,
        range: WriteLogicalRange,
        outcome: Result<bool>,
    ) -> bool {
        exists|reply: Result<Option<DirectRangePlan>>|
            {
                &&& #[trigger] self.range_planned(after, inode, range, reply)
                &&& outcome == match reply {
                    Ok(plan) => Ok::<bool, Ext4Error>(plan is Some),
                    Err(error) => Err(error),
                }
            }
    }

    /// Asks whether a range of an inode can be allocated as a whole.
    fn try_plan(&mut self, id: InodeId, range: &WriteLogicalRange) -> (outcome: Result<bool>)
        requires
            old(self).inv(),
        ensures
            final(self).state() == old(self).state(),
            old(self).plan_tried(final(self), id, *range, outcome),
    {
        let found = self.read_inode(id);
        let ghost read = *self;
        assert(old(self).inode_read(&read, id, found));
        let inode = match found {
            Ok(inode) => inode,
            Err(error) => {
                return Err(error);
            },
        };
        if inode.inode.mode().bits() == 0 {
            return Err(Ext4Error::new(ErrCode::EINVAL));
        }
        let reply = self.direct_range_plan(&inode, range);
        assert(read.range_planned(self, inode, *range, reply));
        let outcome: Result<bool> = match reply {
            Ok(plan) => Ok(plan.is_some()),
            Err(error) => Err(error),
        };
        assert(read.plan_asked(self, inode, *range, outcome));
        outcome
    }

    /// What preparing a range of an inode as a whole, without a journal, calls, changes and returns.
    pub open spec fn whole_prepared(
        &self,
        after: &Self,
        id: InodeId,
        range: WriteLogicalRange,
        data: Option<Seq<u8>>,
        outcome: Result<DirectRangePrepare>,
    ) -> bool {
        exists|read: Self, found: Result<InodeRef>|
            {
                &&& #[trigger] self.inode_read(&read, id, found)
                &&& match found {
                    Ok(inode) => if is_free(inode.inode) {
                        read.idle(after) && outcome == failed::<DirectRangePrepare>(ErrCode::EINVAL)
                    } else {
                        exists|sealed: InodeRef| #[trigger]
                            read.direct_range_prepared(after, inode, sealed, range, data, outcome)
                    },
                    Err(error) => read.idle(after) && outcome == Err::<
                        DirectRangePrepare,
                        Ext4Error,
                    >(error),
                }
            }
    }

    /// Prepares a range of an inode as a whole, without a journal.
    fn prepare_whole(&mut self, id: InodeId, range: &WriteLogicalRange, data: Option<&[u8]>) -> (
    outcome: Result<DirectRangePrepare>)
        requires
            old(self).inv(),
        ensures
            final(self).inv(),
            final(self).state().gate == old(self).state().gate,
            old(self).whole_prepared(final(self), id, *range, data_in(data), outcome),
    {
        let found = self.read_inode(id);
        let ghost read = *self;
        assert(old(self).inode_read(&read, id, found));
        let mut inode = match found {
            Ok(inode) => inode,
            Err(error) => {
                return Err(error);
            },
        };
        if inode.inode.mode().bits() == 0 {
            return Err(Ext4Error::new(ErrCode::EINVAL));
        }
        let ghost original = inode;
        let outcome = self.try_prepare_direct_range(&mut inode, range, data);
        assert(read.direct_range_prepared(
            self,
            original,
            inode,
            *range,
            data_in(data),
            outcome,
        ));
        outcome
    }
}

/// What an attempt to prepare a range as a whole decides; without a decision another way is tried.
pub open spec fn decided(outcome: Result<DirectRangePrepare>) -> Option<Result<bool>> {
    match outcome {
        Ok(DirectRangePrepare::DataWritten) => Some(Ok(true)),
        Ok(DirectRangePrepare::Initialized) => Some(Ok(false)),
        Ok(DirectRangePrepare::Unsupported) => None,
        Err(error) => Some(Err(error)),
    }
}

/// What an attempt to prepare a range as a whole decides.
fn decision(outcome: Result<DirectRangePrepare>) -> (found: Option<Result<bool>>)
    ensures
        found == decided(outcome),
{
    match outcome {
        Ok(DirectRangePrepare::DataWritten) => Some(Ok(true)),
        Ok(DirectRangePrepare::Initialized) => Some(Ok(false)),
        Ok(DirectRangePrepare::Unsupported) => None,
        Err(error) => Some(Err(error)),
    }
}

impl<D: BlockDevice, V: Volume<D>> Ext4<D, V> {
    /// What the attempt to write to mapped blocks without a journal calls, changes and decides.
    pub open spec fn plain_attempted(
        &self,
        after: &Self,
        id: InodeId,
        offset: usize,
        len: usize,
        data: Option<Seq<u8>>,
        decision: Option<Result<bool>>,
    ) -> bool {
        if self.state().mode is Journal || usable(data, len as nat) is None {
            self.idle(after) && decision is None
        } else {
            exists|outcome: Result<usize>|
                {
                    &&& #[trigger] self.data_only_written(
                        after,
                        id,
                        offset,
                        usable(data, len as nat)->0,
                        outcome,
                    )
                    &&& decision == match outcome {
                        Ok(written) => if written == len {
                            Some(Ok::<bool, Ext4Error>(true))
                        } else {
                            Some(failed(ErrCode::EIO))
                        },
                        Err(error) => if error.code == ErrCode::ENOENT {
                            None
                        } else {
                            Some(Err(error))
                        },
                    }
                }
        }
    }

    /// What writing data alone calls, changes and returns.
    pub open spec fn data_only_written(
        &self,
        after: &Self,
        id: InodeId,
        offset: usize,
        data: Seq<u8>,
        outcome: Result<usize>,
    ) -> bool {
        self.changed_directly(
            after,
            |inside: Self, left: Self, outcome: Result<usize>|
                inside.data_written(&left, id, offset, data, outcome),
            outcome,
        )
    }

    /// Tries to write to mapped blocks without a journal.
    fn attempt_plain(&mut self, id: InodeId, offset: usize, len: usize, data: Option<&[u8]>) -> (
    decision: Option<Result<bool>>)
        requires
            old(self).inv(),
        ensures
            final(self).inv(),
            final(self).state().gate == old(self).state().gate,
            old(self).plain_attempted(final(self), id, offset, len, data_in(data), decision),
    {
        if self.uses_journal() {
            return None;
        }
        match usable_data(data, len) {
            Some(bytes) => {
                let outcome = self.write_data_only(id, offset, bytes);
                assert(old(self).data_only_written(
                    self,
                    id,
                    offset,
                    usable(data_in(data), len as nat)->0,
                    outcome,
                ));
                match outcome {
                    Ok(written) => {
                        if written == len {
                            Some(Ok(true))
                        } else {
                            Some(Err(Ext4Error::new(ErrCode::EIO)))
                        }
                    },
                    Err(error) => {
                        if error.code() == ErrCode::ENOENT {
                            None
                        } else {
                            Some(Err(error))
                        }
                    },
                }
            },
            None => None,
        }
    }

    /// What preparing a new range through the journal calls, changes and returns, with the barrier.
    pub open spec fn range_logged(
        &self,
        after: &Self,
        id: InodeId,
        range: WriteLogicalRange,
        data: Option<Seq<u8>>,
        outcome: Result<DirectRangePrepare>,
    ) -> bool {
        self.with_exclusive_gate(
            after,
            |inside: Self, left: Self, outcome: Result<DirectRangePrepare>|
                inside.journal_range_prepared(&left, id, range, data, outcome),
            outcome,
        )
    }

    /// Prepares a new range through the journal.
    fn log_range(&mut self, id: InodeId, range: &WriteLogicalRange, data: Option<&[u8]>) -> (outcome:
        Result<DirectRangePrepare>)
        requires
            old(self).inv(),
        ensures
            final(self).inv(),
            final(self).state().gate == old(self).state().gate,
            old(self).range_logged(final(self), id, *range, data_in(data), outcome),
    {
        let lock = self.lock_transactional_metadata_mutation();
        let ghost inside = *self;
        assert(old(self).exclusive_entered(&inside, lock));
        match lock {
            Ok(_) => {},
            Err(error) => {
                return Err(error);
            },
        }
        let outcome = self.try_prepare_journal_range(id, range, data);
        self.unlock_transactional_metadata_mutation();
        outcome
    }

    /// What writing to mapped blocks through the journal calls, changes and returns, with the barrier.
    pub open spec fn mapped_logged(
        &self,
        after: &Self,
        id: InodeId,
        range: WriteLogicalRange,
        offset: usize,
        data: Seq<u8>,
        outcome: Result<DirectRangePrepare>,
    ) -> bool {
        self.with_exclusive_gate(
            after,
            |inside: Self, left: Self, outcome: Result<DirectRangePrepare>|
                inside.journal_mapped_written(&left, id, range, offset, data, outcome),
            outcome,
        )
    }

    /// Writes to mapped blocks through the journal.
    fn log_mapped(
        &mut self,
        id: InodeId,
        range: &WriteLogicalRange,
        offset: usize,
        data: &[u8],
    ) -> (outcome: Result<DirectRangePrepare>)
        requires
            old(self).inv(),
        ensures
            final(self).inv(),
            final(self).state().gate == old(self).state().gate,
            old(self).mapped_logged(final(self), id, *range, offset, data@, outcome),
    {
        let lock = self.lock_transactional_metadata_mutation();
        let ghost inside = *self;
        assert(old(self).exclusive_entered(&inside, lock));
        match lock {
            Ok(_) => {},
            Err(error) => {
                return Err(error);
            },
        }
        let outcome = self.try_prepare_journal_mapped_write(id, range, offset, data);
        self.unlock_transactional_metadata_mutation();
        outcome
    }

    /// What follows where a range cannot be prepared as a whole through the journal.
    pub open spec fn mapped_attempted(
        &self,
        after: &Self,
        id: InodeId,
        range: WriteLogicalRange,
        offset: usize,
        data: Option<Seq<u8>>,
        decision: Option<Result<bool>>,
    ) -> bool {
        match data {
            Some(bytes) => exists|outcome: Result<DirectRangePrepare>|
                {
                    &&& #[trigger] self.mapped_logged(after, id, range, offset, bytes, outcome)
                    &&& decision == match outcome {
                        Ok(prepared) => if prepared == DirectRangePrepare::DataWritten {
                            Some(Ok::<bool, Ext4Error>(true))
                        } else {
                            None
                        },
                        Err(error) => Some(Err(error)),
                    }
                },
            None => self.idle(after) && decision is None,
        }
    }

    /// What the attempts to prepare a range through the journal call, change and decide.
    pub open spec fn journal_attempted(
        &self,
        after: &Self,
        id: InodeId,
        range: WriteLogicalRange,
        offset: usize,
        len: usize,
        data: Option<Seq<u8>>,
        decision: Option<Result<bool>>,
    ) -> bool {
        if !(self.state().mode is Journal) {
            self.idle(after) && decision is None
        } else {
            exists|tried: Self, outcome: Result<DirectRangePrepare>|
                {
                    &&& #[trigger] self.range_logged(&tried, id, range, data, outcome)
                    &&& match decided(outcome) {
                        Some(result) => tried.idle(after) && decision == Some(result),
                        None => tried.mapped_attempted(
                            after,
                            id,
                            range,
                            offset,
                            usable(data, len as nat),
                            decision,
                        ),
                    }
                }
        }
    }

    /// Tries to prepare a range through the journal.
    fn attempt_journal(
        &mut self,
        id: InodeId,
        range: &WriteLogicalRange,
        offset: usize,
        len: usize,
        data: Option<&[u8]>,
    ) -> (found: Option<Result<bool>>)
        requires
            old(self).inv(),
        ensures
            final(self).inv(),
            final(self).state().gate == old(self).state().gate,
            old(self).journal_attempted(
                final(self),
                id,
                *range,
                offset,
                len,
                data_in(data),
                found,
            ),
    {
        if !self.uses_journal() {
            return None;
        }
        let outcome = self.log_range(id, range, data);
        let ghost tried = *self;
        assert(old(self).range_logged(&tried, id, *range, data_in(data), outcome));
        match decision(outcome) {
            Some(result) => {
                return Some(result);
            },
            None => {},
        }
        match usable_data(data, len) {
            Some(bytes) => {
                let outcome = self.log_mapped(id, range, offset, bytes);
                assert(tried.mapped_logged(
                    self,
                    id,
                    *range,
                    offset,
                    usable(data_in(data), len as nat)->0,
                    outcome,
                ));
                match outcome {
                    Ok(DirectRangePrepare::DataWritten) => Some(Ok(true)),
                    Ok(_) => None,
                    Err(error) => Some(Err(error)),
                }
            },
            None => None,
        }
    }

    /// What asking whether a range can be allocated as a whole calls, changes and returns, with the
    /// barrier.
    pub open spec fn plan_gated(
        &self,
        after: &Self,
        id: InodeId,
        range: WriteLogicalRange,
        outcome: Result<bool>,
    ) -> bool {
        self.with_direct_gate(
            after,
            |inside: Self, left: Self, outcome: Result<bool>|
                inside.plan_tried(&left, id, range, outcome),
            outcome,
        )
    }

    /// Asks whether a range can be allocated as a whole.
    fn gate_plan(&mut self, id: InodeId, range: &WriteLogicalRange) -> (outcome: Result<bool>)
        requires
            old(self).inv(),
        ensures
            final(self).inv(),
            final(self).state().gate == old(self).state().gate,
            old(self).plan_gated(final(self), id, *range, outcome),
    {
        let lock = self.lock_direct_metadata_mutation();
        let ghost inside = *self;
        assert(old(self).direct_entered(&inside, lock));
        match lock {
            Ok(_) => {},
            Err(error) => {
                return Err(error);
            },
        }
        let outcome = self.try_plan(id, range);
        self.unlock_direct_metadata_mutation();
        outcome
    }

    /// What preparing a range as a whole, without a journal, calls, changes and returns, with the
    /// barrier.
    pub open spec fn whole_gated(
        &self,
        after: &Self,
        id: InodeId,
        range: WriteLogicalRange,
        data: Option<Seq<u8>>,
        outcome: Result<DirectRangePrepare>,
    ) -> bool {
        self.with_exclusive_gate(
            after,
            |inside: Self, left: Self, outcome: Result<DirectRangePrepare>|
                inside.whole_prepared(&left, id, range, data, outcome),
            outcome,
        )
    }

    /// Prepares a range as a whole, without a journal.
    fn gate_whole(&mut self, id: InodeId, range: &WriteLogicalRange, data: Option<&[u8]>) -> (
    outcome: Result<DirectRangePrepare>)
        requires
            old(self).inv(),
        ensures
            final(self).inv(),
            final(self).state().gate == old(self).state().gate,
            old(self).whole_gated(final(self), id, *range, data_in(data), outcome),
    {
        let lock = self.lock_transactional_metadata_mutation();
        let ghost inside = *self;
        assert(old(self).exclusive_entered(&inside, lock));
        match lock {
            Ok(_) => {},
            Err(error) => {
                return Err(error);
            },
        }
        let outcome = self.prepare_whole(id, range, data);
        self.unlock_transactional_metadata_mutation();
        outcome
    }

    /// What follows on the answer whether a range can be allocated as a whole.
    pub open spec fn plan_followed(
        &self,
        after: &Self,
        id: InodeId,
        range: WriteLogicalRange,
        data: Option<Seq<u8>>,
        planned: Result<bool>,
        decision: Option<Result<bool>>,
    ) -> bool {
        match planned {
            Err(error) => self.idle(after) && decision == Some(Err::<bool, Ext4Error>(error)),
            Ok(possible) => if !possible {
                self.idle(after) && decision is None
            } else {
                exists|outcome: Result<DirectRangePrepare>|
                    {
                        &&& #[trigger] self.whole_gated(after, id, range, data, outcome)
                        &&& decision == decided(outcome)
                    }
            },
        }
    }

    /// What the attempt to prepare a range as a whole, without a journal, calls, changes and
    /// decides.
    pub open spec fn direct_attempted(
        &self,
        after: &Self,
        id: InodeId,
        range: WriteLogicalRange,
        data: Option<Seq<u8>>,
        decision: Option<Result<bool>>,
    ) -> bool {
        exists|asked: Self, supported: bool|
            {
                &&& #[trigger] self.asked_for_ranges(&asked, supported)
                &&& if !supported {
                    asked.idle(after) && decision is None
                } else {
                    asked.direct_tried(after, id, range, data, decision)
                }
            }
    }

    /// What trying to prepare a range as a whole, without a journal, calls, changes and decides.
    pub open spec fn direct_tried(
        &self,
        after: &Self,
        id: InodeId,
        range: WriteLogicalRange,
        data: Option<Seq<u8>>,
        decision: Option<Result<bool>>,
    ) -> bool {
        exists|planned: Self, reply: Result<bool>|
            {
                &&& #[trigger] self.plan_gated(&planned, id, range, reply)
                &&& planned.plan_followed(after, id, range, data, reply, decision)
            }
    }

    /// Tries to prepare a range as a whole, without a journal.
    fn attempt_direct(&mut self, id: InodeId, range: &WriteLogicalRange, data: Option<&[u8]>) -> (
    found: Option<Result<bool>>)
        requires
            old(self).inv(),
        ensures
            final(self).inv(),
            final(self).state().gate == old(self).state().gate,
            old(self).direct_attempted(final(self), id, *range, data_in(data), found),
    {
        let supported: bool = self.supports_direct_range_stage();
        let ghost asked = *self;
        assert(old(self).asked_for_ranges(&asked, supported));
        if !supported {
            return None;
        }
        let reply = self.gate_plan(id, range);
        let ghost planned = *self;
        assert(asked.plan_gated(&planned, id, *range, reply));
        let found: Option<Result<bool>> = match reply {
            Ok(possible) => {
                if possible {
                    let outcome = self.gate_whole(id, range, data);
                    assert(planned.whole_gated(self, id, *range, data_in(data), outcome));
                    decision(outcome)
                } else {
                    None
                }
            },
            Err(error) => Some(Err(error)),
        };
        assert(planned.plan_followed(self, id, *range, data_in(data), reply, found));
        assert(asked.direct_tried(self, id, *range, data_in(data), found));
        found
    }

    /// What securing a range calls, changes and returns, with the barrier.
    pub open spec fn range_guarded(
        &self,
        after: &Self,
        id: InodeId,
        range: WriteLogicalRange,
        outcome: Result<bool>,
    ) -> bool {
        self.with_direct_gate(
            after,
            |inside: Self, left: Self, outcome: Result<bool>|
                inside.range_secured(&left, id, range, outcome),
            outcome,
        )
    }

    /// What follows where no range could be prepared through the journal.
    pub open spec fn unlogged_prepared(
        &self,
        after: &Self,
        id: InodeId,
        range: WriteLogicalRange,
        data: Option<Seq<u8>>,
        outcome: Result<bool>,
    ) -> bool {
        exists|tried: Self, decision: Option<Result<bool>>|
            {
                &&& #[trigger] self.direct_attempted(&tried, id, range, data, decision)
                &&& match decision {
                    Some(result) => tried.idle(after) && outcome == result,
                    None => tried.range_guarded(after, id, range, outcome),
                }
            }
    }

    /// What follows where the blocks are not known to be mapped.
    pub open spec fn range_prepared(
        &self,
        after: &Self,
        id: InodeId,
        range: WriteLogicalRange,
        offset: usize,
        len: usize,
        data: Option<Seq<u8>>,
        outcome: Result<bool>,
    ) -> bool {
        exists|tried: Self, decision: Option<Result<bool>>|
            {
                &&& #[trigger] self.journal_attempted(
                    &tried,
                    id,
                    range,
                    offset,
                    len,
                    data,
                    decision,
                )
                &&& match decision {
                    Some(result) => tried.idle(after) && outcome == result,
                    None => tried.unlogged_prepared(after, id, range, data, outcome),
                }
            }
    }

    /// What preparing a buffered write calls, changes and returns.
    ///
    /// In turn: the data goes to blocks that are mapped, without a journal; a new range is
    /// prepared, or mapped blocks are written, through the journal; a new range is prepared as a
    /// whole without a journal; missing blocks are added one by one.
    pub open spec fn buffered_write_prepared(
        &self,
        after: &Self,
        id: InodeId,
        offset: usize,
        len: usize,
        data: Option<Seq<u8>>,
        outcome: Result<bool>,
    ) -> bool {
        if !self.state().mutable() {
            self.idle(after) && outcome == failed::<bool>(ErrCode::EROFS)
        } else if len == 0 {
            self.idle(after) && outcome == Ok::<bool, Ext4Error>(false)
        } else if !addressable(offset, len) {
            self.idle(after) && outcome == failed::<bool>(ErrCode::EFBIG)
        } else {
            exists|tried: Self, decision: Option<Result<bool>>|
                {
                    &&& #[trigger] self.plain_attempted(
                        &tried,
                        id,
                        offset,
                        len,
                        data,
                        decision,
                    )
                    &&& match decision {
                        Some(result) => tried.idle(after) && outcome == result,
                        None => tried.range_prepared(
                            after,
                            id,
                            range_of(offset, len),
                            offset,
                            len,
                            data,
                            outcome,
                        ),
                    }
                }
        }
    }

    /// Prepares a buffered write, and says whether the data was stored.
    pub fn prepare_buffered_write_with_data(
        &mut self,
        id: InodeId,
        offset: usize,
        len: usize,
        _size: u64,
        _mtime: Option<u32>,
        real_data: Option<&[u8]>,
    ) -> (outcome: Result<bool>)
        requires
            old(self).inv(),
        ensures
            final(self).inv(),
            final(self).state().gate == old(self).state().gate,
            old(self).buffered_write_prepared(
                final(self),
                id,
                offset,
                len,
                data_in(real_data),
                outcome,
            ),
    {
        match self.ensure_mutable() {
            Ok(_) => {},
            Err(error) => {
                return Err(error);
            },
        }
        let range = match WriteLogicalRange::checked(offset, len) {
            Ok(Some(range)) => range,
            Ok(None) => {
                return Ok(false);
            },
            Err(error) => {
                return Err(error);
            },
        };
        let found = self.attempt_plain(id, offset, len, real_data);
        let ghost plain = *self;
        assert(old(self).plain_attempted(
            &plain,
            id,
            offset,
            len,
            data_in(real_data),
            found,
        ));
        match found {
            Some(result) => {
                return result;
            },
            None => {},
        }
        let outcome = self.prepare_range(id, &range, offset, len, real_data);
        assert(plain.range_prepared(
            self,
            id,
            range_of(offset, len),
            offset,
            len,
            data_in(real_data),
            outcome,
        ));
        outcome
    }

    /// Prepares a range whose blocks are not known to be mapped.
    fn prepare_range(
        &mut self,
        id: InodeId,
        range: &WriteLogicalRange,
        offset: usize,
        len: usize,
        real_data: Option<&[u8]>,
    ) -> (outcome: Result<bool>)
        requires
            old(self).inv(),
            range.inv(),
        ensures
            final(self).inv(),
            final(self).state().gate == old(self).state().gate,
            old(self).range_prepared(
                final(self),
                id,
                *range,
                offset,
                len,
                data_in(real_data),
                outcome,
            ),
    {
        let found = self.attempt_journal(id, range, offset, len, real_data);
        let ghost logged = *self;
        assert(old(self).journal_attempted(
            &logged,
            id,
            *range,
            offset,
            len,
            data_in(real_data),
            found,
        ));
        match found {
            Some(result) => {
                return result;
            },
            None => {},
        }
        let found = self.attempt_direct(id, range, real_data);
        let ghost tried = *self;
        assert(logged.direct_attempted(&tried, id, *range, data_in(real_data), found));
        let outcome: Result<bool> = match found {
            Some(result) => result,
            None => self.guard_range(id, range),
        };
        assert(logged.unlogged_prepared(self, id, *range, data_in(real_data), outcome));
        outcome
    }

    /// Secures a range, with the barrier.
    fn guard_range(&mut self, id: InodeId, range: &WriteLogicalRange) -> (outcome: Result<bool>)
        requires
            old(self).inv(),
            range.inv(),
        ensures
            final(self).inv(),
            final(self).state().gate == old(self).state().gate,
            old(self).range_guarded(final(self), id, *range, outcome),
    {
        let lock = self.lock_direct_metadata_mutation();
        let ghost inside = *self;
        assert(old(self).direct_entered(&inside, lock));
        match lock {
            Ok(_) => {},
            Err(error) => {
                return Err(error);
            },
        }
        let outcome = self.secure_range(id, range);
        self.unlock_direct_metadata_mutation();
        outcome
    }

    /// Prepares a buffered write: the blocks that it touches are given to the file.
    pub fn prepare_buffered_write(
        &mut self,
        id: InodeId,
        offset: usize,
        len: usize,
        _size: u64,
        _mtime: Option<u32>,
    ) -> (outcome: Result<()>)
        requires
            old(self).inv(),
        ensures
            final(self).inv(),
            final(self).state().gate == old(self).state().gate,
            exists|stored: Result<bool>|
                {
                    &&& #[trigger] old(self).buffered_write_prepared(
                        final(self),
                        id,
                        offset,
                        len,
                        None,
                        stored,
                    )
                    &&& outcome == match stored {
                        Ok(_) => Ok::<(), Ext4Error>(()),
                        Err(error) => Err(error),
                    }
                },
    {
        let stored = self.prepare_buffered_write_with_data(id, offset, len, _size, _mtime, None);
        assert(old(self).buffered_write_prepared(self, id, offset, len, None, stored));
        match stored {
            Ok(_) => Ok(()),
            Err(error) => Err(error),
        }
    }
}

} // verus!
