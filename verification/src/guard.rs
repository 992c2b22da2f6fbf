//! Work that is done between entering and leaving the barrier of the metadata writers.

use vstd::prelude::*;
use crate::device::BlockDevice;
use crate::error::{failed, ErrCode, Ext4Error, Result};
use crate::fs::{Ext4, FsState};
use crate::inode::{FileAttr, SetAttr};
use crate::namespace::Birth;
use crate::volume::{InodeReclaimHandle, Volume};
use crate::InodeId;

verus! {

impl<D: BlockDevice, V: Volume<D>> Ext4<D, V> {
    /// What `work` of a direct writer calls, changes and returns, with the barrier around it.
    pub open spec fn with_direct_gate<T>(
        &self,
        after: &Self,
        work: spec_fn(Self, Self, Result<T>) -> bool,
        outcome: Result<T>,
    ) -> bool {
        exists|inside: Self, lock: Result<()>|
            {
                &&& #[trigger] self.direct_entered(&inside, lock)
                &&& match lock {
                    Err(error) => inside.idle(after) && outcome == Err::<T, Ext4Error>(error),
                    Ok(_) => exists|left: Self|
                        {
                            &&& work(inside, left, outcome)
                            &&& #[trigger] left.direct_left(after)
                        },
                }
            }
    }

    /// What `work` of a direct writer calls, changes and returns where metadata can be changed.
    pub open spec fn changed_directly<T>(
        &self,
        after: &Self,
        work: spec_fn(Self, Self, Result<T>) -> bool,
        outcome: Result<T>,
    ) -> bool {
        if !self.state().mutable() {
            self.idle(after) && outcome == failed::<T>(ErrCode::EROFS)
        } else {
            self.with_direct_gate(after, work, outcome)
        }
    }

    /// What `work` of the exclusive writer calls, changes and returns, with the barrier around it.
    pub open spec fn with_exclusive_gate<T>(
        &self,
        after: &Self,
        work: spec_fn(Self, Self, Result<T>) -> bool,
        outcome: Result<T>,
    ) -> bool {
        exists|inside: Self, lock: Result<()>|
            {
                &&& #[trigger] self.exclusive_entered(&inside, lock)
                &&& match lock {
                    Err(error) => inside.idle(after) && outcome == Err::<T, Ext4Error>(error),
                    Ok(_) => exists|left: Self|
                        {
                            &&& work(inside, left, outcome)
                            &&& #[trigger] left.exclusive_left(after)
                        },
                }
            }
    }

    /// What `work` of the exclusive writer calls, changes and returns where metadata can be
    /// changed.
    pub open spec fn changed_exclusively<T>(
        &self,
        after: &Self,
        work: spec_fn(Self, Self, Result<T>) -> bool,
        outcome: Result<T>,
    ) -> bool {
        if !self.state().mutable() {
            self.idle(after) && outcome == failed::<T>(ErrCode::EROFS)
        } else {
            self.with_exclusive_gate(after, work, outcome)
        }
    }

    /// Every later change of metadata was stopped.
    pub open spec fn gave_out(&self, after: &Self) -> bool {
        &&& self.quiet(after)
        &&& after.state() == (FsState { poisoned: true, ..self.state() })
    }

    /// The barrier and the journal are as they were.
    pub open spec fn outline_kept(&self, after: &Self) -> bool {
        &&& after.state().gate == self.state().gate
        &&& after.state().mode == self.state().mode
        &&& after.state().reserved == self.state().reserved
    }

    /// The barrier, the journal and the knowledge of mapped ranges are as they were.
    pub open spec fn frame_kept(&self, after: &Self) -> bool {
        &&& self.outline_kept(after)
        &&& after.state().prepared == self.state().prepared
    }
}

impl<D: BlockDevice, V: Volume<D>> Ext4<D, V> {
    /// Where metadata cannot be changed, the work of a writer is refused, and nothing is called
    /// or changed.
    pub proof fn lemma_refused_work_is_not_done<T>(
        &self,
        after: &Self,
        work: spec_fn(Self, Self, Result<T>) -> bool,
        outcome: Result<T>,
    )
        requires
            !self.state().mutable(),
            self.changed_directly(after, work, outcome) || self.changed_exclusively(
                after,
                work,
                outcome,
            ),
        ensures
            self.idle(after),
            outcome == failed::<T>(ErrCode::EROFS),
    {
    }

    /// Where metadata cannot be changed, setting attributes, creating, linking and moving names,
    /// and preparing writes are refused, and nothing is called or changed.
    pub proof fn lemma_refused_operations_do_nothing(&self, after: &Self)
        requires
            !self.state().mutable(),
        ensures
            forall|id: InodeId, attr: SetAttr, outcome: Result<()>| #[trigger]
                self.attr_changed(after, id, attr, outcome) ==> self.idle(after) && outcome
                    == failed::<()>(ErrCode::EROFS),
            forall|parent: InodeId, name: Seq<char>, birth: Birth, outcome: Result<FileAttr>|
                #[trigger] self.entry_made(after, parent, name, birth, outcome) ==> self.idle(after)
                    && outcome == failed::<FileAttr>(ErrCode::EROFS),
            forall|child: InodeId, parent: InodeId, name: Seq<char>, outcome: Result<()>| #[trigger]
                self.hard_linked(after, child, parent, name, outcome) ==> self.idle(after)
                    && outcome == failed::<()>(ErrCode::EROFS),
            forall|
                parent: InodeId,
                name: Seq<char>,
                new_parent: InodeId,
                new_name: Seq<char>,
                outcome: Result<Option<InodeReclaimHandle>>,
            | #[trigger]
                self.renamed(after, parent, name, new_parent, new_name, outcome) ==> self.idle(
                    after,
                ) && outcome == failed::<Option<InodeReclaimHandle>>(ErrCode::EROFS),
            forall|
                id: InodeId,
                offset: usize,
                len: usize,
                data: Option<Seq<u8>>,
                outcome: Result<bool>,
            | #[trigger]
                self.buffered_write_prepared(after, id, offset, len, data, outcome) ==> self.idle(
                    after,
                ) && outcome == failed::<bool>(ErrCode::EROFS),
    {
    }
}

} // verus!
