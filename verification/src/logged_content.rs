//! What a file holds once data went to blocks that it has through the journal.

use vstd::prelude::*;
use crate::append_range::DirectRangePrepare;
use crate::content::{apart, byte_of, lemma_extends, Disk, Places};
use crate::data::Mapping;
use crate::device::{extends, BlockDevice};
use crate::error::{failed, ErrCode, Ext4Error, Result};
use crate::fs::Ext4;
use crate::grow::is_free;
use crate::inode::{with_halves64, InodeRef};
use crate::journal_transaction::Transaction;
use crate::prepare_journal::{cycles_between, Stopwatch, MAPPED_CREDITS};
use crate::range::WriteLogicalRange;
use crate::staged::{holds_home, ordered, StagedBlock};
use crate::volume::Volume;
use crate::{InodeId, PBlockId, BLOCK_SIZE};

verus! {

impl<D: BlockDevice, V: Volume<D>> Ext4<D, V> {
    /// Looking whether blocks are mapped only asks.
    pub(crate) proof fn lemma_looking_up_asks(
        &self,
        after: &Self,
        inode: InodeRef,
        iblock: int,
        last: int,
        outcome: Result<()>,
    )
        requires
            self.range_looked_up(after, inode, iblock, last, outcome),
        ensures
            self.only_asked(after),
        decreases last + 1 - iblock,
    {
        if iblock > last {
            self.lemma_idle_only_asks(after);
        } else {
            let (queried, reply) = choose|queried: Self, reply: Result<Mapping>|
                {
                    &&& #[trigger] self.extent_found(&queried, inode, iblock as u32, reply)
                    &&& match reply {
                        Ok(_) => queried.range_looked_up(after, inode, iblock + 1, last, outcome),
                        Err(error) => queried.idle(after) && outcome == Err::<(), Ext4Error>(
                            error,
                        ),
                    }
                };
            self.lemma_found_served(
                &queried,
                inode,
                iblock as u32,
                reply,
                Map::empty(),
                Map::empty(),
            );
            if reply is Ok {
                queried.lemma_looking_up_asks(after, inode, iblock + 1, last, outcome);
            } else {
                queried.lemma_idle_only_asks(after);
            }
            self.lemma_calls_join(&queried, after);
        }
    }

    /// Recording the end of a write only asks, and stages nothing but the inode.
    proof fn lemma_end_staged_asks(
        &self,
        after: &Self,
        inode: InodeRef,
        before: Transaction,
        grown: Transaction,
        end: int,
        outcome: Result<()>,
    )
        requires
            self.end_staged(after, inode, before, grown, end, outcome),
            ordered(before.staged()),
        ensures
            self.only_asked(after),
            ordered(grown.staged()),
            grown.deferred() == before.deferred(),
            forall|block: PBlockId|
                self.spare(inode.id, before, block) ==> #[trigger] self.spare(
                    inode.id,
                    grown,
                    block,
                ),
    {
        if end > inode.inode.byte_size() {
            let (sized, sealed) = choose|sized: InodeRef, sealed: InodeRef|
                {
                    &&& #[trigger] self.inode_staged(after, before, grown, sized, sealed, outcome)
                    &&& sized.id == inode.id
                    &&& sized.inode@ == with_halves64(inode.inode@, 4, 108, end as u64)
                };
            match self.state().inode_position(inode.id) {
                Some((home, at)) => {
                    self.lemma_block_staged_asks(
                        after,
                        before,
                        grown,
                        home,
                        at,
                        sealed.inode@,
                        outcome,
                    );
                },
                None => {
                    self.lemma_idle_only_asks(after);
                },
            }
        } else {
            self.lemma_idle_only_asks(after);
        }
    }

    /// What follows on writing to mapped blocks leaves the blocks that the transaction leaves alone.
    proof fn lemma_mapped_measured_leaves(
        &self,
        after: &Self,
        inode: InodeRef,
        range: WriteLogicalRange,
        offset: usize,
        written: usize,
        transaction: Transaction,
        watch: Stopwatch,
        data_start: usize,
        disk: Disk,
    )
        requires
            self.mapped_measured(
                after,
                inode,
                range,
                offset,
                written,
                transaction,
                watch,
                data_start,
                Ok(DirectRangePrepare::DataWritten),
            ),
            self.state().mode is Journal,
            self.sound_journal(),
            self.nothing_waits(),
            ordered(transaction.staged()),
            ordered(transaction.batch()),
        ensures
            extends(self.log(), after.log()),
            self.answered_by(after, disk) ==> forall|block: PBlockId|
                self.spare(inode.id, transaction, block) ==> #[trigger] self.left_on(
                    after,
                    disk,
                )[block] == disk[block],
    {
        let outcome = Ok::<DirectRangePrepare, Ext4Error>(DirectRangePrepare::DataWritten);
        let (clocked, now) = choose|clocked: Self, now: usize|
            {
                &&& #[trigger] self.timed(&clocked, watch.diagnostic, now)
                &&& clocked.mapped_staged(
                    after,
                    inode,
                    transaction,
                    watch,
                    offset + written,
                    written,
                    cycles_between(watch.diagnostic, data_start, now),
                    range.block_count,
                    outcome,
                )
            };
        self.lemma_timing_asks(&clocked, watch.diagnostic, now);
        let cycles = cycles_between(watch.diagnostic, data_start, now);
        let (staged, grown, reply) = choose|staged: Self, grown: Transaction, reply: Result<()>|
            {
                &&& #[trigger] clocked.end_staged(
                    &staged,
                    inode,
                    transaction,
                    grown,
                    offset + written,
                    reply,
                )
                &&& match reply {
                    Ok(_) => staged.journal_finished(
                        after,
                        grown,
                        watch,
                        written,
                        cycles,
                        range.block_count,
                        DirectRangePrepare::DataWritten,
                        outcome,
                    ),
                    Err(error) => {
                        &&& staged.given_up(after, grown)
                        &&& outcome == Err::<DirectRangePrepare, Ext4Error>(error)
                    },
                }
            };
        clocked.lemma_end_staged_asks(
            &staged,
            inode,
            transaction,
            grown,
            offset + written,
            reply,
        );
        staged.lemma_finished_leaves(
            after,
            grown,
            watch,
            written,
            cycles,
            range.block_count,
            DirectRangePrepare::DataWritten,
            disk,
        );
        clocked.lemma_after_asking(&staged, after, disk);
        self.lemma_after_asking(&clocked, after, disk);
        if self.answered_by(after, disk) {
            assert forall|block: PBlockId| self.spare(inode.id, transaction, block) implies
            #[trigger] self.left_on(after, disk)[block] == disk[block] by {
                assert(clocked.spare(inode.id, transaction, block));
                assert(clocked.spare(inode.id, grown, block));
                assert(!staged.logs_to(block));
                assert(staged.left_on(after, disk)[block] == disk[block]);
            }
        }
    }

    /// Writing to mapped blocks through the journal changes the bytes that it has, and no others.
    proof fn lemma_mapped_stored_content(
        &self,
        after: &Self,
        inode: InodeRef,
        range: WriteLogicalRange,
        offset: usize,
        data: Seq<u8>,
        transaction: Transaction,
        watch: Stopwatch,
        data_start: usize,
        disk: Disk,
        places: Places,
    )
        requires
            self.mapped_stored(
                after,
                inode,
                range,
                offset,
                data,
                transaction,
                watch,
                data_start,
                Ok(DirectRangePrepare::DataWritten),
            ),
            data.len() <= usize::MAX,
            self.state().batch() == Seq::<StagedBlock>::empty(),
            self.state().mode is Journal,
            self.sound_journal(),
            self.nothing_waits(),
            ordered(transaction.staged()),
            ordered(transaction.batch()),
            apart(places),
            forall|block: int| #[trigger]
                places.contains_key(block) ==> self.spare(inode.id, transaction, places[block]),
        ensures
            extends(self.log(), after.log()),
            self.guided(after, disk, inode.id, places) ==> self.overwritten(
                after,
                offset,
                data,
                disk,
                places,
            ),
    {
        let outcome = Ok::<DirectRangePrepare, Ext4Error>(DirectRangePrepare::DataWritten);
        let (stored, reply) = choose|stored: Self, reply: Result<usize>|
            {
                &&& #[trigger] self.mapped_written(&stored, inode, offset, data, reply)
                &&& match reply {
                    Ok(written) => stored.mapped_measured(
                        after,
                        inode,
                        range,
                        offset,
                        written,
                        transaction,
                        watch,
                        data_start,
                        outcome,
                    ),
                    Err(error) => {
                        &&& stored.given_up(after, transaction)
                        &&& outcome == Err::<DirectRangePrepare, Ext4Error>(error)
                    },
                }
            };
        let written = reply->Ok_0;
        let made = self.lemma_mapped_write_shape(&stored, inode, offset, data, reply);
        lemma_extends(self.log(), made.log(), stored.log());
        let middle = self.left_on(&stored, disk);
        stored.lemma_mapped_measured_leaves(
            after,
            inode,
            range,
            offset,
            written,
            transaction,
            watch,
            data_start,
            middle,
        );
        lemma_extends(self.log(), stored.log(), after.log());
        if self.guided(after, disk, inode.id, places) {
            self.lemma_guided_parts(&stored, after, disk, inode.id, places);
            self.lemma_mapped_content(&stored, inode, offset, data, reply, disk, places);
            self.lemma_device_joins(&stored, after, disk);
            let last = self.left_on(after, disk);
            assert forall|at: int| 0 <= at implies #[trigger] byte_of(last, places, at) == if offset
                <= at < offset + data.len() {
                data[at - offset]
            } else {
                byte_of(disk, places, at)
            } by {
                assert(byte_of(middle, places, at) == if offset <= at < offset + data.len() {
                    data[at - offset]
                } else {
                    byte_of(disk, places, at)
                });
                let block = at / BLOCK_SIZE as int;
                if places.contains_key(block) {
                    assert(self.spare(inode.id, transaction, places[block]));
                    assert(stored.spare(inode.id, transaction, places[block]));
                    assert(stored.left_on(after, middle)[places[block]] == middle[places[block]]);
                }
            }
        }
    }

    /// Whether a file holds data where it was written, and elsewhere what it held.
    pub open spec fn overwritten(
        &self,
        after: &Self,
        offset: usize,
        data: Seq<u8>,
        disk: Disk,
        places: Places,
    ) -> bool {
        forall|at: int|
            0 <= at ==> #[trigger] byte_of(self.left_on(after, disk), places, at) == if offset <= at
                < offset + data.len() {
                data[at - offset]
            } else {
                byte_of(disk, places, at)
            }
    }

    /// Writing to mapped blocks through the journal, inside the barrier.
    pub(crate) proof fn lemma_journal_mapped_content(
        &self,
        after: &Self,
        id: InodeId,
        range: WriteLogicalRange,
        offset: usize,
        data: Seq<u8>,
        disk: Disk,
        places: Places,
    )
        requires
            self.journal_mapped_written(
                after,
                id,
                range,
                offset,
                data,
                Ok(DirectRangePrepare::DataWritten),
            ),
            self.state().mode is Journal,
            data.len() <= usize::MAX,
            apart(places),
            forall|block: int| #[trigger]
                places.contains_key(block) ==> {
                    &&& !self.logs_to(places[block])
                    &&& !holds_home(self.state().batch(), places[block])
                    &&& self.state().inode_position(id) matches Some((home, _)) ==> home
                        != places[block]
                },
        ensures
            extends(self.log(), after.log()),
            self.guided(after, disk, id, places) ==> self.overwritten(
                after,
                offset,
                data,
                disk,
                places,
            ),
    {
        let outcome = Ok::<DirectRangePrepare, Ext4Error>(DirectRangePrepare::DataWritten);
        let (ready, watch) = choose|ready: Self, watch: Stopwatch|
            {
                &&& #[trigger] self.watch_started(&ready, watch)
                &&& ready.mapped_begun(after, id, range, offset, data, watch, outcome)
            };
        assert(ready.log().take(self.log().len() as int) =~= self.log());
        let (begun, reply) = choose|begun: Self, reply: Result<Transaction>|
            {
                &&& #[trigger] ready.begun(&begun, MAPPED_CREDITS, reply)
                &&& match reply {
                    Ok(transaction) => begun.mapped_opened(
                        after,
                        id,
                        range,
                        offset,
                        data,
                        transaction,
                        watch,
                        outcome,
                    ),
                    Err(error) => begun.idle(after) && outcome == Err::<
                        DirectRangePrepare,
                        Ext4Error,
                    >(error),
                }
            };
        let transaction = reply->Ok_0;
        assert(transaction.batch() == self.state().batch());
        assert(begun.state().batch() =~= Seq::<StagedBlock>::empty());
        assert(self.asks(&begun));
        assert(self.same_ground(&begun)) by {
            assert forall|block: PBlockId| #[trigger] begun.logs_to(block) == self.logs_to(
                block,
            ) by {}
        }
        assert forall|block: int| #[trigger] places.contains_key(block) implies begun.spare(
            id,
            transaction,
            places[block],
        ) by {
            assert(begun.logs_to(places[block]) == self.logs_to(places[block]));
        }
        begun.lemma_mapped_opened_content(
            after,
            id,
            range,
            offset,
            data,
            transaction,
            watch,
            disk,
            places,
        );
        self.lemma_after_asking(&begun, after, disk);
        if self.guided(after, disk, id, places) {
            self.lemma_guided_parts(&begun, after, disk, id, places);
        }
    }

    /// Writing to mapped blocks inside a transaction.
    proof fn lemma_mapped_opened_content(
        &self,
        after: &Self,
        id: InodeId,
        range: WriteLogicalRange,
        offset: usize,
        data: Seq<u8>,
        transaction: Transaction,
        watch: Stopwatch,
        disk: Disk,
        places: Places,
    )
        requires
            self.mapped_opened(
                after,
                id,
                range,
                offset,
                data,
                transaction,
                watch,
                Ok(DirectRangePrepare::DataWritten),
            ),
            data.len() <= usize::MAX,
            self.state().batch() == Seq::<StagedBlock>::empty(),
            self.state().mode is Journal,
            self.sound_journal(),
            self.nothing_waits(),
            ordered(transaction.staged()),
            ordered(transaction.batch()),
            apart(places),
            forall|block: int| #[trigger]
                places.contains_key(block) ==> self.spare(id, transaction, places[block]),
        ensures
            extends(self.log(), after.log()),
            self.guided(after, disk, id, places) ==> self.overwritten(
                after,
                offset,
                data,
                disk,
                places,
            ),
    {
        let outcome = Ok::<DirectRangePrepare, Ext4Error>(DirectRangePrepare::DataWritten);
        let (read, found) = choose|read: Self, found: Result<InodeRef>|
            {
                &&& #[trigger] self.staged_inode_read(&read, transaction, id, found)
                &&& match found {
                    Ok(inode) => if is_free(inode.inode) {
                        &&& read.given_up(after, transaction)
                        &&& outcome == failed::<DirectRangePrepare>(ErrCode::EINVAL)
                    } else {
                        read.mapped_checked(
                            after,
                            inode,
                            range,
                            offset,
                            data,
                            transaction,
                            watch,
                            outcome,
                        )
                    },
                    Err(error) => {
                        &&& read.given_up(after, transaction)
                        &&& outcome == Err::<DirectRangePrepare, Ext4Error>(error)
                    },
                }
            };
        let inode = found->Ok_0;
        self.lemma_shown_inode_is_read(&read, transaction, id, inode, disk);
        let (looked, seen) = choose|looked: Self, seen: Result<()>|
            {
                &&& #[trigger] read.range_looked_up(
                    &looked,
                    inode,
                    range.first_lblock as int,
                    range.last_lblock as int,
                    seen,
                )
                &&& match seen {
                    Ok(_) => looked.mapped_ready(
                        after,
                        inode,
                        range,
                        offset,
                        data,
                        transaction,
                        watch,
                        outcome,
                    ),
                    Err(error) => {
                        &&& looked.given_up(after, transaction)
                        &&& outcome == if error.code == ErrCode::ENOENT {
                            Ok::<DirectRangePrepare, Ext4Error>(DirectRangePrepare::Unsupported)
                        } else {
                            Err(error)
                        }
                    },
                }
            };
        read.lemma_looking_up_asks(
            &looked,
            inode,
            range.first_lblock as int,
            range.last_lblock as int,
            seen,
        );
        self.lemma_calls_join(&read, &looked);
        let (clocked, data_start) = choose|clocked: Self, data_start: usize|
            {
                &&& #[trigger] looked.timed(&clocked, watch.diagnostic, data_start)
                &&& clocked.mapped_stored(
                    after,
                    inode,
                    range,
                    offset,
                    data,
                    transaction,
                    watch,
                    data_start,
                    outcome,
                )
            };
        looked.lemma_timing_asks(&clocked, watch.diagnostic, data_start);
        assert forall|block: int| #[trigger] places.contains_key(block) implies clocked.spare(
            id,
            transaction,
            places[block],
        ) by {
            assert(self.spare(id, transaction, places[block]));
        }
        clocked.lemma_mapped_stored_content(
            after,
            inode,
            range,
            offset,
            data,
            transaction,
            watch,
            data_start,
            disk,
            places,
        );
        looked.lemma_after_asking(&clocked, after, disk);
        self.lemma_after_asking(&looked, after, disk);
        if self.guided(after, disk, id, places) {
            self.lemma_guided_parts(&looked, after, disk, id, places);
            looked.lemma_guided_parts(&clocked, after, disk, id, places);
            assert(clocked.overwritten(after, offset, data, disk, places));
        }
    }
}

} // verus!
