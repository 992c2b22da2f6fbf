//! What a file holds once a buffered write was prepared with its data.

use vstd::prelude::*;
use crate::append_range::{homes_of, DirectRangePlan};
use crate::content::{
    apart, byte_of, elsewhere, held, lemma_extends, lemma_held_joins, lemma_held_without_writes,
    locates, told, writes, Disk, Places,
};
use crate::device::{extends, since, Block, BlockDevice, Event};
use crate::error::{ErrCode, Ext4Error, Result};
use crate::fs::{bytes_read, inode_found, Ext4};
use crate::inode::{FileType, InodeRef};
use crate::journal_transaction::Transaction;
use crate::range::{addressable, range_of};
use crate::readback::{lemma_patch_homes, lemma_patch_is_shown};
use crate::staged::{holds_home, ordered, StagedBlock};
use crate::volume::{BlockImage, LayerCall, RangeAllocation, Volume};
use crate::{InodeId, PBlockId, BLOCK_SIZE};

verus! {

/// Whether a device that cannot write says so otherwise than by what a missing block, or a range
/// that is better written block by block, is told by.
pub open spec fn writes_are_told(calls: Seq<Event>) -> bool {
    forall|k: int|
        0 <= k < calls.len() ==> match #[trigger] calls[k] {
            Event::WriteBlock { id, data, reply: Err(error) } => error.code != ErrCode::ENOENT
                && error.code != ErrCode::ENOMEM,
            Event::WriteBlocks { start, data, reply: Err(error) } => error.code != ErrCode::ENOENT
                && error.code != ErrCode::ENOMEM,
            _ => true,
        }
}

impl<D: BlockDevice, V: Volume<D>> Ext4<D, V> {
    /// Whether a search for a block of a file leads to where the block stands.
    pub open spec fn leads(&self, call: Event, disk: Disk, id: InodeId, places: Places) -> bool {
        match call {
            Event::Layer { call: LayerCall::FindExtent { inode, iblock, reply } } => inode.id == id
                ==> locates(self.leads_to(disk, inode, iblock, reply), iblock, places),
            _ => true,
        }
    }

    /// Whether, on the way to a later state, reads are answered with what a device holds by then,
    /// and searches for blocks of a file lead to where they stand.
    pub open spec fn guided(
        &self,
        after: &Self,
        disk: Disk,
        id: InodeId,
        places: Places,
    ) -> bool {
        let calls = since(self.log(), after.log());
        &&& self.answered_by(after, disk)
        &&& writes_are_told(calls)
        &&& forall|k: int|
            0 <= k < calls.len() ==> self.leads(
                #[trigger] calls[k],
                held(disk, calls.take(k)),
                id,
                places,
            )
    }

    /// Whether two states have the same blocks for data.
    pub open spec fn same_ground(&self, other: &Self) -> bool {
        &&& other.state().superblock == self.state().superblock
        &&& other.state().reserved == self.state().reserved
        &&& forall|block: PBlockId| #[trigger] other.logs_to(block) == self.logs_to(block)
    }

    /// Where the way to a leaf leads depends on the blocks for data alone.
    pub(crate) proof fn lemma_same_leads(
        &self,
        other: &Self,
        call: Event,
        disk: Disk,
        id: InodeId,
        places: Places,
    )
        requires
            self.same_ground(other),
        ensures
            other.leads(call, disk, id, places) == self.leads(call, disk, id, places),
    {
        assert forall|start: PBlockId, end: PBlockId| #[trigger]
            other.journal_owns(start, end) == self.journal_owns(start, end) by {
            if self.journal_owns(start, end) {
                let block = choose|block: PBlockId|
                    start <= block < end && self.state().mode->Journal_0.context().journal_blocks@.contains(
                        block,
                    );
                assert(self.logs_to(block));
                assert(other.logs_to(block));
            }
            if other.journal_owns(start, end) {
                let block = choose|block: PBlockId|
                    start <= block < end
                        && other.state().mode->Journal_0.context().journal_blocks@.contains(block);
                assert(other.logs_to(block));
                assert(self.logs_to(block));
            }
        }
        assert forall|start: PBlockId, count: u64| #[trigger]
            other.data_range(start, count) == self.data_range(start, count) by {}
    }

    /// The first part of a record is guided as the whole is.
    pub(crate) proof fn lemma_guided_first(
        &self,
        middle: &Self,
        after: &Self,
        disk: Disk,
        id: InodeId,
        places: Places,
    )
        requires
            extends(self.log(), middle.log()),
            extends(middle.log(), after.log()),
            self.guided(after, disk, id, places),
        ensures
            self.guided(middle, disk, id, places),
    {
        self.lemma_answers_split(middle, after, disk);
        let all = since(self.log(), after.log());
        let first = since(self.log(), middle.log());
        assert forall|k: int| 0 <= k < first.len() implies #[trigger] first[k] == all[k] by {
            let n = self.log().len() + k;
            assert(after.log().take(middle.log().len() as int)[n] == after.log()[n]);
        }
        assert forall|k: int| 0 <= k < first.len() implies self.leads(
            #[trigger] first[k],
            held(disk, first.take(k)),
            id,
            places,
        ) by {
            assert(all[k] == first[k]);
            assert(all.take(k) =~= first.take(k));
        }
        assert forall|k: int| 0 <= k < first.len() implies match #[trigger] first[k] {
            Event::WriteBlock { id, data, reply: Err(error) } => error.code != ErrCode::ENOENT
                && error.code != ErrCode::ENOMEM,
            Event::WriteBlocks { start, data, reply: Err(error) } => error.code != ErrCode::ENOENT
                && error.code != ErrCode::ENOMEM,
            _ => true,
        } by {
            assert(all[k] == first[k]);
        }
    }

    /// The parts of a record are guided as the whole is.
    pub(crate) proof fn lemma_guided_parts(
        &self,
        middle: &Self,
        after: &Self,
        disk: Disk,
        id: InodeId,
        places: Places,
    )
        requires
            extends(self.log(), middle.log()),
            extends(middle.log(), after.log()),
            self.guided(after, disk, id, places),
            self.same_ground(middle),
        ensures
            self.guided(middle, disk, id, places),
            middle.guided(after, self.left_on(middle, disk), id, places),
    {
        self.lemma_answers_split(middle, after, disk);
        lemma_extends(self.log(), middle.log(), after.log());
        let all = since(self.log(), after.log());
        let first = since(self.log(), middle.log());
        let second = since(middle.log(), after.log());
        assert(all =~= first + second) by {
            assert(after.log().take(middle.log().len() as int) == middle.log());
        }
        assert forall|k: int| 0 <= k < first.len() implies self.leads(
            #[trigger] first[k],
            held(disk, first.take(k)),
            id,
            places,
        ) by {
            assert(all[k] == first[k]);
            assert(all.take(k) =~= first.take(k));
        }
        assert(writes_are_told(first)) by {
            assert forall|k: int| 0 <= k < first.len() implies match #[trigger] first[k] {
                Event::WriteBlock { id, data, reply: Err(error) } => error.code != ErrCode::ENOENT
                    && error.code != ErrCode::ENOMEM,
                Event::WriteBlocks { start, data, reply: Err(error) } => error.code
                    != ErrCode::ENOENT && error.code != ErrCode::ENOMEM,
                _ => true,
            } by {
                assert(all[k] == first[k]);
            }
        }
        assert(writes_are_told(second)) by {
            assert forall|k: int| 0 <= k < second.len() implies match #[trigger] second[k] {
                Event::WriteBlock { id, data, reply: Err(error) } => error.code != ErrCode::ENOENT
                    && error.code != ErrCode::ENOMEM,
                Event::WriteBlocks { start, data, reply: Err(error) } => error.code
                    != ErrCode::ENOENT && error.code != ErrCode::ENOMEM,
                _ => true,
            } by {
                assert(all[k + first.len()] == second[k]);
            }
        }
        assert forall|k: int| 0 <= k < second.len() implies middle.leads(
            #[trigger] second[k],
            held(self.left_on(middle, disk), second.take(k)),
            id,
            places,
        ) by {
            assert(all[first.len() + k] == second[k]);
            assert(all.take(first.len() + k) =~= first + second.take(k));
            lemma_held_joins(disk, first, second.take(k));
            self.lemma_same_leads(
                middle,
                second[k],
                held(self.left_on(middle, disk), second.take(k)),
                id,
                places,
            );
        }
    }

    /// Writing to mapped blocks asks first, and then writes consecutive blocks and does nothing
    /// else.
    pub(crate) proof fn lemma_mapped_write_shape(
        &self,
        after: &Self,
        file: InodeRef,
        offset: usize,
        data: Seq<u8>,
        outcome: Result<usize>,
    ) -> (made: Self)
        requires
            self.mapped_written(after, file, offset, data, outcome),
        ensures
            self.only_asked(&made),
            extends(made.log(), after.log()),
            after.state() == self.state(),
            forall|k: int|
                made.log().len() <= k < after.log().len() ==> (#[trigger] after.log()[k]) is WriteBlocks,
            outcome matches Err(error) ==> made.log() == after.log() || after.log().last()
                == (Event::WriteBlocks {
                start: after.log().last()->WriteBlocks_start,
                data: after.log().last()->WriteBlocks_data,
                reply: Err(error),
            }) && after.log().len() > made.log().len(),
    {
        let len = data.len() as usize;
        let range = range_of(offset, len);
        assert(after.log().take(after.log().len() as int) =~= after.log());
        if len == 0 || !addressable(offset, len) || file.inode.kind() != FileType::RegularFile {
            self.lemma_idle_only_asks(after);
            *after
        } else {
            let (mapped, blocks) = choose|mapped: Self, blocks: Result<Seq<PBlockId>>|
                {
                    &&& #[trigger] self.blocks_mapped(
                        &mapped,
                        file,
                        range.first_lblock as int,
                        range.block_count as nat,
                        None,
                        Seq::empty(),
                        blocks,
                    )
                    &&& match blocks {
                        Err(error) => mapped.idle(after) && outcome == Err::<usize, Ext4Error>(
                            error,
                        ),
                        Ok(homes) => mapped.homes_written(after, homes, offset, data, outcome),
                    }
                };
            self.lemma_mapped_served(
                &mapped,
                file,
                range.first_lblock as int,
                range.block_count as nat,
                None,
                Seq::empty(),
                blocks,
                Map::empty(),
                Map::empty(),
            );
            match blocks {
                Err(_) => *after,
                Ok(homes) => {
                    let (made, bytes) = choose|made: Self, bytes: Result<Seq<u8>>|
                        {
                            &&& #[trigger] mapped.blocks_merged(
                                &made,
                                homes,
                                0,
                                offset,
                                data,
                                Seq::empty(),
                                bytes,
                            )
                            &&& match bytes {
                                Err(error) => made.idle(after) && outcome == Err::<
                                    usize,
                                    Ext4Error,
                                >(error),
                                Ok(images) => made.images_written(
                                    after,
                                    homes,
                                    images,
                                    data.len() as usize,
                                    outcome,
                                ),
                            }
                        };
                    mapped.lemma_merged_served(
                        &made,
                        file,
                        homes,
                        0,
                        offset,
                        data,
                        Seq::empty(),
                        bytes,
                        Map::empty(),
                        Map::empty(),
                    );
                    self.lemma_calls_join(&mapped, &made);
                    if let Ok(images) = bytes {
                        let reply = choose|reply: Result<()>|
                            {
                                &&& #[trigger] made.stretches_written(
                                    after,
                                    homes,
                                    0,
                                    images,
                                    reply,
                                )
                                &&& outcome == match reply {
                                    Ok(_) => Ok::<usize, Ext4Error>(data.len() as usize),
                                    Err(error) => Err(error),
                                }
                            };
                        made.lemma_stretches_shape(after, homes, 0, images, reply);
                    }
                    made
                },
            }
        }
    }

    /// Writing blocks in stretches does nothing else.
    proof fn lemma_stretches_shape(
        &self,
        after: &Self,
        blocks: Seq<PBlockId>,
        at: int,
        bytes: Seq<u8>,
        outcome: Result<()>,
    )
        requires
            self.stretches_written(after, blocks, at, bytes, outcome),
        ensures
            after.state() == self.state(),
            extends(self.log(), after.log()),
            forall|k: int|
                self.log().len() <= k < after.log().len() ==> (#[trigger] after.log()[k]) is WriteBlocks,
            outcome matches Err(error) ==> after.log().last() == (Event::WriteBlocks {
                start: after.log().last()->WriteBlocks_start,
                data: after.log().last()->WriteBlocks_data,
                reply: Err(error),
            }) && after.log().len() > self.log().len(),
        decreases blocks.len() - at,
    {
        let end = crate::data::stretch_end(blocks, at);
        assert(self.log().take(self.log().len() as int) =~= self.log());
        if 0 <= at < end <= blocks.len() {
            let data = bytes.subrange(at * BLOCK_SIZE, end * BLOCK_SIZE);
            let (written, reply) = choose|written: Self, reply: Result<()>|
                {
                    &&& #[trigger] self.did(
                        &written,
                        Event::WriteBlocks { start: blocks[at], data, reply },
                    )
                    &&& match reply {
                        Ok(_) => written.stretches_written(after, blocks, end, bytes, outcome),
                        Err(error) => written.idle(after) && outcome == Err::<(), Ext4Error>(
                            error,
                        ),
                    }
                };
            assert(written.log().take(self.log().len() as int) =~= self.log());
            if reply is Ok {
                written.lemma_stretches_shape(after, blocks, end, bytes, outcome);
                lemma_extends(self.log(), written.log(), after.log());
                assert forall|k: int| self.log().len() <= k < after.log().len() implies (
                #[trigger] after.log()[k]) is WriteBlocks by {
                    if k < written.log().len() {
                        assert(after.log().take(written.log().len() as int)[k] == after.log()[k]);
                    }
                }
            }
        }
    }

    /// A write to mapped blocks that is guided changes the bytes that it has, and no others.
    proof fn lemma_guided_write(
        &self,
        after: &Self,
        file: InodeRef,
        offset: usize,
        data: Seq<u8>,
        len: usize,
        disk: Disk,
        places: Places,
    )
        requires
            self.mapped_written(after, file, offset, data, Ok(len)),
            self.state().batch() == Seq::<StagedBlock>::empty(),
            data.len() <= usize::MAX,
            apart(places),
            self.guided(after, disk, file.id, places),
        ensures
            len == data.len(),
            after.state() == self.state(),
            extends(self.log(), after.log()),
            forall|at: int|
                0 <= at ==> #[trigger] byte_of(self.left_on(after, disk), places, at)
                    == if offset <= at < offset + data.len() {
                    data[at - offset]
                } else {
                    byte_of(disk, places, at)
                },
            forall|other: PBlockId|
                elsewhere(places, other) ==> #[trigger] self.left_on(after, disk)[other]
                    == disk[other],
    {
        let made = self.lemma_mapped_write_shape(after, file, offset, data, Ok(len));
        self.lemma_guided_is_served(&made, after, file, disk, places);
        self.lemma_write_changes_content(after, file, offset, data, len, disk, places);
    }

    /// Where all that is asked comes before all that is written, it is answered with what the
    /// device held at first.
    proof fn lemma_guided_is_served(
        &self,
        made: &Self,
        after: &Self,
        file: InodeRef,
        disk: Disk,
        places: Places,
    )
        requires
            self.only_asked(made),
            extends(made.log(), after.log()),
            forall|k: int|
                made.log().len() <= k < after.log().len() ==> (#[trigger] after.log()[k]) is WriteBlocks,
            self.guided(after, disk, file.id, places),
        ensures
            self.served(after, disk, file, places),
    {
        let calls = since(self.log(), after.log());
        assert forall|k: int| self.log().len() <= k < after.log().len() implies self.answered(
            #[trigger] after.log()[k],
            disk,
            file,
            places,
        ) by {
            let n = k - self.log().len();
            assert(calls[n] == after.log()[k]);
            if k < made.log().len() {
                let early = calls.take(n);
                assert forall|m: int| 0 <= m < early.len() implies !writes(
                    #[trigger] early[m],
                ) by {
                    let j = self.log().len() + m;
                    assert(after.log().take(made.log().len() as int)[j] == after.log()[j]);
                    assert(early[m] == made.log()[j]);
                }
                lemma_held_without_writes(disk, early);
                assert(told(calls[n], held(disk, calls.take(n))));
                assert(self.leads(calls[n], held(disk, calls.take(n)), file.id, places));
            }
        }
    }
}

/// Writing data to blocks that a file has, without a journal.
impl<D: BlockDevice, V: Volume<D>> Ext4<D, V> {
    /// Writing data alone goes on with the record.
    pub(crate) proof fn lemma_data_written_goes_on(
        &self,
        after: &Self,
        id: InodeId,
        offset: usize,
        data: Seq<u8>,
        outcome: Result<usize>,
    )
        requires
            self.data_written(after, id, offset, data, outcome),
        ensures
            extends(self.log(), after.log()),
            after.state() == self.state(),
    {
        let (read, found) = choose|read: Self, found: Result<InodeRef>|
            {
                &&& #[trigger] self.inode_read(&read, id, found)
                &&& match found {
                    Err(error) => read.idle(after) && outcome == Err::<usize, Ext4Error>(error),
                    Ok(inode) => read.mapped_written(after, inode, offset, data, outcome),
                }
            };
        assert(read.log().take(self.log().len() as int) =~= self.log());
        if let Ok(inode) = found {
            let made = read.lemma_mapped_write_shape(after, inode, offset, data, outcome);
            lemma_extends(read.log(), made.log(), after.log());
            lemma_extends(self.log(), read.log(), after.log());
        }
    }

    /// Writing data alone changes the bytes that it has, and no others; where a block is missing,
    /// it changes nothing.
    proof fn lemma_data_written_content(
        &self,
        after: &Self,
        id: InodeId,
        offset: usize,
        data: Seq<u8>,
        outcome: Result<usize>,
        disk: Disk,
        places: Places,
    )
        requires
            self.data_written(after, id, offset, data, outcome),
            self.state().batch() == Seq::<StagedBlock>::empty(),
            data.len() <= usize::MAX,
            apart(places),
            self.guided(after, disk, id, places),
        ensures
            outcome matches Ok(len) ==> {
                &&& len == data.len()
                &&& forall|at: int|
                    0 <= at ==> #[trigger] byte_of(self.left_on(after, disk), places, at)
                        == if offset <= at < offset + data.len() {
                        data[at - offset]
                    } else {
                        byte_of(disk, places, at)
                    }
                &&& forall|other: PBlockId|
                    elsewhere(places, other) ==> #[trigger] self.left_on(after, disk)[other]
                        == disk[other]
            },
            outcome matches Err(error) ==> error.code == ErrCode::ENOENT ==> self.left_on(
                after,
                disk,
            ) == disk,
    {
        self.lemma_data_written_goes_on(after, id, offset, data, outcome);
        let (read, found) = choose|read: Self, found: Result<InodeRef>|
            {
                &&& #[trigger] self.inode_read(&read, id, found)
                &&& match found {
                    Err(error) => read.idle(after) && outcome == Err::<usize, Ext4Error>(error),
                    Ok(inode) => read.mapped_written(after, inode, offset, data, outcome),
                }
            };
        assert(read.log().take(self.log().len() as int) =~= self.log());
        self.lemma_reading_inode_asks(&read, id, found);
        self.lemma_asking_leaves_device(&read, disk);
        if let Ok(inode) = found {
            let made = read.lemma_mapped_write_shape(after, inode, offset, data, outcome);
            lemma_extends(read.log(), made.log(), after.log());
            self.lemma_guided_parts(&read, after, disk, id, places);
            self.lemma_device_joins(&read, after, disk);
            read.lemma_mapped_content(after, inode, offset, data, outcome, disk, places);
        }
    }

    /// A write to mapped blocks changes the bytes that it has, and no others; where a block is
    /// missing, it changes nothing.
    pub(crate) proof fn lemma_mapped_content(
        &self,
        after: &Self,
        file: InodeRef,
        offset: usize,
        data: Seq<u8>,
        outcome: Result<usize>,
        disk: Disk,
        places: Places,
    )
        requires
            self.mapped_written(after, file, offset, data, outcome),
            self.state().batch() == Seq::<StagedBlock>::empty(),
            data.len() <= usize::MAX,
            apart(places),
            self.guided(after, disk, file.id, places),
        ensures
            extends(self.log(), after.log()),
            after.state() == self.state(),
            outcome matches Ok(len) ==> {
                &&& len == data.len()
                &&& forall|at: int|
                    0 <= at ==> #[trigger] byte_of(self.left_on(after, disk), places, at)
                        == if offset <= at < offset + data.len() {
                        data[at - offset]
                    } else {
                        byte_of(disk, places, at)
                    }
                &&& forall|other: PBlockId|
                    elsewhere(places, other) ==> #[trigger] self.left_on(after, disk)[other]
                        == disk[other]
            },
            outcome matches Err(error) ==> error.code == ErrCode::ENOENT ==> self.left_on(
                after,
                disk,
            ) == disk,
    {
        let made = self.lemma_mapped_write_shape(after, file, offset, data, outcome);
        lemma_extends(self.log(), made.log(), after.log());
        match outcome {
            Ok(len) => {
                self.lemma_guided_write(after, file, offset, data, len, disk, places);
            },
            Err(error) => {
                let calls = since(self.log(), after.log());
                if made.log() != after.log() {
                    assert(calls[calls.len() - 1] == after.log().last());
                } else {
                    assert forall|k: int| 0 <= k < calls.len() implies !writes(
                        #[trigger] calls[k],
                    ) by {
                        assert(calls[k] == made.log()[self.log().len() + k]);
                    }
                    lemma_held_without_writes(disk, calls);
                }
            },
        }
    }

    /// Reading an inode only asks.
    pub(crate) proof fn lemma_reading_inode_asks(&self, after: &Self, id: InodeId, found: Result<InodeRef>)
        requires
            self.inode_read(after, id, found),
        ensures
            self.only_asked(after),
            found matches Ok(inode) ==> inode.id == id,
    {
        match self.state().inode_position(id) {
            Some((home, at)) => {
                let reply = choose|reply: Result<Block>|
                    {
                        &&& #[trigger] self.block_read(after, home, reply)
                        &&& inode_found(bytes_read(reply), at, id, found)
                    };
                if holds_home(self.state().batch(), home) {
                    self.lemma_idle_only_asks(after);
                } else {
                    self.lemma_call_only_asks(after, Event::ReadBlock { id: home, reply });
                }
            },
            None => {
                self.lemma_idle_only_asks(after);
            },
        }
    }

    /// Writing data alone without a journal, with the barrier.
    pub(crate) proof fn lemma_plain_content(
        &self,
        after: &Self,
        id: InodeId,
        offset: usize,
        data: Seq<u8>,
        outcome: Result<usize>,
        disk: Disk,
        places: Places,
    )
        requires
            !(self.state().mode is Journal),
            self.state().mutable(),
            self.data_only_written(after, id, offset, data, outcome),
            data.len() <= usize::MAX,
            apart(places),
            extends(self.log(), after.log()) ==> self.guided(after, disk, id, places),
        ensures
            extends(self.log(), after.log()),
            self.same_ground(after),
            after.state().mode == self.state().mode,
            after.state().groups == self.state().groups,
            outcome matches Ok(len) ==> {
                &&& len == data.len()
                &&& forall|at: int|
                    0 <= at ==> #[trigger] byte_of(self.left_on(after, disk), places, at)
                        == if offset <= at < offset + data.len() {
                        data[at - offset]
                    } else {
                        byte_of(disk, places, at)
                    }
            },
            outcome matches Err(error) ==> error.code == ErrCode::ENOENT ==> self.left_on(
                after,
                disk,
            ) == disk,
    {
        let (inside, lock) = choose|inside: Self, lock: Result<()>|
            {
                &&& #[trigger] self.direct_entered(&inside, lock)
                &&& match lock {
                    Err(error) => inside.idle(after) && outcome == Err::<usize, Ext4Error>(error),
                    Ok(_) => exists|left: Self|
                        {
                            &&& inside.data_written(&left, id, offset, data, outcome)
                            &&& #[trigger] left.direct_left(after)
                        },
                }
            };
        assert(self.log().take(self.log().len() as int) =~= self.log());
        assert(self.state().batch() =~= Seq::<StagedBlock>::empty());
        match lock {
            Err(_) => {
                assert(after.log() == self.log());
                assert(since(self.log(), after.log()) =~= Seq::<Event>::empty());
            },
            Ok(_) => {
                let left = choose|left: Self|
                    {
                        &&& inside.data_written(&left, id, offset, data, outcome)
                        &&& #[trigger] left.direct_left(after)
                    };
                assert(inside.log() == self.log());
                inside.lemma_data_written_goes_on(&left, id, offset, data, outcome);
                assert(after.log().take(left.log().len() as int) =~= left.log());
                lemma_extends(self.log(), left.log(), after.log());
                self.lemma_guided_parts(&left, after, disk, id, places);
                assert(inside.guided(&left, disk, id, places)) by {
                    assert(extends(self.log(), inside.log()));
                    self.lemma_guided_parts(&inside, &left, disk, id, places);
                    assert(since(self.log(), inside.log()) =~= Seq::<Event>::empty());
                }
                inside.lemma_data_written_content(
                    &left,
                    id,
                    offset,
                    data,
                    outcome,
                    disk,
                    places,
                );
                self.lemma_device_joins(&left, after, disk);
                let last = since(left.log(), after.log());
                assert(last =~= seq![Event::Layer { call: LayerCall::Released }]);
                lemma_held_without_writes(self.left_on(&left, disk), last);
                assert(self.left_on(after, disk) == inside.left_on(&left, disk));
            },
        }
    }
}

/// Where the blocks of a file stand once consecutive ones were added.
pub open spec fn with_run(places: Places, start: int, first: PBlockId, count: int) -> Places {
    Map::new(
        |block: int| places.contains_key(block) || start <= block < start + count,
        |block: int|
            if start <= block < start + count {
                (first + (block - start)) as u64
            } else {
                places[block]
            },
    )
}

/// Whether the layers have blocks added to a file where it has none, allocate blocks that are free,
/// which are neither blocks of the file nor busy otherwise, record that elsewhere, and add blocks
/// to the inode that they are to be added to.
pub open spec fn takes_free_blocks(
    call: Event,
    places: Places,
    busy: spec_fn(PBlockId) -> bool,
) -> bool {
    match call {
        Event::Layer {
            call: LayerCall::AllocRange {
                inode,
                preferred_first,
                requires_merge,
                count,
                reply: Ok(allocation),
            },
        } => {
            let first = allocation.first;
            &&& first + count <= u64::MAX
            &&& forall|home: PBlockId|
                first <= home < first + count ==> #[trigger] elsewhere(places, home) && !busy(home)
            &&& forall|i: int|
                0 <= i < allocation.images@.len() ==> {
                    let home = (#[trigger] allocation.images@[i]).home;
                    elsewhere(places, home) && !(first <= home < first + count)
                }
        },
        Event::Layer {
            call: LayerCall::StageAppend { inode, start, first, count, after, reply: Ok(_) },
        } => after.id == inode.id,
        Event::Layer {
            call: LayerCall::AppendShape { inode, start, count, reply: Ok(Some(_)) },
        } => vacant(places, start as int, count as int),
        _ => true,
    }
}

/// Whether a file has none of some blocks.
pub open spec fn vacant(places: Places, start: int, count: int) -> bool {
    forall|block: int|
        start <= block < start + count ==> !(#[trigger] places.contains_key(block))
}

/// Staging images, and what transactions with them leave alone.
impl<D: BlockDevice, V: Volume<D>> Ext4<D, V> {
    /// Staging an image only asks, and stages no other block.
    pub(crate) proof fn lemma_block_staged_asks(
        &self,
        after: &Self,
        before: Transaction,
        grown: Transaction,
        home: PBlockId,
        at: int,
        patch: Seq<u8>,
        outcome: Result<()>,
    )
        requires
            before.patched(&grown, self.log(), after.log(), home, at, patch, outcome),
            after.state() == self.state(),
            ordered(before.staged()),
        ensures
            self.only_asked(after),
            ordered(grown.staged()),
            grown.deferred() == before.deferred(),
            forall|other: PBlockId| #[trigger]
                holds_home(grown.staged(), other) ==> other == home || holds_home(
                    before.staged(),
                    other,
                ),
    {
        match outcome {
            Ok(done) => {
                assert(done == ());
                lemma_patch_homes(before, grown, self.log(), after.log(), home, at, patch);
                lemma_patch_is_shown(
                    before,
                    grown,
                    self.log(),
                    after.log(),
                    home,
                    at,
                    patch,
                    Map::empty(),
                );
                if after.log() == self.log() {
                    assert(after.log().take(self.log().len() as int) =~= self.log());
                } else {
                    let read = choose|read: Block|
                        after.log() == #[trigger] self.log().push(
                            Event::ReadBlock { id: home, reply: Ok(read) },
                        );
                    self.lemma_call_only_asks(after, Event::ReadBlock { id: home, reply: Ok(read) });
                }
            },
            Err(error) => {
                if after.log() == self.log() {
                    assert(after.log().take(self.log().len() as int) =~= self.log());
                } else {
                    self.lemma_call_only_asks(
                        after,
                        Event::ReadBlock { id: home, reply: Err(error) },
                    );
                }
            },
        }
    }

    /// Staging images only asks, and stages no other blocks.
    pub(crate) proof fn lemma_images_staged_asks(
        &self,
        after: &Self,
        before: Transaction,
        grown: Transaction,
        images: Seq<BlockImage>,
        at: int,
        outcome: Result<()>,
    )
        requires
            self.images_staged(after, before, grown, images, at, outcome),
            ordered(before.staged()),
            0 <= at,
        ensures
            self.only_asked(after),
            ordered(grown.staged()),
            grown.deferred() == before.deferred(),
            forall|other: PBlockId| #[trigger]
                holds_home(grown.staged(), other) ==> holds_home(before.staged(), other) || exists|
                    i: int,
                |
                    0 <= i < images.len() && (#[trigger] images[i]).home == other,
        decreases images.len() - at,
    {
        if at >= images.len() {
            self.lemma_idle_only_asks(after);
        } else {
            let (staged, next, reply) = choose|staged: Self, next: Transaction, reply: Result<()>|
                {
                    &&& #[trigger] self.block_staged(
                        &staged,
                        before,
                        next,
                        images[at].home,
                        0,
                        images[at].data@,
                        reply,
                    )
                    &&& match reply {
                        Ok(_) => staged.images_staged(
                            after,
                            next,
                            grown,
                            images,
                            at + 1,
                            outcome,
                        ),
                        Err(error) => {
                            &&& staged.idle(after)
                            &&& grown == next
                            &&& outcome == Err::<(), Ext4Error>(error)
                        },
                    }
                };
            self.lemma_block_staged_asks(
                &staged,
                before,
                next,
                images[at].home,
                0,
                images[at].data@,
                reply,
            );
            if reply is Ok {
                staged.lemma_images_staged_asks(after, next, grown, images, at + 1, outcome);
                self.lemma_calls_join(&staged, after);
            }
            assert forall|other: PBlockId| #[trigger] holds_home(grown.staged(), other) implies
            holds_home(before.staged(), other) || exists|i: int|
                0 <= i < images.len() && (#[trigger] images[i]).home == other by {
                if other == images[at].home {
                    assert(images[at].home == other);
                } else if holds_home(next.staged(), other) {
                    assert(holds_home(before.staged(), other));
                }
            }
        }
    }

    /// Allocating a range inside a transaction only asks, and stages the records of it alone.
    pub(crate) proof fn lemma_range_taken_asks(
        &self,
        after: &Self,
        before: Transaction,
        grown: Transaction,
        inode: InodeId,
        plan: DirectRangePlan,
        outcome: Result<(PBlockId, Seq<PBlockId>)>,
    )
        requires
            self.range_taken(after, before, grown, inode, plan, outcome),
            ordered(before.staged()),
        ensures
            self.only_asked(after),
            ordered(grown.staged()),
            grown.deferred() == before.deferred(),
            outcome matches Ok(taken) ==> exists|k: int, allocation: RangeAllocation|
                {
                    &&& self.log().len() <= k < after.log().len()
                    &&& #[trigger] after.log()[k] == (Event::Layer {
                        call: LayerCall::AllocRange {
                            inode,
                            preferred_first: plan.preferred_first,
                            requires_merge: plan.requires_merge,
                            count: plan.count,
                            reply: Ok(allocation),
                        },
                    })
                    &&& taken.0 == allocation.first
                    &&& #[trigger] homes_of(allocation.images@) == taken.1
                    &&& forall|other: PBlockId| #[trigger]
                        holds_home(grown.staged(), other) ==> holds_home(before.staged(), other)
                            || exists|i: int|
                            0 <= i < allocation.images@.len() && (
                            #[trigger] allocation.images@[i]).home == other
                },
    {
        let (asked, reply) = choose|asked: Self, reply: Result<RangeAllocation>|
            {
                &&& #[trigger] self.asked(
                    &asked,
                    LayerCall::AllocRange {
                        inode,
                        preferred_first: plan.preferred_first,
                        requires_merge: plan.requires_merge,
                        count: plan.count,
                        reply,
                    },
                )
                &&& match reply {
                    Ok(allocation) => asked.allocation_staged(
                        after,
                        before,
                        grown,
                        allocation,
                        outcome,
                    ),
                    Err(error) => {
                        &&& asked.idle(after)
                        &&& grown == before
                        &&& outcome == Err::<(PBlockId, Seq<PBlockId>), Ext4Error>(error)
                    },
                }
            };
        let call = Event::Layer {
            call: LayerCall::AllocRange {
                inode,
                preferred_first: plan.preferred_first,
                requires_merge: plan.requires_merge,
                count: plan.count,
                reply,
            },
        };
        self.lemma_call_only_asks(&asked, call);
        if let Ok(allocation) = reply {
            let staged = choose|staged: Result<()>|
                {
                    &&& #[trigger] asked.images_staged(
                        after,
                        before,
                        grown,
                        allocation.images@,
                        0,
                        staged,
                    )
                    &&& outcome == match staged {
                        Ok(_) => Ok::<(PBlockId, Seq<PBlockId>), Ext4Error>(
                            (allocation.first, homes_of(allocation.images@)),
                        ),
                        Err(error) => Err(error),
                    }
                };
            asked.lemma_images_staged_asks(after, before, grown, allocation.images@, 0, staged);
            self.lemma_calls_join(&asked, after);
            let k = self.log().len() as int;
            assert(after.log().take(asked.log().len() as int)[k] == after.log()[k]);
            assert(after.log()[k] == call);
            assert(homes_of(allocation.images@) == homes_of(allocation.images@));
        }
    }
}

} // verus!
