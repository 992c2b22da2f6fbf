//! What a file holds: reads and writes agree on it.

use vstd::prelude::*;
use crate::bytes::{le16_at, splice, zeros};
use crate::data::{covers_block, lemma_pieces, merged, piece_end, piece_start, stretch_end, Mapping};
use crate::data_read::{least, Chunk};
use crate::device::{extends, since, Block, BlockDevice, Event};
use crate::error::{failed, ErrCode, Ext4Error, Result};
use crate::extent::ExtentWriteRange;
use crate::file_write::{grown_to, lemma_write_reaches_its_end};
use crate::fs::{bytes_read, inode_found, Ext4};
use crate::grow::is_free;
use crate::inode::{
    attributes_of, halves64, inline_of, type_of, wide48, FileAttr, FileType, InodeRef,
    SB_GOOD_INODE_SIZE,
};
use crate::range::{addressable, range_of};
use crate::staged::{block_of, holds_home};
use crate::superblock::{lemma_checksum_keeps_inode, sealed_inode};
use crate::truncate::Cut;
use crate::volume::{ExtentSearchStep, LayerCall, Volume};
use crate::{InodeId, LBlockId, PBlockId, BLOCK_SIZE};

verus! {

/// What the blocks of a device hold.
pub type Disk = Map<PBlockId, Seq<u8>>;

/// Where the blocks of a file stand.
pub type Places = Map<int, PBlockId>;

/// The byte of a file at a position: zero where no block is mapped.
pub open spec fn byte_of(disk: Disk, places: Places, at: int) -> u8 {
    let block = at / BLOCK_SIZE as int;
    if places.contains_key(block) {
        disk[places[block]][at % BLOCK_SIZE as int]
    } else {
        0
    }
}

/// Whether an extent says of every block that it maps where the block stands.
pub open spec fn charts(range: ExtentWriteRange, places: Places) -> bool {
    forall|block: LBlockId| #[trigger]
        range.maps(block) ==> {
            &&& places.contains_key(block as int)
            &&& places[block as int] == range.start_pblock + (block - range.start_lblock)
        }
}

/// Whether what was found for a block is where the block stands.
pub open spec fn locates(found: Result<Mapping>, iblock: LBlockId, places: Places) -> bool {
    match found {
        Ok(mapping) => {
            &&& mapping.1.maps(iblock)
            &&& charts(mapping.1, places)
            &&& mapping.0 == places[iblock as int]
        },
        Err(error) => error.code == ErrCode::ENOENT ==> !places.contains_key(iblock as int),
    }
}

/// Whether a call writes.
pub open spec fn writes(call: Event) -> bool {
    call is WriteBlock || call is WriteBlocks
}

/// Whether a read is answered with what a device holds.
pub open spec fn told(call: Event, disk: Disk) -> bool {
    match call {
        Event::ReadBlock { id, reply } => match reply {
            Ok(block) => block.id == id && block.data@ == disk[id],
            Err(error) => error.code != ErrCode::ENOENT,
        },
        Event::ReadBlocks { start, len, reply } => match reply {
            Ok(bytes) => forall|i: int|
                0 <= i < len ==> #[trigger] bytes[i] == disk[(start + i / BLOCK_SIZE as int) as u64][i
                    % BLOCK_SIZE as int],
            Err(_) => true,
        },
        _ => true,
    }
}

/// Whether the reads of a record are answered with what a device holds.
pub open spec fn told_all(calls: Seq<Event>, disk: Disk) -> bool {
    forall|k: int| 0 <= k < calls.len() ==> told(#[trigger] calls[k], disk)
}

/// What a device holds after a call.
pub open spec fn stored(disk: Disk, call: Event) -> Disk {
    match call {
        Event::WriteBlock { id, data, reply: Ok(_) } => disk.insert(id, data),
        Event::WriteBlocks { start, data, reply: Ok(_) } => Map::new(
            |id: PBlockId| true,
            |id: PBlockId|
                if start <= id < start + data.len() / BLOCK_SIZE as nat {
                    data.subrange((id - start) * BLOCK_SIZE, (id - start + 1) * BLOCK_SIZE)
                } else {
                    disk[id]
                },
        ),
        _ => disk,
    }
}

/// What a device holds after some calls.
pub open spec fn held(disk: Disk, calls: Seq<Event>) -> Disk
    decreases calls.len(),
{
    if calls.len() == 0 {
        disk
    } else {
        held(stored(disk, calls[0]), calls.skip(1))
    }
}

/// Calls after calls act on what the first ones left.
pub(crate) proof fn lemma_held_joins(disk: Disk, first: Seq<Event>, second: Seq<Event>)
    ensures
        held(disk, first + second) == held(held(disk, first), second),
    decreases first.len(),
{
    if first.len() == 0 {
        assert(first + second =~= second);
    } else {
        assert((first + second).skip(1) =~= first.skip(1) + second);
        lemma_held_joins(stored(disk, first[0]), first.skip(1), second);
    }
}

/// Calls that write nothing leave what a device holds.
pub(crate) proof fn lemma_held_without_writes(disk: Disk, calls: Seq<Event>)
    requires
        forall|k: int| 0 <= k < calls.len() ==> !writes(#[trigger] calls[k]),
    ensures
        held(disk, calls) == disk,
    decreases calls.len(),
{
    if calls.len() > 0 {
        assert(!writes(calls[0]));
        assert forall|k: int| 0 <= k < calls.skip(1).len() implies !writes(
            #[trigger] calls.skip(1)[k],
        ) by {
            assert(calls.skip(1)[k] == calls[k + 1]);
        }
        lemma_held_without_writes(disk, calls.skip(1));
    }
}

impl<D: BlockDevice, V: Volume<D>> Ext4<D, V> {
    /// Where the way to a leaf leads on a device.
    pub open spec fn leads_to(
        &self,
        disk: Disk,
        inode: InodeRef,
        iblock: LBlockId,
        path: Result<Vec<ExtentSearchStep>>,
    ) -> Result<Mapping> {
        match path {
            Err(error) => Err(error),
            Ok(steps) => if steps@.len() == 0 {
                failed(ErrCode::EIO)
            } else {
                match steps@.last().index {
                    Err(_) => failed(ErrCode::ENOENT),
                    Ok(index) => if steps@.last().pblock == 0 {
                        self.mapping_in(inline_of(inode.inode@), index, iblock)
                    } else if !self.valid_pblock(steps@.last().pblock) {
                        failed(ErrCode::EIO)
                    } else {
                        self.mapping_in(disk[steps@.last().pblock], index, iblock)
                    },
                }
            },
        }
    }

    /// Whether a call is answered by what a device holds and by where the blocks of a file stand.
    pub open spec fn answered(
        &self,
        call: Event,
        disk: Disk,
        file: InodeRef,
        places: Places,
    ) -> bool {
        &&& told(call, disk)
        &&& match call {
            Event::Layer { call: LayerCall::FindExtent { inode, iblock, reply } } => inode == file
                ==> locates(self.leads_to(disk, file, iblock, reply), iblock, places),
            _ => true,
        }
    }

    /// Whether the calls between two states are answered by what a device holds and by where the
    /// blocks of a file stand.
    pub open spec fn served(
        &self,
        after: &Self,
        disk: Disk,
        file: InodeRef,
        places: Places,
    ) -> bool {
        forall|k: int|
            self.log().len() <= k < after.log().len() ==> self.answered(
                #[trigger] after.log()[k],
                disk,
                file,
                places,
            )
    }

    /// Whether the images that wait for a commit are what a device is seen to hold.
    pub open spec fn sees_batch(&self, disk: Disk) -> bool {
        forall|id: PBlockId| #[trigger]
            holds_home(self.state().batch(), id) ==> disk[id] == block_of(
                self.state().batch(),
                id,
            ).image@
    }

    /// Calls were made that write nothing, and nothing else changed.
    pub open spec fn only_asked(&self, after: &Self) -> bool {
        &&& after.state() == self.state()
        &&& extends(self.log(), after.log())
        &&& forall|k: int|
            self.log().len() <= k < after.log().len() ==> !writes(#[trigger] after.log()[k])
    }

    /// Calls that write nothing are followed by calls that write nothing.
    pub(crate) proof fn lemma_calls_join(&self, mid: &Self, after: &Self)
        requires
            self.only_asked(mid),
            mid.only_asked(after),
        ensures
            self.only_asked(after),
    {
        assert(after.log().take(self.log().len() as int) =~= after.log().take(
            mid.log().len() as int,
        ).take(self.log().len() as int));
        assert forall|k: int| self.log().len() <= k < after.log().len() implies !writes(
            #[trigger] after.log()[k],
        ) by {
            if k < mid.log().len() {
                assert(after.log().take(mid.log().len() as int)[k] == after.log()[k]);
                assert(!writes(mid.log()[k]));
            }
        }
    }

    /// What answers a record of calls answers its parts.
    proof fn lemma_served_parts(
        &self,
        mid: &Self,
        after: &Self,
        disk: Disk,
        file: InodeRef,
        places: Places,
    )
        requires
            mid.state() == self.state(),
            extends(self.log(), mid.log()),
            extends(mid.log(), after.log()),
            self.served(after, disk, file, places),
        ensures
            self.served(mid, disk, file, places),
            mid.served(after, disk, file, places),
    {
        assert forall|k: int| self.log().len() <= k < mid.log().len() implies self.answered(
            #[trigger] mid.log()[k],
            disk,
            file,
            places,
        ) by {
            assert(after.log().take(mid.log().len() as int)[k] == after.log()[k]);
        }
        assert forall|k: int| mid.log().len() <= k < after.log().len() implies mid.answered(
            #[trigger] after.log()[k],
            disk,
            file,
            places,
        ) by {
            assert(self.answered(after.log()[k], disk, file, places));
        }
    }

    /// Reading a block makes calls alone, and gives what the device holds.
    proof fn lemma_block_served(
        &self,
        after: &Self,
        id: PBlockId,
        reply: Result<Block>,
        disk: Disk,
        file: InodeRef,
        places: Places,
    )
        requires
            self.block_read(after, id, reply),
        ensures
            self.only_asked(after),
            self.sees_batch(disk) && self.served(after, disk, file, places) ==> match reply {
                Ok(block) => block.id == id && block.data@ == disk[id],
                Err(error) => error.code != ErrCode::ENOENT,
            },
    {
        assert(after.log().take(self.log().len() as int) =~= self.log());
        if self.sees_batch(disk) && self.served(after, disk, file, places) {
            if !holds_home(self.state().batch(), id) {
                assert(self.answered(
                    after.log()[self.log().len() as int],
                    disk,
                    file,
                    places,
                ));
            }
        }
    }

    /// Looking for a block makes calls alone, and finds where the block stands.
    pub(crate) proof fn lemma_found_served(
        &self,
        after: &Self,
        file: InodeRef,
        iblock: LBlockId,
        found: Result<Mapping>,
        disk: Disk,
        places: Places,
    )
        requires
            self.extent_found(after, file, iblock, found),
        ensures
            self.only_asked(after),
            self.sees_batch(disk) && self.served(after, disk, file, places) ==> locates(
                found,
                iblock,
                places,
            ),
    {
        broadcast use Ext4::lemma_with_counts;

        let (asked, path) = choose|asked: Self, path: Result<Vec<ExtentSearchStep>>|
            {
                &&& #[trigger] self.with_counts(self.counts().with_query()).asked(
                    &asked,
                    LayerCall::FindExtent { inode: file, iblock, reply: path },
                )
                &&& asked.leaf_read(after, file, iblock, path, found)
            };
        assert(asked.log().take(self.log().len() as int) =~= self.log());
        assert(self.only_asked(&asked));
        let read = match path {
            Err(_) => false,
            Ok(steps) => steps@.len() > 0 && steps@.last().index is Ok && steps@.last().pblock != 0
                && asked.valid_pblock(steps@.last().pblock),
        };
        if read {
            let home = path->Ok_0@.last().pblock;
            let index = path->Ok_0@.last().index->Ok_0;
            assert(asked.node_read(after, home, index, iblock, found));
            let reply = choose|reply: Result<Block>|
                {
                    &&& #[trigger] asked.block_read(after, home, reply)
                    &&& found == match reply {
                        Ok(node) => asked.mapping_in(node.data@, index, iblock),
                        Err(error) => Err(error),
                    }
                };
            asked.lemma_block_served(after, home, reply, disk, file, places);
            self.lemma_calls_join(&asked, after);
        } else {
            assert(asked.idle(after));
            assert(asked.log().take(asked.log().len() as int) =~= asked.log());
        }
        if self.sees_batch(disk) && self.served(after, disk, file, places) {
            self.lemma_served_parts(&asked, after, disk, file, places);
            assert(self.answered(asked.log()[self.log().len() as int], disk, file, places));
            assert(locates(self.leads_to(disk, file, iblock, path), iblock, places));
        }
    }
}

impl<D: BlockDevice, V: Volume<D>> Ext4<D, V> {
    /// Looking for a block with an extent at hand makes calls alone, and finds where the block
    /// stands.
    proof fn lemma_resolved_served(
        &self,
        after: &Self,
        file: InodeRef,
        iblock: LBlockId,
        cached: Option<ExtentWriteRange>,
        found: Result<Mapping>,
        disk: Disk,
        places: Places,
    )
        requires
            self.resolved(after, file, iblock, cached, found),
        ensures
            self.only_asked(after),
            self.sees_batch(disk) && self.served(after, disk, file, places) && (cached matches Some(
                range,
            ) ==> charts(range, places)) ==> locates(
                found,
                iblock,
                places,
            ),
    {
        if cached is Some && cached->0.maps(iblock) {
            assert(self.log().take(self.log().len() as int) =~= self.log());
        } else {
            self.lemma_found_served(after, file, iblock, found, disk, places);
        }
    }

    /// Asking for the place of a block makes calls alone, and gives where the block stands.
    pub(crate) proof fn lemma_located_served(
        &self,
        after: &Self,
        file: InodeRef,
        iblock: LBlockId,
        found: Result<PBlockId>,
        disk: Disk,
        places: Places,
    )
        requires
            self.block_located(after, file, iblock, found),
        ensures
            self.only_asked(after),
            self.sees_batch(disk) && self.served(after, disk, file, places) ==> match found {
                Ok(home) => places.contains_key(iblock as int) && places[iblock as int] == home,
                Err(error) => error.code == ErrCode::ENOENT ==> !places.contains_key(iblock as int),
            },
    {
        let reply = choose|reply: Result<Mapping>|
            {
                &&& #[trigger] self.extent_found(after, file, iblock, reply)
                &&& found == match reply {
                    Ok(mapping) => Ok::<PBlockId, Ext4Error>(mapping.0),
                    Err(error) => Err(error),
                }
            };
        self.lemma_found_served(after, file, iblock, reply, disk, places);
    }

    /// Reading part of a block of a file makes calls alone, and gives what the file holds there.
    proof fn lemma_piece_served(
        &self,
        after: &Self,
        file: InodeRef,
        iblock: LBlockId,
        at: int,
        len: int,
        outcome: Result<Seq<u8>>,
        disk: Disk,
        places: Places,
    )
        requires
            self.piece_read(after, file, iblock, at, len, outcome),
            0 <= at,
            0 <= len,
            at + len <= BLOCK_SIZE,
        ensures
            self.only_asked(after),
            self.sees_batch(disk) && self.served(after, disk, file, places) ==> (outcome matches Ok(
                bytes,
            ) ==> holds_at(bytes, disk, places, iblock * BLOCK_SIZE + at, len)),
    {
        let (queried, found) = choose|queried: Self, found: Result<PBlockId>|
            {
                &&& #[trigger] self.block_located(&queried, file, iblock, found)
                &&& match found {
                    Ok(home) => queried.part_read(after, home, at, len, outcome),
                    Err(error) => {
                        &&& queried.idle(after)
                        &&& outcome == if error.code == ErrCode::ENOENT {
                            Ok::<Seq<u8>, Ext4Error>(zeros(len as nat))
                        } else {
                            Err(error)
                        }
                    },
                }
            };
        self.lemma_located_served(&queried, file, iblock, found, disk, places);
        let base = iblock * BLOCK_SIZE + at;
        assert forall|i: int| 0 <= i < len implies #[trigger] byte_of(disk, places, base + i) == if places.contains_key(iblock as int) {
            disk[places[iblock as int]][at + i]
        } else {
            0
        } by {
            assert((base + i) / BLOCK_SIZE as int == iblock);
            assert((base + i) % BLOCK_SIZE as int == at + i);
        }
        match found {
            Ok(home) => {
                let reply = choose|reply: Result<Block>|
                    {
                        &&& #[trigger] queried.block_read(after, home, reply)
                        &&& outcome == match reply {
                            Ok(block) => Ok::<Seq<u8>, Ext4Error>(
                                block.data@.subrange(at, at + len),
                            ),
                            Err(error) => Err(error),
                        }
                    };
                queried.lemma_block_served(after, home, reply, disk, file, places);
                self.lemma_calls_join(&queried, after);
                if self.sees_batch(disk) && self.served(after, disk, file, places) {
                    self.lemma_served_parts(&queried, after, disk, file, places);
                }
            },
            Err(_) => {
                assert(queried.log().take(queried.log().len() as int) =~= queried.log());
                self.lemma_calls_join(&queried, after);
                if self.sees_batch(disk) && self.served(after, disk, file, places) {
                    self.lemma_served_parts(&queried, after, disk, file, places);
                }
            },
        }
    }
}

/// Whether bytes are what a file holds from a position on.
pub open spec fn holds_at(bytes: Seq<u8>, disk: Disk, places: Places, at: int, len: int) -> bool {
    &&& bytes.len() == len
    &&& forall|i: int| 0 <= i < len ==> #[trigger] bytes[i] == byte_of(disk, places, at + i)
}

impl<D: BlockDevice, V: Volume<D>> Ext4<D, V> {
    /// Reading the blocks of an extent makes calls alone, and gives what the file holds there.
    proof fn lemma_run_served(
        &self,
        after: &Self,
        file: InodeRef,
        iblock: LBlockId,
        mapping: Mapping,
        left: int,
        outcome: Result<Chunk>,
        disk: Disk,
        places: Places,
    )
        requires
            self.run_chunk(after, iblock, mapping, left, outcome),
            left >= BLOCK_SIZE,
        ensures
            self.only_asked(after),
            locates(Ok(mapping), iblock, places) && self.served(after, disk, file, places) ==> (
            outcome matches Ok(chunk) ==> {
                &&& 0 < chunk.0.len() <= left
                &&& holds_at(
                    chunk.0,
                    disk,
                    places,
                    iblock * BLOCK_SIZE,
                    chunk.0.len() as int,
                )
                &&& chunk.1 * BLOCK_SIZE == iblock * BLOCK_SIZE + chunk.0.len()
                &&& chunk.2 matches Some(range) ==> charts(range, places)
            }),
    {
        let count = least(left / BLOCK_SIZE as int, mapping.1.end_lblock - iblock);
        let bytes = choose|bytes: Result<Seq<u8>>|
            {
                &&& #[trigger] self.run_read(
                    after,
                    iblock,
                    (iblock + count) as u32,
                    mapping.0,
                    count * BLOCK_SIZE,
                    bytes,
                )
                &&& outcome == match bytes {
                    Ok(found) => Ok::<Chunk, Ext4Error>((found, iblock + count, Some(mapping.1))),
                    Err(error) => Err(error),
                }
            };
        assert(after.log().take(self.log().len() as int) =~= self.log());
        if locates(Ok(mapping), iblock, places) && self.served(after, disk, file, places) {
            if let Ok(found) = bytes {
                assert(0 < count <= left / BLOCK_SIZE as int);
                assert(found.len() == count * BLOCK_SIZE);
                let call = after.log()[self.log().len() as int];
                assert(self.answered(call, disk, file, places));
                assert forall|i: int| 0 <= i < found.len() implies #[trigger] found[i] == byte_of(
                    disk,
                    places,
                    iblock * BLOCK_SIZE + i,
                ) by {
                    let block = (iblock + i / BLOCK_SIZE as int) as u32;
                    assert((iblock * BLOCK_SIZE + i) / BLOCK_SIZE as int == block);
                    assert(mapping.1.maps(iblock));
                    assert(mapping.1.maps(block));
                }
            }
        }
    }

    /// Reading the next bytes of a file makes calls alone, and gives what the file holds there.
    proof fn lemma_chunk_served(
        &self,
        after: &Self,
        file: InodeRef,
        iblock: int,
        cached: Option<ExtentWriteRange>,
        left: int,
        outcome: Result<Chunk>,
        disk: Disk,
        places: Places,
    )
        requires
            self.chunk_read(after, file, iblock, cached, left, outcome),
            0 < left,
        ensures
            self.only_asked(after),
            self.sees_batch(disk) && self.served(after, disk, file, places) && 0 <= iblock && (
            cached matches Some(range) ==> charts(range, places)) ==> (outcome matches Ok(
                chunk,
            ) ==> {
                &&& 0 < chunk.0.len() <= left
                &&& holds_at(
                    chunk.0,
                    disk,
                    places,
                    iblock * BLOCK_SIZE,
                    chunk.0.len() as int,
                )
                &&& chunk.0.len() == left || chunk.1 * BLOCK_SIZE == iblock * BLOCK_SIZE
                    + chunk.0.len()
                &&& chunk.2 matches Some(range) ==> charts(range, places)
            }),
    {
        if iblock > u32::MAX {
            assert(self.log().take(self.log().len() as int) =~= self.log());
        } else if left < BLOCK_SIZE {
            let bytes = choose|bytes: Result<Seq<u8>>|
                {
                    &&& #[trigger] self.piece_read(after, file, iblock as u32, 0, left, bytes)
                    &&& outcome == match bytes {
                        Ok(found) => Ok::<Chunk, Ext4Error>((found, iblock as u32 as int, cached)),
                        Err(error) => Err(error),
                    }
                };
            self.lemma_piece_served(after, file, iblock as u32, 0, left, bytes, disk, places);
        } else {
            let (mapped, found) = choose|mapped: Self, found: Result<Mapping>|
                {
                    &&& #[trigger] self.resolved(&mapped, file, iblock as u32, cached, found)
                    &&& match found {
                        Ok(mapping) => mapped.run_chunk(
                            after,
                            iblock as u32,
                            mapping,
                            left,
                            outcome,
                        ),
                        Err(error) => {
                            &&& mapped.idle(after)
                            &&& outcome == if error.code != ErrCode::ENOENT {
                                Err::<Chunk, Ext4Error>(error)
                            } else if iblock == u32::MAX {
                                failed(ErrCode::EFBIG)
                            } else {
                                Ok((zeros(BLOCK_SIZE as nat), iblock + 1, cached))
                            }
                        },
                    }
                };
            self.lemma_resolved_served(&mapped, file, iblock as u32, cached, found, disk, places);
            match found {
                Ok(mapping) => {
                    mapped.lemma_run_served(
                        after,
                        file,
                        iblock as u32,
                        mapping,
                        left,
                        outcome,
                        disk,
                        places,
                    );
                },
                Err(_) => {
                    assert(mapped.log().take(mapped.log().len() as int) =~= mapped.log());
                },
            }
            self.lemma_calls_join(&mapped, after);
            if self.sees_batch(disk) && self.served(after, disk, file, places) {
                self.lemma_served_parts(&mapped, after, disk, file, places);
                if 0 <= iblock && !places.contains_key(iblock) {
                    assert forall|i: int| 0 <= i < BLOCK_SIZE implies #[trigger] byte_of(
                        disk,
                        places,
                        iblock * BLOCK_SIZE + i,
                    ) == 0 by {
                        assert((iblock * BLOCK_SIZE + i) / BLOCK_SIZE as int == iblock);
                    }
                }
            }
        }
    }

    /// Reading to the end of a range makes calls alone, and gives what the file holds there.
    proof fn lemma_fetched_served(
        &self,
        after: &Self,
        file: InodeRef,
        iblock: int,
        cached: Option<ExtentWriteRange>,
        cursor: int,
        size: int,
        buf: Seq<u8>,
        buf_after: Seq<u8>,
        outcome: Result<usize>,
        disk: Disk,
        places: Places,
        base: int,
    )
        requires
            self.fetched(after, file, iblock, cached, cursor, size, buf, buf_after, outcome),
            cached matches Some(range) ==> charts(range, places),
            0 <= iblock,
            0 <= cursor <= size <= buf.len(),
            size <= usize::MAX,
            cursor < size ==> iblock * BLOCK_SIZE == base + cursor,
            forall|i: int| 0 <= i < cursor ==> #[trigger] buf[i] == byte_of(disk, places, base + i),
            self.sees_batch(disk),
        ensures
            self.only_asked(after),
            self.served(after, disk, file, places) ==> (outcome matches Ok(len) ==> {
                &&& len == size
                &&& buf_after.len() == buf.len()
                &&& forall|i: int|
                    0 <= i < size ==> #[trigger] buf_after[i] == byte_of(disk, places, base + i)
                &&& forall|i: int| size <= i < buf.len() ==> #[trigger] buf_after[i] == buf[i]
            }),
        decreases size - cursor,
    {
        if cursor >= size {
            assert(self.log().take(self.log().len() as int) =~= self.log());
        } else {
            let (read, chunk) = choose|read: Self, chunk: Result<Chunk>|
                {
                    &&& #[trigger] self.chunk_read(
                        &read,
                        file,
                        iblock,
                        cached,
                        size - cursor,
                        chunk,
                    )
                    &&& match chunk {
                        Err(error) => {
                            &&& read.idle(after)
                            &&& buf_after == buf
                            &&& outcome == Err::<usize, Ext4Error>(error)
                        },
                        Ok(found) => {
                            &&& 0 < found.0.len() <= size - cursor
                            &&& read.fetched(
                                after,
                                file,
                                found.1,
                                found.2,
                                cursor + found.0.len(),
                                size,
                                splice(buf, cursor, found.0),
                                buf_after,
                                outcome,
                            )
                        },
                    }
                };
            self.lemma_chunk_served(
                &read,
                file,
                iblock,
                cached,
                size - cursor,
                chunk,
                disk,
                places,
            );
            match chunk {
                Err(_) => {
                    assert(read.log().take(read.log().len() as int) =~= read.log());
                    self.lemma_calls_join(&read, after);
                },
                Ok(found) => {
                    read.lemma_fetched_calls(
                        after,
                        file,
                        found.1,
                        found.2,
                        cursor + found.0.len(),
                        size,
                        splice(buf, cursor, found.0),
                        buf_after,
                        outcome,
                    );
                    self.lemma_calls_join(&read, after);
                    if self.served(after, disk, file, places) {
                        self.lemma_served_parts(&read, after, disk, file, places);
                        read.lemma_fetched_served(
                            after,
                            file,
                            found.1,
                            found.2,
                            cursor + found.0.len(),
                            size,
                            splice(buf, cursor, found.0),
                            buf_after,
                            outcome,
                            disk,
                            places,
                            base,
                        );
                    }
                },
            }
        }
    }

    /// Reading to the end of a range makes calls alone.
    proof fn lemma_fetched_calls(
        &self,
        after: &Self,
        file: InodeRef,
        iblock: int,
        cached: Option<ExtentWriteRange>,
        cursor: int,
        size: int,
        buf: Seq<u8>,
        buf_after: Seq<u8>,
        outcome: Result<usize>,
    )
        requires
            self.fetched(after, file, iblock, cached, cursor, size, buf, buf_after, outcome),
        ensures
            self.only_asked(after),
        decreases size - cursor,
    {
        if cursor >= size {
            assert(self.log().take(self.log().len() as int) =~= self.log());
        } else {
            let (read, chunk) = choose|read: Self, chunk: Result<Chunk>|
                {
                    &&& #[trigger] self.chunk_read(
                        &read,
                        file,
                        iblock,
                        cached,
                        size - cursor,
                        chunk,
                    )
                    &&& match chunk {
                        Err(error) => {
                            &&& read.idle(after)
                            &&& buf_after == buf
                            &&& outcome == Err::<usize, Ext4Error>(error)
                        },
                        Ok(found) => {
                            &&& 0 < found.0.len() <= size - cursor
                            &&& read.fetched(
                                after,
                                file,
                                found.1,
                                found.2,
                                cursor + found.0.len(),
                                size,
                                splice(buf, cursor, found.0),
                                buf_after,
                                outcome,
                            )
                        },
                    }
                };
            self.lemma_chunk_served(
                &read,
                file,
                iblock,
                cached,
                size - cursor,
                chunk,
                Map::empty(),
                Map::empty(),
            );
            match chunk {
                Err(_) => {
                    assert(read.log().take(read.log().len() as int) =~= read.log());
                },
                Ok(found) => {
                    read.lemma_fetched_calls(
                        after,
                        file,
                        found.1,
                        found.2,
                        cursor + found.0.len(),
                        size,
                        splice(buf, cursor, found.0),
                        buf_after,
                        outcome,
                    );
                },
            }
            self.lemma_calls_join(&read, after);
        }
    }
}

impl<D: BlockDevice, V: Volume<D>> Ext4<D, V> {
    /// Reading gives what the file holds, up to the end of the buffer or of the file, and leaves
    /// the rest of the buffer alone.
    pub proof fn lemma_read_gives_content(
        &self,
        after: &Self,
        file: InodeRef,
        offset: usize,
        buf: Seq<u8>,
        buf_after: Seq<u8>,
        len: usize,
        disk: Disk,
        places: Places,
    )
        requires
            self.file_read(after, file, offset, buf, buf_after, Ok(len)),
            offset as int / BLOCK_SIZE as int <= u32::MAX,
            buf.len() <= usize::MAX,
            self.sees_batch(disk),
            self.served(after, disk, file, places),
        ensures
            len == if buf.len() == 0 || offset >= file.inode.byte_size() as usize {
                0
            } else {
                least(buf.len() as int, file.inode.byte_size() as usize - offset)
            },
            buf_after.len() == buf.len(),
            forall|i: int|
                0 <= i < len ==> #[trigger] buf_after[i] == byte_of(disk, places, offset + i),
            forall|i: int| len <= i < buf.len() ==> #[trigger] buf_after[i] == buf[i],
    {
        let size = file.inode.byte_size() as usize;
        if !(buf.len() == 0 || offset >= size) {
            let want = least(buf.len() as int, size - offset);
            let skew = offset as int % BLOCK_SIZE as int;
            let first = (offset as int / BLOCK_SIZE as int) as u32;
            assert(offset == first * BLOCK_SIZE + skew);
            if skew == 0 {
                self.lemma_fetched_served(
                    after,
                    file,
                    first as int,
                    None,
                    0,
                    want,
                    buf,
                    buf_after,
                    Ok(len),
                    disk,
                    places,
                    offset as int,
                );
            } else {
                let (read, head) = choose|read: Self, head: Result<Seq<u8>>|
                    {
                        &&& #[trigger] self.head_read(&read, file, offset, want, head)
                        &&& match head {
                            Err(error) => {
                                &&& read.idle(after)
                                &&& buf_after == buf
                                &&& Ok::<usize, Ext4Error>(len) == Err::<usize, Ext4Error>(error)
                            },
                            Ok(bytes) => read.fetched(
                                after,
                                file,
                                first + 1,
                                None,
                                bytes.len() as int,
                                want,
                                splice(buf, 0, bytes),
                                buf_after,
                                Ok(len),
                            ),
                        }
                    };
                let room = least(BLOCK_SIZE - skew, want);
                self.lemma_piece_served(
                    &read,
                    file,
                    first,
                    skew,
                    room,
                    head,
                    disk,
                    places,
                );
                let bytes = head->Ok_0;
                read.lemma_fetched_calls(
                    after,
                    file,
                    first + 1,
                    None,
                    bytes.len() as int,
                    want,
                    splice(buf, 0, bytes),
                    buf_after,
                    Ok(len),
                );
                self.lemma_served_parts(&read, after, disk, file, places);
                read.lemma_fetched_served(
                    after,
                    file,
                    first + 1,
                    None,
                    bytes.len() as int,
                    want,
                    splice(buf, 0, bytes),
                    buf_after,
                    Ok(len),
                    disk,
                    places,
                    offset as int,
                );
            }
        }
    }
}

/// Whether no two blocks of a file stand in one place.
pub open spec fn apart(places: Places) -> bool {
    forall|a: int, b: int|
        places.contains_key(a) && places.contains_key(b) && #[trigger] places[a]
            == #[trigger] places[b] ==> a == b
}

/// Whether no block of a file stands in `home`.
pub open spec fn elsewhere(places: Places, home: PBlockId) -> bool {
    forall|block: int| #[trigger] places.contains_key(block) ==> places[block] != home
}

/// Whether a block of a file stands in `home`.
pub open spec fn stands(places: Places, block: int, home: PBlockId) -> bool {
    places.contains_key(block) && places[block] == home
}

/// Whether `homes` are `done` and then where the blocks from `iblock` on stand.
pub open spec fn follows(
    homes: Seq<PBlockId>,
    done: Seq<PBlockId>,
    iblock: int,
    places: Places,
) -> bool {
    &&& done.len() <= homes.len()
    &&& forall|i: int| 0 <= i < done.len() ==> #[trigger] homes[i] == done[i]
    &&& forall|i: int|
        done.len() <= i < homes.len() ==> stands(
            places,
            iblock + i - done.len(),
            #[trigger] homes[i],
        )
}

/// A place that was found is followed by the others.
proof fn lemma_follows(
    homes: Seq<PBlockId>,
    done: Seq<PBlockId>,
    home: PBlockId,
    iblock: int,
    places: Places,
)
    requires
        follows(homes, done.push(home), iblock + 1, places),
        places.contains_key(iblock),
        home == places[iblock],
    ensures
        follows(homes, done, iblock, places),
{
    let more = done.push(home);
    assert forall|i: int| 0 <= i < done.len() implies #[trigger] homes[i] == done[i] by {
        assert(homes[i] == more[i]);
    }
    assert forall|i: int| done.len() <= i < homes.len() implies stands(
        places,
        iblock + i - done.len(),
        #[trigger] homes[i],
    ) by {
        if i == done.len() {
            assert(homes[i] == more[i]);
        } else {
            assert(stands(places, iblock + 1 + i - more.len(), homes[i]));
        }
    }
}

/// A byte of a block that a write touches, once its bytes went over what the file held.
pub open spec fn byte_written(
    disk: Disk,
    home: PBlockId,
    offset: usize,
    data: Seq<u8>,
    at: int,
) -> u8 {
    if offset <= at < offset + data.len() {
        data[at - offset]
    } else {
        disk[home][at % BLOCK_SIZE as int]
    }
}

/// The position at which the first block of a write begins.
pub open spec fn base_of(offset: usize) -> int {
    offset as int / BLOCK_SIZE as int * BLOCK_SIZE
}

/// The bytes of a block that a write touches are those of the write where it has some, and those
/// that the block held elsewhere.
proof fn lemma_merged_bytes(
    base: Seq<u8>,
    offset: usize,
    data: Seq<u8>,
    index: int,
    k: int,
)
    requires
        0 < data.len() <= usize::MAX,
        addressable(offset, data.len() as usize),
        0 <= index < range_of(offset, data.len() as usize).block_count,
        base.len() == BLOCK_SIZE,
        0 <= k < BLOCK_SIZE,
    ensures
        merged(base, offset, data, index).len() == BLOCK_SIZE,
        merged(base, offset, data, index)[k] == {
            let at = base_of(offset) + index * BLOCK_SIZE + k;
            if offset <= at < offset + data.len() {
                data[at - offset]
            } else {
                base[k]
            }
        },
        covers_block(offset, data.len(), index) ==> merged(base, offset, data, index)
            == data.subrange(piece_start(offset, index), piece_end(offset, data.len(), index)),
{
    lemma_pieces(offset, data.len() as usize, index);
    let start = piece_start(offset, index);
    let end = piece_end(offset, data.len(), index);
    let skew = offset as int % BLOCK_SIZE as int;
    let at = base_of(offset) + index * BLOCK_SIZE + k;
    assert(offset == base_of(offset) + skew);
    assert(data.subrange(start, end).len() == end - start);
    if covers_block(offset, data.len(), index) {
        assert(merged(base, offset, data, index) =~= data.subrange(start, end));
    }
}

impl<D: BlockDevice, V: Volume<D>> Ext4<D, V> {
    /// Finding the places of blocks writes nothing, and gives where the blocks stand.
    pub(crate) proof fn lemma_mapped_served(
        &self,
        after: &Self,
        file: InodeRef,
        iblock: int,
        left: nat,
        cached: Option<ExtentWriteRange>,
        done: Seq<PBlockId>,
        outcome: Result<Seq<PBlockId>>,
        disk: Disk,
        places: Places,
    )
        requires
            self.blocks_mapped(after, file, iblock, left, cached, done, outcome),
        ensures
            self.only_asked(after),
            self.sees_batch(disk) && self.served(after, disk, file, places) && (cached matches Some(
                range,
            ) ==> charts(range, places)) && 0 <= iblock && iblock + left <= u32::MAX + 1 ==> match outcome {
                Ok(homes) => {
                    &&& homes.len() == done.len() + left
                    &&& follows(homes, done, iblock, places)
                },
                Err(_) => true,
            },
        decreases left,
    {
        if left == 0 {
            assert(self.log().take(self.log().len() as int) =~= self.log());
        } else {
            let (mapped, found) = choose|mapped: Self, found: Result<Mapping>|
                {
                    &&& #[trigger] self.resolved(&mapped, file, iblock as u32, cached, found)
                    &&& match found {
                        Ok(mapping) => mapped.blocks_mapped(
                            after,
                            file,
                            iblock + 1,
                            (left - 1) as nat,
                            Some(mapping.1),
                            done.push(mapping.0),
                            outcome,
                        ),
                        Err(error) => mapped.idle(after) && outcome == Err::<
                            Seq<PBlockId>,
                            Ext4Error,
                        >(error),
                    }
                };
            self.lemma_resolved_served(&mapped, file, iblock as u32, cached, found, disk, places);
            match found {
                Ok(mapping) => {
                    mapped.lemma_mapped_served(
                        after,
                        file,
                        iblock + 1,
                        (left - 1) as nat,
                        Some(mapping.1),
                        done.push(mapping.0),
                        outcome,
                        disk,
                        places,
                    );
                },
                Err(_) => {
                    assert(mapped.log().take(mapped.log().len() as int) =~= mapped.log());
                },
            }
            self.lemma_calls_join(&mapped, after);
            if self.served(after, disk, file, places) {
                self.lemma_served_parts(&mapped, after, disk, file, places);
            }
            if let (Ok(mapping), Ok(homes)) = (found, outcome) {
                let more = done.push(mapping.0);
                if self.sees_batch(disk) && self.served(after, disk, file, places) && (
                cached matches Some(range) ==> charts(range, places)) && 0 <= iblock && iblock
                    + left <= u32::MAX + 1 {
                    assert(follows(homes, more, iblock + 1, places));
                    assert(mapping.1.maps(iblock as u32));
                    lemma_follows(homes, done, mapping.0, iblock, places);
                }
            }
        }
    }

    /// Making up the blocks of a write writes nothing, and gives the bytes of the write over what
    /// the blocks held.
    pub(crate) proof fn lemma_merged_served(
        &self,
        after: &Self,
        file: InodeRef,
        blocks: Seq<PBlockId>,
        index: int,
        offset: usize,
        data: Seq<u8>,
        done: Seq<u8>,
        outcome: Result<Seq<u8>>,
        disk: Disk,
        places: Places,
    )
        requires
            self.blocks_merged(after, blocks, index, offset, data, done, outcome),
        ensures
            self.only_asked(after),
            self.sees_batch(disk) && self.served(after, disk, file, places) && 0 < data.len()
                <= usize::MAX && addressable(offset, data.len() as usize) && blocks.len()
                == range_of(offset, data.len() as usize).block_count && 0 <= index
                <= blocks.len() && done.len() == index * BLOCK_SIZE ==> match outcome {
                Ok(images) => {
                    &&& images.len() == blocks.len() * BLOCK_SIZE
                    &&& forall|i: int| 0 <= i < done.len() ==> #[trigger] images[i] == done[i]
                    &&& forall|i: int|
                        done.len() <= i < images.len() ==> #[trigger] images[i] == byte_written(
                            disk,
                            blocks[i / BLOCK_SIZE as int],
                            offset,
                            data,
                            base_of(offset) + i,
                        )
                },
                Err(_) => true,
            },
        decreases blocks.len() - index,
    {
        let known = self.sees_batch(disk) && self.served(after, disk, file, places) && 0
            < data.len() <= usize::MAX && addressable(offset, data.len() as usize) && blocks.len()
            == range_of(offset, data.len() as usize).block_count && 0 <= index <= blocks.len()
            && done.len() == index * BLOCK_SIZE;
        if index >= blocks.len() {
            assert(self.log().take(self.log().len() as int) =~= self.log());
        } else if covers_block(offset, data.len(), index) {
            let piece = data.subrange(
                piece_start(offset, index),
                piece_end(offset, data.len(), index),
            );
            self.lemma_merged_served(
                after,
                file,
                blocks,
                index + 1,
                offset,
                data,
                done + piece,
                outcome,
                disk,
                places,
            );
            if known {
                let base = zeros(BLOCK_SIZE as nat);
                lemma_merged_bytes(base, offset, data, index, 0);
                assert forall|k: int| 0 <= k < BLOCK_SIZE implies #[trigger] piece[k]
                    == byte_written(
                    disk,
                    blocks[index],
                    offset,
                    data,
                    base_of(offset) + index * BLOCK_SIZE + k,
                ) by {
                    lemma_pieces(offset, data.len() as usize, index);
                    lemma_merged_bytes(base, offset, data, index, k);
                }
                lemma_blocks_joined(disk, blocks, offset, data, done, piece, index, outcome);
            }
        } else {
            let (read, reply) = choose|read: Self, reply: Result<Block>|
                {
                    &&& #[trigger] self.block_read(&read, blocks[index], reply)
                    &&& match reply {
                        Ok(block) => read.blocks_merged(
                            after,
                            blocks,
                            index + 1,
                            offset,
                            data,
                            done + merged(block.data@, offset, data, index),
                            outcome,
                        ),
                        Err(error) => read.idle(after) && outcome == Err::<Seq<u8>, Ext4Error>(
                            error,
                        ),
                    }
                };
            self.lemma_block_served(&read, blocks[index], reply, disk, file, places);
            match reply {
                Ok(block) => {
                    let piece = merged(block.data@, offset, data, index);
                    read.lemma_merged_served(
                        after,
                        file,
                        blocks,
                        index + 1,
                        offset,
                        data,
                        done + piece,
                        outcome,
                        disk,
                        places,
                    );
                    self.lemma_calls_join(&read, after);
                    if known {
                        self.lemma_served_parts(&read, after, disk, file, places);
                        lemma_merged_bytes(block.data@, offset, data, index, 0);
                        assert forall|k: int| 0 <= k < BLOCK_SIZE implies #[trigger] piece[k]
                            == byte_written(
                            disk,
                            blocks[index],
                            offset,
                            data,
                            base_of(offset) + index * BLOCK_SIZE + k,
                        ) by {
                            lemma_merged_bytes(block.data@, offset, data, index, k);
                            let at = base_of(offset) + index * BLOCK_SIZE + k;
                            assert(at % BLOCK_SIZE as int == k);
                        }
                        lemma_blocks_joined(
                            disk,
                            blocks,
                            offset,
                            data,
                            done,
                            piece,
                            index,
                            outcome,
                        );
                    }
                },
                Err(_) => {
                    assert(read.log().take(read.log().len() as int) =~= read.log());
                    self.lemma_calls_join(&read, after);
                },
            }
        }
    }
}

/// A block that was made up is followed by the others.
proof fn lemma_blocks_joined(
    disk: Disk,
    blocks: Seq<PBlockId>,
    offset: usize,
    data: Seq<u8>,
    done: Seq<u8>,
    piece: Seq<u8>,
    index: int,
    outcome: Result<Seq<u8>>,
)
    requires
        0 <= index < blocks.len(),
        done.len() == index * BLOCK_SIZE,
        piece.len() == BLOCK_SIZE,
        forall|k: int|
            0 <= k < BLOCK_SIZE ==> #[trigger] piece[k] == byte_written(
                disk,
                blocks[index],
                offset,
                data,
                base_of(offset) + index * BLOCK_SIZE + k,
            ),
        outcome matches Ok(images) ==> {
            &&& images.len() == blocks.len() * BLOCK_SIZE
            &&& forall|i: int|
                0 <= i < (done + piece).len() ==> #[trigger] images[i] == (done + piece)[i]
            &&& forall|i: int|
                (done + piece).len() <= i < images.len() ==> #[trigger] images[i] == byte_written(
                    disk,
                    blocks[i / BLOCK_SIZE as int],
                    offset,
                    data,
                    base_of(offset) + i,
                )
        },
    ensures
        outcome matches Ok(images) ==> {
            &&& forall|i: int| 0 <= i < done.len() ==> #[trigger] images[i] == done[i]
            &&& forall|i: int|
                done.len() <= i < images.len() ==> #[trigger] images[i] == byte_written(
                    disk,
                    blocks[i / BLOCK_SIZE as int],
                    offset,
                    data,
                    base_of(offset) + i,
                )
        },
{
    if let Ok(images) = outcome {
        assert forall|i: int| done.len() <= i < images.len() implies #[trigger] images[i]
            == byte_written(
            disk,
            blocks[i / BLOCK_SIZE as int],
            offset,
            data,
            base_of(offset) + i,
        ) by {
            if i < (done + piece).len() {
                assert(images[i] == (done + piece)[i]);
                assert((done + piece)[i] == piece[i - done.len()]);
                assert(i / BLOCK_SIZE as int == index);
            }
        }
        assert forall|i: int| 0 <= i < done.len() implies #[trigger] images[i] == done[i] by {
            assert(images[i] == (done + piece)[i]);
        }
    }
}

/// The blocks of a stretch are neighbours.
proof fn lemma_stretch(blocks: Seq<PBlockId>, at: int)
    requires
        0 <= at < blocks.len(),
    ensures
        at < stretch_end(blocks, at) <= blocks.len(),
        forall|j: int|
            at <= j < stretch_end(blocks, at) ==> #[trigger] blocks[j] == blocks[at] + (j - at),
    decreases blocks.len() - at,
{
    if at + 1 < blocks.len() && blocks[at] + 1 == blocks[at + 1] {
        lemma_stretch(blocks, at + 1);
    }
}

/// Whether a device holds the blocks from `at` on as they were made up, and the others as before.
pub open spec fn written_from(
    disk: Disk,
    after: Disk,
    blocks: Seq<PBlockId>,
    at: int,
    bytes: Seq<u8>,
) -> bool {
    &&& forall|j: int|
        at <= j < blocks.len() ==> after[#[trigger] blocks[j]] == bytes.subrange(
            j * BLOCK_SIZE,
            (j + 1) * BLOCK_SIZE,
        )
    &&& forall|id: PBlockId|
        (forall|j: int| at <= j < blocks.len() ==> #[trigger] blocks[j] != id)
            ==> #[trigger] after[id] == disk[id]
}

impl<D: BlockDevice, V: Volume<D>> Ext4<D, V> {
    /// Writing blocks in stretches leaves them on the device as they were made up.
    proof fn lemma_stretches_stored(
        &self,
        after: &Self,
        blocks: Seq<PBlockId>,
        at: int,
        bytes: Seq<u8>,
        disk: Disk,
    )
        requires
            self.stretches_written(after, blocks, at, bytes, Ok(())),
            0 <= at <= blocks.len(),
            bytes.len() == blocks.len() * BLOCK_SIZE,
            blocks.no_duplicates(),
        ensures
            after.state() == self.state(),
            extends(self.log(), after.log()),
            written_from(disk, held(disk, since(self.log(), after.log())), blocks, at, bytes),
        decreases blocks.len() - at,
    {
        if at < blocks.len() {
            lemma_stretch(blocks, at);
            let end = stretch_end(blocks, at);
            let (written, reply) = choose|written: Self, reply: Result<()>|
                {
                    &&& #[trigger] self.did(
                        &written,
                        Event::WriteBlocks {
                            start: blocks[at],
                            data: bytes.subrange(at * BLOCK_SIZE, end * BLOCK_SIZE),
                            reply,
                        },
                    )
                    &&& match reply {
                        Ok(_) => written.stretches_written(after, blocks, end, bytes, Ok(())),
                        Err(error) => written.idle(after) && Ok::<(), Ext4Error>(()) == Err::<
                            (),
                            Ext4Error,
                        >(error),
                    }
                };
            let data = bytes.subrange(at * BLOCK_SIZE, end * BLOCK_SIZE);
            let call = Event::WriteBlocks { start: blocks[at], data, reply };
            let first = stored(disk, call);
            written.lemma_stretches_stored(after, blocks, end, bytes, first);
            let calls = since(self.log(), after.log());
            let rest = since(written.log(), after.log());
            assert(after.log().take(self.log().len() as int) =~= after.log().take(
                written.log().len() as int,
            ).take(self.log().len() as int));
            assert(written.log().take(self.log().len() as int) =~= self.log());
            assert(after.log()[self.log().len() as int] == after.log().take(
                written.log().len() as int,
            )[self.log().len() as int]);
            assert(calls[0] == call);
            assert(calls.skip(1) =~= rest);
            let last = held(first, rest);
            assert(held(disk, calls) == last);
            assert(data.len() == (end - at) * BLOCK_SIZE);
            assert(data.len() / BLOCK_SIZE as nat == end - at);
            assert forall|j: int| at <= j < blocks.len() implies last[#[trigger] blocks[j]]
                == bytes.subrange(j * BLOCK_SIZE, (j + 1) * BLOCK_SIZE) by {
                if j < end {
                    assert forall|n: int| end <= n < blocks.len() implies #[trigger] blocks[n]
                        != blocks[j] by {}
                    assert(last[blocks[j]] == first[blocks[j]]);
                    assert(blocks[j] - blocks[at] == j - at);
                    assert(data.subrange((j - at) * BLOCK_SIZE, (j - at + 1) * BLOCK_SIZE)
                        =~= bytes.subrange(j * BLOCK_SIZE, (j + 1) * BLOCK_SIZE));
                }
            }
            assert forall|id: PBlockId|
                (forall|j: int| at <= j < blocks.len() ==> #[trigger] blocks[j] != id) implies #[trigger] last[id]
                == disk[id] by {
                assert(last[id] == first[id]);
                if blocks[at] <= id < blocks[at] + (end - at) {
                    assert(blocks[at + (id - blocks[at])] == id);
                }
            }
        } else {
            assert(stretch_end(blocks, at) == at + 1);
            assert(self.log().take(self.log().len() as int) =~= self.log());
            assert(since(self.log(), after.log()) =~= Seq::<Event>::empty());
        }
    }

    /// A write to mapped blocks changes the bytes that it has, and no others.
    pub proof fn lemma_write_changes_content(
        &self,
        after: &Self,
        file: InodeRef,
        offset: usize,
        data: Seq<u8>,
        len: usize,
        disk: Disk,
        places: Places,
    )
        requires
            self.mapped_written(after, file, offset, data, Ok(len)),
            data.len() <= usize::MAX,
            apart(places),
            self.sees_batch(disk),
            self.served(after, disk, file, places),
        ensures
            len == data.len(),
            after.state() == self.state(),
            extends(self.log(), after.log()),
            forall|at: int|
                0 <= at ==> #[trigger] byte_of(
                    held(disk, since(self.log(), after.log())),
                    places,
                    at,
                ) == if offset <= at < offset + data.len() {
                    data[at - offset]
                } else {
                    byte_of(disk, places, at)
                },
            forall|other: PBlockId|
                elsewhere(places, other) ==> #[trigger] held(
                    disk,
                    since(self.log(), after.log()),
                )[other] == disk[other],
    {
        let range = range_of(offset, data.len() as usize);
        if data.len() == 0 {
            assert(self.log().take(self.log().len() as int) =~= self.log());
            assert(since(self.log(), after.log()) =~= Seq::<Event>::empty());
        } else {
            let (mapped, blocks) = choose|mapped: Self, blocks: Result<Seq<PBlockId>>|
                {
                    &&& #[trigger] self.blocks_mapped(
                        &mapped,
                        file,
                        range.first_lblock as int,
                        range.block_count as nat,
                        None,
                        Seq::empty(),
                        blocks,
                    )
                    &&& match blocks {
                        Err(error) => mapped.idle(after) && Ok::<usize, Ext4Error>(len) == Err::<
                            usize,
                            Ext4Error,
                        >(error),
                        Ok(homes) => mapped.homes_written(after, homes, offset, data, Ok(len)),
                    }
                };
            let homes = blocks->Ok_0;
            let (made, bytes) = choose|made: Self, bytes: Result<Seq<u8>>|
                {
                    &&& #[trigger] mapped.blocks_merged(
                        &made,
                        homes,
                        0,
                        offset,
                        data,
                        Seq::empty(),
                        bytes,
                    )
                    &&& match bytes {
                        Err(error) => made.idle(after) && Ok::<usize, Ext4Error>(len) == Err::<
                            usize,
                            Ext4Error,
                        >(error),
                        Ok(images) => made.images_written(
                            after,
                            homes,
                            images,
                            data.len() as usize,
                            Ok(len),
                        ),
                    }
                };
            let images = bytes->Ok_0;
            let reply = choose|reply: Result<()>|
                {
                    &&& #[trigger] made.stretches_written(after, homes, 0, images, reply)
                    &&& Ok::<usize, Ext4Error>(len) == match reply {
                        Ok(_) => Ok::<usize, Ext4Error>(data.len() as usize),
                        Err(error) => Err(error),
                    }
                };
            match reply {
                Ok(done) => {
                    assert(done == ());
                },
                Err(_) => {},
            }
            self.lemma_mapped_served(
                &mapped,
                file,
                range.first_lblock as int,
                range.block_count as nat,
                None,
                Seq::empty(),
                blocks,
                disk,
                places,
            );
            mapped.lemma_merged_served(
                &made,
                file,
                homes,
                0,
                offset,
                data,
                Seq::empty(),
                bytes,
                disk,
                places,
            );
            self.lemma_calls_join(&mapped, &made);
            made.lemma_stretches_extend(after, homes, 0, images, reply);
            lemma_extends(self.log(), made.log(), after.log());
            lemma_extends(mapped.log(), made.log(), after.log());
            self.lemma_served_parts(&mapped, after, disk, file, places);
            mapped.lemma_served_parts(&made, after, disk, file, places);
            assert(addressable(offset, data.len() as usize));
            lemma_pieces(offset, data.len() as usize, 0);
            assert(homes.no_duplicates()) by {
                assert forall|i: int, j: int|
                    0 <= i < homes.len() && 0 <= j < homes.len() && i != j implies homes[i]
                    != homes[j] by {
                    assert(stands(places, range.first_lblock + i - 0, homes[i]));
                    assert(stands(places, range.first_lblock + j - 0, homes[j]));
                }
            }
            made.lemma_stretches_stored(after, homes, 0, images, disk);
            let quiet = since(self.log(), made.log());
            let rest = since(made.log(), after.log());
            assert(since(self.log(), after.log()) =~= quiet + rest) by {
                assert(after.log().take(made.log().len() as int) == made.log());
            }
            lemma_held_joins(disk, quiet, rest);
            lemma_held_without_writes(disk, quiet);
            let last = held(disk, since(self.log(), after.log()));
            assert(last == held(disk, rest));
            lemma_written_bytes(disk, last, places, homes, images, offset, data);
            assert forall|other: PBlockId| elsewhere(places, other) implies #[trigger] last[other]
                == disk[other] by {
                assert forall|i: int| 0 <= i < homes.len() implies #[trigger] homes[i] != other by {
                    assert(stands(places, range.first_lblock + i - 0, homes[i]));
                }
            }
        }
    }

    /// What is read where a write to mapped blocks went is what was written, as long as the file
    /// reaches that far.
    pub proof fn lemma_read_gives_what_was_written(
        &self,
        written: &Self,
        later: &Self,
        after: &Self,
        file: InodeRef,
        offset: usize,
        data: Seq<u8>,
        len: usize,
        buf: Seq<u8>,
        buf_after: Seq<u8>,
        read: usize,
        disk: Disk,
        places: Places,
    )
        requires
            self.mapped_written(written, file, offset, data, Ok(len)),
            later.file_read(after, file, offset, buf, buf_after, Ok(read)),
            data.len() == buf.len() <= usize::MAX,
            offset + data.len() <= file.inode.byte_size() as usize,
            apart(places),
            self.sees_batch(disk),
            self.served(written, disk, file, places),
            later.sees_batch(held(disk, since(self.log(), written.log()))),
            later.served(after, held(disk, since(self.log(), written.log())), file, places),
        ensures
            read == len,
            buf_after == data,
    {
        let last = held(disk, since(self.log(), written.log()));
        self.lemma_write_changes_content(written, file, offset, data, len, disk, places);
        if data.len() > 0 {
            assert(addressable(offset, data.len() as usize));
            later.lemma_read_gives_content(
                after,
                file,
                offset,
                buf,
                buf_after,
                read,
                last,
                places,
            );
            assert(buf_after =~= data) by {
                assert forall|i: int| 0 <= i < data.len() implies #[trigger] buf_after[i]
                    == data[i] by {
                    assert(buf_after[i] == byte_of(last, places, offset + i));
                }
            }
        }
    }

    /// A write to mapped blocks leaves the attributes of the file as they were.
    pub proof fn lemma_data_alone_keeps_attributes(
        &self,
        written: &Self,
        later: &Self,
        after: &Self,
        file: InodeRef,
        offset: usize,
        data: Seq<u8>,
        len: usize,
        outcome: FileAttr,
        disk: Disk,
        places: Places,
    )
        requires
            self.mapped_written(written, file, offset, data, Ok(len)),
            data.len() <= usize::MAX,
            apart(places),
            self.sees_batch(disk),
            self.served(written, disk, file, places),
            self.inode_held(disk, file.id, file.inode@),
            self.state().inode_position(file.id) matches Some((home, _)) && elsewhere(places, home),
            later.state() == written.state(),
            later.attributes_read(after, file.id, Ok(outcome)),
            told_all(
                since(later.log(), after.log()),
                held(disk, since(self.log(), written.log())),
            ),
        ensures
            outcome == attributes_of(file),
    {
        self.lemma_write_changes_content(written, file, offset, data, len, disk, places);
        let last = held(disk, since(self.log(), written.log()));
        let (home, _) = self.state().inode_position(file.id)->0;
        assert(last[home] == disk[home]);
        assert(later.inode_held(last, file.id, file.inode@));
        let found = choose|found: Result<InodeRef>|
            {
                &&& #[trigger] later.inode_read(after, file.id, found)
                &&& Ok::<FileAttr, Ext4Error>(outcome) == match found {
                    Ok(inode) => if is_free(inode.inode) {
                        failed::<FileAttr>(ErrCode::EINVAL)
                    } else {
                        Ok(attributes_of(inode))
                    },
                    Err(error) => Err(error),
                }
            };
        later.lemma_inode_read_is_held(after, file.id, found->Ok_0, last, file.inode@);
    }

    /// A write to mapped blocks finds every block before it writes: where it does not, nothing is
    /// written.
    pub proof fn lemma_blocks_found_before_writing(
        &self,
        after: &Self,
        file: InodeRef,
        offset: usize,
        data: Seq<u8>,
        outcome: Result<usize>,
        disk: Disk,
        places: Places,
        block: int,
    )
        requires
            self.mapped_written(after, file, offset, data, outcome),
            0 < data.len() <= usize::MAX,
            addressable(offset, data.len() as usize),
            self.sees_batch(disk),
            self.served(after, disk, file, places),
            range_of(offset, data.len() as usize).first_lblock <= block <= range_of(
                offset,
                data.len() as usize,
            ).last_lblock,
            !places.contains_key(block),
        ensures
            outcome is Err,
            self.only_asked(after),
    {
        let range = range_of(offset, data.len() as usize);
        assert(self.log().take(self.log().len() as int) =~= self.log());
        if file.inode.kind() == FileType::RegularFile {
            let (mapped, blocks) = choose|mapped: Self, blocks: Result<Seq<PBlockId>>|
                {
                    &&& #[trigger] self.blocks_mapped(
                        &mapped,
                        file,
                        range.first_lblock as int,
                        range.block_count as nat,
                        None,
                        Seq::empty(),
                        blocks,
                    )
                    &&& match blocks {
                        Err(error) => mapped.idle(after) && outcome == Err::<usize, Ext4Error>(
                            error,
                        ),
                        Ok(homes) => mapped.homes_written(after, homes, offset, data, outcome),
                    }
                };
            self.lemma_mapped_served(
                &mapped,
                file,
                range.first_lblock as int,
                range.block_count as nat,
                None,
                Seq::empty(),
                blocks,
                disk,
                places,
            );
            if let Ok(homes) = blocks {
                mapped.lemma_homes_extend(after, homes, offset, data, outcome);
                self.lemma_served_parts(&mapped, after, disk, file, places);
                assert(stands(
                    places,
                    range.first_lblock + (block - range.first_lblock) - 0,
                    homes[block - range.first_lblock],
                ));
            }
        }
    }

    /// Writing to blocks that were found makes calls.
    pub(crate) proof fn lemma_homes_extend(
        &self,
        after: &Self,
        homes: Seq<PBlockId>,
        offset: usize,
        data: Seq<u8>,
        outcome: Result<usize>,
    )
        requires
            self.homes_written(after, homes, offset, data, outcome),
        ensures
            after.state() == self.state(),
            extends(self.log(), after.log()),
    {
        let (made, bytes) = choose|made: Self, bytes: Result<Seq<u8>>|
            {
                &&& #[trigger] self.blocks_merged(
                    &made,
                    homes,
                    0,
                    offset,
                    data,
                    Seq::empty(),
                    bytes,
                )
                &&& match bytes {
                    Err(error) => made.idle(after) && outcome == Err::<usize, Ext4Error>(error),
                    Ok(images) => made.images_written(
                        after,
                        homes,
                        images,
                        data.len() as usize,
                        outcome,
                    ),
                }
            };
        let file = arbitrary();
        self.lemma_merged_served(
            &made,
            file,
            homes,
            0,
            offset,
            data,
            Seq::empty(),
            bytes,
            Map::empty(),
            Map::empty(),
        );
        if let Ok(images) = bytes {
            let reply = choose|reply: Result<()>|
                {
                    &&& #[trigger] made.stretches_written(after, homes, 0, images, reply)
                    &&& outcome == match reply {
                        Ok(_) => Ok::<usize, Ext4Error>(data.len() as usize),
                        Err(error) => Err(error),
                    }
                };
            made.lemma_stretches_extend(after, homes, 0, images, reply);
            lemma_extends(self.log(), made.log(), after.log());
        }
    }

    /// Writing blocks in stretches makes calls.
    pub(crate) proof fn lemma_stretches_extend(
        &self,
        after: &Self,
        blocks: Seq<PBlockId>,
        at: int,
        bytes: Seq<u8>,
        outcome: Result<()>,
    )
        requires
            self.stretches_written(after, blocks, at, bytes, outcome),
        ensures
            after.state() == self.state(),
            extends(self.log(), after.log()),
        decreases blocks.len() - at,
    {
        let end = stretch_end(blocks, at);
        assert(self.log().take(self.log().len() as int) =~= self.log());
        if 0 <= at < end <= blocks.len() {
            let (written, reply) = choose|written: Self, reply: Result<()>|
                {
                    &&& #[trigger] self.did(
                        &written,
                        Event::WriteBlocks {
                            start: blocks[at],
                            data: bytes.subrange(at * BLOCK_SIZE, end * BLOCK_SIZE),
                            reply,
                        },
                    )
                    &&& match reply {
                        Ok(_) => written.stretches_written(after, blocks, end, bytes, outcome),
                        Err(error) => written.idle(after) && outcome == Err::<(), Ext4Error>(
                            error,
                        ),
                    }
                };
            assert(written.log().take(self.log().len() as int) =~= self.log());
            if reply is Ok {
                written.lemma_stretches_extend(after, blocks, end, bytes, outcome);
            } else {
                assert(written.log().take(written.log().len() as int) =~= written.log());
            }
            lemma_extends(self.log(), written.log(), after.log());
        }
    }
}

/// A record that continues a continued record continues it.
pub(crate) proof fn lemma_extends(first: Seq<Event>, second: Seq<Event>, third: Seq<Event>)
    requires
        extends(first, second),
        extends(second, third),
    ensures
        extends(first, third),
{
    assert(third.take(first.len() as int) =~= third.take(second.len() as int).take(
        first.len() as int,
    ));
}

/// A file whose touched blocks hold the bytes of a write over what they held holds the bytes of
/// the write, and elsewhere what it held.
proof fn lemma_written_bytes(
    disk: Disk,
    last: Disk,
    places: Places,
    homes: Seq<PBlockId>,
    images: Seq<u8>,
    offset: usize,
    data: Seq<u8>,
)
    requires
        0 < data.len() <= usize::MAX,
        addressable(offset, data.len() as usize),
        homes.len() == range_of(offset, data.len() as usize).block_count,
        follows(homes, Seq::empty(), offset as int / BLOCK_SIZE as int, places),
        apart(places),
        images.len() == homes.len() * BLOCK_SIZE,
        forall|i: int|
            0 <= i < images.len() ==> #[trigger] images[i] == byte_written(
                disk,
                homes[i / BLOCK_SIZE as int],
                offset,
                data,
                base_of(offset) + i,
            ),
        written_from(disk, last, homes, 0, images),
    ensures
        forall|at: int|
            0 <= at ==> #[trigger] byte_of(last, places, at) == if offset <= at < offset
                + data.len() {
                data[at - offset]
            } else {
                byte_of(disk, places, at)
            },
{
    let first = offset as int / BLOCK_SIZE as int;
    lemma_pieces(offset, data.len() as usize, 0);
    assert forall|at: int| 0 <= at implies #[trigger] byte_of(last, places, at) == if offset
        <= at < offset + data.len() {
        data[at - offset]
    } else {
        byte_of(disk, places, at)
    } by {
        let block = at / BLOCK_SIZE as int;
        let k = at % BLOCK_SIZE as int;
        let j = block - first;
        if 0 <= j < homes.len() {
            assert(stands(places, first + j - 0, homes[j]));
            assert(last[homes[j]] == images.subrange(j * BLOCK_SIZE, (j + 1) * BLOCK_SIZE));
            let i = j * BLOCK_SIZE + k;
            assert(images[i] == byte_written(
                disk,
                homes[i / BLOCK_SIZE as int],
                offset,
                data,
                base_of(offset) + i,
            ));
            assert(i / BLOCK_SIZE as int == j);
            assert(base_of(offset) + i == at);
            assert(last[homes[j]][k] == images[i]);
        } else {
            assert(!(offset <= at < offset + data.len()));
            if places.contains_key(block) {
                assert forall|n: int| 0 <= n < homes.len() implies #[trigger] homes[n]
                    != places[block] by {
                    assert(stands(places, first + n - 0, homes[n]));
                }
                assert(last[places[block]] == disk[places[block]]);
            }
        }
    }
}

/// Where the blocks of a write stand.
pub open spec fn homes_of(places: Places, offset: usize, count: int) -> Seq<PBlockId> {
    Seq::new(count as nat, |j: int| places[offset as int / BLOCK_SIZE as int + j])
}

/// A block of a write, with its bytes over what the block held.
pub open spec fn image_of(
    disk: Disk,
    home: PBlockId,
    offset: usize,
    data: Seq<u8>,
    index: int,
) -> Seq<u8> {
    Seq::new(
        BLOCK_SIZE as nat,
        |k: int| byte_written(disk, home, offset, data, base_of(offset) + index * BLOCK_SIZE + k),
    )
}

/// The blocks of a write, with its bytes over what the blocks held.
pub open spec fn images_of(
    disk: Disk,
    homes: Seq<PBlockId>,
    offset: usize,
    data: Seq<u8>,
) -> Seq<u8> {
    Seq::new(
        homes.len() * BLOCK_SIZE as nat,
        |i: int|
            byte_written(
                disk,
                homes[i / BLOCK_SIZE as int],
                offset,
                data,
                base_of(offset) + i,
            ),
    )
}

impl<D: BlockDevice, V: Volume<D>> Ext4<D, V> {
    /// Writing a block of a write makes calls, and stores the block with the bytes of the write
    /// over what it held.
    proof fn lemma_block_overwritten(
        &self,
        after: &Self,
        file: InodeRef,
        offset: usize,
        data: Seq<u8>,
        index: int,
        outcome: Result<()>,
        disk: Disk,
        places: Places,
        device: Disk,
    )
        requires
            self.block_overwritten(after, file, offset, data, index, outcome),
            0 < data.len() <= usize::MAX,
            addressable(offset, data.len() as usize),
            0 <= index < range_of(offset, data.len() as usize).block_count,
        ensures
            after.state() == self.state(),
            extends(self.log(), after.log()),
            self.sees_batch(disk) && self.served(after, disk, file, places) && outcome is Ok ==> {
                let block = offset as int / BLOCK_SIZE as int + index;
                &&& places.contains_key(block)
                &&& held(device, since(self.log(), after.log())) == device.insert(
                    places[block],
                    image_of(disk, places[block], offset, data, index),
                )
            },
    {
        lemma_pieces(offset, data.len() as usize, index);
        let block = offset as int / BLOCK_SIZE as int + index;
        assert(block as u32 == block);
        let (queried, found) = choose|queried: Self, found: Result<PBlockId>|
            {
                &&& #[trigger] self.block_located(&queried, file, block as u32, found)
                &&& match found {
                    Ok(home) => queried.home_overwritten(
                        after,
                        home,
                        offset,
                        data,
                        index,
                        outcome,
                    ),
                    Err(error) => queried.idle(after) && outcome == Err::<(), Ext4Error>(error),
                }
            };
        self.lemma_located_served(&queried, file, block as u32, found, disk, places);
        assert(queried.log().take(queried.log().len() as int) =~= queried.log());
        if let Ok(home) = found {
            let (read, reply) = choose|read: Self, reply: Result<Block>|
                {
                    &&& #[trigger] queried.block_read(&read, home, reply)
                    &&& match reply {
                        Ok(block) => read.did(
                            after,
                            Event::WriteBlock {
                                id: block.id,
                                data: merged(block.data@, offset, data, index),
                                reply: outcome,
                            },
                        ),
                        Err(error) => read.idle(after) && outcome == Err::<(), Ext4Error>(error),
                    }
                };
            queried.lemma_block_served(&read, home, reply, disk, file, places);
            self.lemma_calls_join(&queried, &read);
            assert(read.log().take(read.log().len() as int) =~= read.log());
            assert(after.log().take(read.log().len() as int) =~= read.log());
            lemma_extends(self.log(), read.log(), after.log());
            lemma_extends(queried.log(), read.log(), after.log());
            if self.sees_batch(disk) && self.served(after, disk, file, places) && outcome is Ok {
                self.lemma_served_parts(&queried, after, disk, file, places);
                queried.lemma_served_parts(&read, after, disk, file, places);
                let held_block = reply->Ok_0;
                let image = merged(held_block.data@, offset, data, index);
                let call = Event::WriteBlock { id: held_block.id, data: image, reply: outcome };
                let quiet = since(self.log(), read.log());
                let calls = since(self.log(), after.log());
                assert(calls =~= quiet + seq![call]);
                lemma_held_joins(device, quiet, seq![call]);
                lemma_held_without_writes(device, quiet);
                assert(seq![call].skip(1) =~= Seq::<Event>::empty());
                match outcome {
                    Ok(done) => {
                        assert(done == ());
                    },
                    Err(_) => {},
                }
                reveal_with_fuel(held, 3);
                assert(held(device, seq![call]) == stored(device, call));
                assert(held(device, calls) == device.insert(places[block], image));
                lemma_merged_bytes(held_block.data@, offset, data, index, 0);
                assert forall|k: int| 0 <= k < BLOCK_SIZE implies #[trigger] image[k]
                    == byte_written(
                    disk,
                    places[block],
                    offset,
                    data,
                    base_of(offset) + index * BLOCK_SIZE + k,
                ) by {
                    lemma_merged_bytes(held_block.data@, offset, data, index, k);
                    let at = base_of(offset) + index * BLOCK_SIZE + k;
                    assert(at % BLOCK_SIZE as int == k);
                }
                assert(image =~= image_of(disk, places[block], offset, data, index));
            }
        }
    }

    /// Writing the blocks of a write makes calls.
    proof fn lemma_overwrites_extend(
        &self,
        after: &Self,
        file: InodeRef,
        offset: usize,
        data: Seq<u8>,
        index: int,
        count: int,
        outcome: Result<()>,
    )
        requires
            self.blocks_overwritten(after, file, offset, data, index, count, outcome),
            0 < data.len() <= usize::MAX,
            addressable(offset, data.len() as usize),
            0 <= index,
            count == range_of(offset, data.len() as usize).block_count,
        ensures
            after.state() == self.state(),
            extends(self.log(), after.log()),
        decreases count - index,
    {
        assert(self.log().take(self.log().len() as int) =~= self.log());
        if index < count {
            let (written, reply) = choose|written: Self, reply: Result<()>|
                {
                    &&& #[trigger] self.block_overwritten(
                        &written,
                        file,
                        offset,
                        data,
                        index,
                        reply,
                    )
                    &&& match reply {
                        Ok(_) => written.blocks_overwritten(
                            after,
                            file,
                            offset,
                            data,
                            index + 1,
                            count,
                            outcome,
                        ),
                        Err(error) => written.idle(after) && outcome == Err::<(), Ext4Error>(
                            error,
                        ),
                    }
                };
            self.lemma_block_overwritten(
                &written,
                file,
                offset,
                data,
                index,
                reply,
                Map::empty(),
                Map::empty(),
                Map::empty(),
            );
            if reply is Ok {
                written.lemma_overwrites_extend(
                    after,
                    file,
                    offset,
                    data,
                    index + 1,
                    count,
                    outcome,
                );
            } else {
                assert(written.log().take(written.log().len() as int) =~= written.log());
            }
            lemma_extends(self.log(), written.log(), after.log());
        }
    }

    /// Writing the blocks of a write stores each with the bytes of the write over what it held.
    proof fn lemma_overwrites_stored(
        &self,
        after: &Self,
        file: InodeRef,
        offset: usize,
        data: Seq<u8>,
        index: int,
        count: int,
        disk: Disk,
        places: Places,
        device: Disk,
    )
        requires
            self.blocks_overwritten(after, file, offset, data, index, count, Ok(())),
            0 < data.len() <= usize::MAX,
            addressable(offset, data.len() as usize),
            0 <= index <= count,
            count == range_of(offset, data.len() as usize).block_count,
            apart(places),
            self.sees_batch(disk),
            self.served(after, disk, file, places),
        ensures
            forall|j: int|
                index <= j < count ==> #[trigger] stands(
                    places,
                    offset as int / BLOCK_SIZE as int + j,
                    homes_of(places, offset, count)[j],
                ),
            written_from(
                device,
                held(device, since(self.log(), after.log())),
                homes_of(places, offset, count),
                index,
                images_of(disk, homes_of(places, offset, count), offset, data),
            ),
        decreases count - index,
    {
        let homes = homes_of(places, offset, count);
        let images = images_of(disk, homes, offset, data);
        let calls = since(self.log(), after.log());
        let first = offset as int / BLOCK_SIZE as int;
        if index >= count {
            assert(calls =~= Seq::<Event>::empty());
        } else {
            let (written, reply) = choose|written: Self, reply: Result<()>|
                {
                    &&& #[trigger] self.block_overwritten(
                        &written,
                        file,
                        offset,
                        data,
                        index,
                        reply,
                    )
                    &&& match reply {
                        Ok(_) => written.blocks_overwritten(
                            after,
                            file,
                            offset,
                            data,
                            index + 1,
                            count,
                            Ok(()),
                        ),
                        Err(error) => written.idle(after) && Ok::<(), Ext4Error>(()) == Err::<
                            (),
                            Ext4Error,
                        >(error),
                    }
                };
            self.lemma_block_overwritten(
                &written,
                file,
                offset,
                data,
                index,
                reply,
                disk,
                places,
                device,
            );
            written.lemma_overwrites_extend(after, file, offset, data, index + 1, count, Ok(()));
            self.lemma_served_parts(&written, after, disk, file, places);
            let done = since(self.log(), written.log());
            let rest = since(written.log(), after.log());
            assert(calls =~= done + rest) by {
                assert(after.log().take(written.log().len() as int) == written.log());
            }
            lemma_held_joins(device, done, rest);
            let middle = held(device, done);
            let last = held(middle, rest);
            written.lemma_overwrites_stored(
                after,
                file,
                offset,
                data,
                index + 1,
                count,
                disk,
                places,
                middle,
            );
            assert(homes[index] == places[first + index]);
            assert(stands(places, first + index, homes[index]));
            assert(image_of(disk, homes[index], offset, data, index) =~= images.subrange(
                index * BLOCK_SIZE,
                (index + 1) * BLOCK_SIZE,
            )) by {
                assert forall|k: int| 0 <= k < BLOCK_SIZE implies image_of(
                    disk,
                    homes[index],
                    offset,
                    data,
                    index,
                )[k] == #[trigger] images.subrange(
                    index * BLOCK_SIZE,
                    (index + 1) * BLOCK_SIZE,
                )[k] by {
                    assert((index * BLOCK_SIZE + k) / BLOCK_SIZE as int == index);
                }
            }
            assert forall|j: int| index <= j < count implies last[#[trigger] homes[j]]
                == images.subrange(j * BLOCK_SIZE, (j + 1) * BLOCK_SIZE) by {
                if j == index {
                    assert forall|n: int| index + 1 <= n < homes.len() implies #[trigger] homes[n]
                        != homes[index] by {
                        assert(stands(places, first + n, homes[n]));
                    }
                    assert(last[homes[index]] == middle[homes[index]]);
                }
            }
            assert forall|id: PBlockId|
                (forall|j: int| index <= j < homes.len() ==> #[trigger] homes[j]
                    != id) implies #[trigger] last[id] == device[id] by {
                assert(homes[index] != id);
                assert(last[id] == middle[id]);
            }
        }
    }

    /// Writing the blocks of a write changes the bytes that the write has, and no others.
    pub proof fn lemma_overwrite_changes_content(
        &self,
        after: &Self,
        file: InodeRef,
        offset: usize,
        data: Seq<u8>,
        disk: Disk,
        places: Places,
    )
        requires
            self.blocks_overwritten(
                after,
                file,
                offset,
                data,
                0,
                range_of(offset, data.len() as usize).block_count as int,
                Ok(()),
            ),
            0 < data.len() <= usize::MAX,
            addressable(offset, data.len() as usize),
            apart(places),
            self.sees_batch(disk),
            self.served(after, disk, file, places),
        ensures
            forall|at: int|
                0 <= at ==> #[trigger] byte_of(
                    held(disk, since(self.log(), after.log())),
                    places,
                    at,
                ) == if offset <= at < offset + data.len() {
                    data[at - offset]
                } else {
                    byte_of(disk, places, at)
                },
    {
        let count = range_of(offset, data.len() as usize).block_count as int;
        let homes = homes_of(places, offset, count);
        let first = offset as int / BLOCK_SIZE as int;
        lemma_pieces(offset, data.len() as usize, 0);
        self.lemma_overwrites_stored(after, file, offset, data, 0, count, disk, places, disk);
        assert(follows(homes, Seq::empty(), first, places)) by {
            assert forall|i: int| 0 <= i < homes.len() implies stands(
                places,
                first + i - 0,
                #[trigger] homes[i],
            ) by {
                assert(stands(places, first + i, homes_of(places, offset, count)[i]));
            }
        }
        lemma_written_bytes(
            disk,
            held(disk, since(self.log(), after.log())),
            places,
            homes,
            images_of(disk, homes, offset, data),
            offset,
            data,
        );
    }
}

impl<D: BlockDevice, V: Volume<D>> Ext4<D, V> {
    /// Whether a device holds an inode, and no image of it waits for a commit.
    pub open spec fn inode_held(&self, disk: Disk, id: InodeId, raw: Seq<u8>) -> bool {
        match self.state().inode_position(id) {
            Some((home, at)) => {
                &&& !holds_home(self.state().batch(), home)
                &&& at + SB_GOOD_INODE_SIZE <= BLOCK_SIZE
                &&& raw == disk[home].subrange(at, at + SB_GOOD_INODE_SIZE)
            },
            None => false,
        }
    }

    /// Reading an inode gives what the device holds.
    pub(crate) proof fn lemma_inode_read_is_held(
        &self,
        after: &Self,
        id: InodeId,
        found: InodeRef,
        disk: Disk,
        raw: Seq<u8>,
    )
        requires
            self.inode_read(after, id, Ok(found)),
            told_all(since(self.log(), after.log()), disk),
            self.inode_held(disk, id, raw),
        ensures
            after.state() == self.state(),
            extends(self.log(), after.log()),
            forall|k: int|
                self.log().len() <= k < after.log().len() ==> !writes(#[trigger] after.log()[k]),
            found.id == id,
            found.inode@ == raw,
    {
        let (home, at) = self.state().inode_position(id)->0;
        let reply = choose|reply: Result<Block>|
            {
                &&& #[trigger] self.block_read(after, home, reply)
                &&& inode_found(bytes_read(reply), at, id, Ok(found))
            };
        assert(after.log().take(self.log().len() as int) =~= self.log());
        assert(since(self.log(), after.log())[0] == Event::ReadBlock { id: home, reply });
    }

    /// Writing an inode stores it with its checksum.
    pub(crate) proof fn lemma_inode_written_is_held(
        &self,
        after: &Self,
        inode: InodeRef,
        sealed: InodeRef,
        disk: Disk,
        raw: Seq<u8>,
    )
        requires
            self.inode_written(after, inode, sealed, Ok(())),
            told_all(since(self.log(), after.log()), disk),
            self.inode_held(disk, inode.id, raw),
        ensures
            after.state() == self.state(),
            extends(self.log(), after.log()),
            after.inode_held(
                held(disk, since(self.log(), after.log())),
                inode.id,
                sealed_inode(inode.inode@, inode.id, self.state().superblock),
            ),
            self.state().inode_position(inode.id) matches Some((home, _)) ==> forall|
                other: PBlockId,
            |
                other != home ==> #[trigger] held(disk, since(self.log(), after.log()))[other]
                    == disk[other],
    {
        let (home, at) = self.state().inode_position(inode.id)->0;
        let (read, reply) = choose|read: Self, reply: Result<Block>|
            {
                &&& #[trigger] self.block_read(&read, home, reply)
                &&& match reply {
                    Ok(block) => read.did(
                        after,
                        Event::WriteBlock {
                            id: block.id,
                            data: splice(block.data@, at, sealed.inode@),
                            reply: Ok(()),
                        },
                    ),
                    Err(error) => read.idle(after) && Ok::<(), Ext4Error>(()) == Err::<
                        (),
                        Ext4Error,
                    >(error),
                }
            };
        let block = reply->Ok_0;
        let calls = since(self.log(), after.log());
        let first = Event::ReadBlock { id: home, reply };
        let second = Event::WriteBlock {
            id: block.id,
            data: splice(block.data@, at, sealed.inode@),
            reply: Ok(()),
        };
        assert(calls =~= seq![first, second]);
        assert(told(calls[0], disk));
        assert(after.log().take(self.log().len() as int) =~= self.log());
        reveal_with_fuel(held, 3);
        assert(calls.skip(1) =~= seq![second]);
        assert(calls.skip(1).skip(1) =~= Seq::<Event>::empty());
        assert(held(disk, calls) == disk.insert(home, second->WriteBlock_data));
        assert(second->WriteBlock_data.subrange(at, at + SB_GOOD_INODE_SIZE)
            =~= sealed.inode@);
    }
}

impl<D: BlockDevice, V: Volume<D>> Ext4<D, V> {
    /// Clearing the last block of a file that shrinks makes the bytes behind its end zero, and
    /// changes no others.
    pub proof fn lemma_end_reads_as_zero(
        &self,
        after: &Self,
        file: InodeRef,
        cut: Cut,
        disk: Disk,
        places: Places,
    )
        requires
            self.end_cleared(after, file, cut, Ok(())),
            cut.rest() != 0,
            apart(places),
            self.sees_batch(disk),
            self.served(after, disk, file, places),
        ensures
            forall|at: int|
                0 <= at ==> #[trigger] byte_of(
                    held(disk, since(self.log(), after.log())),
                    places,
                    at,
                ) == if cut.new_size <= at < cut.kept() * BLOCK_SIZE {
                    0
                } else {
                    byte_of(disk, places, at)
                },
    {
        let last = cut.new_size as int / BLOCK_SIZE as int;
        let rest = cut.rest();
        assert(cut.new_size == last * BLOCK_SIZE + rest);
        assert(cut.kept() == last + 1);
        let (queried, found) = choose|queried: Self, found: Result<PBlockId>|
            {
                &&& #[trigger] self.block_located(&queried, file, last as u32, found)
                &&& match found {
                    Ok(home) => queried.rest_cleared(after, home, rest, Ok(())),
                    Err(error) => {
                        &&& queried.idle(after)
                        &&& Ok::<(), Ext4Error>(()) == if error.code == ErrCode::ENOENT {
                            Ok::<(), Ext4Error>(())
                        } else {
                            Err(error)
                        }
                    },
                }
            };
        self.lemma_located_served(&queried, file, last as u32, found, disk, places);
        let calls = since(self.log(), after.log());
        match found {
            Ok(home) => {
                let (read, reply) = choose|read: Self, reply: Result<Block>|
                    {
                        &&& #[trigger] queried.block_read(&read, home, reply)
                        &&& match reply {
                            Ok(block) => read.did(
                                after,
                                Event::WriteBlock {
                                    id: block.id,
                                    data: splice(
                                        block.data@,
                                        rest,
                                        zeros((BLOCK_SIZE - rest) as nat),
                                    ),
                                    reply: Ok(()),
                                },
                            ),
                            Err(error) => read.idle(after) && Ok::<(), Ext4Error>(()) == Err::<
                                (),
                                Ext4Error,
                            >(error),
                        }
                    };
                queried.lemma_block_served(&read, home, reply, disk, file, places);
                self.lemma_calls_join(&queried, &read);
                assert(after.log().take(read.log().len() as int) =~= read.log());
                lemma_extends(queried.log(), read.log(), after.log());
                self.lemma_served_parts(&queried, after, disk, file, places);
                queried.lemma_served_parts(&read, after, disk, file, places);
                let block = reply->Ok_0;
                let image = splice(block.data@, rest, zeros((BLOCK_SIZE - rest) as nat));
                let call = Event::WriteBlock { id: block.id, data: image, reply: Ok(()) };
                let quiet = since(self.log(), read.log());
                assert(calls =~= quiet + seq![call]);
                lemma_held_joins(disk, quiet, seq![call]);
                lemma_held_without_writes(disk, quiet);
                reveal_with_fuel(held, 3);
                assert(seq![call].skip(1) =~= Seq::<Event>::empty());
                assert(held(disk, calls) == disk.insert(home, image));
                assert forall|at: int| 0 <= at implies #[trigger] byte_of(
                    held(disk, calls),
                    places,
                    at,
                ) == if cut.new_size <= at < cut.kept() * BLOCK_SIZE {
                    0
                } else {
                    byte_of(disk, places, at)
                } by {
                    let number = at / BLOCK_SIZE as int;
                    if number == last {
                        assert(at % BLOCK_SIZE as int == at - last * BLOCK_SIZE);
                    } else if places.contains_key(number) {
                        assert(places[number] != places[last]);
                    }
                }
            },
            Err(_) => {
                lemma_held_without_writes(disk, calls);
                assert forall|at: int| 0 <= at implies #[trigger] byte_of(
                    held(disk, calls),
                    places,
                    at,
                ) == if cut.new_size <= at < cut.kept() * BLOCK_SIZE {
                    0
                } else {
                    byte_of(disk, places, at)
                } by {
                    if cut.new_size <= at < cut.kept() * BLOCK_SIZE {
                        assert(at / BLOCK_SIZE as int == last);
                    }
                }
            },
        }
    }
}

/// How many bytes a read at `offset` of a file of `size` bytes gives.
pub open spec fn read_len(offset: usize, len: nat, size: u64) -> int {
    if len == 0 || offset >= size as usize {
        0
    } else {
        least(len as int, size as usize - offset)
    }
}

/// The size of a file of `size` bytes once it reaches to `end`.
pub open spec fn size_with(size: u64, end: int) -> u64 {
    if end > size as usize {
        end as u64
    } else {
        size
    }
}

/// Whether a read at `from` of a file of `size` bytes gives the data that was written at `offset`,
/// and elsewhere what the file held before.
pub open spec fn shows(
    buf: Seq<u8>,
    buf_after: Seq<u8>,
    read: usize,
    from: usize,
    size: u64,
    offset: usize,
    data: Seq<u8>,
    disk: Disk,
    places: Places,
) -> bool {
    &&& read == read_len(from, buf.len(), size)
    &&& buf_after.len() == buf.len()
    &&& forall|i: int|
        0 <= i < read ==> #[trigger] buf_after[i] == if offset <= from + i < offset + data.len() {
            data[from + i - offset]
        } else {
            byte_of(disk, places, from + i)
        }
    &&& forall|i: int| read <= i < buf.len() ==> #[trigger] buf_after[i] == buf[i]
}

impl<D: BlockDevice, V: Volume<D>> Ext4<D, V> {
    /// Whether no block of a file stands where an inode does.
    pub open spec fn inode_apart(&self, id: InodeId, places: Places) -> bool {
        self.state().inode_position(id) matches Some((home, _)) ==> forall|block: int|
            #[trigger] places.contains_key(block) ==> places[block] != home
    }

    /// Whether the calls between two states are answered by what a device holds, and by where the
    /// blocks of the file of an inode stand.
    pub open spec fn told_of(
        &self,
        after: &Self,
        disk: Disk,
        id: InodeId,
        raw: Seq<u8>,
        places: Places,
    ) -> bool {
        &&& self.sees_batch(disk)
        &&& told_all(since(self.log(), after.log()), disk)
        &&& forall|file: InodeRef|
            file.id == id && file.inode@ == raw ==> #[trigger] self.served(
                after,
                disk,
                file,
                places,
            )
    }

    /// Reading from an inode makes calls alone.
    proof fn lemma_file_read_calls(
        &self,
        after: &Self,
        file: InodeRef,
        offset: usize,
        buf: Seq<u8>,
        buf_after: Seq<u8>,
        len: usize,
    )
        requires
            self.file_read(after, file, offset, buf, buf_after, Ok(len)),
        ensures
            self.only_asked(after),
    {
        assert(self.log().take(self.log().len() as int) =~= self.log());
        let size = file.inode.byte_size() as usize;
        if !(buf.len() == 0 || offset >= size) {
            let want = least(buf.len() as int, size - offset);
            let skew = offset as int % BLOCK_SIZE as int;
            let first = (offset as int / BLOCK_SIZE as int) as u32;
            if skew == 0 {
                self.lemma_fetched_calls(
                    after,
                    file,
                    first as int,
                    None,
                    0,
                    want,
                    buf,
                    buf_after,
                    Ok(len),
                );
            } else {
                let (read, head) = choose|read: Self, head: Result<Seq<u8>>|
                    {
                        &&& #[trigger] self.head_read(&read, file, offset, want, head)
                        &&& match head {
                            Err(error) => {
                                &&& read.idle(after)
                                &&& buf_after == buf
                                &&& Ok::<usize, Ext4Error>(len) == Err::<usize, Ext4Error>(error)
                            },
                            Ok(bytes) => read.fetched(
                                after,
                                file,
                                first + 1,
                                None,
                                bytes.len() as int,
                                want,
                                splice(buf, 0, bytes),
                                buf_after,
                                Ok(len),
                            ),
                        }
                    };
                self.lemma_piece_served(
                    &read,
                    file,
                    first,
                    skew,
                    least(BLOCK_SIZE - skew, want),
                    head,
                    Map::empty(),
                    Map::empty(),
                );
                let bytes = head->Ok_0;
                read.lemma_fetched_calls(
                    after,
                    file,
                    first + 1,
                    None,
                    bytes.len() as int,
                    want,
                    splice(buf, 0, bytes),
                    buf_after,
                    Ok(len),
                );
                self.lemma_calls_join(&read, after);
            }
        }
    }
}

impl<D: BlockDevice, V: Volume<D>> Ext4<D, V> {
    /// Whether a write stored its data in a file that has the blocks for it, and everything that a
    /// later read of the file needs is in place: the device answers with what it holds, no block
    /// of the file stands where another or the inode does, and the layers lead to the blocks.
    pub open spec fn write_in_place(
        &self,
        written: &Self,
        later: &Self,
        after: &Self,
        file: InodeRef,
        end: int,
        disk: Disk,
        places: Places,
    ) -> bool {
        &&& file.inode.kind() == FileType::RegularFile
        &&& apart(places)
        &&& self.inode_apart(file.id, places)
        &&& exists|raw: Seq<u8>| #[trigger] self.inode_held(disk, file.id, raw)
        &&& self.sees_batch(disk)
        &&& self.served(written, disk, file, places)
        &&& later.state() == written.state()
        &&& later.told_of(
            after,
            held(disk, since(self.log(), written.log())),
            file.id,
            sealed_inode(
                grown_to(file.inode@, file.inode.byte_size(), end),
                file.id,
                self.state().superblock,
            ),
            places,
        )
    }

    /// Writing to blocks that a file has stores the data and the inode.
    proof fn lemma_content_stored(
        &self,
        written: &Self,
        file: InodeRef,
        offset: usize,
        data: Seq<u8>,
        len: usize,
        disk: Disk,
        places: Places,
        raw: Seq<u8>,
    ) -> (grown: InodeRef)
        requires
            self.content_written(written, file, offset, data, Ok(len)),
            0 < data.len() <= usize::MAX,
            addressable(offset, data.len() as usize),
            apart(places),
            self.inode_apart(file.id, places),
            self.inode_held(disk, file.id, raw),
            self.sees_batch(disk),
            self.served(written, disk, file, places),
        ensures
            len == data.len(),
            written.state() == self.state(),
            grown.id == file.id,
            grown.inode@ == grown_to(file.inode@, file.inode.byte_size(), offset + data.len()),
            written.inode_held(
                held(disk, since(self.log(), written.log())),
                file.id,
                sealed_inode(grown.inode@, file.id, self.state().superblock),
            ),
            forall|at: int|
                0 <= at ==> #[trigger] byte_of(
                    held(disk, since(self.log(), written.log())),
                    places,
                    at,
                ) == if offset <= at < offset + data.len() {
                    data[at - offset]
                } else {
                    byte_of(disk, places, at)
                },
    {
        let count = range_of(offset, data.len() as usize).block_count as int;
        let (stored, reply) = choose|stored: Self, reply: Result<()>|
            {
                &&& #[trigger] self.blocks_overwritten(
                    &stored,
                    file,
                    offset,
                    data,
                    0,
                    count,
                    reply,
                )
                &&& match reply {
                    Ok(_) => stored.size_recorded(
                        written,
                        file,
                        offset,
                        data.len() as usize,
                        Ok(len),
                    ),
                    Err(error) => stored.idle(written) && Ok::<usize, Ext4Error>(len) == Err::<
                        usize,
                        Ext4Error,
                    >(error),
                }
            };
        match reply {
            Ok(done) => {
                assert(done == ());
            },
            Err(_) => {},
        }
        let (grown, sealed, answer) = choose|grown: InodeRef, sealed: InodeRef, answer: Result<()>|
            {
                &&& #[trigger] stored.inode_written(written, grown, sealed, answer)
                &&& grown.id == file.id
                &&& grown.inode@ == grown_to(
                    file.inode@,
                    file.inode.byte_size(),
                    offset + data.len() as usize,
                )
                &&& Ok::<usize, Ext4Error>(len) == match answer {
                    Ok(_) => Ok::<usize, Ext4Error>(data.len() as usize),
                    Err(error) => Err(error),
                }
            };
        match answer {
            Ok(done) => {
                assert(done == ());
            },
            Err(_) => {},
        }
        self.lemma_overwrites_extend(&stored, file, offset, data, 0, count, Ok(()));
        let (home, at) = self.state().inode_position(file.id)->0;
        let (asked, block) = choose|asked: Self, block: Result<Block>|
            {
                &&& #[trigger] stored.block_read(&asked, home, block)
                &&& match block {
                    Ok(block) => asked.did(
                        written,
                        Event::WriteBlock {
                            id: block.id,
                            data: splice(block.data@, at, sealed.inode@),
                            reply: Ok(()),
                        },
                    ),
                    Err(error) => asked.idle(written) && Ok::<(), Ext4Error>(()) == Err::<
                        (),
                        Ext4Error,
                    >(error),
                }
            };
        assert(written.log().take(stored.log().len() as int) =~= stored.log());
        self.lemma_served_parts(&stored, written, disk, file, places);
        self.lemma_overwrite_changes_content(&stored, file, offset, data, disk, places);
        self.lemma_overwrites_stored(
            &stored,
            file,
            offset,
            data,
            0,
            count,
            disk,
            places,
            disk,
        );
        let calls = since(self.log(), written.log());
        let first = since(self.log(), stored.log());
        let rest = since(stored.log(), written.log());
        let middle = held(disk, first);
        let homes = homes_of(places, offset, count);
        assert(calls =~= first + rest) by {
            assert(written.log().take(stored.log().len() as int) == stored.log());
        }
        lemma_held_joins(disk, first, rest);
        assert(middle[home] == disk[home]) by {
            assert forall|j: int| 0 <= j < homes.len() implies #[trigger] homes[j] != home by {
                assert(stands(places, offset as int / BLOCK_SIZE as int + j, homes[j]));
            }
        }
        assert(told_all(rest, middle)) by {
            assert forall|k: int| 0 <= k < rest.len() implies told(#[trigger] rest[k], middle) by {
                assert(stored.answered(
                    written.log()[stored.log().len() + k],
                    disk,
                    file,
                    places,
                ));
                assert(rest[k] == written.log()[stored.log().len() + k]);
            }
        }
        stored.lemma_inode_written_is_held(written, grown, sealed, middle, raw);
        let last = held(disk, calls);
        assert forall|at: int| 0 <= at implies #[trigger] byte_of(last, places, at) == if offset
            <= at < offset + data.len() {
            data[at - offset]
        } else {
            byte_of(disk, places, at)
        } by {
            assert(byte_of(last, places, at) == byte_of(middle, places, at)) by {
                let block = at / BLOCK_SIZE as int;
                if places.contains_key(block) {
                    assert(places[block] != home);
                    assert(last[places[block]] == middle[places[block]]);
                }
            }
        }
        grown
    }
}

impl<D: BlockDevice, V: Volume<D>> Ext4<D, V> {
    /// Reading the inode and the content of a file gives what the device holds.
    proof fn lemma_read_gives_held(
        &self,
        after: &Self,
        id: InodeId,
        offset: usize,
        buf: Seq<u8>,
        buf_after: Seq<u8>,
        read: usize,
        inode: InodeRef,
        raw: Seq<u8>,
        disk: Disk,
        places: Places,
    )
        requires
            self.was_read(after, id, offset, buf, buf_after, Ok(read)),
            inode.id == id,
            raw == sealed_inode(inode.inode@, id, self.state().superblock),
            self.inode_held(disk, id, raw),
            self.told_of(after, disk, id, raw, places),
            offset as int / BLOCK_SIZE as int <= u32::MAX,
            buf.len() <= usize::MAX,
        ensures
            read == read_len(offset, buf.len(), inode.inode.byte_size()),
            buf_after.len() == buf.len(),
            forall|i: int|
                0 <= i < read ==> #[trigger] buf_after[i] == byte_of(disk, places, offset + i),
            forall|i: int| read <= i < buf.len() ==> #[trigger] buf_after[i] == buf[i],
    {
        let (opened, found) = choose|opened: Self, found: Result<InodeRef>|
            {
                &&& #[trigger] self.inode_read(&opened, id, found)
                &&& match found {
                    Err(error) => {
                        &&& opened.idle(after)
                        &&& buf_after == buf
                        &&& Ok::<usize, Ext4Error>(read) == Err::<usize, Ext4Error>(error)
                    },
                    Ok(inode) => opened.file_read(
                        after,
                        inode,
                        offset,
                        buf,
                        buf_after,
                        Ok(read),
                    ),
                }
            };
        let file = found->Ok_0;
        let (home, at) = self.state().inode_position(id)->0;
        let reply = choose|reply: Result<Block>|
            {
                &&& #[trigger] self.block_read(&opened, home, reply)
                &&& inode_found(bytes_read(reply), at, id, found)
            };
        assert(opened.log().take(self.log().len() as int) =~= self.log());
        opened.lemma_file_read_calls(after, file, offset, buf, buf_after, read);
        assert(told_all(since(self.log(), opened.log()), disk)) by {
            let calls = since(self.log(), opened.log());
            assert forall|k: int| 0 <= k < calls.len() implies told(#[trigger] calls[k], disk) by {
                assert(after.log().take(opened.log().len() as int)[self.log().len() + k]
                    == after.log()[self.log().len() + k]);
                assert(calls[k] == since(self.log(), after.log())[k]);
            }
        }
        self.lemma_inode_read_is_held(&opened, id, file, disk, raw);
        lemma_checksum_keeps_inode(inode, file, self.state().superblock);
        assert(file.inode.byte_size() == attributes_of(inode).size);
        assert(self.served(after, disk, file, places));
        self.lemma_served_parts(&opened, after, disk, file, places);
        opened.lemma_read_gives_content(
            after,
            file,
            offset,
            buf,
            buf_after,
            read,
            disk,
            places,
        );
    }

    /// What is read of a file into whose blocks data went.
    proof fn lemma_content_is_read(
        &self,
        written: &Self,
        later: &Self,
        after: &Self,
        file: InodeRef,
        offset: usize,
        data: Seq<u8>,
        len: usize,
        from: usize,
        buf: Seq<u8>,
        buf_after: Seq<u8>,
        read: usize,
        disk: Disk,
        places: Places,
    )
        requires
            self.content_written(written, file, offset, data, Ok(len)),
            later.was_read(after, file.id, from, buf, buf_after, Ok(read)),
            0 < data.len() <= usize::MAX,
            buf.len() <= usize::MAX,
            from as int / BLOCK_SIZE as int <= u32::MAX,
            addressable(offset, data.len() as usize),
            self.write_in_place(written, later, after, file, offset + data.len(), disk, places),
        ensures
            len == data.len(),
            shows(
                buf,
                buf_after,
                read,
                from,
                size_with(file.inode.byte_size(), offset + data.len()),
                offset,
                data,
                disk,
                places,
            ),
    {
        let raw = choose|raw: Seq<u8>| #[trigger] self.inode_held(disk, file.id, raw);
        let grown = self.lemma_content_stored(
            written,
            file,
            offset,
            data,
            len,
            disk,
            places,
            raw,
        );
        let last = held(disk, since(self.log(), written.log()));
        lemma_write_reaches_its_end(file.inode@, offset + data.len());
        later.lemma_read_gives_held(
            after,
            file.id,
            from,
            buf,
            buf_after,
            read,
            grown,
            sealed_inode(grown.inode@, file.id, self.state().superblock),
            last,
            places,
        );
        assert forall|i: int| 0 <= i < read implies #[trigger] buf_after[i] == if offset <= from + i
            < offset + data.len() {
            data[from + i - offset]
        } else {
            byte_of(disk, places, from + i)
        } by {
            assert(buf_after[i] == byte_of(last, places, from + i));
        }
    }

    /// What is read where data went into blocks that a file has is that data.
    proof fn lemma_content_is_read_back(
        &self,
        written: &Self,
        later: &Self,
        after: &Self,
        file: InodeRef,
        offset: usize,
        data: Seq<u8>,
        len: usize,
        buf: Seq<u8>,
        buf_after: Seq<u8>,
        read: usize,
        disk: Disk,
        places: Places,
    )
        requires
            self.content_written(written, file, offset, data, Ok(len)),
            later.was_read(after, file.id, offset, buf, buf_after, Ok(read)),
            0 < data.len() == buf.len() <= usize::MAX,
            addressable(offset, data.len() as usize),
            self.write_in_place(written, later, after, file, offset + data.len(), disk, places),
        ensures
            len == data.len(),
            read == data.len(),
            buf_after == data,
    {
        self.lemma_content_is_read(
            written,
            later,
            after,
            file,
            offset,
            data,
            len,
            offset,
            buf,
            buf_after,
            read,
            disk,
            places,
        );
        assert(buf_after =~= data);
    }

    /// Whether a write found its inode and gave the file the blocks for its data, and the state
    /// and the inode that it then had.
    pub open spec fn write_readied(
        &self,
        ready: &Self,
        written: &Self,
        id: InodeId,
        file: InodeRef,
        offset: usize,
        data: Seq<u8>,
        len: usize,
    ) -> bool {
        exists|read: Self, inode: InodeRef|
            {
                &&& #[trigger] self.inode_read(&read, id, Ok(inode))
                &&& read.range_filled(
                    ready,
                    inode,
                    file,
                    range_of(offset, data.len() as usize),
                    false,
                    Ok(()),
                )
                &&& ready.content_written(written, file, offset, data, Ok(len))
            }
    }

    /// What is read where a write went is what was written.
    pub proof fn lemma_write_is_read_back(
        &self,
        written: &Self,
        later: &Self,
        after: &Self,
        id: InodeId,
        offset: usize,
        data: Seq<u8>,
        len: usize,
        buf: Seq<u8>,
        buf_after: Seq<u8>,
        read: usize,
        disk: Disk,
        places: Places,
    )
        requires
            self.file_written(written, id, offset, data, Ok(len)),
            later.was_read(after, id, offset, buf, buf_after, Ok(read)),
            data.len() == buf.len() <= usize::MAX,
            forall|ready: Self, file: InodeRef| #[trigger]
                self.write_readied(&ready, written, id, file, offset, data, len) ==> {
                    &&& file.id == id
                    &&& ready.write_in_place(
                        written,
                        later,
                        after,
                        file,
                        offset + data.len(),
                        held(disk, since(self.log(), ready.log())),
                        places,
                    )
                },
        ensures
            len == data.len(),
            read == data.len(),
            buf_after == data,
    {
        if data.len() == 0 {
            assert(buf_after =~= data);
        } else {
            let (found_at, found) = choose|found_at: Self, found: Result<InodeRef>|
                {
                    &&& #[trigger] self.inode_read(&found_at, id, found)
                    &&& match found {
                        Err(error) => found_at.idle(written) && Ok::<usize, Ext4Error>(len) == Err::<
                            usize,
                            Ext4Error,
                        >(error),
                        Ok(inode) => found_at.inode_filled(written, inode, offset, data, Ok(len)),
                    }
                };
            let inode = found->Ok_0;
            let (ready, file, reply) = choose|ready: Self, file: InodeRef, reply: Result<()>|
                {
                    &&& #[trigger] found_at.range_filled(
                        &ready,
                        inode,
                        file,
                        range_of(offset, data.len() as usize),
                        false,
                        reply,
                    )
                    &&& match reply {
                        Ok(_) => ready.content_written(written, file, offset, data, Ok(len)),
                        Err(error) => ready.idle(written) && Ok::<usize, Ext4Error>(len) == Err::<
                            usize,
                            Ext4Error,
                        >(error),
                    }
                };
            match reply {
                Ok(done) => {
                    assert(done == ());
                },
                Err(_) => {},
            }
            assert(self.write_readied(&ready, written, id, file, offset, data, len));
            ready.lemma_content_is_read_back(
                written,
                later,
                after,
                file,
                offset,
                data,
                len,
                buf,
                buf_after,
                read,
                held(disk, since(self.log(), ready.log())),
                places,
            );
        }
    }
}

impl<D: BlockDevice, V: Volume<D>> Ext4<D, V> {
    /// A file that was written to holds the data where it was written, and elsewhere what it held
    /// once it had the blocks for the write; its size is the larger one of what it was and the end
    /// of the write. `ready` and `file` are the state and the inode from then on.
    pub proof fn lemma_write_keeps_the_rest(
        &self,
        ready: &Self,
        written: &Self,
        later: &Self,
        after: &Self,
        id: InodeId,
        file: InodeRef,
        offset: usize,
        data: Seq<u8>,
        len: usize,
        from: usize,
        buf: Seq<u8>,
        buf_after: Seq<u8>,
        read: usize,
        disk: Disk,
        places: Places,
    )
        requires
            self.write_readied(ready, written, id, file, offset, data, len),
            file.id == id,
            later.was_read(after, id, from, buf, buf_after, Ok(read)),
            0 < data.len() <= usize::MAX,
            buf.len() <= usize::MAX,
            from as int / BLOCK_SIZE as int <= u32::MAX,
            addressable(offset, data.len() as usize),
            ready.write_in_place(written, later, after, file, offset + data.len(), disk, places),
        ensures
            len == data.len(),
            shows(
                buf,
                buf_after,
                read,
                from,
                size_with(file.inode.byte_size(), offset + data.len()),
                offset,
                data,
                disk,
                places,
            ),
    {
        ready.lemma_content_is_read(
            written,
            later,
            after,
            file,
            offset,
            data,
            len,
            from,
            buf,
            buf_after,
            read,
            disk,
            places,
        );
    }

    /// The query of a range and the plain query agree on a file whose blocks do not move: the
    /// range maps the block and says where it stands, and so does the plain query; where one finds
    /// nothing, so does the other.
    pub proof fn lemma_queries_agree(
        &self,
        queried: &Self,
        later: &Self,
        after: &Self,
        file: InodeRef,
        iblock: LBlockId,
        found: Result<Mapping>,
        outcome: Result<PBlockId>,
        disk: Disk,
        places: Places,
    )
        requires
            self.extent_found(queried, file, iblock, found),
            later.block_located(after, file, iblock, outcome),
            self.sees_batch(disk),
            self.served(queried, disk, file, places),
            later.sees_batch(disk),
            later.served(after, disk, file, places),
        ensures
            found matches Ok((pblock, range)) ==> {
                &&& range.maps(iblock)
                &&& pblock == range.start_pblock + (iblock - range.start_lblock)
                &&& outcome matches Ok(other) ==> other == pblock
                &&& outcome matches Err(error) ==> error.code != ErrCode::ENOENT
            },
            found matches Err(error) ==> error.code == ErrCode::ENOENT ==> outcome is Err,
            self.only_asked(queried),
            later.only_asked(after),
    {
        self.lemma_found_served(queried, file, iblock, found, disk, places);
        later.lemma_located_served(after, file, iblock, outcome, disk, places);
        let reply = choose|reply: Result<Mapping>|
            {
                &&& #[trigger] later.extent_found(after, file, iblock, reply)
                &&& outcome == match reply {
                    Ok(mapping) => Ok::<PBlockId, Ext4Error>(mapping.0),
                    Err(error) => Err(error),
                }
            };
        later.lemma_found_served(after, file, iblock, reply, disk, places);
    }
}

/// Whether an inode is a symbolic link whose target stands inside it.
pub open spec fn holds_target(raw: Seq<u8>, target: Seq<u8>) -> bool {
    &&& type_of(le16_at(raw, 0)) == FileType::SymLink
    &&& halves64(raw, 4, 108) == target.len()
    &&& target.len() <= inline_of(raw).len()
    &&& inline_of(raw).take(target.len() as int) == target
    &&& wide48(raw, 28, 116) / 8 == 0
}

impl<D: BlockDevice, V: Volume<D>> Ext4<D, V> {
    /// What is read of a symbolic link whose target stands inside it is the target, as far as there
    /// is room for it. `read` is the state once the inode was read.
    pub proof fn lemma_target_is_read(
        &self,
        read: &Self,
        after: &Self,
        link: InodeId,
        raw: Seq<u8>,
        inode: InodeRef,
        target: Seq<u8>,
        offset: usize,
        buf: Seq<u8>,
        buf_after: Seq<u8>,
        len: usize,
        disk: Disk,
    )
        requires
            self.inode_read(read, link, Ok(inode)),
            read.link_read(after, inode, offset, buf, buf_after, Ok(len)),
            self.inode_seen(disk, link, raw),
            told_all(since(self.log(), read.log()), disk),
            raw.len() == SB_GOOD_INODE_SIZE,
            holds_target(raw, target),
        ensures
            read.idle(after),
            len == if offset >= target.len() {
                0
            } else {
                least(buf.len() as int, target.len() - offset)
            },
            buf_after == splice(
                buf,
                0,
                target.subrange(
                    least(offset as int, target.len() as int),
                    least(offset as int, target.len() as int) + len,
                ),
            ),
    {
        let (home, at) = self.state().inode_position(link)->0;
        let reply = choose|reply: Result<Block>|
            {
                &&& #[trigger] self.block_read(read, home, reply)
                &&& inode_found(bytes_read(reply), at, link, Ok(inode))
            };
        if !holds_home(self.state().batch(), home) {
            assert(since(self.log(), read.log())[0] == Event::ReadBlock { id: home, reply });
        }
        assert(inode.inode@ == raw);
        if buf.len() > 0 && offset < target.len() {
            assert(inline_of(raw).subrange(offset as int, offset + len) =~= inline_of(raw).take(
                target.len() as int,
            ).subrange(offset as int, offset + len));
        } else {
            assert(splice(buf, 0, Seq::<u8>::empty()) =~= buf);
            assert(target.subrange(
                least(offset as int, target.len() as int),
                least(offset as int, target.len() as int),
            ) =~= Seq::<u8>::empty());
        }
    }
}

impl<D: BlockDevice, V: Volume<D>> Ext4<D, V> {
    /// Reading the blocks of a symbolic link one by one makes calls alone, and gives what the blocks
    /// hold.
    proof fn lemma_link_fetched_served(
        &self,
        after: &Self,
        link: InodeRef,
        iblock: int,
        cursor: int,
        size: int,
        buf: Seq<u8>,
        buf_after: Seq<u8>,
        outcome: Result<usize>,
        disk: Disk,
        places: Places,
        base: int,
    )
        requires
            self.link_fetched(after, link, iblock, cursor, size, buf, buf_after, outcome),
            0 <= iblock,
            0 <= cursor <= size <= buf.len(),
            size <= usize::MAX,
            cursor < size ==> iblock * BLOCK_SIZE == base + cursor,
        ensures
            self.only_asked(after),
            self.sees_batch(disk) && self.served(after, disk, link, places) && (forall|i: int|
                0 <= i < cursor ==> #[trigger] buf[i] == byte_of(disk, places, base + i)) ==> (
            outcome matches Ok(len) ==> {
                &&& len == size
                &&& buf_after.len() == buf.len()
                &&& forall|i: int|
                    0 <= i < size ==> #[trigger] buf_after[i] == byte_of(disk, places, base + i)
                &&& forall|i: int| size <= i < buf.len() ==> #[trigger] buf_after[i] == buf[i]
            }),
        decreases size - cursor,
    {
        let len = least(BLOCK_SIZE as int, size - cursor);
        if cursor >= size || iblock > u32::MAX {
            assert(self.log().take(self.log().len() as int) =~= self.log());
        } else {
            let (read, piece) = choose|read: Self, piece: Result<Seq<u8>>|
                {
                    &&& #[trigger] self.piece_read(&read, link, iblock as u32, 0, len, piece)
                    &&& match piece {
                        Err(error) => {
                            &&& read.idle(after)
                            &&& buf_after == buf
                            &&& outcome == Err::<usize, Ext4Error>(error)
                        },
                        Ok(bytes) => read.link_fetched(
                            after,
                            link,
                            iblock + 1,
                            cursor + len,
                            size,
                            splice(buf, cursor, bytes),
                            buf_after,
                            outcome,
                        ),
                    }
                };
            self.lemma_piece_served(&read, link, iblock as u32, 0, len, piece, disk, places);
            match piece {
                Err(_) => {
                    assert(read.log().take(read.log().len() as int) =~= read.log());
                    self.lemma_calls_join(&read, after);
                },
                Ok(bytes) => {
                    self.lemma_piece_len(&read, link, iblock as u32, 0, len, bytes);
                    read.lemma_link_fetched_served(
                        after,
                        link,
                        iblock + 1,
                        cursor + len,
                        size,
                        splice(buf, cursor, bytes),
                        buf_after,
                        outcome,
                        disk,
                        places,
                        base,
                    );
                    self.lemma_calls_join(&read, after);
                    if self.served(after, disk, link, places) {
                        self.lemma_served_parts(&read, after, disk, link, places);
                    }
                },
            }
        }
    }

    /// A piece of a block that was read is as long as was asked for.
    proof fn lemma_piece_len(
        &self,
        after: &Self,
        file: InodeRef,
        iblock: LBlockId,
        at: int,
        len: int,
        bytes: Seq<u8>,
    )
        requires
            self.piece_read(after, file, iblock, at, len, Ok(bytes)),
            0 <= at,
            0 <= len,
            at + len <= BLOCK_SIZE,
        ensures
            bytes.len() == len,
    {
    }

    /// What is read of a symbolic link whose target stands in blocks is what the blocks hold, as far
    /// as there is room for it.
    pub proof fn lemma_long_target_is_read(
        &self,
        after: &Self,
        link: InodeRef,
        offset: usize,
        buf: Seq<u8>,
        buf_after: Seq<u8>,
        len: usize,
        disk: Disk,
        places: Places,
    )
        requires
            self.link_read(after, link, offset, buf, buf_after, Ok(len)),
            link.inode.byte_size() as usize > inline_of(link.inode@).len() || link.inode.sectors()
                / 8 != 0,
            offset as int / BLOCK_SIZE as int <= u32::MAX,
            buf.len() <= usize::MAX,
            self.sees_batch(disk),
            self.served(after, disk, link, places),
        ensures
            len == if buf.len() == 0 || offset >= link.inode.byte_size() as usize {
                0
            } else {
                least(buf.len() as int, link.inode.byte_size() as usize - offset)
            },
            buf_after.len() == buf.len(),
            forall|i: int|
                0 <= i < len ==> #[trigger] buf_after[i] == byte_of(disk, places, offset + i),
            forall|i: int| len <= i < buf.len() ==> #[trigger] buf_after[i] == buf[i],
    {
        let size = link.inode.byte_size() as usize;
        if !(buf.len() == 0 || offset >= size) {
            let want = least(buf.len() as int, size - offset);
            let skew = offset as int % BLOCK_SIZE as int;
            let first = (offset as int / BLOCK_SIZE as int) as u32;
            assert(offset == first * BLOCK_SIZE + skew);
            if skew == 0 {
                self.lemma_link_fetched_served(
                    after,
                    link,
                    first as int,
                    0,
                    want,
                    buf,
                    buf_after,
                    Ok(len),
                    disk,
                    places,
                    offset as int,
                );
            } else {
                let (read, head) = choose|read: Self, head: Result<Seq<u8>>|
                    {
                        &&& #[trigger] self.head_read(&read, link, offset, want, head)
                        &&& match head {
                            Err(error) => {
                                &&& read.idle(after)
                                &&& buf_after == buf
                                &&& Ok::<usize, Ext4Error>(len) == Err::<usize, Ext4Error>(error)
                            },
                            Ok(bytes) => read.link_fetched(
                                after,
                                link,
                                first + 1,
                                bytes.len() as int,
                                want,
                                splice(buf, 0, bytes),
                                buf_after,
                                Ok(len),
                            ),
                        }
                    };
                let room = least(BLOCK_SIZE - skew, want);
                self.lemma_piece_served(&read, link, first, skew, room, head, disk, places);
                let bytes = head->Ok_0;
                self.lemma_piece_len(&read, link, first, skew, room, bytes);
                read.lemma_link_fetched_served(
                    after,
                    link,
                    first + 1,
                    bytes.len() as int,
                    want,
                    splice(buf, 0, bytes),
                    buf_after,
                    Ok(len),
                    disk,
                    places,
                    offset as int,
                );
                self.lemma_served_parts(&read, after, disk, link, places);
            }
        }
    }

    /// Reading the target of a symbolic link makes calls alone.
    proof fn lemma_link_read_asks(
        &self,
        after: &Self,
        link: InodeRef,
        offset: usize,
        buf: Seq<u8>,
        buf_after: Seq<u8>,
        len: usize,
    )
        requires
            self.link_read(after, link, offset, buf, buf_after, Ok(len)),
        ensures
            self.only_asked(after),
    {
        let size = link.inode.byte_size() as usize;
        let want = least(buf.len() as int, size - offset);
        let inside = size <= inline_of(link.inode@).len() && link.inode.sectors() / 8 == 0;
        let disk: Disk = arbitrary();
        let places: Places = arbitrary();
        if buf.len() == 0 || offset >= size || inside {
            assert(self.log().take(self.log().len() as int) =~= self.log());
        } else {
            let skew = offset as int % BLOCK_SIZE as int;
            let first = (offset as int / BLOCK_SIZE as int) as u32;
            if skew == 0 {
                self.lemma_link_fetched_served(
                    after,
                    link,
                    first as int,
                    0,
                    want,
                    buf,
                    buf_after,
                    Ok(len),
                    disk,
                    places,
                    first * BLOCK_SIZE,
                );
            } else {
                let (read, head) = choose|read: Self, head: Result<Seq<u8>>|
                    {
                        &&& #[trigger] self.head_read(&read, link, offset, want, head)
                        &&& match head {
                            Err(error) => {
                                &&& read.idle(after)
                                &&& buf_after == buf
                                &&& Ok::<usize, Ext4Error>(len) == Err::<usize, Ext4Error>(error)
                            },
                            Ok(bytes) => read.link_fetched(
                                after,
                                link,
                                first + 1,
                                bytes.len() as int,
                                want,
                                splice(buf, 0, bytes),
                                buf_after,
                                Ok(len),
                            ),
                        }
                    };
                let room = least(BLOCK_SIZE - skew, want);
                self.lemma_piece_served(&read, link, first, skew, room, head, disk, places);
                let bytes = head->Ok_0;
                self.lemma_piece_len(&read, link, first, skew, room, bytes);
                read.lemma_link_fetched_served(
                    after,
                    link,
                    first + 1,
                    bytes.len() as int,
                    want,
                    splice(buf, 0, bytes),
                    buf_after,
                    Ok(len),
                    disk,
                    places,
                    (first + 1) * BLOCK_SIZE - bytes.len(),
                );
                self.lemma_calls_join(&read, after);
            }
        }
    }

    /// What a file is asked for as the target of a symbolic link, by its number, is the target that
    /// stands inside its inode: from the offset on, as far as there is room for it.
    pub proof fn lemma_asked_target_is_read(
        &self,
        after: &Self,
        link: InodeId,
        raw: Seq<u8>,
        target: Seq<u8>,
        offset: usize,
        buf: Seq<u8>,
        buf_after: Seq<u8>,
        len: usize,
        disk: Disk,
    )
        requires
            self.target_read(after, link, offset, buf, buf_after, Ok(len)),
            self.inode_seen(disk, link, raw),
            told_all(since(self.log(), after.log()), disk),
            raw.len() == SB_GOOD_INODE_SIZE,
            holds_target(raw, target),
        ensures
            len == if offset >= target.len() {
                0
            } else {
                least(buf.len() as int, target.len() - offset)
            },
            buf_after == splice(
                buf,
                0,
                target.subrange(
                    least(offset as int, target.len() as int),
                    least(offset as int, target.len() as int) + len,
                ),
            ),
    {
        let outcome = Ok::<usize, Ext4Error>(len);
        let (read, found) = choose|read: Self, found: Result<InodeRef>|
            {
                &&& #[trigger] self.inode_read(&read, link, found)
                &&& match found {
                    Err(error) => {
                        &&& read.idle(after)
                        &&& buf_after == buf
                        &&& outcome == Err::<usize, Ext4Error>(error)
                    },
                    Ok(inode) => read.link_read(after, inode, offset, buf, buf_after, outcome),
                }
            };
        let inode = found->Ok_0;
        read.lemma_link_read_asks(after, inode, offset, buf, buf_after, len);
        assert forall|k: int| 0 <= k < since(self.log(), read.log()).len() implies told(
            #[trigger] since(self.log(), read.log())[k],
            disk,
        ) by {
            let n = self.log().len() + k;
            assert(after.log().take(read.log().len() as int)[n] == after.log()[n]);
            assert(since(self.log(), after.log())[k] == after.log()[n]);
        }
        self.lemma_target_is_read(
            &read,
            after,
            link,
            raw,
            inode,
            target,
            offset,
            buf,
            buf_after,
            len,
            disk,
        );
    }
}

} // verus!
