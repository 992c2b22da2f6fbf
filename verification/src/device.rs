//! Block devices, and the record of every call that the library makes on one.

use vstd::prelude::*;
use crate::bytes::{put_bytes, splice};
use crate::error::{failed, ErrCode, Ext4Error, Result};
use crate::staged::{images, CachePublisher, StagedBlocks};
use crate::volume::LayerCall;
use crate::{BLOCK_SIZE, PBlockId};

verus! {

/// One block and the number it has on the device.
pub struct Block {
    pub id: PBlockId,
    pub data: Box<[u8; BLOCK_SIZE]>,
}

impl Block {
    /// A block with the given number and bytes.
    pub fn new(id: PBlockId, data: Box<[u8; BLOCK_SIZE]>) -> (block: Self)
        ensures
            block == (Block { id, data }),
    {
        Block { id, data }
    }
}

/// The four durability barriers of a journal commit.
#[derive(Clone, Copy, Debug, PartialEq, Eq, Structural)]
pub enum JournalFlushPhase {
    ActiveLog,
    CommitRecord,
    Checkpoint,
    TailUpdate,
}

/// Why a journal transaction is committed.
#[derive(Clone, Copy, Debug, PartialEq, Eq, Structural)]
pub enum JournalCommitReason {
    Explicit,
    DeferredThreshold,
    DurabilityBoundary,
    DirectMetadataBarrier,
}

/// The part of a transfer of `left` bytes that its next block takes.
pub open spec fn next_part(left: int) -> int {
    if left < BLOCK_SIZE {
        left
    } else {
        BLOCK_SIZE as int
    }
}

/// What reading block by block from `id` on into `buf` does, once `done` bytes are read: each
/// block is read and its bytes go to the buffer in turn, up to the first failure.
///
/// `reads` says what reading one block may do.
pub open spec fn read_in_turn<S>(
    reads: spec_fn(S, S, PBlockId, Result<Block>) -> bool,
    device: S,
    after: S,
    id: int,
    buf: Seq<u8>,
    done: int,
    buf_after: Seq<u8>,
    reply: Result<()>,
) -> bool
    decreases buf.len() - done,
{
    let part = next_part(buf.len() - done);
    if done >= buf.len() {
        after == device && buf_after == buf && reply == Ok::<(), Ext4Error>(())
    } else if id > u64::MAX {
        after == device && buf_after == buf && reply == failed::<()>(ErrCode::EFBIG)
    } else {
        exists|read: S, answer: Result<Block>|
            {
                &&& #[trigger] reads(device, read, id as u64, answer)
                &&& match answer {
                    Ok(block) => read_in_turn(
                        reads,
                        read,
                        after,
                        id + 1,
                        splice(buf, done, block.data@.take(part)),
                        done + part,
                        buf_after,
                        reply,
                    ),
                    Err(error) => after == read && buf_after == buf && reply == Err::<
                        (),
                        Ext4Error,
                    >(error),
                }
            }
    }
}

/// What writing `data` block by block from `id` on does, once `done` bytes are written: each
/// block is written in turn, up to the first failure.
///
/// `writes` says what writing one block may do.
pub open spec fn written_in_turn<S>(
    writes: spec_fn(S, S, PBlockId, Seq<u8>, Result<()>) -> bool,
    device: S,
    after: S,
    id: int,
    data: Seq<u8>,
    done: int,
    reply: Result<()>,
) -> bool
    decreases data.len() - done,
{
    if done + BLOCK_SIZE > data.len() {
        after == device && reply == Ok::<(), Ext4Error>(())
    } else if id > u64::MAX {
        after == device && reply == failed::<()>(ErrCode::EFBIG)
    } else {
        exists|written: S, answer: Result<()>|
            {
                &&& #[trigger] writes(
                    device,
                    written,
                    id as u64,
                    data.subrange(done, done + BLOCK_SIZE),
                    answer,
                )
                &&& match answer {
                    Ok(_) => written_in_turn(
                        writes,
                        written,
                        after,
                        id + 1,
                        data,
                        done + BLOCK_SIZE,
                        reply,
                    ),
                    Err(error) => after == written && reply == Err::<(), Ext4Error>(error),
                }
            }
    }
}

/// What writing `data` block by block does: bytes that are no whole number of blocks are refused.
pub open spec fn written_as_blocks<S>(
    writes: spec_fn(S, S, PBlockId, Seq<u8>, Result<()>) -> bool,
    device: S,
    after: S,
    start: PBlockId,
    data: Seq<u8>,
    reply: Result<()>,
) -> bool {
    if data.len() % BLOCK_SIZE as nat != 0 {
        after == device && reply == failed::<()>(ErrCode::EINVAL)
    } else {
        written_in_turn(writes, device, after, start as int, data, 0, reply)
    }
}

/// Storage addressed in blocks of [`BLOCK_SIZE`] bytes.
///
/// Nothing is taken for granted about an implementation: every call may fail, and what a read
/// returns is not tied to earlier writes. `answers` names what its calls may do; it holds of
/// everything unless an implementation says more.
pub trait BlockDevice {
    /// Whether a call may leave the device as `after` and give the reply that it carries.
    open spec fn answers(&self, after: &Self, call: Event) -> bool {
        true
    }

    /// Reads one block.
    fn read_block(&mut self, id: PBlockId) -> (reply: Result<Block>)
        ensures
            old(self).answers(final(self), Event::ReadBlock { id, reply }),
    ;

    /// Writes one block.
    fn write_block(&mut self, block: &Block) -> (reply: Result<()>)
        ensures
            old(self).answers(
                final(self),
                Event::WriteBlock { id: block.id, data: block.data@, reply },
            ),
    ;

    /// Makes every completed write durable.
    fn flush(&mut self) -> (reply: Result<()>)
        ensures
            old(self).answers(final(self), Event::Flush { reply }),
    ;

    /// Whether a completed flush means durability.
    fn supports_reliable_flush(&self) -> (reply: bool)
        ensures
            self.answers(self, Event::ReliableFlush { reply }),
    ;

    /// Reads consecutive blocks into `buf`, whose length no call can change; block by block,
    /// unless an implementation has another way.
    fn read_blocks(&mut self, start: PBlockId, buf: &mut [u8]) -> (reply: Result<()>)
        ensures
            final(buf)@.len() == old(buf)@.len(),
            read_in_turn(
                |device: &Self, after: &Self, id: PBlockId, reply: Result<Block>|
                    device.answers(after, Event::ReadBlock { id, reply }),
                old(self),
                final(self),
                start as int,
                old(buf)@,
                0,
                final(buf)@,
                reply,
            ) || old(self).answers(
                final(self),
                Event::ReadBlocks {
                    start,
                    len: old(buf)@.len(),
                    reply: run_reply(final(buf)@, reply),
                },
            ),
        default_ensures
            read_in_turn(
                |device: &Self, after: &Self, id: PBlockId, reply: Result<Block>|
                    device.answers(after, Event::ReadBlock { id, reply }),
                old(self),
                final(self),
                start as int,
                old(buf)@,
                0,
                final(buf)@,
                reply,
            ),
    {
        let total: usize = buf.len();
        let mut done: usize = 0;
        let mut id: PBlockId = start;
        let ghost mut next: int = start as int;
        let ghost reads = |device: &Self, after: &Self, id: PBlockId, reply: Result<Block>|
            device.answers(after, Event::ReadBlock { id, reply });
        while done < total
            invariant
                reads == (|device: &Self, after: &Self, id: PBlockId, reply: Result<Block>|
                    device.answers(after, Event::ReadBlock { id, reply })),
                done <= total,
                total == buf@.len(),
                total == old(buf)@.len(),
                done < total ==> next == id,
                forall|end: &Self, filled: Seq<u8>, reply: Result<()>|
                    #[trigger] read_in_turn(
                        reads,
                        self,
                        end,
                        next,
                        buf@,
                        done as int,
                        filled,
                        reply,
                    ) ==> read_in_turn(
                        reads,
                        old(self),
                        end,
                        start as int,
                        old(buf)@,
                        0,
                        filled,
                        reply,
                    ),
            decreases total - done,
        {
            let count: usize = if total - done < BLOCK_SIZE {
                total - done
            } else {
                BLOCK_SIZE
            };
            let ghost before = &*self;
            let ghost held = buf@;
            let ghost tried = (next, done as int);
            let answer = self.read_block(id);
            assert(reads(before, self, tried.0 as u64, answer));
            let block = match answer {
                Ok(block) => block,
                Err(error) => {
                    assert(read_in_turn(
                        reads,
                        before,
                        self,
                        tried.0,
                        held,
                        tried.1,
                        held,
                        Err(error),
                    ));
                    return Err(error);
                },
            };
            put_bytes(buf, done, vstd::slice::slice_subrange(block.data.as_slice(), 0, count));
            assert(buf@ == splice(held, tried.1, block.data@.take(count as int)));
            done = done + count;
            proof {
                next = next + 1;
            }
            assert forall|end: &Self, filled: Seq<u8>, reply: Result<()>|
                #[trigger] read_in_turn(
                    reads,
                    self,
                    end,
                    next,
                    buf@,
                    done as int,
                    filled,
                    reply,
                ) implies read_in_turn(
                reads,
                old(self),
                end,
                start as int,
                old(buf)@,
                0,
                filled,
                reply,
            ) by {
                assert(reads(before, self, tried.0 as u64, answer));
                assert(read_in_turn(
                    reads,
                    before,
                    end,
                    tried.0,
                    held,
                    tried.1,
                    filled,
                    reply,
                ));
            }
            if done < total {
                if id == u64::MAX {
                    assert(read_in_turn(
                        reads,
                        self,
                        self,
                        next,
                        buf@,
                        done as int,
                        buf@,
                        failed::<()>(ErrCode::EFBIG),
                    ));
                    return Err(Ext4Error::new(ErrCode::EFBIG));
                }
                id = id + 1;
            }
        }
        assert(read_in_turn(reads, self, self, next, buf@, done as int, buf@, Ok(())));
        Ok(())
    }

    /// Writes consecutive blocks; `data` holds a whole number of blocks. They are written block by
    /// block, unless an implementation has another way.
    fn write_blocks(&mut self, start: PBlockId, data: &[u8]) -> (reply: Result<()>)
        ensures
            written_as_blocks(
                |device: &Self, after: &Self, id: PBlockId, data: Seq<u8>, reply: Result<()>|
                    device.answers(after, Event::WriteBlock { id, data, reply }),
                old(self),
                final(self),
                start,
                data@,
                reply,
            ) || old(self).answers(final(self), Event::WriteBlocks { start, data: data@, reply }),
        default_ensures
            written_as_blocks(
                |device: &Self, after: &Self, id: PBlockId, data: Seq<u8>, reply: Result<()>|
                    device.answers(after, Event::WriteBlock { id, data, reply }),
                old(self),
                final(self),
                start,
                data@,
                reply,
            ),
    {
        let total: usize = data.len();
        if total % BLOCK_SIZE != 0 {
            return Err(Ext4Error::new(ErrCode::EINVAL));
        }
        let mut done: usize = 0;
        let mut id: PBlockId = start;
        let ghost mut next: int = start as int;
        let ghost writes = |device: &Self, after: &Self, id: PBlockId, data: Seq<u8>, reply: Result<()>|
            device.answers(after, Event::WriteBlock { id, data, reply });
        while done < total
            invariant
                writes == (|device: &Self, after: &Self, id: PBlockId, data: Seq<u8>, reply: Result<()>|
                    device.answers(after, Event::WriteBlock { id, data, reply })),
                done <= total,
                total == data@.len(),
                total % BLOCK_SIZE == 0,
                done % BLOCK_SIZE == 0,
                done < total ==> next == id,
                forall|end: &Self, reply: Result<()>|
                    #[trigger] written_in_turn(
                        writes,
                        self,
                        end,
                        next,
                        data@,
                        done as int,
                        reply,
                    ) ==> written_in_turn(
                        writes,
                        old(self),
                        end,
                        start as int,
                        data@,
                        0,
                        reply,
                    ),
            decreases total - done,
        {
            let mut bytes: [u8; BLOCK_SIZE] = [0u8;BLOCK_SIZE];
            put_bytes(&mut bytes, 0, vstd::slice::slice_subrange(data, done, done + BLOCK_SIZE));
            assert(bytes@ =~= data@.subrange(done as int, done + BLOCK_SIZE));
            let ghost before = &*self;
            let ghost tried = (next, done as int);
            let answer = self.write_block(&Block::new(id, Box::new(bytes)));
            assert(writes(
                before,
                self,
                tried.0 as u64,
                data@.subrange(tried.1, tried.1 + BLOCK_SIZE),
                answer,
            ));
            match answer {
                Ok(_) => {},
                Err(error) => {
                    assert(written_in_turn(
                        writes,
                        before,
                        self,
                        tried.0,
                        data@,
                        tried.1,
                        Err(error),
                    ));
                    return Err(error);
                },
            }
            done = done + BLOCK_SIZE;
            proof {
                next = next + 1;
            }
            assert forall|end: &Self, reply: Result<()>|
                #[trigger] written_in_turn(
                    writes,
                    self,
                    end,
                    next,
                    data@,
                    done as int,
                    reply,
                ) implies written_in_turn(
                writes,
                old(self),
                end,
                start as int,
                data@,
                0,
                reply,
            ) by {
                assert(writes(
                    before,
                    self,
                    tried.0 as u64,
                    data@.subrange(tried.1, tried.1 + BLOCK_SIZE),
                    answer,
                ));
                assert(written_in_turn(
                    writes,
                    before,
                    end,
                    tried.0,
                    data@,
                    tried.1,
                    reply,
                ));
            }
            if done < total {
                if id == u64::MAX {
                    assert(written_in_turn(
                        writes,
                        self,
                        self,
                        next,
                        data@,
                        done as int,
                        failed::<()>(ErrCode::EFBIG),
                    ));
                    return Err(Ext4Error::new(ErrCode::EFBIG));
                }
                id = id + 1;
            }
        }
        assert(written_in_turn(writes, self, self, next, data@, done as int, Ok(())));
        Ok(())
    }

    /// Whether the diagnostic hooks are to be called.
    fn diagnostic_enabled(&self) -> (reply: bool)
        ensures
            self.answers(self, Event::Diagnostics { reply }),
    ;

    /// A cycle counter for the diagnostic hooks.
    fn diagnostic_cycles(&self) -> (reply: usize)
        ensures
            self.answers(self, Event::Cycles { reply }),
    ;

    /// Told of the bytes that a journal commit logged.
    fn record_journal_commit(&mut self, bytes: usize)
        ensures
            old(self).answers(final(self), Event::RecordJournalBytes { bytes }),
    ;

    /// Told of each completed journal commit.
    fn record_writeback_journal_commit(
        &mut self,
        transaction_id: u32,
        staged_blocks: usize,
        cycles: usize,
        reason: JournalCommitReason,
    )
        ensures
            old(self).answers(
                final(self),
                Event::RecordCommit {
                    transaction: transaction_id,
                    staged: staged_blocks,
                    cycles,
                    reason,
                },
            ),
    ;

    /// Told of each completed barrier of a journal commit.
    fn record_writeback_journal_flush(
        &mut self,
        transaction_id: u32,
        phase: JournalFlushPhase,
        cycles: usize,
    )
        ensures
            old(self).answers(
                final(self),
                Event::RecordFlush { transaction: transaction_id, phase, cycles },
            ),
    ;

    /// Told of the data bytes that a prepared write stored.
    fn record_writeback_data_write(&mut self, bytes: usize, cycles: usize)
        ensures
            old(self).answers(final(self), Event::RecordDataWrite { bytes, cycles }),
    ;

    /// Told of the blocks that a prepared write covered.
    fn record_writeback_alloc_extent(&mut self, blocks: usize, cycles: usize)
        ensures
            old(self).answers(final(self), Event::RecordAllocExtent { blocks, cycles }),
    ;
}

/// One call on the device, on a cache publisher or on the layers of the file system, with the
/// reply to it.
#[allow(inconsistent_fields)]
pub ghost enum Event {
    ReadBlock { id: PBlockId, reply: Result<Block> },
    ReadBlocks { start: PBlockId, len: nat, reply: Result<Seq<u8>> },
    WriteBlock { id: PBlockId, data: Seq<u8>, reply: Result<()> },
    WriteBlocks { start: PBlockId, data: Seq<u8>, reply: Result<()> },
    Flush { reply: Result<()> },
    ReliableFlush { reply: bool },
    Diagnostics { reply: bool },
    Cycles { reply: usize },
    RecordJournalBytes { bytes: usize },
    RecordCommit {
        transaction: u32,
        staged: usize,
        cycles: usize,
        reason: JournalCommitReason,
    },
    RecordFlush { transaction: u32, phase: JournalFlushPhase, cycles: usize },
    RecordDataWrite { bytes: usize, cycles: usize },
    RecordAllocExtent { blocks: usize, cycles: usize },
    PublishPending { blocks: Seq<(PBlockId, Seq<u8>)> },
    Publish { blocks: Seq<(PBlockId, Seq<u8>)> },
    Layer { call: LayerCall },
    /// The device was handed out, and calls on it are not recorded.
    Lent,
}

/// The reply to reading consecutive blocks, with the bytes that were read.
pub open spec fn run_reply(buf: Seq<u8>, reply: Result<()>) -> Result<Seq<u8>> {
    match reply {
        Ok(_) => Ok(buf),
        Err(error) => Err(error),
    }
}

/// Whether consecutive blocks were read one after another.
pub open spec fn run_read<D: BlockDevice>(
    device: D,
    after: D,
    start: PBlockId,
    buf: Seq<u8>,
    buf_after: Seq<u8>,
    reply: Result<()>,
) -> bool {
    read_in_turn(
        |device: &D, after: &D, id: PBlockId, reply: Result<Block>|
            device.answers(after, Event::ReadBlock { id, reply }),
        &device,
        &after,
        start as int,
        buf,
        0,
        buf_after,
        reply,
    )
}

/// Whether consecutive blocks were read one after another into some buffer.
pub open spec fn some_run_read<D: BlockDevice>(
    device: D,
    after: D,
    start: PBlockId,
    len: nat,
    reply: Result<Seq<u8>>,
) -> bool {
    exists|buf: Seq<u8>, buf_after: Seq<u8>, answer: Result<()>|
        {
            &&& #[trigger] run_read(device, after, start, buf, buf_after, answer)
            &&& buf.len() == len
            &&& reply == run_reply(buf_after, answer)
        }
}

/// Whether consecutive blocks were written one after another.
pub open spec fn run_written<D: BlockDevice>(
    device: D,
    after: D,
    start: PBlockId,
    data: Seq<u8>,
    reply: Result<()>,
) -> bool {
    written_as_blocks(
        |device: &D, after: &D, id: PBlockId, data: Seq<u8>, reply: Result<()>|
            device.answers(after, Event::WriteBlock { id, data, reply }),
        &device,
        &after,
        start,
        data,
        reply,
    )
}

/// Whether a call was made on a device, and left it as `after`. A call on something else leaves
/// the device as it was; a call of the layers, which have the device meanwhile, may do anything
/// to it.
pub open spec fn made_on<D: BlockDevice>(device: D, call: Event, after: D) -> bool {
    match call {
        Event::ReadBlocks { start, len, reply } => device.answers(&after, call) || some_run_read(
            device,
            after,
            start,
            len,
            reply,
        ),
        Event::WriteBlocks { start, data, reply } => device.answers(&after, call) || run_written(
            device,
            after,
            start,
            data,
            reply,
        ),
        Event::PublishPending { .. } => after == device,
        Event::Publish { .. } => after == device,
        Event::Layer { .. } => true,
        Event::Lent => true,
        _ => device.answers(&after, call),
    }
}

/// Whether a call is one that is made on the device or told to a cache: no layer had the device
/// meanwhile.
pub open spec fn plain(call: Event) -> bool {
    !(call is Layer) && !(call is Lent)
}

/// Whether no layer had the device during some calls.
pub open spec fn plain_all(calls: Seq<Event>) -> bool {
    forall|k: int| 0 <= k < calls.len() ==> plain(#[trigger] calls[k])
}

/// Whether calls were made on a device one after another, and left it as `after`.
pub open spec fn traced<D: BlockDevice>(device: D, calls: Seq<Event>, after: D) -> bool
    decreases calls.len(),
{
    if calls.len() == 0 {
        after == device
    } else {
        exists|before: D|
            {
                &&& #[trigger] made_on(before, calls.last(), after)
                &&& traced(device, calls.drop_last(), before)
            }
    }
}

/// Calls after calls are made on what the first ones left.
proof fn lemma_traced_joins<D: BlockDevice>(
    device: D,
    first: Seq<Event>,
    middle: D,
    second: Seq<Event>,
    after: D,
)
    requires
        traced(device, first, middle),
        traced(middle, second, after),
    ensures
        traced(device, first + second, after),
    decreases second.len(),
{
    if second.len() == 0 {
        assert(first + second =~= first);
    } else {
        let before = choose|before: D|
            {
                &&& #[trigger] made_on(before, second.last(), after)
                &&& traced(middle, second.drop_last(), before)
            };
        lemma_traced_joins(device, first, middle, second.drop_last(), before);
        assert((first + second).drop_last() =~= first + second.drop_last());
        assert(made_on(before, (first + second).last(), after));
    }
}

/// The calls that `after` has beyond `before`.
pub open spec fn since(before: Seq<Event>, after: Seq<Event>) -> Seq<Event> {
    after.skip(before.len() as int)
}

/// Whether `after` continues `before`.
pub open spec fn extends(before: Seq<Event>, after: Seq<Event>) -> bool {
    before.len() <= after.len() && after.take(before.len() as int) == before
}

/// A device together with the record of the calls made through it.
pub struct Io<D: BlockDevice> {
    device: D,
    log: Ghost<Seq<Event>>,
}

impl<D: BlockDevice> Io<D> {
    /// The calls made so far, oldest first.
    pub closed spec fn log(&self) -> Seq<Event> {
        self.log@
    }

    /// The device.
    pub closed spec fn held(&self) -> D {
        self.device
    }

    /// One call was recorded, and was made.
    pub open spec fn made(&self, after: &Self, call: Event) -> bool {
        &&& after.log() == self.log().push(call)
        &&& made_on(self.held(), call, after.held())
        &&& self.grew_to(after)
    }

    /// The record goes on from one state to another without a call of the layers, and what it
    /// holds is all that was done to the device.
    #[verifier::opaque]
    pub open spec fn grew_to(&self, after: &Self) -> bool {
        &&& extends(self.log(), after.log())
        &&& traced(self.held(), since(self.log(), after.log()), after.held())
        &&& plain_all(since(self.log(), after.log()))
    }

    /// Nothing happened.
    pub broadcast proof fn lemma_stays(&self)
        ensures
            #[trigger] self.grew_to(self),
    {
        reveal(Io::grew_to);
        assert(self.log().take(self.log().len() as int) =~= self.log());
        assert(since(self.log(), self.log()) =~= Seq::<Event>::empty());
    }

    /// What goes on from a state that an earlier one led to goes on from the earlier one.
    pub broadcast proof fn lemma_goes_on(&self, middle: &Self, after: &Self)
        requires
            #[trigger] self.grew_to(middle),
            #[trigger] middle.grew_to(after),
        ensures
            self.grew_to(after),
    {
        reveal(Io::grew_to);
        crate::content::lemma_extends(self.log(), middle.log(), after.log());
        let first = since(self.log(), middle.log());
        let second = since(middle.log(), after.log());
        lemma_traced_joins(self.held(), first, middle.held(), second, after.held());
        assert(since(self.log(), after.log()) =~= first + second) by {
            assert(after.log().take(middle.log().len() as int) == middle.log());
        }
    }

    /// A recorded call goes on with the record.
    proof fn lemma_call_goes_on(&self, after: &Self, call: Event)
        requires
            after.log() == self.log().push(call),
            made_on(self.held(), call, after.held()),
            plain(call),
        ensures
            self.grew_to(after),
    {
        reveal(Io::grew_to);
        assert(after.log().take(self.log().len() as int) =~= self.log());
        let calls = since(self.log(), after.log());
        assert(calls =~= seq![call]);
        assert(calls.drop_last() =~= Seq::<Event>::empty());
        assert(traced(self.held(), calls.drop_last(), self.held()));
        assert(made_on(self.held(), calls.last(), after.held()));
    }

    /// A device with an empty record.
    pub fn new(device: D) -> (io: Self)
        ensures
            io.log() == Seq::<Event>::empty(),
            io.held() == device,
    {
        Io { device, log: Ghost(Seq::empty()) }
    }

    /// The device.
    pub fn device(&self) -> (device: &D)
        ensures
            *device == self.held(),
    {
        &self.device
    }

    /// The device, for calls that are not recorded one by one.
    pub fn device_mut(&mut self) -> (device: &mut D)
        ensures
            *device == old(self).held(),
            final(self).held() == *final(device),
            final(self).log() == old(self).log().push(Event::Lent),
    {
        self.log = Ghost(self.log@.push(Event::Lent));
        &mut self.device
    }

    /// Notes a call of the layers for which the device was lent.
    pub(crate) fn note_lent(&mut self, Ghost(call): Ghost<LayerCall>)
        requires
            old(self).log().len() > 0,
            old(self).log().last() is Lent,
        ensures
            final(self).held() == old(self).held(),
            forall|log: Seq<Event>|
                old(self).log() == log.push(Event::Lent) ==> final(self).log()
                    == #[trigger] log.push(Event::Layer { call }),
    {
        let ghost lent = self.log@;
        self.log = Ghost(self.log@.drop_last().push(Event::Layer { call }));
        assert forall|log: Seq<Event>| lent == log.push(Event::Lent) implies self.log()
            == #[trigger] log.push(Event::Layer { call }) by {
            assert(log.push(Event::Lent).drop_last() =~= log);
        }
    }

    /// Notes a call of the layers.
    pub(crate) fn note(&mut self, Ghost(call): Ghost<LayerCall>)
        ensures
            final(self).held() == old(self).held(),
            final(self).log() == old(self).log().push(Event::Layer { call }),
    {
        self.log = Ghost(self.log@.push(Event::Layer { call }));
    }

    /// Records a call that was made.
    fn record(&mut self, Ghost(before): Ghost<Self>, Ghost(call): Ghost<Event>)
        requires
            old(self).log() == before.log(),
            made_on(before.held(), call, old(self).held()),
            plain(call),
        ensures
            before.made(final(self), call),
    {
        self.log = Ghost(self.log@.push(call));
        proof {
            before.lemma_call_goes_on(self, call);
        }
    }

    /// Reads one block.
    pub fn read_block(&mut self, id: PBlockId) -> (reply: Result<Block>)
        ensures
            old(self).made(final(self), Event::ReadBlock { id, reply }),
    {
        let ghost before = *self;
        let reply = self.device.read_block(id);
        self.record(Ghost(before), Ghost(Event::ReadBlock { id, reply }));
        reply
    }

    /// Writes one block.
    pub fn write_block(&mut self, block: &Block) -> (reply: Result<()>)
        ensures
            old(self).made(
                final(self),
                Event::WriteBlock { id: block.id, data: block.data@, reply },
            ),
    {
        let ghost before = *self;
        let reply = self.device.write_block(block);
        self.record(
            Ghost(before),
            Ghost(Event::WriteBlock { id: block.id, data: block.data@, reply }),
        );
        reply
    }

    /// Reads consecutive blocks into `buf`.
    pub fn read_blocks(&mut self, start: PBlockId, buf: &mut [u8]) -> (reply: Result<()>)
        ensures
            final(buf)@.len() == old(buf)@.len(),
            old(self).made(final(self), Event::ReadBlocks {
                    start,
                    len: old(buf)@.len(),
                    reply: run_reply(final(buf)@, reply),
                }),
    {
        let ghost before = *self;
        let ghost held = buf@;
        let reply = self.device.read_blocks(start, buf);
        let ghost call = Event::ReadBlocks {
            start,
            len: held.len(),
            reply: run_reply(buf@, reply),
        };
        proof {
            if !before.held().answers(&self.held(), call) {
                assert(run_read(before.held(), self.held(), start, held, buf@, reply));
            }
        }
        self.record(Ghost(before), Ghost(call));
        reply
    }

    /// Writes consecutive blocks.
    pub fn write_blocks(&mut self, start: PBlockId, data: &[u8]) -> (reply: Result<()>)
        ensures
            old(self).made(final(self), Event::WriteBlocks { start, data: data@, reply }),
    {
        let ghost before = *self;
        let reply = self.device.write_blocks(start, data);
        self.record(Ghost(before), Ghost(Event::WriteBlocks { start, data: data@, reply }));
        reply
    }

    /// Makes every completed write durable.
    pub fn flush(&mut self) -> (reply: Result<()>)
        ensures
            old(self).made(final(self), Event::Flush { reply }),
    {
        let ghost before = *self;
        let reply = self.device.flush();
        self.record(Ghost(before), Ghost(Event::Flush { reply }));
        reply
    }

    /// Asks whether a completed flush means durability.
    pub fn supports_reliable_flush(&mut self) -> (reply: bool)
        ensures
            old(self).made(final(self), Event::ReliableFlush { reply }),
    {
        let ghost before = *self;
        let reply = self.device.supports_reliable_flush();
        self.record(Ghost(before), Ghost(Event::ReliableFlush { reply }));
        reply
    }

    /// Asks whether the diagnostic hooks are to be called.
    pub fn diagnostic_enabled(&mut self) -> (reply: bool)
        ensures
            old(self).made(final(self), Event::Diagnostics { reply }),
    {
        let ghost before = *self;
        let reply = self.device.diagnostic_enabled();
        self.record(Ghost(before), Ghost(Event::Diagnostics { reply }));
        reply
    }

    /// Reads the cycle counter.
    pub fn diagnostic_cycles(&mut self) -> (reply: usize)
        ensures
            old(self).made(final(self), Event::Cycles { reply }),
    {
        let ghost before = *self;
        let reply: usize = self.device.diagnostic_cycles();
        self.record(Ghost(before), Ghost(Event::Cycles { reply }));
        reply
    }

    /// Reports the bytes that a journal commit logged.
    pub fn record_journal_commit(&mut self, bytes: usize)
        ensures
            old(self).made(final(self), Event::RecordJournalBytes { bytes }),
    {
        let ghost before = *self;
        self.device.record_journal_commit(bytes);
        self.record(Ghost(before), Ghost(Event::RecordJournalBytes { bytes }));
    }

    /// Reports a completed journal commit.
    pub fn record_writeback_journal_commit(
        &mut self,
        transaction: u32,
        staged: usize,
        cycles: usize,
        reason: JournalCommitReason,
    )
        ensures
            old(self).made(
                final(self),
                Event::RecordCommit { transaction, staged, cycles, reason },
            ),
    {
        let ghost before = *self;
        self.device.record_writeback_journal_commit(transaction, staged, cycles, reason);
        self.record(
            Ghost(before),
            Ghost(Event::RecordCommit { transaction, staged, cycles, reason }),
        );
    }

    /// Reports a completed barrier of a journal commit.
    pub fn record_writeback_journal_flush(
        &mut self,
        transaction: u32,
        phase: JournalFlushPhase,
        cycles: usize,
    )
        ensures
            old(self).made(final(self), Event::RecordFlush { transaction, phase, cycles }),
    {
        let ghost before = *self;
        self.device.record_writeback_journal_flush(transaction, phase, cycles);
        self.record(Ghost(before), Ghost(Event::RecordFlush { transaction, phase, cycles }));
    }

    /// Reports the data bytes that a prepared write stored.
    pub fn record_writeback_data_write(&mut self, bytes: usize, cycles: usize)
        ensures
            old(self).made(final(self), Event::RecordDataWrite { bytes, cycles }),
    {
        let ghost before = *self;
        self.device.record_writeback_data_write(bytes, cycles);
        self.record(Ghost(before), Ghost(Event::RecordDataWrite { bytes, cycles }));
    }

    /// Reports the blocks that a prepared write covered.
    pub fn record_writeback_alloc_extent(&mut self, blocks: usize, cycles: usize)
        ensures
            old(self).made(final(self), Event::RecordAllocExtent { blocks, cycles }),
    {
        let ghost before = *self;
        self.device.record_writeback_alloc_extent(blocks, cycles);
        self.record(Ghost(before), Ghost(Event::RecordAllocExtent { blocks, cycles }));
    }

    /// Hands the images of a deferred transaction to a publisher.
    pub fn publish_pending<P: CachePublisher>(&mut self, publisher: &mut P, blocks: &StagedBlocks)
        ensures
            old(self).made(final(self), Event::PublishPending { blocks: images(blocks@) }),
            old(publisher).answers_pending(final(publisher), images(blocks@)),
    {
        let ghost before = *self;
        publisher.publish_pending(blocks);
        self.record(Ghost(before), Ghost(Event::PublishPending { blocks: images(blocks@) }));
    }

    /// Hands written images to a publisher.
    pub fn publish<P: CachePublisher>(&mut self, publisher: &mut P, blocks: &StagedBlocks)
        ensures
            old(self).made(final(self), Event::Publish { blocks: images(blocks@) }),
            old(publisher).answers_publish(final(publisher), images(blocks@)),
    {
        let ghost before = *self;
        publisher.publish(blocks);
        self.record(Ghost(before), Ghost(Event::Publish { blocks: images(blocks@) }));
    }
}

} // verus!
