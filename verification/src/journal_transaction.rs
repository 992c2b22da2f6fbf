//! Synchronous, single-writer metadata transactions.
//!
//! A transaction collects private images of metadata blocks. Committing it through the journal
//! makes the change crash atomic; committing it directly writes the home blocks in order.

use vstd::prelude::*;
use crate::bytes::{put_bytes, splice};
use crate::commit_plan::CommitFailure;
use crate::context::{batch_of, DeferredTransaction, JournalContext};
use crate::device::{Block, BlockDevice, Event, Io};
use crate::error::{failed, ErrCode, Ext4Error, Result};
use crate::jbd2::{Superblock, SUPERBLOCK_BYTES};
use crate::journal_log::{log_blocks, log_countable, required_log_blocks, ring_len};
use crate::staged::{
    block_of, count_absent, distinct_homes, holds_home, lemma_count_grows, lemma_distinct_with_block,
    lemma_slot_of_inserted, lemma_with_image, ordered, overlay, slot, with_block, with_image,
    StagedBlock, StagedBlocks,
};
use crate::{BLOCK_SIZE, PBlockId};

verus! {

broadcast use {Io::lemma_stays, Io::lemma_goes_on};

/// Why a commit failed, and how far it had come.
#[derive(Clone, Copy, Debug, PartialEq, Eq, Structural)]
pub struct CommitError {
    pub error: Ext4Error,
    pub failure: CommitFailure,
}

/// Owns the single-writer token and the poison state of a journal.
pub struct JournalTransactionCore {
    pub(crate) writer: bool,
    pub(crate) poisoned: bool,
    pub(crate) context: JournalContext,
}

/// Owns the single-writer token and the poison state of a device without a journal.
pub struct DirectTransactionCore {
    pub(crate) writer: bool,
    pub(crate) poisoned: bool,
    pub(crate) target_blocks: u64,
}

/// The backend that a transaction belongs to.
pub enum TransactionCoreRef<'a> {
    Journal(&'a mut JournalTransactionCore),
    Direct(&'a mut DirectTransactionCore),
}

/// A set of metadata images that are committed together.
///
/// A transaction ends by `abort` or by a commit: these give the writer token back, and `abort` also
/// puts back the batch that the transaction took over. One that is merely let go of keeps both.
#[must_use]
pub struct Transaction {
    pub(crate) credits: usize,
    pub(crate) staged: StagedBlocks,
    /// Images of an earlier deferred batch. They stay separate until this transaction commits, so
    /// that giving it up restores the batch.
    pub(crate) deferred: Option<DeferredTransaction>,
    pub(crate) preserve_originals: bool,
}

/// The contents of a block as a transaction sees it.
pub enum BlockView<'a> {
    Staged(&'a [u8; BLOCK_SIZE]),
    Device(Block),
}

impl<'a> BlockView<'a> {
    /// The bytes of the block.
    pub open spec fn contents(&self) -> Seq<u8> {
        match self {
            BlockView::Staged(bytes) => bytes@,
            BlockView::Device(block) => block.data@,
        }
    }

    /// The bytes of the block.
    pub fn bytes(&self) -> (bytes: &[u8; BLOCK_SIZE])
        ensures
            bytes@ == self.contents(),
    {
        match self {
            BlockView::Staged(bytes) => bytes,
            BlockView::Device(block) => &block.data,
        }
    }
}

impl DirectTransactionCore {
    /// Whether a transaction holds the writer token.
    pub closed spec fn writing(&self) -> bool {
        self.writer
    }

    /// Whether an earlier commit left the device in an unknown state.
    pub closed spec fn poisoned(&self) -> bool {
        self.poisoned
    }

    /// The number of addressable blocks.
    pub closed spec fn target(&self) -> u64 {
        self.target_blocks
    }

    /// A backend for a device of `target_blocks` blocks.
    pub fn new(target_blocks: u64) -> (core: Result<Self>)
        ensures
            match core {
                Ok(core) => {
                    &&& target_blocks != 0
                    &&& core.target() == target_blocks
                    &&& !core.writing()
                    &&& !core.poisoned()
                },
                Err(error) => target_blocks == 0 && error.code == ErrCode::EINVAL,
            },
    {
        if target_blocks == 0 {
            return Err(Ext4Error::new(ErrCode::EINVAL));
        }
        Ok(DirectTransactionCore { writer: false, poisoned: false, target_blocks })
    }

    /// Whether an earlier commit left the device in an unknown state.
    pub fn is_poisoned(&self) -> (poisoned: bool)
        ensures
            poisoned == self.poisoned(),
    {
        self.poisoned
    }

    /// Whether nothing is in progress and nothing went wrong.
    pub open spec fn at_rest(&self) -> bool {
        !self.writing() && !self.poisoned()
    }

    /// Whether nothing is in progress and nothing went wrong.
    pub fn can_shutdown(&self) -> (idle: bool)
        ensures
            idle == self.at_rest(),
    {
        !self.writer && !self.is_poisoned()
    }

    /// Why no transaction of `credits` blocks can start.
    pub open spec fn start_refusal(&self, credits: usize) -> Option<ErrCode> {
        if credits == 0 {
            Some(ErrCode::EINVAL)
        } else if self.poisoned() {
            Some(ErrCode::EROFS)
        } else if self.writing() {
            Some(ErrCode::EAGAIN)
        } else {
            None
        }
    }

    /// What starting a transaction does to the backend, and what it returns.
    pub open spec fn started(
        &self,
        after: &Self,
        credits: usize,
        originals: bool,
        outcome: Result<Transaction>,
    ) -> bool {
        match self.start_refusal(credits) {
            Some(code) => *after == *self && outcome == failed::<Transaction>(code),
            None => {
                &&& outcome matches Ok(transaction)
                &&& transaction.inv()
                &&& transaction.is_new(credits, originals, None)
                &&& after.writing()
                &&& !after.poisoned()
                &&& after.target() == self.target()
            },
        }
    }

    /// Starts a transaction of up to `credits` blocks.
    pub fn start(&mut self, credits: usize) -> (transaction: Result<Transaction>)
        ensures
            old(self).started(final(self), credits, false, transaction),
    {
        self.start_with_originals(credits, false)
    }

    /// Starts a transaction that can be rolled back after its first writes.
    pub fn start_direct_range(&mut self, credits: usize) -> (transaction: Result<Transaction>)
        ensures
            old(self).started(final(self), credits, true, transaction),
    {
        self.start_with_originals(credits, true)
    }

    fn start_with_originals(&mut self, credits: usize, preserve_originals: bool) -> (transaction:
        Result<Transaction>)
        ensures
            old(self).started(final(self), credits, preserve_originals, transaction),
    {
        if credits == 0 {
            return Err(Ext4Error::new(ErrCode::EINVAL));
        }
        if self.poisoned {
            return Err(Ext4Error::new(ErrCode::EROFS));
        }
        if self.writer {
            return Err(Ext4Error::new(ErrCode::EAGAIN));
        }
        self.writer = true;
        Ok(Transaction::new(credits, preserve_originals, None))
    }
}

impl JournalTransactionCore {
    /// Whether a transaction holds the writer token.
    pub closed spec fn writing(&self) -> bool {
        self.writer
    }

    /// Whether an earlier commit left the journal in an unknown state.
    pub closed spec fn poisoned(&self) -> bool {
        self.poisoned
    }

    /// The journal.
    pub closed spec fn context(&self) -> JournalContext {
        self.context
    }

    /// The journal is valid.
    pub open spec fn inv(&self) -> bool {
        self.context().inv()
    }

    /// The images that wait for the next commit.
    pub open spec fn batch(&self) -> Seq<StagedBlock> {
        batch_of(self.context().deferred_transaction)
    }

    /// The blocks of the log ring.
    pub open spec fn ring(&self) -> int {
        self.context().superblock.max_len - self.context().superblock.first
    }

    /// A backend for a validated journal.
    pub fn new(context: JournalContext) -> (core: Result<Self>)
        requires
            context.batch_ordered(),
        ensures
            match core {
                Ok(core) => {
                    &&& core.inv()
                    &&& core.context() == context
                    &&& !core.writing()
                    &&& !core.poisoned()
                },
                Err(error) => if !context.supported() {
                    error.code == ErrCode::ENOTSUP
                } else {
                    !context.mapped() && error.code == ErrCode::EIO
                },
            },
    {
        match context.validate() {
            Ok(_) => Ok(JournalTransactionCore { writer: false, poisoned: false, context }),
            Err(error) => Err(error),
        }
    }

    /// Whether an earlier commit left the journal in an unknown state.
    pub fn is_poisoned(&self) -> (poisoned: bool)
        ensures
            poisoned == self.poisoned(),
    {
        self.poisoned
    }

    /// Whether nothing is in progress, nothing went wrong and nothing waits for a commit.
    pub fn can_shutdown(&self) -> (idle: bool)
        ensures
            idle == (!self.writing() && !self.poisoned() && self.context().deferred_transaction
                is None),
    {
        !self.writer && !self.is_poisoned() && self.context.deferred_transaction.is_none()
    }

    /// Whether images wait for a commit.
    pub fn has_pending_transaction(&self) -> (pending: bool)
        ensures
            pending == (self.context().deferred_transaction is Some),
    {
        self.context.deferred_transaction.is_some()
    }

    /// The waiting image of `home`.
    pub fn deferred_block(&self, home: PBlockId) -> (image: Option<Box<[u8; BLOCK_SIZE]>>)
        requires
            self.inv(),
        ensures
            match image {
                Some(bytes) => {
                    &&& holds_home(self.batch(), home)
                    &&& bytes@ == self.batch()[slot(self.batch(), home)].image@
                },
                None => !holds_home(self.batch(), home),
            },
    {
        match &self.context.deferred_transaction {
            Some(batch) => match batch.images().get(home) {
                Some(block) => Some(Box::new(*block.bytes())),
                None => None,
            },
            None => None,
        }
    }

    /// Whether the journal owns a block from `start` up to and without `end`.
    pub fn owns_block_range(&self, start: PBlockId, end: PBlockId) -> (owned: bool)
        ensures
            owned == exists|block: PBlockId|
                start <= block < end && self.context().journal_blocks@.contains(block),
    {
        broadcast use vstd::std_specs::btree::group_btree_axioms;

        let mut owned = false;
        for block in blocks: self.context.journal_blocks.iter()
            invariant
                blocks.seq().unref().to_set() == self.context().journal_blocks@,
                owned ==> exists|block: PBlockId|
                    start <= block < end && self.context().journal_blocks@.contains(block),
                !owned ==> forall|block: PBlockId| #[trigger]
                    self.context().journal_blocks@.contains(block) && start <= block < end
                        ==> exists|i: int|
                        blocks.index() <= i < blocks.seq().len() && *#[trigger] blocks.seq()[i]
                            == block,
        {
            assert(blocks.seq().unref()[blocks.index() as int] == *block);
            assert(blocks.seq().unref().to_set().contains(*block));
            if start <= *block && *block < end {
                owned = true;
            }
        }
        owned
    }

    /// The images that a transaction of `credits` blocks can hold, with those that wait.
    pub open spec fn reservation(&self, credits: usize) -> nat {
        self.batch().len() + credits as nat
    }

    /// Whether the log ring has room for `blocks` images.
    pub open spec fn has_room(&self, blocks: nat) -> bool {
        &&& blocks <= usize::MAX
        &&& log_countable(blocks, self.context().superblock.features)
        &&& log_blocks(blocks, self.context().superblock.features) <= self.ring()
    }

    /// Why no transaction of `credits` blocks can start.
    pub open spec fn start_refusal(&self, credits: usize) -> Option<ErrCode> {
        if credits == 0 {
            Some(ErrCode::EINVAL)
        } else if self.poisoned() {
            Some(ErrCode::EROFS)
        } else if self.writing() {
            Some(ErrCode::EAGAIN)
        } else if !self.has_room(self.reservation(credits)) {
            Some(ErrCode::E2BIG)
        } else {
            None
        }
    }

    /// What a started transaction takes from the backend.
    pub open spec fn handed_over(
        &self,
        after: &Self,
        credits: usize,
        transaction: Transaction,
    ) -> bool {
        &&& transaction.inv()
        &&& transaction.is_new(
            self.reservation(credits) as usize,
            false,
            self.context().deferred_transaction,
        )
        &&& after.writing()
        &&& !after.poisoned()
        &&& after.context() == (JournalContext {
            deferred_transaction: None,
            ..self.context()
        })
    }

    /// What starting a transaction does to the backend, and what it returns.
    pub open spec fn started(
        &self,
        after: &Self,
        credits: usize,
        outcome: Result<Transaction>,
    ) -> bool {
        match self.start_refusal(credits) {
            Some(code) => {
                &&& outcome == failed::<Transaction>(code)
                &&& *after == *self
            },
            None => outcome matches Ok(transaction) && self.handed_over(
                after,
                credits,
                transaction,
            ),
        }
    }

    /// What starting a transaction on top of images that wait does, and what it returns.
    pub open spec fn extended(
        &self,
        after: &Self,
        credits: usize,
        outcome: Result<Option<Transaction>>,
    ) -> bool {
        match self.start_refusal(credits) {
            Some(code) if code != ErrCode::E2BIG || self.context().deferred_transaction is Some => {
                &&& outcome == failed::<Option<Transaction>>(code)
                &&& *after == *self
            },
            _ => if self.context().deferred_transaction is None {
                &&& outcome == Ok::<Option<Transaction>, Ext4Error>(None)
                &&& *after == *self
            } else {
                &&& outcome matches Ok(Some(transaction))
                &&& self.handed_over(after, credits, transaction)
            },
        }
    }

    /// Starts a transaction of up to `credits` blocks, on top of the images that wait. A refusal
    /// leaves the backend as it was.
    pub fn start(&mut self, credits: usize) -> (transaction: Result<Transaction>)
        requires
            old(self).inv(),
        ensures
            final(self).inv(),
            old(self).started(final(self), credits, transaction),
    {
        if credits == 0 {
            return Err(Ext4Error::new(ErrCode::EINVAL));
        }
        if self.poisoned {
            return Err(Ext4Error::new(ErrCode::EROFS));
        }
        if self.writer {
            return Err(Ext4Error::new(ErrCode::EAGAIN));
        }
        self.writer = true;
        let pending: usize = match &self.context.deferred_transaction {
            Some(batch) => batch.images().len(),
            None => 0,
        };
        let total: usize = match pending.checked_add(credits) {
            Some(total) => total,
            None => {
                self.writer = false;
                return Err(Ext4Error::new(ErrCode::E2BIG));
            },
        };
        let fits = match self.fits(total) {
            Ok(fits) => fits,
            Err(error) => {
                self.writer = false;
                return Err(error);
            },
        };
        if !fits {
            self.writer = false;
            return Err(Ext4Error::new(ErrCode::E2BIG));
        }
        let deferred = self.context.deferred_transaction.take();
        Ok(Transaction::new(total, false, deferred))
    }

    /// Whether the log ring has room for `total` images.
    fn fits(&self, total: usize) -> (fits: Result<bool>)
        requires
            self.inv(),
        ensures
            match fits {
                Ok(room) => room == self.has_room(total as nat),
                Err(error) => !self.has_room(total as nat) && error.code == ErrCode::E2BIG,
            },
    {
        let needed: usize = match required_log_blocks(total, self.context.superblock.features) {
            Ok(needed) => needed,
            Err(error) => {
                return Err(error);
            },
        };
        match ring_len(&self.context.superblock) {
            Ok(available) => Ok(needed <= available),
            Err(error) => Err(error),
        }
    }

    /// Starts a transaction only when it can extend images that wait for a commit.
    pub fn start_if_deferred(&mut self, credits: usize) -> (transaction: Result<
        Option<Transaction>,
    >)
        requires
            old(self).inv(),
        ensures
            final(self).inv(),
            old(self).extended(final(self), credits, transaction),
    {
        if credits == 0 {
            return Err(Ext4Error::new(ErrCode::EINVAL));
        }
        if self.poisoned {
            return Err(Ext4Error::new(ErrCode::EROFS));
        }
        if self.writer {
            return Err(Ext4Error::new(ErrCode::EAGAIN));
        }
        self.writer = true;
        let pending: usize = match &self.context.deferred_transaction {
            Some(batch) => batch.images().len(),
            None => {
                self.writer = false;
                return Ok(None);
            },
        };
        let total: usize = match pending.checked_add(credits) {
            Some(total) => total,
            None => {
                self.writer = false;
                return Err(Ext4Error::new(ErrCode::E2BIG));
            },
        };
        let fits = match self.fits(total) {
            Ok(fits) => fits,
            Err(error) => {
                self.writer = false;
                return Err(error);
            },
        };
        if !fits {
            self.writer = false;
            return Err(Ext4Error::new(ErrCode::E2BIG));
        }
        let deferred = self.context.deferred_transaction.take();
        Ok(Some(Transaction::new(total, false, deferred)))
    }
}

impl DirectTransactionCore {
    /// Ends the transaction that holds the writer token.
    pub(crate) fn finish(&mut self, poison: bool)
        ensures
            !final(self).writing(),
            final(self).poisoned() == (old(self).poisoned() || poison),
            final(self).target() == old(self).target(),
    {
        if poison {
            self.poisoned = true;
        }
        self.writer = false;
    }

    /// The number of addressable blocks.
    pub(crate) fn target_blocks(&self) -> (count: u64)
        ensures
            count == self.target(),
    {
        self.target_blocks
    }
}

impl JournalTransactionCore {
    /// A backend is what its token, its poison state and its journal are.
    pub(crate) proof fn lemma_same(&self, other: &Self)
        ensures
            self.writing() == other.writing() && self.poisoned() == other.poisoned()
                && self.context() == other.context() ==> *self == *other,
    {
    }

    /// The journal.
    pub(crate) fn context_ref(&self) -> (context: &JournalContext)
        ensures
            *context == self.context(),
    {
        &self.context
    }

    /// Ends the transaction that holds the writer token.
    pub(crate) fn finish(&mut self, poison: bool)
        ensures
            !final(self).writing(),
            final(self).poisoned() == (old(self).poisoned() || poison),
            final(self).context() == old(self).context(),
    {
        if poison {
            self.poisoned = true;
        }
        self.writer = false;
    }

    /// Moves the journal past a checkpointed transaction.
    pub(crate) fn advance(
        &mut self,
        sequence: u32,
        head: u32,
        image: Box<[u8; SUPERBLOCK_BYTES]>,
    )
        ensures
            final(self).writing() == old(self).writing(),
            final(self).poisoned() == old(self).poisoned(),
            final(self).context() == (JournalContext {
                superblock: Superblock { sequence, start: 0, ..old(self).context().superblock },
                head,
                superblock_image: image,
                ..old(self).context()
            }),
    {
        self.context.superblock.sequence = sequence;
        self.context.superblock.start = 0;
        self.context.head = head;
        self.context.superblock_image = image;
    }

    /// Takes the writer token, unless it is taken.
    pub(crate) fn claim(&mut self) -> (claimed: bool)
        ensures
            claimed == !old(self).writing(),
            final(self).writing(),
            final(self).poisoned() == old(self).poisoned(),
            final(self).context() == old(self).context(),
    {
        let claimed = !self.writer;
        self.writer = true;
        claimed
    }

    /// Takes the images that wait for a commit.
    pub(crate) fn take_batch(&mut self) -> (batch: Option<DeferredTransaction>)
        ensures
            batch == old(self).context().deferred_transaction,
            final(self).writing() == old(self).writing(),
            final(self).poisoned() == old(self).poisoned(),
            final(self).context() == (JournalContext {
                deferred_transaction: None,
                ..old(self).context()
            }),
    {
        self.context.deferred_transaction.take()
    }

    /// Lets a batch wait for a commit.
    pub(crate) fn put_batch(&mut self, batch: DeferredTransaction)
        ensures
            final(self).writing() == old(self).writing(),
            final(self).poisoned() == old(self).poisoned(),
            final(self).context() == (JournalContext {
                deferred_transaction: Some(batch),
                ..old(self).context()
            }),
    {
        self.context.deferred_transaction = Some(batch);
    }
}

/// The journal after a transaction gives its batch back.
pub open spec fn restored(
    context: JournalContext,
    deferred: Option<DeferredTransaction>,
) -> JournalContext {
    match deferred {
        Some(_) => JournalContext { deferred_transaction: deferred, ..context },
        None => context,
    }
}

impl Transaction {
    /// The number of distinct home blocks that the transaction may hold.
    pub closed spec fn credits(&self) -> usize {
        self.credits
    }

    /// The images staged by this transaction.
    pub closed spec fn staged(&self) -> Seq<StagedBlock> {
        self.staged@
    }

    /// The earlier batch that the transaction extends.
    pub closed spec fn deferred(&self) -> Option<DeferredTransaction> {
        self.deferred
    }

    /// Whether first reads keep what the home block held.
    pub closed spec fn keeps_originals(&self) -> bool {
        self.preserve_originals
    }

    /// The images of the earlier batch.
    pub open spec fn batch(&self) -> Seq<StagedBlock> {
        batch_of(self.deferred())
    }

    /// Images are in order, and their homes are covered by credits.
    pub open spec fn inv(&self) -> bool {
        &&& ordered(self.staged())
        &&& ordered(self.batch())
        &&& distinct_homes(self.batch(), self.staged()) <= self.credits()
    }

    /// Whether nothing has been staged yet.
    pub open spec fn is_new(
        &self,
        credits: usize,
        originals: bool,
        deferred: Option<DeferredTransaction>,
    ) -> bool {
        &&& self.credits() == credits
        &&& self.keeps_originals() == originals
        &&& self.deferred() == deferred
        &&& self.staged() == Seq::<StagedBlock>::empty()
    }

    /// Whether an image of `home` costs no further credit.
    pub open spec fn covers(&self, home: PBlockId) -> bool {
        holds_home(self.staged(), home) || holds_home(self.batch(), home)
    }

    /// Whether every credit is used.
    pub open spec fn full(&self) -> bool {
        distinct_homes(self.batch(), self.staged()) >= self.credits()
    }

    /// The image of `home` that the transaction would commit.
    pub open spec fn image_of(&self, home: PBlockId) -> Seq<u8>
        recommends
            self.covers(home),
    {
        if holds_home(self.staged(), home) {
            self.staged()[slot(self.staged(), home)].image@
        } else {
            self.batch()[slot(self.batch(), home)].image@
        }
    }

    /// The transaction differs from `before` in its staged images alone.
    pub open spec fn restaged(&self, before: &Self, staged: Seq<StagedBlock>) -> bool {
        &&& self.staged() == staged
        &&& self.credits() == before.credits()
        &&& self.deferred() == before.deferred()
        &&& self.keeps_originals() == before.keeps_originals()
    }

    pub(crate) fn new(
        credits: usize,
        preserve_originals: bool,
        deferred: Option<DeferredTransaction>,
    ) -> (transaction: Transaction)
        ensures
            transaction.is_new(credits, preserve_originals, deferred),
    {
        Transaction { credits, staged: StagedBlocks::new(), deferred, preserve_originals }
    }

    /// The number of distinct homes of the transaction and its batch.
    pub(crate) fn total_staged_len(&self) -> (total: usize)
        requires
            self.inv(),
        ensures
            total == distinct_homes(self.batch(), self.staged()),
    {
        let batch: usize = match &self.deferred {
            Some(batch) => batch.images().len(),
            None => 0,
        };
        let count: usize = self.staged.len();
        let mut total: usize = batch;
        let mut done: usize = 0;
        assert(self.staged().take(count as int) =~= self.staged());
        while done < count
            invariant
                done <= count,
                count == self.staged().len(),
                self.inv(),
                total == self.batch().len() + count_absent(
                    self.batch(),
                    self.staged().take(done as int),
                ),
            decreases count - done,
        {
            let home: PBlockId = self.staged.at(done).home();
            let waits = match &self.deferred {
                Some(batch) => batch.images().contains(home),
                None => false,
            };
            proof {
                let next = self.staged().take(done + 1);
                assert(next.drop_last() =~= self.staged().take(done as int));
                lemma_count_grows(self.batch(), self.staged(), done + 1);
                assert(waits == holds_home(self.batch(), home));
                assert(next.last().home == home);
            }
            if !waits {
                total = total + 1;
            }
            done = done + 1;
        }
        assert(self.staged().take(count as int) =~= self.staged());
        total
    }

    /// Whether an image of `home` waits in the batch.
    fn waits(&self, home: PBlockId) -> (waits: bool)
        requires
            self.inv(),
        ensures
            waits == holds_home(self.batch(), home),
    {
        match &self.deferred {
            Some(batch) => batch.images().contains(home),
            None => false,
        }
    }

    /// The image of `home` that the transaction would commit.
    pub fn image(&self, home: PBlockId) -> (image: Option<Box<[u8; BLOCK_SIZE]>>)
        requires
            self.inv(),
        ensures
            match image {
                Some(bytes) => self.covers(home) && bytes@ == self.image_of(home),
                None => !self.covers(home),
            },
    {
        match self.staged.get(home) {
            Some(block) => {
                return Some(Box::new(*block.bytes()));
            },
            None => {},
        }
        match &self.deferred {
            Some(batch) => match batch.images().get(home) {
                Some(block) => Some(Box::new(*block.bytes())),
                None => None,
            },
            None => None,
        }
    }

    /// Makes `image` the final image of `home`.
    ///
    /// Staging a home again consumes no further credit.
    pub fn stage(&mut self, home: PBlockId, image: Box<[u8; BLOCK_SIZE]>) -> (outcome: Result<()>)
        requires
            old(self).inv(),
        ensures
            final(self).inv(),
            if !old(self).covers(home) && old(self).full() {
                &&& outcome == failed::<()>(ErrCode::E2BIG)
                &&& *final(self) == *old(self)
            } else {
                &&& outcome == Ok::<(), Ext4Error>(())
                &&& final(self).restaged(
                    old(self),
                    with_block(old(self).staged(), StagedBlock { home, original: None, image }),
                )
            },
    {
        if !self.staged.contains(home) && !self.waits(home) && self.total_staged_len()
            >= self.credits {
            return Err(Ext4Error::new(ErrCode::E2BIG));
        }
        let block = StagedBlock { home, original: None, image };
        proof {
            lemma_distinct_with_block(self.batch(), self.staged(), block);
        }
        self.staged.insert(block);
        Ok(())
    }

    /// The block that the first access to `home` stages, where `read` is what the device holds.
    pub open spec fn first_image(&self, home: PBlockId, read: Seq<u8>, block: StagedBlock) -> bool {
        &&& block.home == home
        &&& if holds_home(self.batch(), home) {
            &&& block.original is None
            &&& block.image@ == self.batch()[slot(self.batch(), home)].image@
        } else {
            &&& block.image@ == read
            &&& if self.keeps_originals() {
                block.original matches Some(original) && original@ == read
            } else {
                block.original is None
            }
        }
    }

    /// The staged images once `home` has been accessed.
    pub open spec fn accessed(
        &self,
        staged: Seq<StagedBlock>,
        log: Seq<Event>,
        log_after: Seq<Event>,
        home: PBlockId,
    ) -> bool {
        if holds_home(self.staged(), home) {
            &&& staged == self.staged()
            &&& log_after == log
        } else if holds_home(self.batch(), home) {
            &&& log_after == log
            &&& exists|block: StagedBlock|
                {
                    &&& #[trigger] self.first_image(home, Seq::empty(), block)
                    &&& staged == with_block(self.staged(), block)
                }
        } else {
            &&& !self.full()
            &&& exists|read: Block, block: StagedBlock|
                {
                    &&& log_after == log.push(Event::ReadBlock { id: home, reply: Ok(read) })
                    &&& #[trigger] self.first_image(home, read.data@, block)
                    &&& staged == with_block(self.staged(), block)
                }
        }
    }

    /// Why `home` cannot be accessed.
    pub open spec fn not_accessed(
        &self,
        log: Seq<Event>,
        log_after: Seq<Event>,
        home: PBlockId,
        error: Ext4Error,
    ) -> bool {
        &&& !self.covers(home)
        &&& if self.full() {
            &&& error.code == ErrCode::E2BIG
            &&& log_after == log
        } else {
            log_after == log.push(Event::ReadBlock { id: home, reply: Err(error) })
        }
    }

    /// What replacing bytes of the image of `home` does.
    pub open spec fn patched(
        &self,
        after: &Self,
        log: Seq<Event>,
        log_after: Seq<Event>,
        home: PBlockId,
        at: int,
        patch: Seq<u8>,
        outcome: Result<()>,
    ) -> bool {
        match outcome {
            Ok(_) => exists|staged: Seq<StagedBlock>, image: [u8; BLOCK_SIZE]|
                {
                    &&& #[trigger] self.accessed(staged, log, log_after, home)
                    &&& image@ == splice(block_of(staged, home).image@, at, patch)
                    &&& after.restaged(self, #[trigger] with_image(staged, home, image))
                },
            Err(error) => *after == *self && self.not_accessed(log, log_after, home, error),
        }
    }

    /// Replaces bytes of the image of `home`.
    pub fn patch<D: BlockDevice>(
        &mut self,
        io: &mut Io<D>,
        home: PBlockId,
        at: usize,
        patch: &[u8],
    ) -> (outcome: Result<()>)
        requires
            old(self).inv(),
            at + patch@.len() <= BLOCK_SIZE,
        ensures
            old(io).grew_to(final(io)),
            final(self).inv(),
            old(self).patched(
                final(self),
                old(io).log(),
                final(io).log(),
                home,
                at as int,
                patch@,
                outcome,
            ),
    {
        match self.read_for_update(io, home) {
            Ok(bytes) => {
                put_bytes(bytes, at, patch);
                Ok(())
            },
            Err(error) => Err(error),
        }
    }

    /// The transaction-private final image of `home`, for mutation.
    ///
    /// The first access takes the image from the batch or reads the device, and consumes a credit
    /// in the second case; later accesses return the same image.
    pub fn read_for_update<D: BlockDevice>(&mut self, io: &mut Io<D>, home: PBlockId) -> (image:
        Result<&mut [u8; BLOCK_SIZE]>)
        requires
            old(self).inv(),
        ensures
            old(io).grew_to(final(io)),
            final(self).inv(),
            match image {
                Ok(bytes) => exists|staged: Seq<StagedBlock>|
                    {
                        &&& #[trigger] old(self).accessed(
                            staged,
                            old(io).log(),
                            final(io).log(),
                            home,
                        )
                        &&& bytes@ == block_of(staged, home).image@
                        &&& final(self).restaged(
                            old(self),
                            with_image(staged, home, *final(bytes)),
                        )
                    },
                Err(error) => {
                    &&& *final(self) == *old(self)
                    &&& old(self).not_accessed(old(io).log(), final(io).log(), home, error)
                },
            },
    {
        let ghost before = *self;
        let ghost log = io.log();
        if !self.staged.contains(home) {
            let waiting: Option<[u8; BLOCK_SIZE]> = match &self.deferred {
                Some(batch) => match batch.images().get(home) {
                    Some(block) => Some(*block.bytes()),
                    None => None,
                },
                None => None,
            };
            let block = match waiting {
                Some(image) => StagedBlock { home, original: None, image: Box::new(image) },
                None => {
                    if self.total_staged_len() >= self.credits {
                        return Err(Ext4Error::new(ErrCode::E2BIG));
                    }
                    match io.read_block(home) {
                        Ok(read) => {
                            let original: Option<Box<[u8; BLOCK_SIZE]>> =
                                if self.preserve_originals {
                                Some(Box::new(*read.data))
                            } else {
                                None
                            };
                            let ghost data = read.data@;
                            let block = StagedBlock { home, original, image: read.data };
                            assert(self.first_image(home, data, block));
                            block
                        },
                        Err(error) => {
                            return Err(error);
                        },
                    }
                },
            };
            proof {
                lemma_distinct_with_block(self.batch(), self.staged(), block);
                lemma_slot_of_inserted(self.staged(), block);
                assert(holds_home(self.batch(), home) ==> self.first_image(
                    home,
                    Seq::empty(),
                    block,
                ));
            }
            self.staged.insert(block);
        }
        proof {
            lemma_with_image(self.batch(), self.staged(), home);
        }
        let ghost staged = self.staged();
        assert(before.accessed(staged, log, io.log(), home));
        let bytes = self.staged.image_mut(home);
        assert(ordered(with_image(staged, home, *final(bytes))));
        Ok(bytes)
    }

    /// The contents of `home` as the transaction sees it.
    pub fn read<D: BlockDevice>(&self, io: &mut Io<D>, home: PBlockId) -> (view: Result<
        BlockView<'_>,
    >)
        requires
            self.inv(),
        ensures
            old(io).grew_to(final(io)),
            if self.covers(home) {
                &&& *final(io) == *old(io)
                &&& view matches Ok(view)
                &&& view.contents() == self.image_of(home)
            } else {
                match view {
                    Ok(view) => exists|read: Block|
                        {
                            &&& #[trigger] view.contents() == read.data@
                            &&& old(io).made(
                                final(io),
                                Event::ReadBlock { id: home, reply: Ok(read) },
                            )
                        },
                    Err(error) => old(io).made(
                        final(io),
                        Event::ReadBlock { id: home, reply: Err(error) },
                    ),
                }
            },
    {
        match self.staged.get(home) {
            Some(block) => {
                return Ok(BlockView::Staged(block.bytes()));
            },
            None => {},
        }
        match &self.deferred {
            Some(batch) => match batch.images().get(home) {
                Some(block) => {
                    return Ok(BlockView::Staged(block.bytes()));
                },
                None => {},
            },
            None => {},
        }
        match io.read_block(home) {
            Ok(block) => {
                let view = BlockView::Device(block);
                assert(view.contents() == block.data@);
                Ok(view)
            },
            Err(error) => Err(error),
        }
    }

    /// Gives the transaction up: its images are dropped, and an earlier batch waits again.
    pub fn abort(self, core: TransactionCoreRef<'_>)
        ensures
            match core {
                TransactionCoreRef::Journal(journal) => {
                    &&& !final(journal).writing()
                    &&& final(journal).poisoned() == journal.poisoned()
                    &&& final(journal).context() == restored(journal.context(), self.deferred())
                },
                TransactionCoreRef::Direct(direct) => {
                    &&& !final(direct).writing()
                    &&& final(direct).poisoned() == direct.poisoned()
                    &&& final(direct).target() == direct.target()
                },
            },
    {
        match core {
            TransactionCoreRef::Journal(journal) => self.leave(journal),
            TransactionCoreRef::Direct(direct) => {
                direct.writer = false;
            },
        }
    }

    /// A transaction of the images that wait for a commit.
    pub(crate) fn from_deferred(batch: DeferredTransaction) -> (transaction: Transaction)
        ensures
            transaction.staged() == batch@,
            transaction.deferred() is None,
            transaction.credits() == batch@.len(),
            !transaction.keeps_originals(),
    {
        let staged = batch.into_images();
        let credits: usize = staged.len();
        Transaction { credits, staged, deferred: None, preserve_originals: false }
    }

    /// The staged images.
    pub fn staged_blocks(&self) -> (staged: &StagedBlocks)
        ensures
            staged@ == self.staged(),
    {
        &self.staged
    }

    /// The staged images, on top of the earlier batch.
    pub(crate) fn absorb_deferred_staged(self) -> (staged: StagedBlocks)
        requires
            self.inv(),
        ensures
            staged.inv(),
            staged@ == overlay(self.batch(), self.staged()),
    {
        let mut staged = self.staged;
        match self.deferred {
            Some(batch) => {
                staged.absorb(batch.into_images());
            },
            None => {},
        }
        staged
    }

    /// Gives the batch and the writer token back.
    pub(crate) fn leave(self, journal: &mut JournalTransactionCore)
        ensures
            !final(journal).writing(),
            final(journal).poisoned() == old(journal).poisoned(),
            final(journal).context() == restored(old(journal).context(), self.deferred()),
    {
        match self.deferred {
            Some(batch) => {
                journal.context.deferred_transaction = Some(batch);
            },
            None => {},
        }
        journal.writer = false;
    }
}

} // verus!
