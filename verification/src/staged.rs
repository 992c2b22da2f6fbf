//! Transaction-private metadata images, kept in ascending order of their home block.

use vstd::prelude::*;
use crate::{BLOCK_SIZE, PBlockId};

verus! {

/// A transaction-private metadata image.
pub struct StagedBlock {
    /// The block that the image belongs to.
    pub home: PBlockId,
    /// What the home block held when it was first read, where a rollback may need it.
    pub original: Option<Box<[u8; BLOCK_SIZE]>>,
    /// The bytes that are to become the contents of the home block.
    pub image: Box<[u8; BLOCK_SIZE]>,
}

impl StagedBlock {
    /// The block that the image belongs to.
    pub fn home(&self) -> (home: PBlockId)
        ensures
            home == self.home,
    {
        self.home
    }

    /// The staged bytes.
    pub fn bytes(&self) -> (bytes: &[u8; BLOCK_SIZE])
        ensures
            bytes@ == self.image@,
    {
        &self.image
    }
}

/// `blocks` in strictly ascending order of their home blocks.
pub open spec fn ordered(blocks: Seq<StagedBlock>) -> bool {
    forall|i: int, j: int|
        0 <= i < j < blocks.len() ==> blocks[i].home < blocks[j].home
}

/// The home blocks of `blocks`.
pub open spec fn holds_home(blocks: Seq<StagedBlock>, home: PBlockId) -> bool {
    exists|i: int| 0 <= i < blocks.len() && blocks[i].home == home
}

/// The position at which the image of `home` stands or belongs.
pub open spec fn is_slot(blocks: Seq<StagedBlock>, home: PBlockId, at: int) -> bool {
    &&& 0 <= at <= blocks.len()
    &&& forall|i: int| 0 <= i < at ==> blocks[i].home < home
    &&& forall|i: int| at <= i < blocks.len() ==> home <= blocks[i].home
}

/// The position at which the image of `home` stands or belongs in ordered blocks.
pub open spec fn slot(blocks: Seq<StagedBlock>, home: PBlockId) -> int {
    choose|at: int| is_slot(blocks, home, at)
}

/// The staged block of `home`.
pub open spec fn block_of(blocks: Seq<StagedBlock>, home: PBlockId) -> StagedBlock {
    blocks[slot(blocks, home)]
}

/// `blocks` with `block` as the only image of its home.
pub open spec fn with_block(blocks: Seq<StagedBlock>, block: StagedBlock) -> Seq<StagedBlock> {
    let at = slot(blocks, block.home);
    if at < blocks.len() && blocks[at].home == block.home {
        blocks.update(at, block)
    } else {
        blocks.insert(at, block)
    }
}

/// Staged images with the image of `home` replaced.
pub open spec fn with_image(
    blocks: Seq<StagedBlock>,
    home: PBlockId,
    image: [u8; BLOCK_SIZE],
) -> Seq<StagedBlock> {
    let at = slot(blocks, home);
    blocks.update(
        at,
        StagedBlock { home, original: blocks[at].original, image: Box::new(image) },
    )
}

/// `newer` together with those blocks of `older` whose home it lacks.
pub open spec fn overlay(older: Seq<StagedBlock>, newer: Seq<StagedBlock>) -> Seq<StagedBlock>
    decreases older.len(),
{
    if older.len() == 0 {
        newer
    } else {
        overlay(
            older.drop_last(),
            if holds_home(newer, older.last().home) {
                newer
            } else {
                with_block(newer, older.last())
            },
        )
    }
}

/// The block without what its home held before.
pub open spec fn without_original(block: StagedBlock) -> StagedBlock {
    StagedBlock { home: block.home, original: None, image: block.image }
}

/// The blocks without what their homes held before.
pub open spec fn without_originals(blocks: Seq<StagedBlock>) -> Seq<StagedBlock> {
    blocks.map_values(|block: StagedBlock| without_original(block))
}

/// Home block and image of each staged block, in order.
pub open spec fn images(blocks: Seq<StagedBlock>) -> Seq<(PBlockId, Seq<u8>)> {
    Seq::new(blocks.len(), |i: int| (blocks[i].home, blocks[i].image@))
}

/// The number of distinct homes in two sets of blocks.
pub open spec fn distinct_homes(older: Seq<StagedBlock>, newer: Seq<StagedBlock>) -> nat {
    older.len() + count_absent(older, newer)
}

/// How many of `newer` have a home that `older` lacks.
pub open spec fn count_absent(older: Seq<StagedBlock>, newer: Seq<StagedBlock>) -> nat
    decreases newer.len(),
{
    if newer.len() == 0 {
        0
    } else if holds_home(older, newer.last().home) {
        count_absent(older, newer.drop_last())
    } else {
        count_absent(older, newer.drop_last()) + 1
    }
}

/// Metadata images with at most one image for each home block.
pub struct StagedBlocks {
    pub(crate) blocks: Vec<StagedBlock>,
}

impl View for StagedBlocks {
    type V = Seq<StagedBlock>;

    closed spec fn view(&self) -> Seq<StagedBlock> {
        self.blocks@
    }
}

impl StagedBlocks {
    /// The images are in strictly ascending order of their home blocks.
    pub open spec fn inv(&self) -> bool {
        ordered(self@)
    }

    /// No image.
    pub fn new() -> (blocks: Self)
        ensures
            blocks.inv(),
            blocks@ == Seq::<StagedBlock>::empty(),
    {
        StagedBlocks { blocks: Vec::new() }
    }

    /// How many images there are.
    pub fn len(&self) -> (count: usize)
        ensures
            count == self@.len(),
    {
        self.blocks.len()
    }

    /// Whether there is no image.
    pub fn is_empty(&self) -> (empty: bool)
        ensures
            empty == (self@.len() == 0),
    {
        self.blocks.len() == 0
    }

    /// The image at a position of the ascending order.
    pub fn at(&self, index: usize) -> (block: &StagedBlock)
        requires
            index < self@.len(),
        ensures
            *block == self@[index as int],
    {
        &self.blocks[index]
    }

    /// The position at which the image of `home` stands or belongs.
    pub(crate) fn find(&self, home: PBlockId) -> (at: usize)
        requires
            self.inv(),
        ensures
            at as int == slot(self@, home),
            is_slot(self@, home, at as int),
            holds_home(self@, home) <==> at < self@.len() && self@[at as int].home == home,
    {
        let mut at: usize = 0;
        while at < self.blocks.len() && self.blocks[at].home < home
            invariant
                at <= self.blocks.len(),
                forall|i: int| 0 <= i < at ==> self@[i].home < home,
            decreases self.blocks.len() - at,
        {
            at = at + 1;
        }
        assert(is_slot(self@, home, at as int));
        proof {
            lemma_slot_unique(self@, home, at as int);
        }
        at
    }

    /// Whether there is an image of `home`.
    pub fn contains(&self, home: PBlockId) -> (present: bool)
        requires
            self.inv(),
        ensures
            present == holds_home(self@, home),
    {
        let at: usize = self.find(home);
        at < self.blocks.len() && self.blocks[at].home == home
    }

    /// The image of `home`.
    pub fn get(&self, home: PBlockId) -> (block: Option<&StagedBlock>)
        requires
            self.inv(),
        ensures
            match block {
                Some(found) => {
                    &&& found.home == home
                    &&& slot(self@, home) < self@.len()
                    &&& *found == self@[slot(self@, home)]
                    &&& holds_home(self@, home)
                },
                None => !holds_home(self@, home),
            },
    {
        let at: usize = self.find(home);
        if at < self.blocks.len() && self.blocks[at].home == home {
            Some(&self.blocks[at])
        } else {
            None
        }
    }

    /// Makes `block` the only image of its home.
    pub(crate) fn insert(&mut self, block: StagedBlock)
        requires
            old(self).inv(),
        ensures
            final(self).inv(),
            final(self)@ == with_block(old(self)@, block),
    {
        let at: usize = self.find(block.home);
        if at < self.blocks.len() && self.blocks[at].home == block.home {
            self.blocks[at] = block;
        } else {
            self.blocks.insert(at, block);
        }
    }

    /// The image of `home`, for mutation.
    pub(crate) fn image_mut(&mut self, home: PBlockId) -> (image: &mut [u8; BLOCK_SIZE])
        requires
            old(self).inv(),
            holds_home(old(self)@, home),
        ensures
            ({
                let at = slot(old(self)@, home);
                let block = old(self)@[at];
                &&& is_slot(old(self)@, home, at)
                &&& at < old(self)@.len()
                &&& block.home == home
                &&& image@ == block.image@
                &&& final(self)@ == old(self)@.update(
                    at,
                    StagedBlock {
                        home,
                        original: block.original,
                        image: Box::new(*final(image)),
                    },
                )
                &&& final(self).inv()
            }),
    {
        let at: usize = self.find(home);
        &mut self.blocks[at].image
    }

    /// Adds those blocks of `older` whose home has no image yet.
    pub(crate) fn absorb(&mut self, older: StagedBlocks)
        requires
            old(self).inv(),
        ensures
            final(self).inv(),
            final(self)@ == overlay(older@, old(self)@),
    {
        let mut rest = older;
        loop
            invariant
                self.inv(),
                overlay(rest@, self@) == overlay(older@, old(self)@),
            ensures
                self.inv(),
                self@ == overlay(older@, old(self)@),
            decreases rest@.len(),
        {
            match rest.blocks.pop() {
                Some(block) => {
                    if !self.contains(block.home) {
                        self.insert(block);
                    }
                },
                None => {
                    break;
                },
            }
        }
    }

    /// Forgets what the home blocks held before.
    pub(crate) fn drop_originals(&mut self)
        requires
            old(self).inv(),
        ensures
            final(self).inv(),
            final(self)@ == without_originals(old(self)@),
    {
        let count: usize = self.blocks.len();
        let mut done: usize = 0;
        while done < count
            invariant
                done <= count,
                count == self@.len(),
                count == old(self)@.len(),
                self.inv(),
                forall|i: int| 0 <= i < done ==> self@[i] == without_original(old(self)@[i]),
                forall|i: int| done <= i < count ==> self@[i] == old(self)@[i],
            decreases count - done,
        {
            self.blocks[done].original = None;
            done = done + 1;
        }
        assert(self@ =~= without_originals(old(self)@));
    }
}

/// The number of `newer` blocks that the homes of `older` lack grows by one for each insertion of
/// a new home, wherever it is inserted.
pub proof fn lemma_count_insert(
    older: Seq<StagedBlock>,
    newer: Seq<StagedBlock>,
    at: int,
    block: StagedBlock,
)
    requires
        0 <= at <= newer.len(),
    ensures
        count_absent(older, newer.insert(at, block)) == count_absent(older, newer) + if holds_home(
            older,
            block.home,
        ) {
            0nat
        } else {
            1
        },
    decreases newer.len(),
{
    let grown = newer.insert(at, block);
    if at == newer.len() {
        assert(grown.drop_last() =~= newer);
    } else {
        assert(grown.drop_last() =~= newer.drop_last().insert(at, block));
        lemma_count_insert(older, newer.drop_last(), at, block);
    }
}

/// Replacing an image keeps the number of homes.
pub proof fn lemma_count_update(
    older: Seq<StagedBlock>,
    newer: Seq<StagedBlock>,
    at: int,
    block: StagedBlock,
)
    requires
        0 <= at < newer.len(),
        newer[at].home == block.home,
    ensures
        count_absent(older, newer.update(at, block)) == count_absent(older, newer),
    decreases newer.len(),
{
    let changed = newer.update(at, block);
    if at == newer.len() - 1 {
        assert(changed.drop_last() =~= newer.drop_last());
    } else {
        assert(changed.drop_last() =~= newer.drop_last().update(at, block));
        lemma_count_update(older, newer.drop_last(), at, block);
    }
}

/// Staging an image adds one home exactly where neither set of blocks held it.
pub proof fn lemma_distinct_with_block(
    older: Seq<StagedBlock>,
    newer: Seq<StagedBlock>,
    block: StagedBlock,
)
    requires
        ordered(newer),
    ensures
        ordered(with_block(newer, block)),
        distinct_homes(older, with_block(newer, block)) == distinct_homes(older, newer)
            + if holds_home(older, block.home) || holds_home(newer, block.home) {
            0nat
        } else {
            1
        },
        forall|home: PBlockId|
            holds_home(with_block(newer, block), home) <==> holds_home(newer, home) || home
                == block.home,
{
    lemma_slot_exists(newer, block.home);
    let at = slot(newer, block.home);
    let grown = with_block(newer, block);
    if at < newer.len() && newer[at].home == block.home {
        lemma_count_update(older, newer, at, block);
    } else {
        lemma_count_insert(older, newer, at, block);
        if holds_home(newer, block.home) {
            let i = choose|i: int| 0 <= i < newer.len() && newer[i].home == block.home;
            assert(i >= at);
            assert(newer[at].home <= newer[i].home);
            assert(false);
        }
    }
    assert(grown[at] == block);
    assert forall|home: PBlockId|
        holds_home(grown, home) <==> holds_home(newer, home) || home == block.home by {
        if holds_home(newer, home) {
            let i = choose|i: int| 0 <= i < newer.len() && newer[i].home == home;
            if grown.len() == newer.len() {
                assert(grown[i].home == home);
            } else if i < at {
                assert(grown[i].home == home);
            } else {
                assert(grown[i + 1].home == home);
            }
        }
        if holds_home(grown, home) && home != block.home {
            let i = choose|i: int| 0 <= i < grown.len() && grown[i].home == home;
            if grown.len() == newer.len() {
                assert(newer[i].home == home);
            } else if i < at {
                assert(newer[i].home == home);
            } else {
                assert(newer[i - 1].home == home);
            }
        }
    }
}

/// Fewer images have at most as many homes.
pub proof fn lemma_count_grows(older: Seq<StagedBlock>, newer: Seq<StagedBlock>, count: int)
    requires
        0 <= count <= newer.len(),
    ensures
        count_absent(older, newer.take(count)) <= count_absent(older, newer),
    decreases newer.len(),
{
    if count < newer.len() {
        lemma_count_grows(older, newer.drop_last(), count);
        assert(newer.drop_last().take(count) =~= newer.take(count));
    } else {
        assert(newer.take(count) =~= newer);
    }
}

/// A staged image is found under its home.
pub proof fn lemma_slot_of_inserted(blocks: Seq<StagedBlock>, block: StagedBlock)
    requires
        ordered(blocks),
    ensures
        ordered(with_block(blocks, block)),
        holds_home(with_block(blocks, block), block.home),
        slot(with_block(blocks, block), block.home) == slot(blocks, block.home),
        0 <= slot(blocks, block.home) < with_block(blocks, block).len(),
        with_block(blocks, block)[slot(blocks, block.home)] == block,
{
    lemma_slot_exists(blocks, block.home);
    lemma_distinct_with_block(blocks, blocks, block);
    let at = slot(blocks, block.home);
    let grown = with_block(blocks, block);
    assert(grown[at] == block);
    assert(is_slot(grown, block.home, at));
    lemma_slot_unique(grown, block.home, at);
}

/// Changing the bytes of an image keeps the homes and their order.
pub proof fn lemma_with_image(older: Seq<StagedBlock>, newer: Seq<StagedBlock>, home: PBlockId)
    requires
        ordered(newer),
        holds_home(newer, home),
    ensures
        forall|image: [u8; BLOCK_SIZE]|
            {
                &&& ordered(#[trigger] with_image(newer, home, image))
                &&& distinct_homes(older, with_image(newer, home, image)) == distinct_homes(
                    older,
                    newer,
                )
            },
{
    lemma_slot_exists(newer, home);
    let at = slot(newer, home);
    let held = choose|i: int| 0 <= i < newer.len() && newer[i].home == home;
    assert(at <= held);
    assert(newer[at].home <= newer[held].home);
    assert forall|image: [u8; BLOCK_SIZE]|
        {
            &&& ordered(#[trigger] with_image(newer, home, image))
            &&& distinct_homes(older, with_image(newer, home, image)) == distinct_homes(
                older,
                newer,
            )
        } by {
        let block = StagedBlock { home, original: newer[at].original, image: Box::new(image) };
        lemma_count_update(older, newer, at, block);
    }
}

/// Ordered blocks have a position for every home.
pub proof fn lemma_slot_exists(blocks: Seq<StagedBlock>, home: PBlockId)
    requires
        ordered(blocks),
    ensures
        is_slot(blocks, home, slot(blocks, home)),
    decreases blocks.len(),
{
    if blocks.len() == 0 {
        assert(is_slot(blocks, home, 0));
    } else if blocks.last().home < home {
        assert(is_slot(blocks, home, blocks.len() as int));
    } else {
        let front = blocks.drop_last();
        lemma_slot_exists(front, home);
        let at = slot(front, home);
        assert forall|i: int| 0 <= i < at implies blocks[i].home < home by {
            assert(front[i].home < home);
        }
        assert forall|i: int| at <= i < blocks.len() implies home <= blocks[i].home by {
            if i < front.len() {
                assert(home <= front[i].home);
            }
        }
        assert(is_slot(blocks, home, at));
    }
}

/// The overlay of two sets of blocks holds the homes of both, in order, and each home once.
pub proof fn lemma_overlay(older: Seq<StagedBlock>, newer: Seq<StagedBlock>)
    requires
        ordered(older),
        ordered(newer),
    ensures
        ordered(overlay(older, newer)),
        forall|home: PBlockId|
            holds_home(overlay(older, newer), home) <==> holds_home(older, home) || holds_home(
                newer,
                home,
            ),
    decreases older.len(),
{
    if older.len() > 0 {
        let last = older.last();
        let front = older.drop_last();
        let next = if holds_home(newer, last.home) {
            newer
        } else {
            with_block(newer, last)
        };
        lemma_distinct_with_block(older, newer, last);
        lemma_overlay(front, next);
        assert forall|home: PBlockId|
            holds_home(older, home) <==> holds_home(front, home) || home == last.home by {
            if holds_home(older, home) {
                let i = choose|i: int| 0 <= i < older.len() && older[i].home == home;
                if i < front.len() {
                    assert(front[i].home == home);
                }
            }
            if holds_home(front, home) {
                let i = choose|i: int| 0 <= i < front.len() && front[i].home == home;
                assert(older[i].home == home);
            }
            assert(older[older.len() - 1].home == last.home);
        }
    }
}

/// There is only one position at which an image stands or belongs.
pub proof fn lemma_slot_unique(blocks: Seq<StagedBlock>, home: PBlockId, at: int)
    requires
        is_slot(blocks, home, at),
    ensures
        slot(blocks, home) == at,
{
    let other = slot(blocks, home);
    assert(is_slot(blocks, home, other));
    if other < at {
        assert(blocks[other].home < home);
    } else if at < other {
        assert(blocks[at].home < home);
    }
}

/// Publishes metadata images once the selected backend has passed its commit point.
///
/// Journal commits publish after a durable checkpoint; direct commits publish after every
/// synchronous home-block write has succeeded.
///
/// `answers_pending` and `answers_publish` name what the calls may do; they hold of everything
/// unless an implementation says more.
pub trait CachePublisher {
    /// Whether publishing pending images may leave the publisher as `after`.
    open spec fn answers_pending(&self, after: &Self, blocks: Seq<(PBlockId, Seq<u8>)>) -> bool {
        true
    }

    /// Whether publishing written images may leave the publisher as `after`.
    open spec fn answers_publish(&self, after: &Self, blocks: Seq<(PBlockId, Seq<u8>)>) -> bool {
        true
    }

    /// Publishes the in-memory view of a deferred transaction, whose images are not durable yet.
    fn publish_pending(&mut self, blocks: &StagedBlocks)
        ensures
            old(self).answers_pending(final(self), images(blocks@)),
    ;

    /// Publishes images whose home blocks have been written.
    fn publish(&mut self, blocks: &StagedBlocks)
        ensures
            old(self).answers_publish(final(self), images(blocks@)),
    ;
}

} // verus!
