//! A bounded cache of file ranges that are known to be mapped.
//!
//! The cache is advisory: an entry counts only in the epoch in which it was published, and every
//! change of a mapping starts a new epoch.

use vstd::prelude::*;
use crate::range::WriteLogicalRange;
use crate::InodeId;

verus! {

/// Number of entries.
pub const PREPARED_EXTENT_SLOTS: usize = 64;

/// A range of a file that was mapped in an epoch.
#[derive(Clone, Copy)]
pub struct PreparedExtent {
    pub inode: InodeId,
    pub epoch: usize,
    pub first_lblock: u32,
    pub last_lblock: u32,
}

/// The answer to a probe, with the epoch in which it was given.
#[derive(Clone, Copy)]
pub struct PreparedExtentProbe {
    pub hit: bool,
    pub token: usize,
}

/// The cache.
pub struct PreparedExtentCache {
    epoch: usize,
    next_slot: usize,
    slots: [Option<PreparedExtent>; PREPARED_EXTENT_SLOTS],
    hits: usize,
    misses: usize,
    overwrites: usize,
    epoch_invalidations: usize,
}

/// The next value of a counter that stays at its maximum.
pub open spec fn bumped(count: usize) -> usize {
    if count < usize::MAX {
        (count + 1) as usize
    } else {
        count
    }
}

/// The next value of a counter that stays at its maximum.
fn bump(count: usize) -> (next: usize)
    ensures
        next == bumped(count),
{
    if count < usize::MAX {
        count + 1
    } else {
        count
    }
}

/// Whether an entry says in `epoch` that a range of `inode` is mapped.
pub open spec fn answers(
    entry: Option<PreparedExtent>,
    epoch: usize,
    inode: InodeId,
    range: WriteLogicalRange,
) -> bool {
    &&& entry matches Some(extent)
    &&& extent.inode == inode
    &&& extent.epoch == epoch
    &&& extent.first_lblock <= range.first_lblock
    &&& range.last_lblock <= extent.last_lblock
}

/// Whether an entry belongs to `inode`.
pub open spec fn belongs(entry: Option<PreparedExtent>, inode: InodeId) -> bool {
    entry matches Some(extent) && extent.inode == inode
}

impl PreparedExtentCache {
    /// The current epoch.
    pub closed spec fn epoch(&self) -> usize {
        self.epoch
    }

    /// The entries.
    pub closed spec fn slots(&self) -> Seq<Option<PreparedExtent>> {
        self.slots@
    }

    /// The slot that the next new inode takes.
    pub closed spec fn next_slot(&self) -> usize {
        self.next_slot
    }

    /// Hits, misses, overwrites and invalidations.
    pub closed spec fn counters(&self) -> (usize, usize, usize, usize) {
        (self.hits, self.misses, self.overwrites, self.epoch_invalidations)
    }

    /// Entries stem from this epoch or an earlier one, and an inode has at most one.
    pub open spec fn inv(&self) -> bool {
        &&& self.slots().len() == PREPARED_EXTENT_SLOTS
        &&& self.next_slot() < PREPARED_EXTENT_SLOTS
        &&& forall|i: int|
            0 <= i < self.slots().len() ==> (#[trigger] self.slots()[i] matches Some(extent)
                ==> extent.epoch <= self.epoch())
        &&& forall|i: int, j: int|
            0 <= i < j < self.slots().len() && self.slots()[i] is Some && self.slots()[j] is Some
                ==> (#[trigger] self.slots()[i])->0.inode != (#[trigger] self.slots()[j])->0.inode
    }

    /// Whether a range of `inode` is known to be mapped.
    pub open spec fn knows(&self, inode: InodeId, range: WriteLogicalRange) -> bool {
        exists|i: int|
            0 <= i < self.slots().len() && answers(
                #[trigger] self.slots()[i],
                self.epoch(),
                inode,
                range,
            )
    }

    /// The cache of a file system of which nothing is known yet.
    pub open spec fn fresh(&self) -> bool {
        &&& self.epoch() == 0
        &&& self.next_slot() == 0
        &&& self.counters() == (0usize, 0usize, 0usize, 0usize)
        &&& forall|i: int|
            0 <= i < PREPARED_EXTENT_SLOTS ==> #[trigger] self.slots()[i] is None
    }

    /// What asking for a range does: it is counted.
    pub open spec fn probed(
        &self,
        after: &Self,
        inode: InodeId,
        range: WriteLogicalRange,
        probe: PreparedExtentProbe,
    ) -> bool {
        let before = self.counters();
        &&& probe.hit == self.knows(inode, range)
        &&& probe.token == self.epoch()
        &&& after.epoch() == self.epoch()
        &&& after.slots() == self.slots()
        &&& after.next_slot() == self.next_slot()
        &&& after.counters() == if probe.hit {
            (bumped(before.0), before.1, before.2, before.3)
        } else {
            (before.0, bumped(before.1), before.2, before.3)
        }
    }

    /// What recording a range in the current epoch does: it takes the slot of its inode, or the
    /// next one.
    pub open spec fn recorded(
        &self,
        after: &Self,
        inode: InodeId,
        range: WriteLogicalRange,
    ) -> bool {
        let at = self.slot_for(inode);
        let known = belongs(self.slots()[at], inode);
        let before = self.counters();
        &&& after.epoch() == self.epoch()
        &&& after.slots() == self.slots().update(
            at,
            Some(
                PreparedExtent {
                    inode,
                    epoch: self.epoch(),
                    first_lblock: range.first_lblock,
                    last_lblock: range.last_lblock,
                },
            ),
        )
        &&& after.next_slot() == if known {
            self.next_slot()
        } else {
            ((self.next_slot() + 1) % (PREPARED_EXTENT_SLOTS as int)) as usize
        }
        &&& after.counters() == if known {
            (before.0, before.1, bumped(before.2), before.3)
        } else {
            before
        }
    }

    /// What starting a new epoch does: entries and counters stay, but at the last epoch the
    /// entries are dropped and epochs start again.
    pub open spec fn renewed(&self, after: &Self) -> bool {
        let before = self.counters();
        &&& after.next_slot() == self.next_slot()
        &&& after.counters() == (before.0, before.1, before.2, bumped(before.3))
        &&& if self.epoch() == usize::MAX {
            &&& after.epoch() == 0
            &&& after.slots().len() == PREPARED_EXTENT_SLOTS
            &&& forall|i: int|
                0 <= i < PREPARED_EXTENT_SLOTS ==> #[trigger] after.slots()[i] is None
        } else {
            &&& after.epoch() == self.epoch() + 1
            &&& after.slots() == self.slots()
        }
    }

    /// An empty cache.
    pub fn new() -> (cache: Self)
        ensures
            cache.inv(),
            cache.fresh(),
    {
        PreparedExtentCache {
            epoch: 0,
            next_slot: 0,
            slots: [None;PREPARED_EXTENT_SLOTS],
            hits: 0,
            misses: 0,
            overwrites: 0,
            epoch_invalidations: 0,
        }
    }

    /// Whether a range of `inode` is known to be mapped, and in which epoch.
    pub fn probe(&mut self, inode: InodeId, range: &WriteLogicalRange) -> (probe:
        PreparedExtentProbe)
        requires
            old(self).inv(),
        ensures
            final(self).inv(),
            old(self).probed(final(self), inode, *range, probe),
    {
        let mut hit = false;
        let mut at: usize = 0;
        while at < PREPARED_EXTENT_SLOTS
            invariant
                at <= PREPARED_EXTENT_SLOTS,
                *self == *old(self),
                self.inv(),
                hit == exists|i: int|
                    0 <= i < at && answers(
                        #[trigger] self.slots()[i],
                        self.epoch(),
                        inode,
                        *range,
                    ),
            decreases PREPARED_EXTENT_SLOTS - at,
        {
            match self.slots[at] {
                Some(extent) => {
                    if extent.inode == inode && extent.epoch == self.epoch && extent.first_lblock
                        <= range.first_lblock && range.last_lblock <= extent.last_lblock {
                        assert(answers(self.slots()[at as int], self.epoch(), inode, *range));
                        hit = true;
                    }
                },
                None => {},
            }
            at = at + 1;
        }
        if hit {
            self.hits = bump(self.hits);
        } else {
            self.misses = bump(self.misses);
        }
        PreparedExtentProbe { hit, token: self.epoch }
    }

    /// The slot that publishing a range of `inode` fills.
    pub open spec fn slot_for(&self, inode: InodeId) -> int {
        if exists|i: int| 0 <= i < self.slots().len() && belongs(#[trigger] self.slots()[i], inode) {
            choose|i: int| 0 <= i < self.slots().len() && belongs(#[trigger] self.slots()[i], inode)
        } else {
            self.next_slot() as int
        }
    }

    /// Records that a range of `inode` is mapped, unless a newer epoch has begun.
    pub fn publish_if_current(
        &mut self,
        inode: InodeId,
        range: &WriteLogicalRange,
        expected_epoch: usize,
    ) -> (published: bool)
        requires
            old(self).inv(),
        ensures
            final(self).inv(),
            published == (old(self).epoch() == expected_epoch),
            !published ==> *final(self) == *old(self),
            published ==> old(self).recorded(final(self), inode, *range),
    {
        if self.epoch != expected_epoch {
            return false;
        }
        let entry = PreparedExtent {
            inode,
            epoch: self.epoch,
            first_lblock: range.first_lblock,
            last_lblock: range.last_lblock,
        };
        let mut at: usize = 0;
        while at < PREPARED_EXTENT_SLOTS
            invariant
                at <= PREPARED_EXTENT_SLOTS,
                *self == *old(self),
                self.inv(),
                self.epoch() == expected_epoch,
                entry == (PreparedExtent {
                    inode,
                    epoch: expected_epoch,
                    first_lblock: range.first_lblock,
                    last_lblock: range.last_lblock,
                }),
                forall|i: int| 0 <= i < at ==> !belongs(#[trigger] self.slots()[i], inode),
            decreases PREPARED_EXTENT_SLOTS - at,
        {
            let held = match self.slots[at] {
                Some(extent) => extent.inode == inode,
                None => false,
            };
            if held {
                assert(belongs(self.slots()[at as int], inode));
                assert(self.slot_for(inode) == at) by {
                    let other = self.slot_for(inode);
                    assert(belongs(self.slots()[other], inode));
                    if other < at {
                        assert(self.slots()[other]->0.inode != self.slots()[at as int]->0.inode);
                    } else if other > at {
                        assert(self.slots()[at as int]->0.inode != self.slots()[other]->0.inode);
                    }
                }
                self.overwrites = bump(self.overwrites);
                self.slots[at] = Some(entry);
                assert(self.slots() =~= old(self).slots().update(at as int, Some(entry)));
                return true;
            }
            at = at + 1;
        }
        let slot: usize = self.next_slot;
        self.slots[slot] = Some(entry);
        self.next_slot = (slot + 1) % PREPARED_EXTENT_SLOTS;
        assert(self.slots() =~= old(self).slots().update(slot as int, Some(entry)));
        true
    }

    /// Starts a new epoch.
    pub fn invalidate(&mut self)
        requires
            old(self).inv(),
        ensures
            final(self).inv(),
            old(self).renewed(final(self)),
            forall|inode: InodeId, range: WriteLogicalRange| !final(self).knows(inode, range),
    {
        self.epoch_invalidations = bump(self.epoch_invalidations);
        if self.epoch == usize::MAX {
            self.epoch = 0;
            self.slots = [None;PREPARED_EXTENT_SLOTS];
            return;
        }
        self.epoch = self.epoch + 1;
    }

    /// Hits, misses, overwrites and invalidations.
    pub fn stats(&self) -> (stats: (usize, usize, usize, usize))
        ensures
            stats == self.counters(),
    {
        (self.hits, self.misses, self.overwrites, self.epoch_invalidations)
    }
}

/// A published range is known to be mapped until the next epoch, and so is every part of it.
pub proof fn lemma_published_is_known(
    before: PreparedExtentCache,
    after: PreparedExtentCache,
    inode: InodeId,
    range: WriteLogicalRange,
    part: WriteLogicalRange,
)
    requires
        before.inv(),
        before.recorded(&after, inode, range),
        range.first_lblock <= part.first_lblock,
        part.last_lblock <= range.last_lblock,
    ensures
        after.knows(inode, part),
{
    let at = before.slot_for(inode);
    assert(answers(after.slots()[at], after.epoch(), inode, part));
}

/// Whatever is known to be mapped after a publication was published then or known before.
pub proof fn lemma_knowledge_is_published(
    before: PreparedExtentCache,
    after: PreparedExtentCache,
    inode: InodeId,
    range: WriteLogicalRange,
    other: InodeId,
    asked: WriteLogicalRange,
)
    requires
        before.inv(),
        before.recorded(&after, inode, range),
        after.knows(other, asked),
    ensures
        before.knows(other, asked) || (other == inode && range.first_lblock <= asked.first_lblock
            && asked.last_lblock <= range.last_lblock),
{
    let i = choose|i: int|
        0 <= i < after.slots().len() && answers(
            #[trigger] after.slots()[i],
            after.epoch(),
            other,
            asked,
        );
    if i != before.slot_for(inode) {
        assert(answers(before.slots()[i], before.epoch(), other, asked));
    }
}

/// Nothing is known to be mapped once a new epoch has begun.
pub proof fn lemma_new_epoch_knows_nothing(
    before: PreparedExtentCache,
    after: PreparedExtentCache,
    inode: InodeId,
    range: WriteLogicalRange,
)
    requires
        before.inv(),
        before.renewed(&after),
    ensures
        !after.knows(inode, range),
{
    if after.knows(inode, range) {
        let i = choose|i: int|
            0 <= i < after.slots().len() && answers(
                #[trigger] after.slots()[i],
                after.epoch(),
                inode,
                range,
            );
        assert(after.slots()[i] is Some);
    }
}

/// A range is never recorded under a newer epoch: the epoch of a probe counts only until a new one
/// begins, as long as epochs do not start again.
pub proof fn lemma_old_token_is_refused(
    before: PreparedExtentCache,
    after: PreparedExtentCache,
    token: usize,
)
    requires
        before.renewed(&after),
        token <= before.epoch() < usize::MAX,
    ensures
        token != after.epoch(),
{
}

/// Whether every range that is known to be mapped is mapped.
pub open spec fn known_is_mapped(cache: PreparedExtentCache, mapped: Set<(InodeId, u32)>) -> bool {
    forall|inode: InodeId, range: WriteLogicalRange, block: u32|
        #![trigger cache.knows(inode, range), mapped.contains((inode, block))]
        cache.knows(inode, range) && range.first_lblock <= block <= range.last_lblock
            ==> mapped.contains((inode, block))
}

/// What is known to be mapped is mapped: nothing is known at the start, a probe and the passing of
/// time with no mapping taken away keep it so, a range that is recorded is mapped, and mappings
/// may be taken away once a new epoch has begun.
pub proof fn lemma_known_is_mapped(
    before: PreparedExtentCache,
    after: PreparedExtentCache,
    mapped: Set<(InodeId, u32)>,
    mapped_after: Set<(InodeId, u32)>,
    inode: InodeId,
    range: WriteLogicalRange,
)
    requires
        before.inv(),
        ({
            ||| after.fresh() && after.inv()
            ||| before.renewed(&after)
            ||| {
                &&& known_is_mapped(before, mapped)
                &&& mapped.subset_of(mapped_after)
                &&& after.epoch() == before.epoch()
                &&& after.slots() == before.slots()
            }
            ||| {
                &&& known_is_mapped(before, mapped)
                &&& mapped.subset_of(mapped_after)
                &&& before.recorded(&after, inode, range)
                &&& forall|block: u32|
                    range.first_lblock <= block <= range.last_lblock
                        ==> #[trigger] mapped_after.contains((inode, block))
            }
        }),
    ensures
        known_is_mapped(after, mapped_after),
{
    assert forall|other: InodeId, asked: WriteLogicalRange, block: u32|
        #![trigger after.knows(other, asked), mapped_after.contains((other, block))]
        after.knows(other, asked) && asked.first_lblock <= block
            <= asked.last_lblock implies mapped_after.contains((other, block)) by {
        if after.fresh() && after.inv() {
            let i = choose|i: int|
                0 <= i < after.slots().len() && answers(
                    #[trigger] after.slots()[i],
                    after.epoch(),
                    other,
                    asked,
                );
            assert(after.slots()[i] is Some);
        } else if before.renewed(&after) {
            lemma_new_epoch_knows_nothing(before, after, other, asked);
        } else if after.slots() == before.slots() && after.epoch() == before.epoch()
            && known_is_mapped(before, mapped) {
            let i = choose|i: int|
                0 <= i < after.slots().len() && answers(
                    #[trigger] after.slots()[i],
                    after.epoch(),
                    other,
                    asked,
                );
            assert(answers(before.slots()[i], before.epoch(), other, asked));
            assert(before.knows(other, asked));
            assert(mapped.contains((other, block)));
        } else {
            lemma_knowledge_is_published(before, after, inode, range, other, asked);
            if before.knows(other, asked) {
                assert(mapped.contains((other, block)));
            }
        }
    }
}

} // verus!
