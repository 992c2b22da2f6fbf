//! What can be read back of a log, and of a transaction.

use vstd::prelude::*;
use crate::bytes::{be16_at, be32, be32_at, splice};
use crate::commit::{committed_directly, direct_plan};
use crate::commit_plan::home_writes;
use crate::content::{
    held, lemma_held_joins, lemma_held_without_writes, told, told_all, writes, Disk,
};
use crate::device::{extends, since, Block, Event};
use crate::jbd2::{
    ChecksumMode, Features, Superblock, FLAG_ESCAPE, FLAG_SAME_UUID, HEADER_BYTES, MAGIC,
};
use crate::journal_log::{
    begins_with_magic, descriptor_image, descriptor_tags, encodable, encodable_home,
    lemma_tags_fit, logged_image, tag_flags, tag_offset, with_tag, with_tags,
};
use crate::journal_transaction::{
    restored, DirectTransactionCore, JournalTransactionCore, Transaction,
};
use crate::staged::{
    block_of, holds_home, is_slot, lemma_distinct_with_block, lemma_overlay, lemma_slot_exists,
    lemma_slot_of_inserted, lemma_slot_unique, lemma_with_image, ordered, overlay, slot, with_block,
    with_image, without_originals, StagedBlock,
};
use crate::trace::{cuts, performed, step_done};
use crate::{BLOCK_SIZE, PBlockId};

verus! {

/// The image that a logged block stands for.
pub open spec fn replayed(logged: Seq<u8>, flags: u32) -> Seq<u8> {
    if flags & FLAG_ESCAPE != 0 {
        splice(logged, 0, be32(MAGIC))
    } else {
        logged
    }
}

/// Replaying a logged block gives its image back, whatever the image begins with.
pub proof fn lemma_replay_gives_image(image: Seq<u8>, index: int, count: nat)
    requires
        image.len() == BLOCK_SIZE,
    ensures
        replayed(logged_image(image), tag_flags(image, index, count)) == image,
        !begins_with_magic(logged_image(image)),
{
    let same: u32 = if index != 0 {
        FLAG_SAME_UUID
    } else {
        0
    };
    assert((same | 1u32) & 1 != 0 && ((same | 1u32) | 8u32) & 1 != 0 && same & 1u32 == 0 && (same
        | 8u32) & 1 == 0) by (bit_vector)
        requires
            same == 0 || same == 2,
    ;
    if begins_with_magic(image) {
        let a = image[0];
        let b = image[1];
        let c = image[2];
        let d = image[3];
        assert(a == (0xc03b_3998u32 >> 24) as u8 && b == (0xc03b_3998u32 >> 16) as u8 && c == (
        0xc03b_3998u32 >> 8) as u8 && d == 0xc03b_3998u32 as u8) by (bit_vector)
            requires
                (a as u32) << 24 | (b as u32) << 16 | (c as u32) << 8 | (d as u32)
                    == 0xc03b_3998u32,
        ;
        assert(splice(logged_image(image), 0, be32(MAGIC)) =~= image);
        let cleared = logged_image(image);
        assert(cleared[0] == 0 && cleared[1] == 0 && cleared[2] == 0 && cleared[3] == 0);
        assert((0u8 as u32) << 24 | (0u8 as u32) << 16 | (0u8 as u32) << 8 | (0u8 as u32) == 0)
            by (bit_vector);
    }
}

/// Home block and flags of the tag at `index` of a descriptor.
pub open spec fn tag_at(features: Features, descriptor: Seq<u8>, index: nat) -> (PBlockId, u32) {
    let at = tag_offset(features, index);
    let low = be32_at(descriptor, at) as u64;
    match features.checksum {
        ChecksumMode::V3 => (
            low | ((be32_at(descriptor, at + 8) as u64) << 32),
            be32_at(descriptor, at + 4),
        ),
        ChecksumMode::Unchecked => (low, be16_at(descriptor, at + 6) as u32),
    }
}

/// Tags do not overlap, and the UUID stands between the first two.
proof fn lemma_tag_offsets(features: Features, index: nat, later: nat)
    requires
        index < later,
    ensures
        tag_offset(features, index) + features.tag_size() <= tag_offset(features, later),
        index > 0 ==> HEADER_BYTES + features.tag_size() + 16 <= tag_offset(features, index),
{
    let size = features.tag_size() as int;
    assert((index + 1) * size <= later * size) by (nonlinear_arith)
        requires
            index + 1 <= later,
            size >= 0,
    ;
    assert((index + 1) * size == index * size + size) by (nonlinear_arith);
    if index > 0 {
        assert(size <= index * size) by (nonlinear_arith)
            requires
                index >= 1,
                size >= 0,
        ;
    }
}

/// A tag says what was stored in it.
proof fn lemma_tag_stored(
    descriptor: Seq<u8>,
    sb: Superblock,
    sequence: u32,
    index: nat,
    block: StagedBlock,
    flags: u32,
)
    requires
        descriptor.len() == BLOCK_SIZE,
        0 <= tag_offset(sb.features, index),
        tag_offset(sb.features, index) + sb.features.tag_size() <= BLOCK_SIZE,
        encodable_home(sb.features, block.home),
        flags < 0x1_0000,
    ensures
        tag_at(
            sb.features,
            with_tag(
                descriptor,
                tag_offset(sb.features, index),
                sb,
                sequence,
                block.home,
                block.image@,
                flags,
            ),
            index,
        ) == (block.home, flags),
{
    broadcast use crate::bytes::lemma_be32_round_trip, crate::bytes::lemma_be16_round_trip;

    let home = block.home;
    let at = tag_offset(sb.features, index);
    let named = splice(descriptor, at, be32(home as u32));
    assert(be32_at(named, at) == home as u32);
    assert((home as u32) as u64 | (((home >> 32) as u32) as u64) << 32 == home) by (bit_vector);
    assert(home <= 0xffff_ffff ==> (home as u32) as u64 == home) by (bit_vector);
    assert(flags < 0x1_0000 ==> (flags as u16) as u32 == flags) by (bit_vector);
    match sb.features.checksum {
        ChecksumMode::V3 => {
            let flagged = splice(named, at + 4, be32(flags));
            let wide = splice(flagged, at + 8, be32((home >> 32) as u32));
            let sum = crate::jbd2::tag_checksum_of(
                crate::jbd2::seed_of(sb.uuid@),
                sequence,
                logged_image(block.image@),
            );
            let summed = splice(wide, at + 12, be32(sum));
            assert(be32_at(flagged, at + 4) == flags);
            assert(be32_at(wide, at + 8) == (home >> 32) as u32);
            assert(be32_at(summed, at) == be32_at(named, at));
            assert(be32_at(summed, at + 4) == be32_at(flagged, at + 4));
            assert(be32_at(summed, at + 8) == be32_at(wide, at + 8));
        },
        ChecksumMode::Unchecked => {
            let flagged = splice(named, at + 6, be16_bytes(flags));
            assert(be16_at(flagged, at + 6) == flags as u16);
            assert(be32_at(flagged, at) == be32_at(named, at));
        },
    }
}

/// The low half of tag flags.
spec fn be16_bytes(flags: u32) -> Seq<u8> {
    crate::bytes::be16(flags as u16)
}

/// Tag flags fit into sixteen bits.
proof fn lemma_flags_small(image: Seq<u8>, index: int, count: nat)
    ensures
        tag_flags(image, index, count) < 0x1_0000,
{
    assert(forall|s: u32|
        s == 0 || s == 2 ==> (s | 1u32) < 16 && ((s | 1u32) | 8u32) < 16 && (s | 8u32) < 16)
        by (bit_vector);
}

/// Later tags leave earlier ones as they are.
proof fn lemma_tag_kept(
    sb: Superblock,
    sequence: u32,
    group: Seq<StagedBlock>,
    index: nat,
    count: nat,
)
    requires
        index < count <= group.len(),
        group.len() <= descriptor_tags(sb.features),
        encodable(sb.features, group),
    ensures
        with_tags(sb, sequence, group, count).len() == BLOCK_SIZE,
        tag_at(sb.features, with_tags(sb, sequence, group, count), index) == (
            group[index as int].home,
            tag_flags(group[index as int].image@, index as int, group.len()),
        ),
    decreases count,
{
    let last = (count - 1) as nat;
    let earlier = with_tags(sb, sequence, group, last);
    lemma_tags_len(sb, sequence, group, last);
    lemma_tags_fit(sb.features, last);
    lemma_tags_fit(sb.features, index);
    let block = group[last as int];
    let flags = tag_flags(block.image@, last as int, group.len());
    let at = tag_offset(sb.features, last);
    let tagged = with_tag(earlier, at, sb, sequence, block.home, block.image@, flags);
    let size = sb.features.tag_size();
    let now = with_tags(sb, sequence, group, count);
    assert(last * size >= 0) by (nonlinear_arith);
    if index == last {
        assert(encodable_home(sb.features, group[last as int].home));
        lemma_flags_small(block.image@, last as int, group.len());
        lemma_tag_stored(earlier, sb, sequence, last, block, flags);
        assert forall|i: int| at <= i < at + size implies now[i] == tagged[i] by {}
    } else {
        lemma_tag_kept(sb, sequence, group, index, last);
        lemma_tag_offsets(sb.features, index, last);
        let from = tag_offset(sb.features, index);
        assert(index * size >= 0) by (nonlinear_arith);
        assert forall|i: int| from <= i < from + size implies now[i] == earlier[i] by {}
    }
}

/// A descriptor is as long as a block.
proof fn lemma_tags_len(sb: Superblock, sequence: u32, group: Seq<StagedBlock>, count: nat)
    ensures
        with_tags(sb, sequence, group, count).len() == BLOCK_SIZE,
    decreases count,
{
    if count > 0 {
        lemma_tags_len(sb, sequence, group, (count - 1) as nat);
    }
}

/// Every tag of a descriptor names the home block and the flags of its image.
pub proof fn lemma_descriptor_reads_back(
    sb: Superblock,
    sequence: u32,
    group: Seq<StagedBlock>,
    index: nat,
)
    requires
        index < group.len() <= descriptor_tags(sb.features),
        encodable(sb.features, group),
    ensures
        tag_at(sb.features, descriptor_image(sb, sequence, group), index) == (
            group[index as int].home,
            tag_flags(group[index as int].image@, index as int, group.len()),
        ),
{
    lemma_tag_kept(sb, sequence, group, index, group.len());
    lemma_tags_fit(sb.features, index);
    let tagged = with_tags(sb, sequence, group, group.len());
    let sealed = descriptor_image(sb, sequence, group);
    let from = tag_offset(sb.features, index);
    let size = sb.features.tag_size();
    assert(index * size >= 0) by (nonlinear_arith);
    assert forall|i: int| from <= i < from + size implies sealed[i] == tagged[i] by {}
}

/// A staged image is what the transaction reads afterwards, and no other image changes.
pub proof fn lemma_stage_reads_back(
    before: Transaction,
    after: Transaction,
    block: StagedBlock,
    other: PBlockId,
)
    requires
        before.inv(),
        after.restaged(&before, with_block(before.staged(), block)),
        other != block.home,
    ensures
        after.covers(block.home),
        after.image_of(block.home) == block.image@,
        after.covers(other) == before.covers(other),
        before.covers(other) ==> after.image_of(other) == before.image_of(other),
{
    let old_staged = before.staged();
    let new_staged = with_block(old_staged, block);
    lemma_slot_of_inserted(old_staged, block);
    lemma_distinct_with_block(before.batch(), old_staged, block);
    if holds_home(old_staged, other) {
        lemma_found_again(old_staged, block, other);
    }
}

/// An image is found again after another home is staged.
proof fn lemma_found_again(blocks: Seq<StagedBlock>, block: StagedBlock, other: PBlockId)
    requires
        ordered(blocks),
        holds_home(blocks, other),
        other != block.home,
    ensures
        block_of(with_block(blocks, block), other) == block_of(blocks, other),
{
    lemma_slot_exists(blocks, block.home);
    lemma_slot_exists(blocks, other);
    lemma_slot_of_inserted(blocks, block);
    let grown = with_block(blocks, block);
    let at = slot(blocks, block.home);
    let here = slot(blocks, other);
    let held = choose|i: int| 0 <= i < blocks.len() && blocks[i].home == other;
    assert(blocks[here].home <= blocks[held].home);
    assert(blocks[here].home == other);
    let there: int = if grown.len() == blocks.len() || here < at {
        here
    } else {
        here + 1
    };
    assert(grown[there] == blocks[here]);
    assert(is_slot(grown, other, there)) by {
        assert forall|i: int| 0 <= i < there implies grown[i].home < other by {
            assert(grown[i].home < grown[there].home);
        }
        assert forall|i: int| there <= i < grown.len() implies other <= grown[i].home by {
            if i > there {
                assert(grown[there].home < grown[i].home);
            }
        }
    }
    lemma_slot_unique(grown, other, there);
}

/// An ordered block is found under its home.
proof fn lemma_found(blocks: Seq<StagedBlock>, i: int)
    requires
        ordered(blocks),
        0 <= i < blocks.len(),
    ensures
        slot(blocks, blocks[i].home) == i,
{
    assert(is_slot(blocks, blocks[i].home, i));
    lemma_slot_unique(blocks, blocks[i].home, i);
}

/// A batch and the images staged on top of it are committed as the transaction reads them: the
/// staged image of a home where there is one, and the image of the batch otherwise.
pub proof fn lemma_commit_is_what_is_read(
    older: Seq<StagedBlock>,
    newer: Seq<StagedBlock>,
    home: PBlockId,
)
    requires
        ordered(older),
        ordered(newer),
    ensures
        holds_home(overlay(older, newer), home) == (holds_home(older, home) || holds_home(
            newer,
            home,
        )),
        holds_home(newer, home) ==> block_of(overlay(older, newer), home) == block_of(newer, home),
        !holds_home(newer, home) && holds_home(older, home) ==> block_of(
            overlay(older, newer),
            home,
        ) == block_of(older, home),
    decreases older.len(),
{
    lemma_overlay(older, newer);
    if older.len() > 0 {
        let last = older.last();
        let front = older.drop_last();
        let next = if holds_home(newer, last.home) {
            newer
        } else {
            with_block(newer, last)
        };
        lemma_distinct_with_block(older, newer, last);
        lemma_commit_is_what_is_read(front, next, home);
        lemma_found(older, older.len() - 1);
        if holds_home(newer, home) {
            if home != last.home && !holds_home(newer, last.home) {
                lemma_found_again(newer, last, home);
            }
        } else if holds_home(older, home) {
            if home == last.home {
                lemma_slot_of_inserted(newer, last);
            } else {
                let held = choose|i: int| 0 <= i < older.len() && older[i].home == home;
                assert(front[held].home == home);
                assert(holds_home(front, home));
                lemma_found(older, held);
                lemma_found(front, held);
                assert(!holds_home(next, home));
            }
        }
    }
}

/// Giving a transaction up leaves the journal as it was before the transaction started.
pub proof fn lemma_abort_restores(
    before: JournalTransactionCore,
    during: JournalTransactionCore,
    credits: usize,
    started: Transaction,
    ended: Transaction,
)
    requires
        before.handed_over(&during, credits, started),
        ended.deferred() == started.deferred(),
    ensures
        restored(during.context(), ended.deferred()) == before.context(),
{
}

/// Dropping what homes held before keeps the images.
pub(crate) proof fn lemma_originals_dropped(blocks: Seq<StagedBlock>, home: PBlockId)
    requires
        ordered(blocks),
        holds_home(blocks, home),
    ensures
        holds_home(without_originals(blocks), home),
        block_of(without_originals(blocks), home).image == block_of(blocks, home).image,
{
    let bare = without_originals(blocks);
    let i = choose|i: int| 0 <= i < blocks.len() && blocks[i].home == home;
    assert(bare[i].home == home);
    lemma_found(blocks, i);
    assert(ordered(bare)) by {
        assert forall|a: int, b: int| 0 <= a < b < bare.len() implies bare[a].home
            < bare[b].home by {
            assert(blocks[a].home < blocks[b].home);
        }
    }
    lemma_found(bare, i);
}

/// Bytes that were replaced in the image of a home are in the image that waits for a commit, once
/// the transaction joined the batch.
pub proof fn lemma_patch_waits(
    before: Transaction,
    after: Transaction,
    log: Seq<Event>,
    log_after: Seq<Event>,
    home: PBlockId,
    at: int,
    patch: Seq<u8>,
)
    requires
        before.inv(),
        before.patched(&after, log, log_after, home, at, patch, Ok(())),
        0 <= at,
        at + patch.len() <= BLOCK_SIZE,
    ensures
        ({
            let kept = without_originals(overlay(after.batch(), after.staged()));
            &&& holds_home(kept, home)
            &&& block_of(kept, home).image@.subrange(at, at + patch.len()) == patch
        }),
        ordered(after.staged()),
        exists|i: int|
            {
                &&& 0 <= i < after.staged().len()
                &&& (#[trigger] after.staged()[i]).home == home
                &&& after.staged()[i].image@.subrange(at, at + patch.len()) == patch
            },
        forall|other: PBlockId| #[trigger]
            holds_home(after.staged(), other) ==> other == home || holds_home(
                before.staged(),
                other,
            ),
{
    let (staged, image) = choose|staged: Seq<StagedBlock>, image: [u8; BLOCK_SIZE]|
        {
            &&& #[trigger] before.accessed(staged, log, log_after, home)
            &&& image@ == splice(block_of(staged, home).image@, at, patch)
            &&& after.restaged(&before, #[trigger] with_image(staged, home, image))
        };
    assert(ordered(staged) && holds_home(staged, home)) by {
        if !holds_home(before.staged(), home) {
            if holds_home(before.batch(), home) {
                let block = choose|block: StagedBlock|
                    {
                        &&& #[trigger] before.first_image(home, Seq::empty(), block)
                        &&& staged == with_block(before.staged(), block)
                    };
                lemma_slot_of_inserted(before.staged(), block);
            } else {
                let (read, block) = choose|read: Block, block: StagedBlock|
                    {
                        &&& log_after == log.push(Event::ReadBlock { id: home, reply: Ok(read) })
                        &&& #[trigger] before.first_image(home, read.data@, block)
                        &&& staged == with_block(before.staged(), block)
                    };
                lemma_slot_of_inserted(before.staged(), block);
            }
        }
    }
    lemma_with_image(before.batch(), staged, home);
    let i = choose|i: int| 0 <= i < staged.len() && staged[i].home == home;
    lemma_found(staged, i);
    let newer = with_image(staged, home, image);
    assert(newer[i].home == home && newer[i].image@ == image@);
    lemma_found(newer, i);
    lemma_commit_is_what_is_read(before.batch(), newer, home);
    lemma_overlay(before.batch(), newer);
    lemma_originals_dropped(overlay(before.batch(), newer), home);
    assert(image@.subrange(at, at + patch.len()) =~= patch);
    assert forall|other: PBlockId| #[trigger] holds_home(newer, other) implies other == home
        || holds_home(before.staged(), other) by {
        let j = choose|j: int| 0 <= j < newer.len() && newer[j].home == other;
        if other != home {
            assert(staged[j].home == other);
            if !holds_home(before.staged(), home) {
                let place = slot(before.staged(), home);
                lemma_slot_exists(before.staged(), home);
                if j < place {
                    assert(before.staged()[j].home == other);
                } else {
                    assert(before.staged()[j - 1].home == other);
                }
            }
        }
    }
}

/// Replacing bytes of the image of a block stages no other block.
pub(crate) proof fn lemma_patch_homes(
    before: Transaction,
    after: Transaction,
    log: Seq<Event>,
    log_after: Seq<Event>,
    home: PBlockId,
    at: int,
    patch: Seq<u8>,
)
    requires
        ordered(before.staged()),
        before.patched(&after, log, log_after, home, at, patch, Ok(())),
    ensures
        forall|other: PBlockId| #[trigger]
            holds_home(after.staged(), other) ==> other == home || holds_home(
                before.staged(),
                other,
            ),
{
    let (staged, image) = choose|staged: Seq<StagedBlock>, image: [u8; BLOCK_SIZE]|
        {
            &&& #[trigger] before.accessed(staged, log, log_after, home)
            &&& image@ == splice(block_of(staged, home).image@, at, patch)
            &&& after.restaged(&before, #[trigger] with_image(staged, home, image))
        };
    assert(ordered(staged) && holds_home(staged, home)) by {
        if !holds_home(before.staged(), home) {
            if holds_home(before.batch(), home) {
                let block = choose|block: StagedBlock|
                    {
                        &&& #[trigger] before.first_image(home, Seq::empty(), block)
                        &&& staged == with_block(before.staged(), block)
                    };
                lemma_slot_of_inserted(before.staged(), block);
            } else {
                let (read, block) = choose|read: Block, block: StagedBlock|
                    {
                        &&& log_after == log.push(Event::ReadBlock { id: home, reply: Ok(read) })
                        &&& #[trigger] before.first_image(home, read.data@, block)
                        &&& staged == with_block(before.staged(), block)
                    };
                lemma_slot_of_inserted(before.staged(), block);
            }
        }
    }
    lemma_with_image(staged, staged, home);
    let i = choose|i: int| 0 <= i < staged.len() && staged[i].home == home;
    lemma_found(staged, i);
    let newer = with_image(staged, home, image);
    assert forall|other: PBlockId| #[trigger] holds_home(newer, other) implies other == home
        || holds_home(before.staged(), other) by {
        let j = choose|j: int| 0 <= j < newer.len() && newer[j].home == other;
        if other != home {
            assert(staged[j].home == other);
            if !holds_home(before.staged(), home) {
                let place = slot(before.staged(), home);
                lemma_slot_exists(before.staged(), home);
                if j < place {
                    assert(before.staged()[j].home == other);
                } else {
                    assert(before.staged()[j - 1].home == other);
                }
            }
        }
    }
}

/// What a device would hold once a transaction is committed.
pub open spec fn shown_by(transaction: Transaction, disk: Disk) -> Disk {
    Map::new(
        |home: PBlockId| true,
        |home: PBlockId|
            if transaction.covers(home) {
                transaction.image_of(home)
            } else {
                disk[home]
            },
    )
}

/// Replacing bytes of the image of a block changes that block alone, and nothing but those bytes in
/// it, as long as the block is read as the device holds it.
pub proof fn lemma_patch_is_shown(
    before: Transaction,
    after: Transaction,
    log: Seq<Event>,
    log_after: Seq<Event>,
    home: PBlockId,
    at: int,
    patch: Seq<u8>,
    disk: Disk,
)
    requires
        ordered(before.staged()),
        before.patched(&after, log, log_after, home, at, patch, Ok(())),
    ensures
        ordered(after.staged()),
        after.deferred() == before.deferred(),
        log_after == log || exists|read: Block|
            log_after == #[trigger] log.push(Event::ReadBlock { id: home, reply: Ok(read) }),
        told_all(since(log, log_after), disk) ==> {
            &&& shown_by(before, disk)[home].len() == BLOCK_SIZE
            &&& forall|other: PBlockId| #[trigger]
                shown_by(after, disk)[other] == if other == home {
                    splice(shown_by(before, disk)[home], at, patch)
                } else {
                    shown_by(before, disk)[other]
                }
        },
{
    let (staged, image) = choose|staged: Seq<StagedBlock>, image: [u8; BLOCK_SIZE]|
        {
            &&& #[trigger] before.accessed(staged, log, log_after, home)
            &&& image@ == splice(block_of(staged, home).image@, at, patch)
            &&& after.restaged(&before, #[trigger] with_image(staged, home, image))
        };
    let old = before.staged();
    lemma_slot_exists(old, home);
    if holds_home(old, home) {
        let i = choose|i: int| 0 <= i < old.len() && old[i].home == home;
        lemma_found(old, i);
    } else if holds_home(before.batch(), home) {
        let block = choose|block: StagedBlock|
            {
                &&& #[trigger] before.first_image(home, Seq::empty(), block)
                &&& staged == with_block(old, block)
            };
        lemma_slot_of_inserted(old, block);
    } else {
        let (read, block) = choose|read: Block, block: StagedBlock|
            {
                &&& log_after == log.push(Event::ReadBlock { id: home, reply: Ok(read) })
                &&& #[trigger] before.first_image(home, read.data@, block)
                &&& staged == with_block(old, block)
            };
        lemma_slot_of_inserted(old, block);
        let calls = since(log, log_after);
        assert(calls =~= seq![Event::ReadBlock { id: home, reply: Ok(read) }]);
        assert(told_all(calls, disk) ==> told(calls[0], disk));
    }
    lemma_with_image(before.batch(), staged, home);
    let i = choose|i: int| 0 <= i < staged.len() && staged[i].home == home;
    lemma_found(staged, i);
    let newer = with_image(staged, home, image);
    assert(newer[i].home == home);
    lemma_found(newer, i);
    if told_all(since(log, log_after), disk) {
        assert(block_of(staged, home).image@ == shown_by(before, disk)[home]);
        assert forall|other: PBlockId| #[trigger] shown_by(after, disk)[other] == if other == home {
            splice(shown_by(before, disk)[home], at, patch)
        } else {
            shown_by(before, disk)[other]
        } by {
            if other != home {
                lemma_other_image_stays(old, staged, newer, home, other);
            } else {
                assert(holds_home(newer, home));
            }
        }
    }
}

/// Changing the image of one home leaves those of the others.
proof fn lemma_other_image_stays(
    old: Seq<StagedBlock>,
    staged: Seq<StagedBlock>,
    newer: Seq<StagedBlock>,
    home: PBlockId,
    other: PBlockId,
)
    requires
        ordered(old),
        ordered(staged),
        ordered(newer),
        other != home,
        staged == old || exists|block: StagedBlock| #[trigger]
            with_block(old, block) == staged && block.home == home,
        exists|image: [u8; BLOCK_SIZE]| newer == #[trigger] with_image(staged, home, image),
        holds_home(staged, home),
    ensures
        holds_home(newer, other) == holds_home(old, other),
        holds_home(old, other) ==> newer[slot(newer, other)] == old[slot(old, other)],
{
    lemma_slot_exists(staged, home);
    let at = slot(staged, home);
    let h = choose|h: int| 0 <= h < staged.len() && staged[h].home == home;
    lemma_found(staged, h);
    if staged != old {
        let block = choose|block: StagedBlock| #[trigger]
            with_block(old, block) == staged && block.home == home;
        lemma_slot_of_inserted(old, block);
        lemma_slot_exists(old, home);
        if holds_home(old, other) {
            lemma_found_again(old, block, other);
            let i = choose|i: int| 0 <= i < old.len() && old[i].home == other;
            if staged.len() == old.len() || i < slot(old, home) {
                assert(staged[i].home == other);
            } else {
                assert(staged[i + 1].home == other);
            }
        }
        if holds_home(staged, other) {
            let j = choose|j: int| 0 <= j < staged.len() && staged[j].home == other;
            if staged.len() == old.len() || j < slot(old, home) {
                assert(old[j].home == other);
            } else {
                assert(old[j - 1].home == other);
            }
        }
    }
    assert(holds_home(staged, other) == holds_home(old, other));
    if holds_home(staged, other) {
        let j = choose|j: int| 0 <= j < staged.len() && staged[j].home == other;
        lemma_found(staged, j);
        assert(newer[j].home == other);
        lemma_found(newer, j);
    }
    if holds_home(newer, other) {
        let j = choose|j: int| 0 <= j < newer.len() && newer[j].home == other;
        assert(staged[j].home == other);
    }
}

/// Whether a device holds the first `count` of some images, and elsewhere what it held.
pub open spec fn holds_images(disk: Disk, after: Disk, blocks: Seq<StagedBlock>, count: int) -> bool {
    &&& forall|i: int|
        0 <= i < count ==> after[(#[trigger] blocks[i]).home] == blocks[i].image@
    &&& forall|id: PBlockId|
        (forall|i: int| 0 <= i < count ==> (#[trigger] blocks[i]).home != id)
            ==> #[trigger] after[id] == disk[id]
}

/// Writing images to their homes leaves them there.
proof fn lemma_images_are_held(disk: Disk, blocks: Seq<StagedBlock>, count: int, calls: Seq<Event>)
    requires
        ordered(blocks),
        0 <= count <= blocks.len(),
        performed(home_writes(blocks).take(count), false, calls),
    ensures
        holds_images(disk, held(disk, calls), blocks, count),
    decreases count,
{
    if count == 0 {
        assert(calls =~= Seq::<Event>::empty());
    } else {
        let steps = home_writes(blocks).take(count);
        let cut = choose|cut: int|
            {
                &&& #[trigger] cuts(calls, cut)
                &&& performed(steps.drop_last(), false, calls.take(cut))
                &&& step_done(steps.last(), false, calls.skip(cut))
            };
        assert(steps.drop_last() =~= home_writes(blocks).take(count - 1));
        lemma_images_are_held(disk, blocks, count - 1, calls.take(cut));
        let first = calls.take(cut);
        let last = calls.skip(cut);
        let block = blocks[count - 1];
        let write = Event::WriteBlock { id: block.home, data: block.image@, reply: Ok(()) };
        assert(last =~= seq![write]);
        assert(calls =~= first + last);
        lemma_held_joins(disk, first, last);
        reveal_with_fuel(held, 2);
        assert(last.skip(1) =~= Seq::<Event>::empty());
        assert(held(disk, calls) == held(disk, first).insert(block.home, block.image@));
        assert forall|i: int| 0 <= i < count implies held(disk, calls)[(
        #[trigger] blocks[i]).home] == blocks[i].image@ by {
            if i < count - 1 {
                assert(blocks[i].home < block.home);
            }
        }
        assert forall|id: PBlockId|
            (forall|i: int| 0 <= i < count ==> (#[trigger] blocks[i]).home != id) implies
        #[trigger] held(disk, calls)[id] == disk[id] by {
            assert(blocks[count - 1].home != id);
        }
    }
}

/// A transaction that was committed without a journal leaves each of its images in its home, and
/// the other blocks as they were.
pub proof fn lemma_direct_commit_is_held(
    transaction: Transaction,
    before: DirectTransactionCore,
    after: DirectTransactionCore,
    log: Seq<Event>,
    log_after: Seq<Event>,
    disk: Disk,
)
    requires
        ordered(transaction.staged()),
        committed_directly(transaction, before, after, log, log_after, Ok(())),
    ensures
        extends(log, log_after),
        holds_images(
            disk,
            held(disk, since(log, log_after)),
            transaction.staged(),
            transaction.staged().len() as int,
        ),
{
    let blocks = transaction.staged();
    let calls = since(log, log_after);
    if blocks.len() == 0 {
        assert(log_after.take(log.len() as int) =~= log);
        assert(calls =~= Seq::<Event>::empty());
    } else {
        let plan = direct_plan(blocks);
        assert(plan.take(plan.len() as int) =~= plan);
        let cut = choose|cut: int|
            {
                &&& #[trigger] cuts(calls, cut)
                &&& performed(plan.drop_last(), false, calls.take(cut))
                &&& step_done(plan.last(), false, calls.skip(cut))
            };
        assert(plan.drop_last() =~= home_writes(blocks).take(blocks.len() as int));
        lemma_images_are_held(disk, blocks, blocks.len() as int, calls.take(cut));
        let rest = calls.skip(cut);
        assert forall|k: int| 0 <= k < rest.len() implies !writes(#[trigger] rest[k]) by {}
        assert(calls =~= calls.take(cut) + rest);
        lemma_held_joins(disk, calls.take(cut), rest);
        lemma_held_without_writes(held(disk, calls.take(cut)), rest);
    }
}

} // verus!
