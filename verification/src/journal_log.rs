//! The log ring, and the blocks that a transaction writes into it.

use vstd::prelude::*;
use crate::bytes::{
    be16, be32, be32_at, get_be32, put_be16, put_be32, put_bytes, put_zeros, splice, zeros,
};
use crate::error::{failed, ErrCode, Ext4Error, Result};
use crate::jbd2::{
    block_checksum, block_checksum_of, checksum_seed, commit_checksum, commit_checksum_of,
    header_bytes, seed_of, superblock_checksum, superblock_checksum_of, tag_checksum,
    tag_checksum_of, BlockType, ChecksumMode, Features, Header, Superblock, BLOCK_TAIL_BYTES,
    FLAG_ESCAPE, FLAG_LAST_TAG, FLAG_SAME_UUID, HEADER_BYTES, MAGIC, SUPERBLOCK_BYTES,
};
use crate::staged::{StagedBlock, StagedBlocks};
use crate::{BLOCK_SIZE, PBlockId};

verus! {

/// The number of tags that fit into one descriptor block, beside the header, one UUID and the
/// checksum tail.
pub open spec fn descriptor_tags(features: Features) -> nat {
    match features.checksum {
        ChecksumMode::V3 => ((BLOCK_SIZE - HEADER_BYTES - 16 - BLOCK_TAIL_BYTES) / 16) as nat,
        ChecksumMode::Unchecked => if features.has_64bit {
            ((BLOCK_SIZE - HEADER_BYTES - 16) / 12) as nat
        } else {
            ((BLOCK_SIZE - HEADER_BYTES - 16) / 8) as nat
        },
    }
}

/// The number of descriptor blocks for `blocks` images.
pub open spec fn descriptor_blocks(blocks: nat, features: Features) -> nat {
    ((blocks + descriptor_tags(features) - 1) / descriptor_tags(features) as int) as nat
}

/// The log blocks of a transaction: images, descriptors and the commit record.
pub open spec fn log_blocks(blocks: nat, features: Features) -> nat {
    blocks + descriptor_blocks(blocks, features) + 1
}

/// Whether the size of the log of `blocks` images can be counted.
pub open spec fn log_countable(blocks: nat, features: Features) -> bool {
    &&& blocks + descriptor_tags(features) - 1 <= usize::MAX
    &&& log_blocks(blocks, features) <= usize::MAX
}

/// The number of blocks of the log ring.
pub fn ring_len(sb: &Superblock) -> (len: Result<usize>)
    ensures
        len == if sb.first <= sb.max_len {
            Ok::<usize, Ext4Error>((sb.max_len - sb.first) as usize)
        } else {
            failed(ErrCode::EIO)
        },
{
    if sb.max_len < sb.first {
        return Err(Ext4Error::new(ErrCode::EIO));
    }
    Ok((sb.max_len - sb.first) as usize)
}

/// The number of tags that fit into one descriptor block.
pub fn tags_per_descriptor(features: Features) -> (tags: Result<usize>)
    ensures
        tags == Ok::<usize, Ext4Error>(descriptor_tags(features) as usize),
        0 < descriptor_tags(features) < 1000,
{
    let tail: usize = if features.checksum == ChecksumMode::V3 {
        BLOCK_TAIL_BYTES
    } else {
        0
    };
    let available: usize = BLOCK_SIZE - (HEADER_BYTES + 16 + tail);
    let size: usize = features.tag_bytes();
    assert(descriptor_tags(features) == available / size);
    let tags: usize = available / size;
    if tags == 0 {
        Err(Ext4Error::new(ErrCode::EIO))
    } else {
        Ok(tags)
    }
}

/// The number of log blocks that a transaction of `blocks` images takes.
pub fn required_log_blocks(blocks: usize, features: Features) -> (needed: Result<usize>)
    ensures
        needed == if log_countable(blocks as nat, features) {
            Ok::<usize, Ext4Error>(log_blocks(blocks as nat, features) as usize)
        } else {
            failed(ErrCode::E2BIG)
        },
{
    let tags: usize = tags_per_descriptor(features)?;
    let descriptors: usize = match blocks.checked_add(tags - 1) {
        Some(rounded) => rounded / tags,
        None => {
            return Err(Ext4Error::new(ErrCode::E2BIG));
        },
    };
    match blocks.checked_add(descriptors) {
        Some(logged) => match logged.checked_add(1) {
            Some(total) => Ok(total),
            None => Err(Ext4Error::new(ErrCode::E2BIG)),
        },
        None => Err(Ext4Error::new(ErrCode::E2BIG)),
    }
}

/// The logical block that follows `current` on the ring.
pub open spec fn ring_successor(sb: Superblock, current: u32) -> u32 {
    if current + 1 == sb.max_len {
        sb.first
    } else {
        (current + 1) as u32
    }
}

/// The logical block that follows `current` on the ring.
pub fn ring_next(sb: &Superblock, current: u32) -> (next: u32)
    requires
        current < sb.max_len,
    ensures
        next == ring_successor(*sb, current),
        sb.first < sb.max_len ==> next < sb.max_len,
        sb.first <= current ==> sb.first <= next,
{
    if current + 1 == sb.max_len {
        sb.first
    } else {
        current + 1
    }
}

/// The logical block `steps` after `head` on the ring.
pub open spec fn ring_at(sb: Superblock, head: u32, steps: nat) -> u32 {
    (sb.first + (head - sb.first + steps) % (sb.max_len - sb.first)) as u32
}

/// The `count` logical blocks from `head` on.
pub open spec fn ring_slice(sb: Superblock, head: u32, count: nat) -> Seq<u32> {
    Seq::new(count, |i: int| ring_at(sb, head, i as nat))
}

/// Whether `head` lies in the ring.
pub open spec fn in_ring(sb: Superblock, head: u32) -> bool {
    sb.first <= head < sb.max_len
}

/// A ring position is in the ring, and one more step leads to its successor.
pub proof fn lemma_ring_step(sb: Superblock, head: u32, steps: nat)
    requires
        in_ring(sb, head),
    ensures
        in_ring(sb, ring_at(sb, head, steps)),
        ring_at(sb, head, 0) == head,
        ring_at(sb, head, steps + 1) == ring_successor(sb, ring_at(sb, head, steps)),
{
    let span = sb.max_len - sb.first;
    let here = head - sb.first + steps;
    vstd::arithmetic::div_mod::lemma_small_mod((head - sb.first) as nat, span as nat);
    vstd::arithmetic::div_mod::lemma_mod_bound(here, span);
    vstd::arithmetic::div_mod::lemma_fundamental_div_mod(here, span);
    let quotient = here / span;
    let rest = here % span;
    if rest + 1 == span {
        assert(here + 1 == span * (quotient + 1)) by (nonlinear_arith)
            requires
                here == span * quotient + rest,
                rest + 1 == span,
        ;
        vstd::arithmetic::div_mod::lemma_fundamental_div_mod_converse(
            here + 1,
            span,
            quotient + 1,
            0,
        );
    } else {
        vstd::arithmetic::div_mod::lemma_fundamental_div_mod_converse(
            here + 1,
            span,
            quotient,
            rest + 1,
        );
    }
}

/// The positions of one transaction are in the ring and pairwise different: wrapping round never
/// overwrites a block of the same transaction.
pub proof fn lemma_ring_positions_distinct(sb: Superblock, head: u32, count: nat)
    requires
        in_ring(sb, head),
        count <= sb.max_len - sb.first,
    ensures
        forall|i: int| 0 <= i < count ==> in_ring(sb, #[trigger] ring_slice(sb, head, count)[i]),
        ring_slice(sb, head, count).no_duplicates(),
{
    let span = sb.max_len - sb.first;
    let positions = ring_slice(sb, head, count);
    assert forall|i: int| 0 <= i < count implies in_ring(sb, #[trigger] positions[i]) by {
        lemma_ring_step(sb, head, i as nat);
    }
    assert forall|i: int, j: int|
        0 <= i < positions.len() && 0 <= j < positions.len() && i != j implies positions[i]
        != positions[j] by {
        lemma_ring_step(sb, head, i as nat);
        lemma_ring_step(sb, head, j as nat);
        let a = head - sb.first + i;
        let b = head - sb.first + j;
        if a % span == b % span {
            vstd::arithmetic::div_mod::lemma_fundamental_div_mod(a, span);
            vstd::arithmetic::div_mod::lemma_fundamental_div_mod(b, span);
            let p = a / span;
            let q = b / span;
            assert(a - b == span * (p - q)) by (nonlinear_arith)
                requires
                    a == span * p + a % span,
                    b == span * q + b % span,
                    a % span == b % span,
            ;
            assert(p == q) by (nonlinear_arith)
                requires
                    a - b == span * (p - q),
                    -span < a - b < span,
                    span > 0,
            ;
        }
    }
}

/// The `count` logical blocks from `head` on.
pub fn ring_positions(sb: &Superblock, head: u32, count: usize) -> (positions: Result<Vec<u32>>)
    ensures
        match positions {
            Ok(list) => {
                &&& in_ring(*sb, head)
                &&& count <= sb.max_len - sb.first
                &&& list@ == ring_slice(*sb, head, count as nat)
            },
            Err(error) => {
                &&& !(in_ring(*sb, head) && count <= sb.max_len - sb.first)
                &&& error.code == if sb.first <= sb.max_len {
                    ErrCode::E2BIG
                } else {
                    ErrCode::EIO
                }
            },
        },
{
    let available: usize = ring_len(sb)?;
    if count > available || head < sb.first || head >= sb.max_len {
        return Err(Ext4Error::new(ErrCode::E2BIG));
    }
    let mut list: Vec<u32> = Vec::with_capacity(count);
    let mut current: u32 = head;
    let mut done: usize = 0;
    proof {
        lemma_ring_step(*sb, head, 0);
    }
    while done < count
        invariant
            done <= count,
            in_ring(*sb, head),
            in_ring(*sb, current),
            current == ring_at(*sb, head, done as nat),
            list@ == ring_slice(*sb, head, done as nat),
        decreases count - done,
    {
        list.push(current);
        proof {
            lemma_ring_step(*sb, head, done as nat);
            lemma_ring_step(*sb, head, (done + 1) as nat);
        }
        current = ring_next(sb, current);
        done = done + 1;
        assert(list@ =~= ring_slice(*sb, head, done as nat));
    }
    Ok(list)
}

/// Whether an image begins with the journal magic number.
pub open spec fn begins_with_magic(image: Seq<u8>) -> bool {
    be32_at(image, 0) == MAGIC
}

/// The bytes that are logged for an image: the magic number must not appear at their start.
pub open spec fn logged_image(image: Seq<u8>) -> Seq<u8> {
    if begins_with_magic(image) {
        splice(image, 0, zeros(4))
    } else {
        image
    }
}

/// The flags of the tag at `index` of a descriptor with `count` tags.
pub open spec fn tag_flags(image: Seq<u8>, index: int, count: nat) -> u32 {
    let same = if index != 0 {
        FLAG_SAME_UUID
    } else {
        0u32
    };
    let escape = if begins_with_magic(image) {
        same | FLAG_ESCAPE
    } else {
        same
    };
    if index + 1 == count {
        escape | FLAG_LAST_TAG
    } else {
        escape
    }
}

/// The offset of the tag at `index`; the journal UUID stands behind the first tag.
pub open spec fn tag_offset(features: Features, index: nat) -> int {
    HEADER_BYTES + index * features.tag_size() + if index > 0 {
        16int
    } else {
        0
    }
}

/// A descriptor block with the tag of one image stored at `at`.
pub open spec fn with_tag(
    descriptor: Seq<u8>,
    at: int,
    sb: Superblock,
    sequence: u32,
    home: PBlockId,
    image: Seq<u8>,
    flags: u32,
) -> Seq<u8> {
    let named = splice(descriptor, at, be32(home as u32));
    match sb.features.checksum {
        ChecksumMode::V3 => splice(
            splice(splice(named, at + 4, be32(flags)), at + 8, be32((home >> 32) as u32)),
            at + 12,
            be32(tag_checksum_of(seed_of(sb.uuid@), sequence, logged_image(image))),
        ),
        ChecksumMode::Unchecked => splice(named, at + 6, be16(flags as u16)),
    }
}

/// A descriptor block with the tags of the first `count` images of `group`.
pub open spec fn with_tags(
    sb: Superblock,
    sequence: u32,
    group: Seq<StagedBlock>,
    count: nat,
) -> Seq<u8>
    decreases count,
{
    if count == 0 {
        splice(zeros(BLOCK_SIZE as nat), 0, header_bytes(BlockType::Descriptor, sequence))
    } else {
        let index = (count - 1) as nat;
        let block = group[index as int];
        let tagged = with_tag(
            with_tags(sb, sequence, group, index),
            tag_offset(sb.features, index),
            sb,
            sequence,
            block.home,
            block.image@,
            tag_flags(block.image@, index as int, group.len()),
        );
        if index == 0 {
            splice(tagged, HEADER_BYTES + sb.features.tag_size(), sb.uuid@)
        } else {
            tagged
        }
    }
}

/// The descriptor block of `group`.
pub open spec fn descriptor_image(sb: Superblock, sequence: u32, group: Seq<StagedBlock>) -> Seq<
    u8,
> {
    let tagged = with_tags(sb, sequence, group, group.len());
    match sb.features.checksum {
        ChecksumMode::V3 => splice(
            tagged,
            BLOCK_SIZE - 4,
            be32(block_checksum_of(seed_of(sb.uuid@), tagged)),
        ),
        ChecksumMode::Unchecked => tagged,
    }
}

/// The log blocks of `group`: its descriptor and its images.
pub open spec fn group_log(sb: Superblock, sequence: u32, group: Seq<StagedBlock>) -> Seq<Seq<u8>> {
    seq![descriptor_image(sb, sequence, group)] + Seq::new(
        group.len(),
        |i: int| logged_image(group[i].image@),
    )
}

/// The images of one descriptor, from `start` on.
pub open spec fn group_at(sb: Superblock, blocks: Seq<StagedBlock>, start: int) -> Seq<
    StagedBlock,
> {
    let end = start + descriptor_tags(sb.features);
    if end < blocks.len() {
        blocks.subrange(start, end)
    } else {
        blocks.subrange(start, blocks.len() as int)
    }
}

/// The log blocks of the first `groups` descriptors of `blocks`.
pub open spec fn log_of_groups(
    sb: Superblock,
    sequence: u32,
    blocks: Seq<StagedBlock>,
    groups: nat,
) -> Seq<Seq<u8>>
    decreases groups,
{
    if groups == 0 {
        Seq::empty()
    } else {
        log_of_groups(sb, sequence, blocks, (groups - 1) as nat) + group_log(
            sb,
            sequence,
            group_at(sb, blocks, (groups - 1) * descriptor_tags(sb.features)),
        )
    }
}

/// The log blocks of a transaction, without its commit record.
pub open spec fn encoded_log(sb: Superblock, sequence: u32, blocks: Seq<StagedBlock>) -> Seq<
    Seq<u8>,
> {
    log_of_groups(sb, sequence, blocks, descriptor_blocks(blocks.len(), sb.features))
}

/// Whether the tag format can name a home block.
pub open spec fn encodable_home(features: Features, home: PBlockId) -> bool {
    home <= u32::MAX || (features.checksum == ChecksumMode::V3 && features.has_64bit)
}

/// Whether the tag format can name every home block.
pub open spec fn encodable(features: Features, blocks: Seq<StagedBlock>) -> bool {
    forall|i: int|
        0 <= i < blocks.len() ==> encodable_home(features, #[trigger] blocks[i].home)
}

/// The bytes of each block.
pub open spec fn bytes_of(blocks: Seq<Box<[u8; BLOCK_SIZE]>>) -> Seq<Seq<u8>> {
    Seq::new(blocks.len(), |i: int| blocks[i]@)
}

/// Stores one tag.
fn put_tag(
    descriptor: &mut [u8; BLOCK_SIZE],
    at: usize,
    sb: &Superblock,
    seed: u32,
    sequence: u32,
    home: PBlockId,
    logged: &[u8; BLOCK_SIZE],
    flags: u32,
    Ghost(image): Ghost<Seq<u8>>,
)
    requires
        at + sb.features.tag_size() <= BLOCK_SIZE,
        seed == seed_of(sb.uuid@),
        logged@ == logged_image(image),
    ensures
        final(descriptor)@ == with_tag(old(descriptor)@, at as int, *sb, sequence, home, image, flags),
{
    put_be32(descriptor, at, home as u32);
    match sb.features.checksum {
        ChecksumMode::V3 => {
            put_be32(descriptor, at + 4, flags);
            put_be32(descriptor, at + 8, (home >> 32) as u32);
            let checksum: u32 = tag_checksum(seed, sequence, logged);
            put_be32(descriptor, at + 12, checksum);
        },
        ChecksumMode::Unchecked => {
            put_be16(descriptor, at + 6, flags as u16);
        },
    }
}

/// The tags of a full group end before the checksum tail.
pub proof fn lemma_tags_fit(features: Features, index: nat)
    requires
        index < descriptor_tags(features),
    ensures
        tag_offset(features, index) + features.tag_size() + if index == 0 {
            16int
        } else {
            0
        } <= BLOCK_SIZE - match features.checksum {
            ChecksumMode::V3 => 4int,
            ChecksumMode::Unchecked => 0,
        },
{
    match features.checksum {
        ChecksumMode::V3 => {
            assert(index * 16 <= 253 * 16);
        },
        ChecksumMode::Unchecked => {
            if features.has_64bit {
                assert(index * 12 <= 338 * 12);
            } else {
                assert(index * 8 <= 507 * 8);
            }
        },
    }
}

/// Encodes the descriptor of the images from `start` to `end`, and appends it and the logged
/// images to `output`.
fn encode_group(
    sb: &Superblock,
    seed: u32,
    sequence: u32,
    staged: &StagedBlocks,
    start: usize,
    end: usize,
    output: &mut Vec<Box<[u8; BLOCK_SIZE]>>,
) -> (outcome: Result<()>)
    requires
        start < end <= staged@.len(),
        end - start <= descriptor_tags(sb.features),
        seed == seed_of(sb.uuid@),
    ensures
        match outcome {
            Ok(_) => {
                &&& encodable(sb.features, staged@.subrange(start as int, end as int))
                &&& bytes_of(final(output)@) == bytes_of(old(output)@) + group_log(
                    *sb,
                    sequence,
                    staged@.subrange(start as int, end as int),
                )
            },
            Err(error) => {
                &&& error.code == ErrCode::ENOTSUP
                &&& !encodable(sb.features, staged@.subrange(start as int, end as int))
            },
        },
{
    let ghost group = staged@.subrange(start as int, end as int);
    let mut descriptor: [u8; BLOCK_SIZE] = [0u8;BLOCK_SIZE];
    assert(descriptor@ =~= zeros(BLOCK_SIZE as nat));
    let header = Header { block_type: BlockType::Descriptor, sequence };
    header.encode_into(&mut descriptor);
    let count: usize = end - start;
    let mut data: Vec<Box<[u8; BLOCK_SIZE]>> = Vec::with_capacity(count);
    let mut offset: usize = HEADER_BYTES;
    let mut index: usize = 0;
    let tag_size: usize = sb.features.tag_bytes();
    while index < count
        invariant
            index <= count,
            count == end - start,
            start < end <= staged@.len(),
            count <= descriptor_tags(sb.features),
            group == staged@.subrange(start as int, end as int),
            seed == seed_of(sb.uuid@),
            tag_size == sb.features.tag_size(),
            offset == tag_offset(sb.features, index as nat),
            descriptor@ == with_tags(*sb, sequence, group, index as nat),
            data@.len() == index,
            forall|i: int|
                0 <= i < index ==> (#[trigger] data@[i])@ == logged_image(group[i].image@),
            forall|i: int|
                0 <= i < index ==> encodable_home(
                    sb.features,
                    #[trigger] group[i].home,
                ),
        decreases count - index,
    {
        let block = staged.at(start + index);
        assert(*block == group[index as int]);
        let mut image: [u8; BLOCK_SIZE] = *block.bytes();
        let mut flags: u32 = if index != 0 {
            FLAG_SAME_UUID
        } else {
            0
        };
        if get_be32(&image, 0) == MAGIC {
            put_zeros(&mut image, 0, 4);
            flags = flags | FLAG_ESCAPE;
        }
        if index + 1 == count {
            flags = flags | FLAG_LAST_TAG;
        }
        let home: PBlockId = block.home();
        let wide: bool = sb.features.checksum == ChecksumMode::V3 && sb.features.has_64bit;
        if home > u32::MAX as u64 && !wide {
            assert(!encodable_home(sb.features, group[index as int].home));
            return Err(Ext4Error::new(ErrCode::ENOTSUP));
        }
        proof {
            lemma_tags_fit(sb.features, index as nat);
        }
        put_tag(
            &mut descriptor,
            offset,
            sb,
            seed,
            sequence,
            home,
            &image,
            flags,
            Ghost(block.image@),
        );
        proof {
            assert(index * sb.features.tag_size() + sb.features.tag_size() == (index + 1)
                * sb.features.tag_size()) by (nonlinear_arith);
        }
        offset = offset + tag_size;
        if index == 0 {
            put_bytes(&mut descriptor, offset, &sb.uuid);
            offset = offset + 16;
        }
        data.push(Box::new(image));
        index = index + 1;
    }
    if sb.features.checksum == ChecksumMode::V3 {
        let checksum: u32 = block_checksum(seed, &descriptor);
        put_be32(&mut descriptor, BLOCK_SIZE - 4, checksum);
    }
    let ghost before = output@;
    let ghost logged = data@;
    output.push(Box::new(descriptor));
    output.append(&mut data);
    assert(bytes_of(output@) =~= bytes_of(before) + group_log(*sb, sequence, group));
    Ok(())
}

/// The number of groups that have begun before the image at `start`.
proof fn lemma_group_count(features: Features, groups: nat, start: nat, blocks: nat)
    requires
        start == groups * descriptor_tags(features),
        start < blocks,
    ensures
        groups < descriptor_blocks(blocks, features),
        start + descriptor_tags(features) >= blocks ==> groups + 1 == descriptor_blocks(
            blocks,
            features,
        ),
{
    let tags = descriptor_tags(features) as int;
    let rest = (blocks - start) as int;
    assert(tags > 0);
    if rest <= tags {
        assert(blocks + tags - 1 == tags * (groups + 1) + (rest - 1)) by (nonlinear_arith)
            requires
                start == groups * tags,
                rest == blocks - start,
        ;
        vstd::arithmetic::div_mod::lemma_fundamental_div_mod_converse(
            blocks + tags - 1,
            tags,
            (groups + 1) as int,
            rest - 1,
        );
    } else {
        vstd::arithmetic::div_mod::lemma_fundamental_div_mod(blocks + tags - 1, tags);
        let quotient = (blocks + tags - 1) / tags;
        let extra = (blocks + tags - 1) % tags;
        assert(groups < quotient) by (nonlinear_arith)
            requires
                start == groups * tags,
                rest == blocks - start,
                rest > tags,
                tags > 0,
                blocks + tags - 1 == tags * quotient + extra,
                0 <= extra < tags,
        ;
    }
}

/// Encodes the log blocks of a transaction, without its commit record.
pub fn encode_log(sb: &Superblock, sequence: u32, staged: &StagedBlocks) -> (log: Result<
    Vec<Box<[u8; BLOCK_SIZE]>>,
>)
    ensures
        match log {
            Ok(list) => {
                &&& encodable(sb.features, staged@)
                &&& bytes_of(list@) == encoded_log(*sb, sequence, staged@)
            },
            Err(error) => error.code == ErrCode::ENOTSUP && !encodable(sb.features, staged@),
        },
{
    let seed: u32 = checksum_seed(&sb.uuid);
    let tags: usize = tags_per_descriptor(sb.features)?;
    let total: usize = staged.len();
    let mut output: Vec<Box<[u8; BLOCK_SIZE]>> = Vec::new();
    let mut start: usize = 0;
    let ghost mut groups: nat = 0;
    assert(bytes_of(output@) =~= Seq::<Seq<u8>>::empty());
    proof {
        vstd::arithmetic::div_mod::lemma_basic_div(tags - 1, tags as int);
    }
    while start < total
        invariant
            start <= total,
            total == staged@.len(),
            tags == descriptor_tags(sb.features),
            tags > 0,
            seed == seed_of(sb.uuid@),
            start < total ==> start == groups * tags,
            start == total ==> groups == descriptor_blocks(total as nat, sb.features),
            bytes_of(output@) == log_of_groups(*sb, sequence, staged@, groups),
            forall|i: int|
                0 <= i < start ==> encodable_home(sb.features, #[trigger] staged@[i].home),
        decreases total - start,
    {
        let end: usize = if total - start < tags {
            total
        } else {
            start + tags
        };
        let ghost group = staged@.subrange(start as int, end as int);
        assert(group =~= group_at(*sb, staged@, start as int));
        proof {
            lemma_group_count(sb.features, groups, start as nat, total as nat);
        }
        match encode_group(sb, seed, sequence, staged, start, end, &mut output) {
            Ok(_) => {},
            Err(error) => {
                proof {
                    let bad = choose|i: int|
                        0 <= i < group.len() && !encodable_home(
                            sb.features,
                            #[trigger] group[i].home,
                        );
                    assert(group[bad] == staged@[start + bad]);
                    assert(!encodable_home(sb.features, staged@[start + bad].home));
                }
                return Err(error);
            },
        }
        assert forall|i: int| 0 <= i < end implies encodable_home(
            sb.features,
            #[trigger] staged@[i].home,
        ) by {
            if i >= start {
                assert(group[i - start] == staged@[i]);
                assert(encodable_home(sb.features, group[i - start].home));
            }
        }
        proof {
            assert(groups * tags + tags == (groups + 1) * tags) by (nonlinear_arith);
            groups = groups + 1;
        }
        start = end;
    }
    Ok(output)
}

/// The commit record of a transaction.
pub open spec fn commit_image(sb: Superblock, sequence: u32) -> Seq<u8> {
    let plain = splice(
        zeros(BLOCK_SIZE as nat),
        0,
        header_bytes(BlockType::Commit, sequence),
    );
    match sb.features.checksum {
        ChecksumMode::V3 => splice(
            plain,
            16,
            be32(commit_checksum_of(seed_of(sb.uuid@), plain)),
        ),
        ChecksumMode::Unchecked => plain,
    }
}

/// Encodes the commit record of a transaction.
pub fn encode_commit(sb: &Superblock, sequence: u32) -> (block: Box<[u8; BLOCK_SIZE]>)
    ensures
        block@ == commit_image(*sb, sequence),
{
    let mut block: [u8; BLOCK_SIZE] = [0u8;BLOCK_SIZE];
    assert(block@ =~= zeros(BLOCK_SIZE as nat));
    let header = Header { block_type: BlockType::Commit, sequence };
    header.encode_into(&mut block);
    if sb.features.checksum == ChecksumMode::V3 {
        let seed: u32 = checksum_seed(&sb.uuid);
        let checksum: u32 = commit_checksum(seed, &block);
        put_be32(&mut block, 16, checksum);
    }
    Box::new(block)
}

/// A journal superblock with a new sequence number and log start.
pub open spec fn superblock_with(
    image: Seq<u8>,
    sequence: u32,
    start: u32,
    sb: Superblock,
) -> Seq<u8> {
    let plain = splice(splice(image, 24, be32(sequence)), 28, be32(start));
    match sb.features.checksum {
        ChecksumMode::V3 => splice(plain, 252, be32(superblock_checksum_of(plain))),
        ChecksumMode::Unchecked => plain,
    }
}

/// Stores a new sequence number and log start in a journal superblock.
pub fn update_superblock(
    image: &mut [u8; SUPERBLOCK_BYTES],
    sequence: u32,
    start: u32,
    sb: &Superblock,
)
    ensures
        final(image)@ == superblock_with(old(image)@, sequence, start, *sb),
{
    put_be32(image, 24, sequence);
    put_be32(image, 28, start);
    if sb.features.checksum == ChecksumMode::V3 {
        let checksum: u32 = superblock_checksum(image);
        put_be32(image, 252, checksum);
    }
}

} // verus!
