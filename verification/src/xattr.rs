//! The block that holds the extended attributes of a file.
//!
//! Entries stand behind the header in ascending order; their values stand at the end of the block
//! in descending order.

use vstd::prelude::*;
use crate::bytes::{
    get_le16, get_le32, le16, le16_at, le32, le32_at, put_bytes, put_le16, put_le32, splice, zeros,
};
use crate::device::Block;
use crate::superblock::{xattr_checksum, xattr_sum};
use crate::{BLOCK_SIZE, PBlockId};

verus! {

/// Magic number of the block.
pub const XATTR_MAGIC: u32 = 0xea02_0000;

/// Bytes of the block's header.
pub const XATTR_HEADER_BYTES: usize = 32;

/// Bytes of an entry without its name.
pub const XATTR_ENTRY_BYTES: usize = 16;

/// The longest name of an attribute.
pub const XATTR_MAX_NAME: usize = 255;

/// Name and value of an attribute.
pub type Attribute = (Seq<u8>, Seq<u8>);

/// An attribute.
pub struct XattrEntry {
    pub name: Vec<u8>,
    pub value: Vec<u8>,
}

impl View for XattrEntry {
    type V = Attribute;

    open spec fn view(&self) -> Attribute {
        (self.name@, self.value@)
    }
}

/// The attributes of a list.
pub open spec fn attributes(entries: Seq<XattrEntry>) -> Seq<Attribute> {
    entries.map_values(|entry: XattrEntry| entry@)
}

/// A length rounded up to a multiple of four.
pub open spec fn padded(len: nat) -> nat {
    (len + 3) / 4 * 4
}

/// A length rounded up to a multiple of four.
fn pad(len: usize) -> (rounded: usize)
    requires
        len <= BLOCK_SIZE,
    ensures
        rounded == padded(len as nat),
        len <= rounded <= len + 3,
{
    (len + 3) / 4 * 4
}

/// Where entry `count` begins.
pub open spec fn entry_start(entries: Seq<Attribute>, count: nat) -> int
    decreases count,
{
    if count == 0 {
        XATTR_HEADER_BYTES as int
    } else {
        entry_start(entries, (count - 1) as nat) + XATTR_ENTRY_BYTES + padded(
            entries[count - 1].0.len(),
        )
    }
}

/// Where the values of the first `count` entries begin.
pub open spec fn value_start(entries: Seq<Attribute>, count: nat) -> int
    decreases count,
{
    if count == 0 {
        BLOCK_SIZE as int
    } else {
        value_start(entries, (count - 1) as nat) - padded(entries[count - 1].1.len())
    }
}

/// Whether the first `count` entries and their end mark fit into a block.
pub open spec fn fits(entries: Seq<Attribute>, count: nat) -> bool {
    &&& forall|i: int| 0 <= i < count ==> (#[trigger] entries[i]).0.len() <= XATTR_MAX_NAME
    &&& entry_start(entries, count) + 4 <= value_start(entries, count)
}

/// The bytes of an entry.
pub open spec fn entry_bytes(attribute: Attribute, value_at: int) -> Seq<u8> {
    seq![attribute.0.len() as u8, 0u8] + le16(value_at as u16) + le32(0) + le32(
        attribute.1.len() as u32,
    ) + le32(0) + attribute.0
}

/// A block without entries.
pub open spec fn empty_block() -> Seq<u8> {
    splice(
        splice(splice(zeros(BLOCK_SIZE as nat), 0, le32(XATTR_MAGIC)), 4, le32(1)),
        8,
        le32(1),
    )
}

/// A block with the first `count` entries.
pub open spec fn placed(entries: Seq<Attribute>, count: nat) -> Seq<u8>
    decreases count,
{
    if count == 0 {
        empty_block()
    } else {
        let last = (count - 1) as nat;
        let value_at = value_start(entries, count);
        splice(
            splice(
                placed(entries, last),
                entry_start(entries, last),
                entry_bytes(entries[last as int], value_at),
            ),
            value_at,
            entries[last as int].1,
        )
    }
}

/// The block that holds `entries`.
pub open spec fn encoded(entries: Seq<Attribute>) -> Seq<u8> {
    placed(entries, entries.len())
}

/// Whether the entry at `at` lies inside the block, with its name and its value, and its value
/// lies behind the header.
pub open spec fn entry_valid(block: Seq<u8>, at: int) -> bool {
    &&& at + XATTR_ENTRY_BYTES + block[at] <= block.len()
    &&& XATTR_HEADER_BYTES <= le16_at(block, at + 2)
    &&& le16_at(block, at + 2) + le32_at(block, at + 8) <= block.len()
}

/// The attribute of the entry at `at`.
pub open spec fn entry_read(block: Seq<u8>, at: int) -> Attribute {
    let value_at = le16_at(block, at + 2) as int;
    (
        block.subrange(at + XATTR_ENTRY_BYTES, at + XATTR_ENTRY_BYTES + block[at]),
        block.subrange(value_at, value_at + le32_at(block, at + 8)),
    )
}

/// The attributes whose entries begin at `at`, unless one of them is malformed.
pub open spec fn entries_from(block: Seq<u8>, at: int) -> Option<Seq<Attribute>>
    decreases block.len() + BLOCK_SIZE - at,
{
    if at < 0 || at + 4 > block.len() {
        None
    } else if le32_at(block, at) == 0 {
        Some(Seq::empty())
    } else if !(at + XATTR_ENTRY_BYTES <= block.len() && entry_valid(block, at)) {
        None
    } else {
        match entries_from(block, at + XATTR_ENTRY_BYTES + padded(block[at] as nat)) {
            Some(rest) => Some(seq![entry_read(block, at)] + rest),
            None => None,
        }
    }
}

/// The attributes in a block, unless it is malformed.
pub open spec fn decoded(block: Seq<u8>) -> Option<Seq<Attribute>> {
    entries_from(block, XATTR_HEADER_BYTES as int)
}

/// Whether the attribute at `at` is the first one called `name`.
pub open spec fn first_named(entries: Seq<Attribute>, name: Seq<u8>, at: int) -> bool {
    &&& 0 <= at < entries.len()
    &&& entries[at].0 == name
    &&& forall|i: int| 0 <= i < at ==> (#[trigger] entries[i]).0 != name
}

/// The value of the first attribute called `name`.
pub open spec fn value_of(entries: Seq<Attribute>, name: Seq<u8>) -> Option<Seq<u8>>
    decreases entries.len(),
{
    if entries.len() == 0 {
        None
    } else if entries[0].0 == name {
        Some(entries[0].1)
    } else {
        value_of(entries.skip(1), name)
    }
}

/// The attributes without the first one called `name`.
pub open spec fn without(entries: Seq<Attribute>, name: Seq<u8>) -> Seq<Attribute>
    decreases entries.len(),
{
    if entries.len() == 0 {
        entries
    } else if entries[0].0 == name {
        entries.skip(1)
    } else {
        seq![entries[0]] + without(entries.skip(1), name)
    }
}

/// The attributes of a block; a malformed block has none.
pub open spec fn attributes_in(block: Seq<u8>) -> Seq<Attribute> {
    match decoded(block) {
        Some(entries) => entries,
        None => Seq::empty(),
    }
}

/// Entries grow upwards and values downwards.
proof fn lemma_layout_grows(entries: Seq<Attribute>, few: nat, many: nat)
    requires
        few <= many,
    ensures
        entry_start(entries, few) <= entry_start(entries, many),
        value_start(entries, many) <= value_start(entries, few),
        few < many ==> entry_start(entries, few) + XATTR_ENTRY_BYTES + padded(
            entries[few as int].0.len(),
        ) <= entry_start(entries, many),
        entry_start(entries, few) >= XATTR_HEADER_BYTES,
        value_start(entries, few) <= BLOCK_SIZE,
    decreases many,
{
    if few < many {
        lemma_layout_grows(entries, few, (many - 1) as nat);
    } else if few > 0 {
        lemma_layout_grows(entries, (few - 1) as nat, (few - 1) as nat);
    }
}

/// Fewer entries fit where more do.
proof fn lemma_fits_fewer(entries: Seq<Attribute>, few: nat, many: nat)
    requires
        few <= many,
        fits(entries, many),
    ensures
        fits(entries, few),
{
    lemma_layout_grows(entries, few, many);
}

/// A block keeps its length, and what lies between entries and values stays clear.
pub(crate) proof fn lemma_placed(entries: Seq<Attribute>, count: nat)
    requires
        count <= entries.len(),
        fits(entries, count),
    ensures
        placed(entries, count).len() == BLOCK_SIZE,
        forall|i: int|
            entry_start(entries, count) <= i < value_start(entries, count) ==> placed(
                entries,
                count,
            )[i] == 0,
    decreases count,
{
    if count > 0 {
        let last = (count - 1) as nat;
        lemma_fits_fewer(entries, last, count);
        lemma_placed(entries, last);
        lemma_layout_grows(entries, last, count);
        let bytes = entry_bytes(entries[last as int], value_start(entries, count));
        assert(bytes.len() == XATTR_ENTRY_BYTES + entries[last as int].0.len());
        assert(entries[last as int].0.len() <= padded(entries[last as int].0.len()));
    }
}

/// The bytes of entry `index` and of its value stay as they were placed.
proof fn lemma_placed_keeps(entries: Seq<Attribute>, index: nat, count: nat)
    requires
        index < count <= entries.len(),
        fits(entries, count),
    ensures
        ({
            let block = placed(entries, count);
            let at = entry_start(entries, index);
            let value_at = value_start(entries, index + 1);
            let bytes = entry_bytes(entries[index as int], value_at);
            let name_len = entries[index as int].0.len();
            let value_len = entries[index as int].1.len();
            &&& forall|i: int| at <= i < at + bytes.len() ==> block[i] == bytes[i - at]
            &&& forall|i: int|
                value_at <= i < value_at + value_len ==> block[i] == entries[index as int].1[i
                    - value_at]
        }),
    decreases count,
{
    let last = (count - 1) as nat;
    let block = placed(entries, count);
    let at = entry_start(entries, index);
    let value_at = value_start(entries, (index + 1) as nat);
    let bytes = entry_bytes(entries[index as int], value_at);
    let name_len = entries[index as int].0.len();
    let value_len = entries[index as int].1.len();
    assert(bytes.len() == XATTR_ENTRY_BYTES + name_len);
    assert(name_len <= padded(name_len));
    assert(value_len <= padded(value_len));
    lemma_layout_grows(entries, index, (index + 1) as nat);
    lemma_layout_grows(entries, (index + 1) as nat, count);
    lemma_layout_grows(entries, index, count);
    lemma_layout_grows(entries, last, count);
    lemma_fits_fewer(entries, last, count);
    lemma_placed(entries, last);
    lemma_placed(entries, count);
    if index < last {
        lemma_placed_keeps(entries, index, last);
        lemma_layout_grows(entries, (index + 1) as nat, last);
        lemma_layout_grows(entries, index, last);
        let earlier = placed(entries, last);
        let last_bytes = entry_bytes(entries[last as int], value_start(entries, count));
        assert(last_bytes.len() == XATTR_ENTRY_BYTES + entries[last as int].0.len());
        assert(entries[last as int].0.len() <= padded(entries[last as int].0.len()));
        assert(entries[last as int].1.len() <= padded(entries[last as int].1.len()));
        assert forall|i: int| at <= i < at + bytes.len() implies block[i] == earlier[i] by {}
        assert forall|i: int| value_at <= i < value_at + value_len implies block[i]
            == earlier[i] by {}
    }
}

/// An entry reads back as the attribute that was placed.
proof fn lemma_entry_reads_back(entries: Seq<Attribute>, index: nat)
    requires
        index < entries.len(),
        fits(entries, entries.len()),
    ensures
        ({
            let block = encoded(entries);
            let at = entry_start(entries, index);
            &&& 0 <= at
            &&& at + XATTR_ENTRY_BYTES <= block.len()
            &&& le32_at(block, at) != 0
            &&& entry_valid(block, at)
            &&& block[at] == entries[index as int].0.len()
            &&& entry_read(block, at) == entries[index as int]
        }),
{
    let count = entries.len();
    let block = encoded(entries);
    let at = entry_start(entries, index);
    let value_at = value_start(entries, (index + 1) as nat);
    let attribute = entries[index as int];
    let bytes = entry_bytes(attribute, value_at);
    lemma_placed(entries, count);
    lemma_placed_keeps(entries, index, count);
    lemma_layout_grows(entries, index, (index + 1) as nat);
    lemma_layout_grows(entries, (index + 1) as nat, count);
    lemma_layout_grows(entries, index, count);
    assert(attribute.0.len() <= padded(attribute.0.len()));
    assert(attribute.1.len() <= padded(attribute.1.len()));
    assert(bytes.len() == XATTR_ENTRY_BYTES + attribute.0.len());
    let offset = value_at as u16;
    let size = attribute.1.len() as u32;
    assert(block[at] == bytes[0] && block[at + 1] == bytes[1] && block[at + 2] == bytes[2]
        && block[at + 3] == bytes[3] && block[at + 8] == bytes[8] && block[at + 9] == bytes[9]
        && block[at + 10] == bytes[10] && block[at + 11] == bytes[11]);
    assert(bytes[2] == offset as u8 && bytes[3] == (offset >> 8) as u8);
    assert(bytes[8] == size as u8 && bytes[9] == (size >> 8) as u8 && bytes[10] == (size
        >> 16) as u8 && bytes[11] == (size >> 24) as u8);
    assert(((offset as u8) as u16) | (((offset >> 8) as u8) as u16) << 8 == offset)
        by (bit_vector);
    assert(((size as u8) as u32) | (((size >> 8) as u8) as u32) << 8 | (((size >> 16)
        as u8) as u32) << 16 | (((size >> 24) as u8) as u32) << 24 == size) by (bit_vector);
    assert(le16_at(block, at + 2) == offset);
    assert(le32_at(block, at + 8) == size);
    let a = block[at];
    let b = block[at + 1];
    let c = block[at + 2];
    let d = block[at + 3];
    assert((a as u32) | ((b as u32) << 8) | ((c as u32) << 16) | ((d as u32) << 24) != 0)
        by (bit_vector)
        requires
            c == offset as u8,
            d == (offset >> 8) as u8,
            offset != 0,
    ;
    let (name, value) = entry_read(block, at);
    assert forall|i: int| 0 <= i < attribute.0.len() implies name[i] == attribute.0[i] by {
        assert(block[at + 16 + i] == bytes[16 + i]);
    }
    assert(name =~= attribute.0);
    assert forall|i: int| 0 <= i < attribute.1.len() implies value[i] == attribute.1[i] by {
        assert(block[value_at + i] == attribute.1[i]);
    }
    assert(value =~= attribute.1);
}

/// The entries from `index` on read back.
proof fn lemma_entries_read_back(entries: Seq<Attribute>, index: nat)
    requires
        index <= entries.len(),
        fits(entries, entries.len()),
    ensures
        entries_from(encoded(entries), entry_start(entries, index)) == Some(
            entries.skip(index as int),
        ),
    decreases entries.len() - index,
{
    let block = encoded(entries);
    let at = entry_start(entries, index);
    lemma_placed(entries, entries.len());
    lemma_layout_grows(entries, index, entries.len());
    if index == entries.len() {
        assert(block[at] == 0 && block[at + 1] == 0 && block[at + 2] == 0 && block[at + 3] == 0);
        assert((0u8 as u32) | ((0u8 as u32) << 8) | ((0u8 as u32) << 16) | ((0u8 as u32) << 24)
            == 0) by (bit_vector);
        assert(entries.skip(index as int) =~= Seq::<Attribute>::empty());
    } else {
        lemma_entry_reads_back(entries, index);
        lemma_entries_read_back(entries, index + 1);
        assert(entries.skip(index as int) =~= seq![entries[index as int]] + entries.skip(
            index as int + 1,
        ));
    }
}

/// Decoding a block gives the attributes that were encoded in it.
pub proof fn lemma_attributes_read_back(entries: Seq<Attribute>)
    requires
        fits(entries, entries.len()),
    ensures
        decoded(encoded(entries)) == Some(entries),
{
    lemma_entries_read_back(entries, 0);
    assert(entries.skip(0) =~= entries);
}

/// Encodes `entries`, if they fit into a block.
pub fn encode(entries: &Vec<XattrEntry>) -> (block: Option<Box<[u8; BLOCK_SIZE]>>)
    ensures
        match block {
            Some(bytes) => {
                &&& fits(attributes(entries@), entries@.len())
                &&& bytes@ == encoded(attributes(entries@))
            },
            None => !fits(attributes(entries@), entries@.len()),
        },
{
    let ghost list = attributes(entries@);
    let mut bytes: [u8; BLOCK_SIZE] = [0u8;BLOCK_SIZE];
    assert(bytes@ =~= zeros(BLOCK_SIZE as nat));
    put_le32(&mut bytes, 0, XATTR_MAGIC);
    put_le32(&mut bytes, 4, 1);
    put_le32(&mut bytes, 8, 1);
    let count: usize = entries.len();
    let mut at: usize = XATTR_HEADER_BYTES;
    let mut values: usize = BLOCK_SIZE;
    let mut done: usize = 0;
    while done < count
        invariant
            done <= count,
            count == entries@.len(),
            list == attributes(entries@),
            at == entry_start(list, done as nat),
            values == value_start(list, done as nat),
            fits(list, done as nat),
            XATTR_HEADER_BYTES <= at,
            values <= BLOCK_SIZE,
            bytes@ == placed(list, done as nat),
        decreases count - done,
    {
        let entry = &entries[done];
        assert(list[done as int] == entry@);
        let name_len: usize = entry.name.len();
        let value_len: usize = entry.value.len();
        if name_len > XATTR_MAX_NAME {
            return None;
        }
        if value_len > BLOCK_SIZE {
            proof {
                lemma_layout_grows(list, (done + 1) as nat, count as nat);
                lemma_layout_grows(list, done as nat, (done + 1) as nat);
                lemma_layout_grows(list, 0, count as nat);
                assert(value_len <= padded(value_len as nat));
            }
            return None;
        }
        let next: usize = at + XATTR_ENTRY_BYTES + pad(name_len);
        let space: usize = pad(value_len);
        proof {
            lemma_layout_grows(list, (done + 1) as nat, count as nat);
        }
        if space > values || next + 4 > values - space {
            return None;
        }
        let value_at: usize = values - space;
        bytes[at] = name_len as u8;
        bytes[at + 1] = 0;
        put_le16(&mut bytes, at + 2, value_at as u16);
        put_le32(&mut bytes, at + 4, 0);
        put_le32(&mut bytes, at + 8, value_len as u32);
        put_le32(&mut bytes, at + 12, 0);
        put_bytes(&mut bytes, at + XATTR_ENTRY_BYTES, entry.name.as_slice());
        assert(bytes@ =~= splice(
            placed(list, done as nat),
            at as int,
            entry_bytes(list[done as int], value_at as int),
        ));
        put_bytes(&mut bytes, value_at, entry.value.as_slice());
        at = next;
        values = value_at;
        done = done + 1;
    }
    Some(Box::new(bytes))
}

/// The bytes from `start` to `end`.
fn copy_range(block: &[u8; BLOCK_SIZE], start: usize, end: usize) -> (bytes: Vec<u8>)
    requires
        start <= end <= BLOCK_SIZE,
    ensures
        bytes@ == block@.subrange(start as int, end as int),
{
    let mut bytes: Vec<u8> = Vec::new();
    bytes.extend_from_slice(vstd::slice::slice_subrange(block.as_slice(), start, end));
    assert(bytes@ =~= block@.subrange(start as int, end as int));
    bytes
}

/// Decodes the attributes of a block, unless it is malformed.
pub fn decode(block: &[u8; BLOCK_SIZE]) -> (entries: Option<Vec<XattrEntry>>)
    ensures
        match entries {
            Some(list) => decoded(block@) == Some(attributes(list@)),
            None => decoded(block@) is None,
        },
{
    let mut list: Vec<XattrEntry> = Vec::new();
    let mut at: usize = XATTR_HEADER_BYTES;
    assert(attributes(list@) =~= Seq::<Attribute>::empty());
    while at + 4 <= BLOCK_SIZE
        invariant
            XATTR_HEADER_BYTES <= at <= 2 * BLOCK_SIZE,
            match entries_from(block@, at as int) {
                Some(rest) => decoded(block@) == Some(attributes(list@) + rest),
                None => decoded(block@) is None,
            },
        decreases 2 * BLOCK_SIZE - at,
    {
        if get_le32(block, at) == 0 {
            assert(attributes(list@) + Seq::<Attribute>::empty() =~= attributes(list@));
            return Some(list);
        }
        if at + XATTR_ENTRY_BYTES > BLOCK_SIZE {
            return None;
        }
        let name_len: usize = block[at] as usize;
        let value_at: usize = get_le16(block, at + 2) as usize;
        let value_len: usize = get_le32(block, at + 8) as usize;
        if at + XATTR_ENTRY_BYTES + name_len > BLOCK_SIZE || value_at < XATTR_HEADER_BYTES
            || value_len > BLOCK_SIZE || value_at + value_len > BLOCK_SIZE {
            return None;
        }
        let name: Vec<u8> = copy_range(
            block,
            at + XATTR_ENTRY_BYTES,
            at + XATTR_ENTRY_BYTES + name_len,
        );
        let value: Vec<u8> = copy_range(block, value_at, value_at + value_len);
        let ghost before = attributes(list@);
        let next: usize = at + XATTR_ENTRY_BYTES + pad(name_len);
        list.push(XattrEntry { name, value });
        proof {
            let read = entry_read(block@, at as int);
            assert(attributes(list@) =~= before.push(read));
            match entries_from(block@, next as int) {
                Some(rest) => {
                    assert(before + (seq![read] + rest) =~= before.push(read) + rest);
                },
                None => {},
            }
        }
        at = next;
    }
    None
}

/// Whether two byte strings are equal.
fn same_bytes(left: &[u8], right: &[u8]) -> (same: bool)
    ensures
        same == (left@ == right@),
{
    if left.len() != right.len() {
        return false;
    }
    let count: usize = left.len();
    let mut at: usize = 0;
    while at < count
        invariant
            at <= count,
            count == left@.len(),
            count == right@.len(),
            forall|i: int| 0 <= i < at ==> left@[i] == right@[i],
        decreases count - at,
    {
        if left[at] != right[at] {
            return false;
        }
        at = at + 1;
    }
    assert(left@ =~= right@);
    true
}

/// What the position of the first attribute of a name says of its value and of the others.
pub(crate) proof fn lemma_first_named(entries: Seq<Attribute>, name: Seq<u8>, at: int)
    requires
        first_named(entries, name, at),
    ensures
        value_of(entries, name) == Some(entries[at].1),
        without(entries, name) == entries.remove(at),
    decreases entries.len(),
{
    if at > 0 {
        let rest = entries.skip(1);
        assert(entries[0].0 != name);
        assert forall|i: int| 0 <= i < at - 1 implies (#[trigger] rest[i]).0 != name by {
            assert(rest[i] == entries[i + 1]);
        }
        lemma_first_named(rest, name, at - 1);
        assert(without(entries, name) =~= entries.remove(at));
    } else {
        assert(without(entries, name) =~= entries.remove(0));
    }
}

/// Without an attribute of a name there is no value of it.
pub(crate) proof fn lemma_none_named(entries: Seq<Attribute>, name: Seq<u8>)
    requires
        forall|i: int| 0 <= i < entries.len() ==> (#[trigger] entries[i]).0 != name,
    ensures
        value_of(entries, name) is None,
        without(entries, name) == entries,
    decreases entries.len(),
{
    if entries.len() > 0 {
        let rest = entries.skip(1);
        assert(entries[0].0 != name);
        assert forall|i: int| 0 <= i < rest.len() implies (#[trigger] rest[i]).0 != name by {
            assert(rest[i] == entries[i + 1]);
        }
        lemma_none_named(rest, name);
        assert(without(entries, name) =~= entries);
    }
}

/// The position of the first attribute called `name`.
fn position(entries: &Vec<XattrEntry>, name: &[u8]) -> (found: Option<usize>)
    ensures
        match found {
            Some(at) => {
                &&& first_named(attributes(entries@), name@, at as int)
                &&& value_of(attributes(entries@), name@) == Some(entries@[at as int].value@)
                &&& without(attributes(entries@), name@) == attributes(entries@).remove(at as int)
            },
            None => {
                &&& value_of(attributes(entries@), name@) is None
                &&& without(attributes(entries@), name@) == attributes(entries@)
            },
        },
{
    let ghost list = attributes(entries@);
    let count: usize = entries.len();
    let mut at: usize = 0;
    while at < count
        invariant
            at <= count,
            count == entries@.len(),
            list == attributes(entries@),
            forall|i: int| 0 <= i < at ==> (#[trigger] list[i]).0 != name@,
        decreases count - at,
    {
        assert(list[at as int] == entries@[at as int]@);
        if same_bytes(entries[at].name.as_slice(), name) {
            proof {
                lemma_first_named(list, name@, at as int);
            }
            return Some(at);
        }
        at = at + 1;
    }
    proof {
        lemma_none_named(list, name@);
    }
    None
}

/// The block that holds the extended attributes of a file.
pub struct XattrBlock {
    block: Block,
}

impl XattrBlock {
    /// The number of the block.
    pub closed spec fn id(&self) -> PBlockId {
        self.block.id
    }

    /// The bytes of the block.
    pub closed spec fn bytes(&self) -> Seq<u8> {
        self.block.data@
    }

    /// The attributes in the block.
    pub open spec fn entries(&self) -> Seq<Attribute> {
        attributes_in(self.bytes())
    }

    /// A block as it was read.
    pub fn new(block: Block) -> (xattrs: Self)
        ensures
            xattrs.id() == block.id,
            xattrs.bytes() == block.data@,
    {
        XattrBlock { block }
    }

    /// Makes the block one without attributes.
    pub fn init(&mut self)
        ensures
            final(self).id() == old(self).id(),
            final(self).bytes() == encoded(Seq::empty()),
            final(self).entries() == Seq::<Attribute>::empty(),
    {
        let none: Vec<XattrEntry> = Vec::new();
        assert(attributes(none@) =~= Seq::<Attribute>::empty());
        assert(fits(Seq::empty(), 0));
        match encode(&none) {
            Some(bytes) => {
                self.block.data = bytes;
                proof {
                    lemma_attributes_read_back(Seq::empty());
                }
            },
            None => {},
        }
    }

    /// The attributes in the block.
    fn decode_entries(&self) -> (entries: Vec<XattrEntry>)
        ensures
            attributes(entries@) == self.entries(),
    {
        match decode(&self.block.data) {
            Some(entries) => entries,
            None => {
                let none: Vec<XattrEntry> = Vec::new();
                assert(attributes(none@) =~= Seq::<Attribute>::empty());
                none
            },
        }
    }

    /// The value of the attribute called `name`.
    pub fn get(&self, name: &[u8]) -> (value: Option<Vec<u8>>)
        ensures
            match value {
                Some(bytes) => value_of(self.entries(), name@) == Some(bytes@),
                None => value_of(self.entries(), name@) is None,
            },
    {
        let mut entries: Vec<XattrEntry> = self.decode_entries();
        match position(&entries, name) {
            Some(at) => {
                let entry = entries.swap_remove(at);
                Some(entry.value)
            },
            None => None,
        }
    }

    /// Adds an attribute, if the block is well-formed and has room for it.
    pub fn insert(&mut self, name: &[u8], value: &[u8]) -> (inserted: bool)
        ensures
            final(self).id() == old(self).id(),
            ({
                let grown = old(self).entries().push((name@, value@));
                &&& inserted == (decoded(old(self).bytes()) is Some && fits(grown, grown.len()))
                &&& inserted ==> final(self).bytes() == encoded(grown)
                &&& inserted ==> final(self).entries() == grown
                &&& !inserted ==> final(self).bytes() == old(self).bytes()
            }),
    {
        let mut entries: Vec<XattrEntry> = match decode(&self.block.data) {
            Some(entries) => entries,
            None => {
                return false;
            },
        };
        let ghost grown = self.entries().push((name@, value@));
        let mut name_bytes: Vec<u8> = Vec::new();
        name_bytes.extend_from_slice(name);
        let mut value_bytes: Vec<u8> = Vec::new();
        value_bytes.extend_from_slice(value);
        assert(name_bytes@ =~= name@);
        assert(value_bytes@ =~= value@);
        entries.push(XattrEntry { name: name_bytes, value: value_bytes });
        assert(attributes(entries@) =~= grown);
        match encode(&entries) {
            Some(bytes) => {
                self.block.data = bytes;
                proof {
                    lemma_attributes_read_back(grown);
                }
                true
            },
            None => false,
        }
    }

    /// Removes the attribute called `name`, if there is one.
    pub fn remove(&mut self, name: &[u8]) -> (removed: bool)
        ensures
            final(self).id() == old(self).id(),
            ({
                let rest = without(old(self).entries(), name@);
                &&& removed == (value_of(old(self).entries(), name@) is Some && fits(
                    rest,
                    rest.len(),
                ))
                &&& removed ==> final(self).bytes() == encoded(rest)
                &&& removed ==> final(self).entries() == rest
                &&& !removed ==> final(self).bytes() == old(self).bytes()
            }),
    {
        let mut entries: Vec<XattrEntry> = self.decode_entries();
        let ghost list = attributes(entries@);
        match position(&entries, name) {
            Some(at) => {
                let _ = entries.remove(at);
                assert(attributes(entries@) =~= list.remove(at as int));
                match encode(&entries) {
                    Some(bytes) => {
                        self.block.data = bytes;
                        proof {
                            lemma_attributes_read_back(attributes(entries@));
                        }
                        true
                    },
                    None => false,
                }
            },
            None => false,
        }
    }

    /// The names of the attributes.
    pub fn list(&self) -> (names: Vec<Vec<u8>>)
        ensures
            names@.len() == self.entries().len(),
            forall|i: int|
                0 <= i < names@.len() ==> (#[trigger] names@[i])@ == self.entries()[i].0,
    {
        let entries: Vec<XattrEntry> = self.decode_entries();
        let mut names: Vec<Vec<u8>> = Vec::new();
        let count: usize = entries.len();
        let mut at: usize = 0;
        while at < count
            invariant
                at <= count,
                count == entries@.len(),
                attributes(entries@) == self.entries(),
                names@.len() == at,
                forall|i: int|
                    0 <= i < at ==> (#[trigger] names@[i])@ == self.entries()[i].0,
            decreases count - at,
        {
            let mut name: Vec<u8> = Vec::new();
            name.extend_from_slice(entries[at].name.as_slice());
            assert(name@ =~= entries@[at as int].name@);
            assert(attributes(entries@)[at as int] == entries@[at as int]@);
            names.push(name);
            at = at + 1;
        }
        names
    }

    /// The block as it is to be written.
    pub fn block(&self) -> (block: &Block)
        ensures
            block.id == self.id(),
            block.data@ == self.bytes(),
    {
        &self.block
    }

    /// Whether the stored checksum is right.
    pub fn verify_checksum(&self, seed: u32, id: PBlockId) -> (right: bool)
        ensures
            right == (le32_at(self.bytes(), 16) == xattr_sum(self.bytes(), id, seed)),
    {
        get_le32(self.block.data.as_slice(), 16) == xattr_checksum(&self.block.data, id, seed)
    }

    /// Stores the checksum.
    pub fn update_checksum(&mut self, seed: u32, id: PBlockId)
        ensures
            final(self).id() == old(self).id(),
            final(self).bytes() == splice(
                old(self).bytes(),
                16,
                le32(xattr_sum(old(self).bytes(), id, seed)),
            ),
    {
        let sum: u32 = xattr_checksum(&self.block.data, id, seed);
        let mut data: [u8; BLOCK_SIZE] = *self.block.data;
        put_le32(&mut data, 16, sum);
        self.block.data = Box::new(data);
    }
}

/// The checksum leaves the attributes as they are.
pub proof fn lemma_checksum_keeps_attributes(block: Seq<u8>, sum: u32)
    requires
        block.len() == BLOCK_SIZE,
    ensures
        decoded(splice(block, 16, le32(sum))) == decoded(block),
{
    lemma_header_is_apart(block, splice(block, 16, le32(sum)), XATTR_HEADER_BYTES as int);
}

/// Blocks that agree behind the header hold the same attributes.
proof fn lemma_header_is_apart(left: Seq<u8>, right: Seq<u8>, at: int)
    requires
        left.len() == BLOCK_SIZE,
        right.len() == BLOCK_SIZE,
        forall|i: int| XATTR_HEADER_BYTES <= i < BLOCK_SIZE ==> left[i] == right[i],
        XATTR_HEADER_BYTES <= at,
    ensures
        entries_from(left, at) == entries_from(right, at),
    decreases 2 * BLOCK_SIZE - at,
{
    if at + XATTR_ENTRY_BYTES <= BLOCK_SIZE {
        let next = at + XATTR_ENTRY_BYTES + padded(left[at] as nat);
        lemma_header_is_apart(left, right, next);
        if entry_valid(left, at) {
            let value_at = le16_at(left, at + 2) as int;
            let size = le32_at(left, at + 8) as int;
            assert(left.subrange(value_at, value_at + size) =~= right.subrange(
                value_at,
                value_at + size,
            ));
            assert(entry_read(left, at).0 =~= entry_read(right, at).0);
            assert(entry_read(left, at) == entry_read(right, at));
        }
    }
}

/// Whether attributes can be written to a block, and have different names.
pub open spec fn tidy(entries: Seq<Attribute>) -> bool {
    &&& fits(entries, entries.len())
    &&& forall|i: int, j: int|
        0 <= i < j < entries.len() ==> (#[trigger] entries[i]).0 != (#[trigger] entries[j]).0
}

/// Entries and values take the same room in every list that begins with them.
proof fn lemma_layout_of_prefix(left: Seq<Attribute>, right: Seq<Attribute>, count: nat)
    requires
        count <= left.len(),
        count <= right.len(),
        forall|i: int| 0 <= i < count ==> left[i] == right[i],
    ensures
        entry_start(left, count) == entry_start(right, count),
        value_start(left, count) == value_start(right, count),
    decreases count,
{
    if count > 0 {
        lemma_layout_of_prefix(left, right, (count - 1) as nat);
    }
}

/// An attribute that is removed gives its room back.
proof fn lemma_layout_without(entries: Seq<Attribute>, at: int, count: nat)
    requires
        0 <= at < count <= entries.len(),
    ensures
        entry_start(entries.remove(at), (count - 1) as nat) == entry_start(entries, count)
            - XATTR_ENTRY_BYTES - padded(entries[at].0.len()),
        value_start(entries.remove(at), (count - 1) as nat) == value_start(entries, count) + padded(
            entries[at].1.len(),
        ),
    decreases count,
{
    let rest = entries.remove(at);
    if count == at + 1 {
        lemma_layout_of_prefix(rest, entries, at as nat);
    } else {
        lemma_layout_without(entries, at, (count - 1) as nat);
        assert(rest[count - 2] == entries[count - 1]);
    }
}

/// The attributes without one are as tidy as before.
pub(crate) proof fn lemma_removed_is_tidy(entries: Seq<Attribute>, at: int)
    requires
        tidy(entries),
        0 <= at < entries.len(),
    ensures
        tidy(entries.remove(at)),
        forall|i: int|
            0 <= i < entries.remove(at).len() ==> (#[trigger] entries.remove(at)[i]).0
                != entries[at].0,
{
    let rest = entries.remove(at);
    lemma_layout_without(entries, at, entries.len());
    assert forall|i: int| 0 <= i < rest.len() implies (#[trigger] rest[i]).0.len()
        <= XATTR_MAX_NAME by {
        assert(rest[i] == entries[if i < at {
            i
        } else {
            i + 1
        }]);
    }
    assert forall|i: int| 0 <= i < rest.len() implies (#[trigger] rest[i]).0 != entries[at].0 by {
        assert(rest[i] == entries[if i < at {
            i
        } else {
            i + 1
        }]);
    }
}

/// A name has a value where it stands somewhere.
pub(crate) proof fn lemma_named(entries: Seq<Attribute>, name: Seq<u8>)
    ensures
        value_of(entries, name) is Some <==> exists|at: int| first_named(entries, name, at),
    decreases entries.len(),
{
    if forall|i: int| 0 <= i < entries.len() ==> (#[trigger] entries[i]).0 != name {
        lemma_none_named(entries, name);
    } else {
        let some = choose|i: int| 0 <= i < entries.len() && (#[trigger] entries[i]).0 == name;
        lemma_least_named(entries, name, some);
        let at = choose|at: int| first_named(entries, name, at);
        lemma_first_named(entries, name, at);
    }
}

/// A name that stands somewhere stands somewhere first.
proof fn lemma_least_named(entries: Seq<Attribute>, name: Seq<u8>, at: int)
    requires
        0 <= at < entries.len(),
        entries[at].0 == name,
    ensures
        exists|first: int| first_named(entries, name, first),
    decreases at,
{
    if forall|i: int| 0 <= i < at ==> (#[trigger] entries[i]).0 != name {
        assert(first_named(entries, name, at));
    } else {
        let earlier = choose|i: int| 0 <= i < at && (#[trigger] entries[i]).0 == name;
        lemma_least_named(entries, name, earlier);
    }
}

/// Removing one attribute leaves the values of the others.
pub proof fn lemma_remove_keeps_others(entries: Seq<Attribute>, name: Seq<u8>, other: Seq<u8>)
    requires
        tidy(entries),
        value_of(entries, name) is Some,
    ensures
        tidy(without(entries, name)),
        value_of(without(entries, name), name) is None,
        other != name ==> value_of(without(entries, name), other) == value_of(entries, other),
{
    lemma_named(entries, name);
    let at = choose|at: int| first_named(entries, name, at);
    lemma_first_named(entries, name, at);
    lemma_removed_is_tidy(entries, at);
    let rest = entries.remove(at);
    lemma_none_named(rest, name);
    if other != name {
        lemma_named(entries, other);
        if value_of(entries, other) is Some {
            let place = choose|place: int| first_named(entries, other, place);
            lemma_first_named(entries, other, place);
            let moved = if place < at {
                place
            } else {
                place - 1
            };
            assert forall|i: int| 0 <= i < moved implies (#[trigger] rest[i]).0 != other by {
                assert(rest[i] == entries[if i < at {
                    i
                } else {
                    i + 1
                }]);
            }
            lemma_first_named(rest, other, moved);
        } else {
            assert forall|i: int| 0 <= i < rest.len() implies (#[trigger] rest[i]).0 != other by {
                let from = if i < at {
                    i
                } else {
                    i + 1
                };
                assert(rest[i] == entries[from]);
                if entries[from].0 == other {
                    lemma_least_named(entries, other, from);
                }
            }
            lemma_none_named(rest, other);
        }
    }
}

/// An attribute that is added has its value, and leaves the values of the others.
pub proof fn lemma_insert_keeps_others(
    entries: Seq<Attribute>,
    name: Seq<u8>,
    value: Seq<u8>,
    other: Seq<u8>,
)
    requires
        tidy(entries),
        value_of(entries, name) is None,
        fits(entries.push((name, value)), entries.len() + 1),
    ensures
        tidy(entries.push((name, value))),
        value_of(entries.push((name, value)), name) == Some(value),
        other != name ==> value_of(entries.push((name, value)), other) == value_of(entries, other),
{
    let grown = entries.push((name, value));
    let last = entries.len() as int;
    assert forall|i: int| 0 <= i < last implies (#[trigger] entries[i]).0 != name by {
        if entries[i].0 == name {
            lemma_least_named(entries, name, i);
            lemma_named(entries, name);
        }
    }
    assert forall|i: int| 0 <= i < last implies (#[trigger] grown[i]).0 != name by {
        assert(grown[i] == entries[i]);
    }
    lemma_first_named(grown, name, last);
    assert forall|i: int, j: int| 0 <= i < j < grown.len() implies (#[trigger] grown[i]).0 != (
    #[trigger] grown[j]).0 by {
        assert(grown[i] == entries[i]);
        if j < last {
            assert(grown[j] == entries[j]);
        }
    }
    if other != name {
        lemma_named(entries, other);
        if value_of(entries, other) is Some {
            let place = choose|place: int| first_named(entries, other, place);
            lemma_first_named(entries, other, place);
            assert forall|i: int| 0 <= i < place implies (#[trigger] grown[i]).0 != other by {
                assert(grown[i] == entries[i]);
            }
            lemma_first_named(grown, other, place);
        } else {
            assert forall|i: int| 0 <= i < grown.len() implies (#[trigger] grown[i]).0 != other by {
                if i < last {
                    assert(grown[i] == entries[i]);
                    if entries[i].0 == other {
                        lemma_least_named(entries, other, i);
                    }
                }
            }
            lemma_none_named(grown, other);
        }
    }
}

} // verus!
