//! Fixed-width integers in byte sequences.

use vstd::prelude::*;

verus! {

/// `base` with the bytes from `at` on replaced by `patch`.
pub open spec fn splice(base: Seq<u8>, at: int, patch: Seq<u8>) -> Seq<u8> {
    Seq::new(
        base.len(),
        |i: int|
            if at <= i < at + patch.len() {
                patch[i - at]
            } else {
                base[i]
            },
    )
}

/// A sequence of `len` zero bytes.
pub open spec fn zeros(len: nat) -> Seq<u8> {
    Seq::new(len, |i: int| 0u8)
}

/// Big-endian bytes of a 32-bit number.
pub open spec fn be32(value: u32) -> Seq<u8> {
    seq![(value >> 24) as u8, (value >> 16) as u8, (value >> 8) as u8, value as u8]
}

/// Big-endian bytes of a 16-bit number.
pub open spec fn be16(value: u16) -> Seq<u8> {
    seq![(value >> 8) as u8, value as u8]
}

/// The 32-bit number whose big-endian bytes start at `at`.
pub open spec fn be32_at(data: Seq<u8>, at: int) -> u32 {
    ((data[at] as u32) << 24) | ((data[at + 1] as u32) << 16) | ((data[at + 2] as u32) << 8)
        | (data[at + 3] as u32)
}

/// The 16-bit number whose big-endian bytes start at `at`.
pub open spec fn be16_at(data: Seq<u8>, at: int) -> u16 {
    ((data[at] as u16) << 8) | (data[at + 1] as u16)
}

/// Little-endian bytes of a 16-bit number.
pub open spec fn le16(value: u16) -> Seq<u8> {
    seq![value as u8, (value >> 8) as u8]
}

/// Little-endian bytes of a 32-bit number.
pub open spec fn le32(value: u32) -> Seq<u8> {
    seq![value as u8, (value >> 8) as u8, (value >> 16) as u8, (value >> 24) as u8]
}

/// Little-endian bytes of a 64-bit number.
pub open spec fn le64(value: u64) -> Seq<u8> {
    le32(value as u32) + le32((value >> 32) as u32)
}

/// The 16-bit number whose little-endian bytes start at `at`.
pub open spec fn le16_at(data: Seq<u8>, at: int) -> u16 {
    (data[at] as u16) | ((data[at + 1] as u16) << 8)
}

/// The 32-bit number whose little-endian bytes start at `at`.
pub open spec fn le32_at(data: Seq<u8>, at: int) -> u32 {
    (data[at] as u32) | ((data[at + 1] as u32) << 8) | ((data[at + 2] as u32) << 16) | ((data[at
        + 3] as u32) << 24)
}

/// Writing a big-endian 32-bit number and reading it back gives the number.
pub broadcast proof fn lemma_be32_round_trip(base: Seq<u8>, at: int, value: u32)
    requires
        0 <= at,
        at + 4 <= base.len(),
    ensures
        #[trigger] be32_at(splice(base, at, be32(value)), at) == value,
{
    assert((((value >> 24) as u8) as u32) << 24 | (((value >> 16) as u8) as u32) << 16 | (((value
        >> 8) as u8) as u32) << 8 | ((value as u8) as u32) == value) by (bit_vector);
}

/// Writing a big-endian 16-bit number and reading it back gives the number.
pub broadcast proof fn lemma_be16_round_trip(base: Seq<u8>, at: int, value: u16)
    requires
        0 <= at,
        at + 2 <= base.len(),
    ensures
        #[trigger] be16_at(splice(base, at, be16(value)), at) == value,
{
    assert((((value >> 8) as u8) as u16) << 8 | ((value as u8) as u16) == value) by (bit_vector);
}

/// Writing a little-endian 16-bit number and reading it back gives the number.
pub broadcast proof fn lemma_le16_round_trip(base: Seq<u8>, at: int, value: u16)
    requires
        0 <= at,
        at + 2 <= base.len(),
    ensures
        #[trigger] le16_at(splice(base, at, le16(value)), at) == value,
{
    assert(((value as u8) as u16) | (((value >> 8) as u8) as u16) << 8 == value) by (bit_vector);
}

/// Writing a little-endian 32-bit number and reading it back gives the number.
pub broadcast proof fn lemma_le32_round_trip(base: Seq<u8>, at: int, value: u32)
    requires
        0 <= at,
        at + 4 <= base.len(),
    ensures
        #[trigger] le32_at(splice(base, at, le32(value)), at) == value,
{
    assert(((value as u8) as u32) | (((value >> 8) as u8) as u32) << 8 | (((value >> 16)
        as u8) as u32) << 16 | (((value >> 24) as u8) as u32) << 24 == value) by (bit_vector);
}

/// Replaces the bytes of `target` from `at` on by `patch`.
pub fn put_bytes(target: &mut [u8], at: usize, patch: &[u8])
    requires
        at + patch@.len() <= old(target)@.len(),
    ensures
        final(target)@ == splice(old(target)@, at as int, patch@),
{
    let count: usize = patch.len();
    let total: usize = target.len();
    let ghost base = target@;
    let mut done: usize = 0;
    while done < count
        invariant
            done <= count,
            total == target@.len(),
            count == patch@.len(),
            at + count <= target@.len(),
            target@ == splice(base, at as int, patch@.take(done as int)),
        decreases count - done,
    {
        target[at + done] = patch[done];
        done = done + 1;
        assert(target@ =~= splice(base, at as int, patch@.take(done as int)));
    }
    assert(patch@.take(count as int) =~= patch@);
}

/// Replaces `count` bytes of `target` from `at` on by zero.
pub fn put_zeros(target: &mut [u8], at: usize, count: usize)
    requires
        at + count <= old(target)@.len(),
    ensures
        final(target)@ == splice(old(target)@, at as int, zeros(count as nat)),
{
    let total: usize = target.len();
    let ghost base = target@;
    let mut done: usize = 0;
    while done < count
        invariant
            done <= count,
            total == target@.len(),
            at + count <= target@.len(),
            target@ == splice(base, at as int, zeros(done as nat)),
        decreases count - done,
    {
        target[at + done] = 0;
        done = done + 1;
        assert(target@ =~= splice(base, at as int, zeros(done as nat)));
    }
}

/// Stores a big-endian 32-bit number at `at`.
pub fn put_be32(target: &mut [u8], at: usize, value: u32)
    requires
        at + 4 <= old(target)@.len(),
    ensures
        final(target)@ == splice(old(target)@, at as int, be32(value)),
{
    let ghost base = target@;
    target[at] = (value >> 24) as u8;
    target[at + 1] = (value >> 16) as u8;
    target[at + 2] = (value >> 8) as u8;
    target[at + 3] = value as u8;
    assert(target@ =~= splice(base, at as int, be32(value)));
}

/// Stores a big-endian 16-bit number at `at`.
pub fn put_be16(target: &mut [u8], at: usize, value: u16)
    requires
        at + 2 <= old(target)@.len(),
    ensures
        final(target)@ == splice(old(target)@, at as int, be16(value)),
{
    let ghost base = target@;
    target[at] = (value >> 8) as u8;
    target[at + 1] = value as u8;
    assert(target@ =~= splice(base, at as int, be16(value)));
}

/// Stores a little-endian 16-bit number at `at`.
pub fn put_le16(target: &mut [u8], at: usize, value: u16)
    requires
        at + 2 <= old(target)@.len(),
    ensures
        final(target)@ == splice(old(target)@, at as int, le16(value)),
{
    let ghost base = target@;
    target[at] = value as u8;
    target[at + 1] = (value >> 8) as u8;
    assert(target@ =~= splice(base, at as int, le16(value)));
}

/// Stores a little-endian 32-bit number at `at`.
pub fn put_le32(target: &mut [u8], at: usize, value: u32)
    requires
        at + 4 <= old(target)@.len(),
    ensures
        final(target)@ == splice(old(target)@, at as int, le32(value)),
{
    let ghost base = target@;
    target[at] = value as u8;
    target[at + 1] = (value >> 8) as u8;
    target[at + 2] = (value >> 16) as u8;
    target[at + 3] = (value >> 24) as u8;
    assert(target@ =~= splice(base, at as int, le32(value)));
}

/// The big-endian 32-bit number at `at`.
pub fn get_be32(data: &[u8], at: usize) -> (value: u32)
    requires
        at + 4 <= data@.len(),
    ensures
        value == be32_at(data@, at as int),
{
    ((data[at] as u32) << 24) | ((data[at + 1] as u32) << 16) | ((data[at + 2] as u32) << 8) | (
    data[at + 3] as u32)
}

/// The little-endian 16-bit number at `at`.
pub fn get_le16(data: &[u8], at: usize) -> (value: u16)
    requires
        at + 2 <= data@.len(),
    ensures
        value == le16_at(data@, at as int),
{
    (data[at] as u16) | ((data[at + 1] as u16) << 8)
}

/// The little-endian 32-bit number at `at`.
pub fn get_le32(data: &[u8], at: usize) -> (value: u32)
    requires
        at + 4 <= data@.len(),
    ensures
        value == le32_at(data@, at as int),
{
    (data[at] as u32) | ((data[at + 1] as u32) << 8) | ((data[at + 2] as u32) << 16) | ((data[at
        + 3] as u32) << 24)
}

} // verus!
