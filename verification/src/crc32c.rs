//! The CRC-32C register update used by metadata and journal checksums.

use vstd::prelude::*;
use crate::bytes::{splice, zeros};

verus! {

/// The Castagnoli polynomial, least significant bit first.
pub const POLYNOMIAL: u32 = 0x82f6_3b78;

/// One shift of the register.
pub open spec fn crc_bit(register: u32) -> u32 {
    if register & 1 == 1 {
        (register >> 1) ^ POLYNOMIAL
    } else {
        register >> 1
    }
}

/// `count` shifts of the register.
pub open spec fn crc_bits(register: u32, count: nat) -> u32
    decreases count,
{
    if count == 0 {
        register
    } else {
        crc_bit(crc_bits(register, (count - 1) as nat))
    }
}

/// The register after `data`, starting from `register`.
pub open spec fn crc32c(register: u32, data: Seq<u8>) -> u32
    decreases data.len(),
{
    if data.len() == 0 {
        register
    } else {
        crc_bits(crc32c(register, data.drop_last()) ^ (data.last() as u32), 8)
    }
}

/// Feeds one byte into the register.
fn update_byte(register: u32, byte: u8) -> (next: u32)
    ensures
        next == crc_bits(register ^ (byte as u32), 8),
{
    let start: u32 = register ^ (byte as u32);
    let mut value: u32 = start;
    let mut shift: u32 = 0;
    while shift < 8
        invariant
            shift <= 8,
            value == crc_bits(start, shift as nat),
        decreases 8 - shift,
    {
        if value & 1 == 1 {
            value = (value >> 1) ^ POLYNOMIAL;
        } else {
            value = value >> 1;
        }
        shift = shift + 1;
    }
    value
}

/// Feeds `data` into the register.
pub fn update(register: u32, data: &[u8]) -> (next: u32)
    ensures
        next == crc32c(register, data@),
{
    let count: usize = data.len();
    let mut value: u32 = register;
    let mut done: usize = 0;
    assert(data@.take(0) =~= Seq::<u8>::empty());
    while done < count
        invariant
            done <= count,
            count == data@.len(),
            value == crc32c(register, data@.take(done as int)),
        decreases count - done,
    {
        assert(data@.take(done + 1).drop_last() =~= data@.take(done as int));
        value = update_byte(value, data[done]);
        done = done + 1;
    }
    assert(data@.take(count as int) =~= data@);
    value
}

/// Feeds `data` into the register with `count` bytes from `at` on taken as zero.
pub fn update_masked(register: u32, data: &[u8], at: usize, count: usize) -> (next: u32)
    requires
        at + count <= data@.len(),
    ensures
        next == crc32c(register, splice(data@, at as int, zeros(count as nat))),
{
    let ghost masked = splice(data@, at as int, zeros(count as nat));
    let total: usize = data.len();
    let mut value: u32 = register;
    let mut done: usize = 0;
    assert(masked.take(0) =~= Seq::<u8>::empty());
    while done < total
        invariant
            done <= total,
            total == data@.len(),
            at + count <= total,
            masked == splice(data@, at as int, zeros(count as nat)),
            value == crc32c(register, masked.take(done as int)),
        decreases total - done,
    {
        assert(masked.take(done + 1).drop_last() =~= masked.take(done as int));
        let byte: u8 = if at <= done && done < at + count {
            0
        } else {
            data[done]
        };
        value = update_byte(value, byte);
        done = done + 1;
    }
    assert(masked.take(total as int) =~= masked);
    value
}

} // verus!
