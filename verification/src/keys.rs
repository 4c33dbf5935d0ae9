//! Integer keys that sort as the numbers they stand for.
//!
//! A floating-point number is ordered by its bits once the negative half is
//! turned over, so a landscape of heights can be sorted, compared and queued
//! as plain integers and handed back without loss.

use vstd::prelude::*;

verus! {

/// The magnitude half of a 32-bit pattern, with its sign.
///
/// Among the patterns that are numbers this is increasing in the number, and
/// the two zeros share a value.
pub open spec fn signed_magnitude(bits: u32) -> int {
    if bits < 0x8000_0000 {
        bits as int
    } else {
        0x8000_0000 - bits
    }
}

/// The key of a 32-bit pattern: negatives turned over, positives above them.
pub open spec fn key_of(bits: u32) -> u32 {
    if bits < 0x8000_0000 {
        (bits + 0x8000_0000) as u32
    } else {
        (0xffff_ffff - bits) as u32
    }
}

/// The pattern a key came from.
pub open spec fn bits_of(key: u32) -> u32 {
    if key >= 0x8000_0000 {
        (key - 0x8000_0000) as u32
    } else {
        (0xffff_ffff - key) as u32
    }
}

/// The key of a 64-bit pattern.
pub open spec fn wide_key_of(bits: u64) -> u64 {
    if bits < 0x8000_0000_0000_0000 {
        (bits + 0x8000_0000_0000_0000) as u64
    } else {
        (0xffff_ffff_ffff_ffff - bits) as u64
    }
}

/// The magnitude half of a 64-bit pattern, with its sign.
pub open spec fn wide_signed_magnitude(bits: u64) -> int {
    if bits < 0x8000_0000_0000_0000 {
        bits as int
    } else {
        0x8000_0000_0000_0000 - bits
    }
}

/// A total order on 32-bit floats that matches the numeric one, as bits.
pub fn ordered(bits: u32) -> (key: u32)
    ensures
        key == key_of(bits),
{
    assert(bits & 0x8000_0000 != 0 <==> bits >= 0x8000_0000) by (bit_vector);
    assert(!bits == 0xffff_ffff - bits) by (bit_vector);
    assert(bits < 0x8000_0000 ==> bits | 0x8000_0000 == bits + 0x8000_0000) by (bit_vector);
    if bits & 0x8000_0000 != 0 {
        !bits
    } else {
        bits | 0x8000_0000
    }
}

/// The bits a key stands for.
pub fn unordered(key: u32) -> (bits: u32)
    ensures
        bits == bits_of(key),
{
    if key >= 0x8000_0000 {
        key - 0x8000_0000
    } else {
        0xffff_ffff - key
    }
}

/// A total order on 64-bit floats that matches the numeric one, as bits.
pub fn ordered_wide(bits: u64) -> (key: u64)
    ensures
        key == wide_key_of(bits),
{
    if bits < 0x8000_0000_0000_0000 {
        bits + 0x8000_0000_0000_0000
    } else {
        0xffff_ffff_ffff_ffff - bits
    }
}

/// Keys sort as the numbers do, and only the two zeros are told apart by more
/// than their number.
pub proof fn keys_sort_as_numbers(a: u32, b: u32)
    ensures
        signed_magnitude(a) < signed_magnitude(b) ==> key_of(a) < key_of(b),
        key_of(a) < key_of(b) ==> signed_magnitude(a) <= signed_magnitude(b),
        key_of(a) == key_of(b) <==> a == b,
{
}

/// Wide keys sort as the numbers do.
pub proof fn wide_keys_sort_as_numbers(a: u64, b: u64)
    ensures
        wide_signed_magnitude(a) < wide_signed_magnitude(b) ==> wide_key_of(a) < wide_key_of(b),
        wide_key_of(a) < wide_key_of(b) ==> wide_signed_magnitude(a) <= wide_signed_magnitude(b),
        wide_key_of(a) == wide_key_of(b) <==> a == b,
{
}

/// A key gives its number back, bit for bit.
pub proof fn a_key_gives_its_number_back(bits: u32, key: u32)
    ensures
        bits_of(key_of(bits)) == bits,
        key_of(bits_of(key)) == key,
{
}

} // verus!
