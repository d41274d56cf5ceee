//! Bit-range access on machine words, and the big-endian byte order that
//! every multi-byte field on disk uses.

use bit_field::BitField;
use vstd::prelude::*;

verus! {

/// Bits `start..end` of `value`, moved down to bit 0.
pub open spec fn bit_range32(value: u32, start: usize, end: usize) -> u32 {
    if start == end {
        0
    } else {
        ((value << ((32 - end) as u32)) >> ((32 - end) as u32)) >> (start as u32)
    }
}

/// Bits `start..end` of `value`, moved down to bit 0.
pub open spec fn bit_range16(value: u16, start: usize, end: usize) -> u16 {
    if start == end {
        0
    } else {
        ((value << ((16 - end) as u16)) >> ((16 - end) as u16)) >> (start as u16)
    }
}

/// Calls `BitField::get_bits` of the `bit_field` crate on a `u32`.
///
/// Trusted: for a range inside the word the crate shifts the bits above
/// `end` out at the top, then shifts the remainder down by `start`; an empty
/// range yields 0. Ranges that reach outside the word make it panic and are
/// excluded.
#[verifier::external_body]
pub(crate) fn get_bits_u32(value: u32, start: usize, end: usize) -> (r: u32)
    requires
        start < 32,
        end <= 32,
        start <= end,
    ensures
        r == bit_range32(value, start, end),
{
    value.get_bits(start..end)
}

/// Calls `BitField::get_bits` of the `bit_field` crate on a `u16`.
///
/// Trusted: same behaviour as on `u32`, for a 16-bit word.
#[verifier::external_body]
pub(crate) fn get_bits_u16(value: u16, start: usize, end: usize) -> (r: u16)
    requires
        start < 16,
        end <= 16,
        start <= end,
    ensures
        r == bit_range16(value, start, end),
{
    value.get_bits(start..end)
}

/// Calls `BitField::get_bit` of the `bit_field` crate on a `u8`.
///
/// Trusted: the result tells whether bit `bit` (0 = least significant) is
/// set. An index of 8 or more makes the crate panic and is excluded.
#[verifier::external_body]
pub(crate) fn get_bit_u8(value: u8, bit: usize) -> (r: bool)
    requires
        bit < 8,
    ensures
        r == ((value & (1u8 << (bit as u8))) != 0),
{
    value.get_bit(bit)
}


/// `value` with its bits `start..end` replaced by the low bits of `bits`.
pub open spec fn with_bits16(value: u16, start: usize, end: usize, bits: u16) -> u16 {
    if start == end {
        value
    } else {
        (value & !(!0u16 << ((16 - end) as u16) >> ((16 - end) as u16) >> (start as u16) << (start as u16))) | (bits << (
        start as u16))
    }
}

/// Calls `BitField::set_bits` of the `bit_field` crate on a `u16` and
/// returns the changed word.
///
/// Trusted: the crate clears the bits `start..end` of the word and ors in
/// `bits` shifted up by `start`; an empty range changes nothing. It panics
/// when the range reaches outside the word or `bits` does not fit into the
/// range; both are excluded.
#[verifier::external_body]
pub(crate) fn set_bits_u16(value: u16, start: usize, end: usize, bits: u16) -> (r: u16)
    requires
        start < 16,
        end <= 16,
        start <= end,
        (start == end && bits == 0) || (start < end && bits << ((16 - (end - start)) as u16) >> ((16 - (end
            - start)) as u16) == bits),
    ensures
        r == with_bits16(value, start, end, bits),
{
    let mut word = value;
    word.set_bits(start..end, bits);
    word
}

/// The 32-bit value whose big-endian bytes are `b0 b1 b2 b3`.
pub open spec fn be32(b0: u8, b1: u8, b2: u8, b3: u8) -> u32 {
    (b0 as u32) << 24 | (b1 as u32) << 16 | (b2 as u32) << 8 | (b3 as u32)
}

/// Byte `i` (0 = most significant) of the big-endian form of `value`.
pub open spec fn be32_byte(value: u32, i: int) -> u8 {
    if i == 0 {
        (value >> 24) as u8
    } else if i == 1 {
        ((value >> 16) & 0xff) as u8
    } else if i == 2 {
        ((value >> 8) & 0xff) as u8
    } else {
        (value & 0xff) as u8
    }
}

/// The 16-bit value whose big-endian bytes are `b0 b1`.
pub open spec fn be16(b0: u8, b1: u8) -> u16 {
    (b0 as u16) << 8 | (b1 as u16)
}

/// Byte `i` (0 = most significant) of the big-endian form of `value`.
pub open spec fn be16_byte(value: u16, i: int) -> u8 {
    if i == 0 {
        (value >> 8) as u8
    } else {
        (value & 0xff) as u8
    }
}

/// Splitting a 32-bit value into big-endian bytes and joining them again
/// gives the value back.
pub proof fn lemma_be32_of_bytes(value: u32)
    ensures
        be32(be32_byte(value, 0), be32_byte(value, 1), be32_byte(value, 2), be32_byte(value, 3))
            == value,
{
    assert(((value >> 24) as u8 as u32) << 24 | ((((value >> 16) & 0xff) as u8) as u32) << 16 | ((((value
        >> 8) & 0xff) as u8) as u32) << 8 | (((value & 0xff) as u8) as u32) == value) by (bit_vector);
}

/// Joining four bytes big-endian and splitting the value again gives the
/// bytes back.
pub proof fn lemma_bytes_of_be32(b0: u8, b1: u8, b2: u8, b3: u8)
    ensures
        be32_byte(be32(b0, b1, b2, b3), 0) == b0,
        be32_byte(be32(b0, b1, b2, b3), 1) == b1,
        be32_byte(be32(b0, b1, b2, b3), 2) == b2,
        be32_byte(be32(b0, b1, b2, b3), 3) == b3,
{
    let v = (b0 as u32) << 24 | (b1 as u32) << 16 | (b2 as u32) << 8 | (b3 as u32);
    assert((v >> 24) as u8 == b0 && ((v >> 16) & 0xff) as u8 == b1 && ((v >> 8) & 0xff) as u8 == b2 && (v
        & 0xff) as u8 == b3) by (bit_vector)
        requires
            v == (b0 as u32) << 24 | (b1 as u32) << 16 | (b2 as u32) << 8 | (b3 as u32),
    ;
}

/// A 32-bit value is zero exactly when all four of its bytes are.
pub proof fn lemma_be32_zero(b0: u8, b1: u8, b2: u8, b3: u8)
    ensures
        be32(b0, b1, b2, b3) == 0 <==> (b0 == 0 && b1 == 0 && b2 == 0 && b3 == 0),
{
    assert(((b0 as u32) << 24 | (b1 as u32) << 16 | (b2 as u32) << 8 | (b3 as u32)) == 0 <==> (b0 == 0
        && b1 == 0 && b2 == 0 && b3 == 0)) by (bit_vector);
}

/// Every byte of zero is zero.
pub proof fn lemma_zero_bytes()
    ensures
        be32_byte(0, 0) == 0,
        be32_byte(0, 1) == 0,
        be32_byte(0, 2) == 0,
        be32_byte(0, 3) == 0,
        be16_byte(0, 0) == 0,
        be16_byte(0, 1) == 0,
{
    assert((0u32 >> 24) as u8 == 0 && ((0u32 >> 16) & 0xff) as u8 == 0 && ((0u32 >> 8) & 0xff) as u8 == 0
        && (0u32 & 0xff) as u8 == 0 && (0u16 >> 8) as u8 == 0 && (0u16 & 0xff) as u8 == 0) by (bit_vector);
}

/// Splitting a 16-bit value into big-endian bytes and joining them again
/// gives the value back.
pub proof fn lemma_be16_of_bytes(value: u16)
    ensures
        be16(be16_byte(value, 0), be16_byte(value, 1)) == value,
{
    assert(((value >> 8) as u8 as u16) << 8 | (((value & 0xff) as u8) as u16) == value) by (bit_vector);
}

/// Joining two bytes big-endian and splitting the value again gives the
/// bytes back.
pub proof fn lemma_bytes_of_be16(b0: u8, b1: u8)
    ensures
        be16_byte(be16(b0, b1), 0) == b0,
        be16_byte(be16(b0, b1), 1) == b1,
        be16(b0, b1) == b0 as int * 256 + b1 as int,
{
    let v = (b0 as u16) << 8 | (b1 as u16);
    assert((v >> 8) as u8 == b0 && (v & 0xff) as u8 == b1 && v == (b0 as u16) * 256 + (b1 as u16)) by (bit_vector)
        requires
            v == (b0 as u16) << 8 | (b1 as u16),
    ;
}

/// A 16-bit value that is not zero has a byte that is not zero.
pub proof fn lemma_be16_nonzero(value: u16)
    requires
        value != 0,
    ensures
        be16_byte(value, 0) != 0 || be16_byte(value, 1) != 0,
{
    assert(value != 0 ==> ((value >> 8) as u8 != 0 || (value & 0xff) as u8 != 0)) by (bit_vector);
}

/// Joins four bytes, most significant first.
pub fn u32_from_be(b0: u8, b1: u8, b2: u8, b3: u8) -> (r: u32)
    ensures
        r == be32(b0, b1, b2, b3),
{
    (b0 as u32) << 24 | (b1 as u32) << 16 | (b2 as u32) << 8 | (b3 as u32)
}

/// Splits a 32-bit value into its bytes, most significant first.
pub fn u32_to_be(value: u32) -> (r: [u8; 4])
    ensures
        forall|i: int| 0 <= i < 4 ==> r[i] == be32_byte(value, i),
{
    let b0 = get_bits_u32(value, 24, 32);
    let b1 = get_bits_u32(value, 16, 24);
    let b2 = get_bits_u32(value, 8, 16);
    let b3 = get_bits_u32(value, 0, 8);
    assert(bit_range32(value, 24, 32) == value >> 24 && (value >> 24) < 256) by (bit_vector);
    assert(bit_range32(value, 16, 24) == (value >> 16) & 0xff && ((value >> 16) & 0xff) < 256) by (bit_vector);
    assert(bit_range32(value, 8, 16) == (value >> 8) & 0xff && ((value >> 8) & 0xff) < 256) by (bit_vector);
    assert(bit_range32(value, 0, 8) == value & 0xff && (value & 0xff) < 256) by (bit_vector);
    [b0 as u8, b1 as u8, b2 as u8, b3 as u8]
}

/// Joins two bytes, most significant first.
pub fn u16_from_be(b0: u8, b1: u8) -> (r: u16)
    ensures
        r == be16(b0, b1),
{
    (b0 as u16) << 8 | (b1 as u16)
}

/// Splits a 16-bit value into its bytes, most significant first.
pub fn u16_to_be(value: u16) -> (r: [u8; 2])
    ensures
        r[0] == be16_byte(value, 0),
        r[1] == be16_byte(value, 1),
{
    let b0 = get_bits_u16(value, 8, 16);
    let b1 = get_bits_u16(value, 0, 8);
    assert(bit_range16(value, 8, 16) == value >> 8 && (value >> 8) < 256) by (bit_vector);
    assert(bit_range16(value, 0, 8) == value & 0xff && (value & 0xff) < 256) by (bit_vector);
    [b0 as u8, b1 as u8]
}

} // verus!
