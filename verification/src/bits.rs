//! Bit-range arithmetic on an unsigned 128-bit working representation.
//!
//! Every register width supported by this crate (8 to 128 bits, signed or
//! unsigned) maps its raw value onto the low bits of a `u128`. The functions
//! here validate `(start, length)` ranges, extract a range as a value, and
//! write a value into a range while leaving every other bit untouched. The
//! proof functions at the bottom state the laws of that arithmetic:
//! round-trip, preservation of outside bits, independence of disjoint
//! ranges, and the full-width special case.

use vstd::prelude::*;

use vstd::arithmetic::power2::lemma2_to64;
use vstd::arithmetic::power2::lemma_pow2_unfold;
use vstd::arithmetic::power2::pow2;

verus! {

/// The all-ones mask covering the low `length` bits of a 128-bit word,
/// i.e. `2^length - 1`. `length == 128` yields the all-ones word; the
/// definition never computes `2^128` itself.
pub open spec fn mask128(length: u8) -> u128 {
    if length >= 128 {
        u128::MAX
    } else {
        !(u128::MAX << length)
    }
}

/// The bits of `data` in the range `[start, start + length)`, shifted down
/// so that bit `start` becomes bit 0.
pub open spec fn extract128(data: u128, start: u8, length: u8) -> u128 {
    (data >> start) & mask128(length)
}

/// `data` with the bits in `[start, start + length)` replaced by the low
/// `length` bits of `value`; all other bits of `data` are kept.
pub open spec fn insert128(data: u128, start: u8, length: u8, value: u128) -> u128 {
    (data & !(mask128(length) << start)) | (value << start)
}

/// Bit `i` of `v`.
pub open spec fn bit128(v: u128, i: u8) -> bool {
    (v >> i) & 1 == 1
}

/// A `(start, length)` descriptor fits a register of `width` bits:
/// the range starts inside the register and ends no later than its top.
pub open spec fn valid_range(width: u8, start: u8, length: u8) -> bool {
    start < width && start + length <= width
}

/// Computes [`mask128`], the all-ones mask of the low `length` bits.
pub fn mask_bits(length: u8) -> (r: u128)
    requires
        length <= 128,
    ensures
        r == mask128(length),
{
    if length == 128 {
        u128::MAX
    } else {
        !(u128::MAX << length)
    }
}

/// Computes [`extract128`]: the value stored in the bit range
/// `[start, start + length)` of `data`.
pub fn extract_bits(data: u128, start: u8, length: u8) -> (r: u128)
    requires
        start < 128,
        start + length <= 128,
    ensures
        r == extract128(data, start, length),
{
    (data >> start) & mask_bits(length)
}

/// Computes [`insert128`]: writes `value` into the bit range
/// `[start, start + length)` of `data`, preserving all other bits.
pub fn insert_bits(data: u128, start: u8, length: u8, value: u128) -> (r: u128)
    requires
        start < 128,
        start + length <= 128,
        value <= mask128(length),
    ensures
        r == insert128(data, start, length, value),
{
    let m = mask_bits(length);
    (data & !(m << start)) | (value << start)
}

/// An extracted field value always fits in the field's own mask.
pub proof fn lemma_extract_bound(data: u128, start: u8, length: u8)
    ensures
        extract128(data, start, length) <= mask128(length),
{
    assert(extract128(data, start, length) <= mask128(length)) by (bit_vector);
}

/// Masks grow with the length: whatever fits in a narrower mask fits in a
/// wider one.
pub proof fn lemma_mask_monotone(a: u8, b: u8)
    requires
        a <= b,
    ensures
        mask128(a) <= mask128(b),
{
    assert(mask128(a) <= mask128(b)) by (bit_vector)
        requires
            a <= b,
    ;
}

/// Writing a fitting value into a range that lies inside `width` bits keeps
/// the whole word inside `width` bits.
pub proof fn lemma_insert_in_width(data: u128, start: u8, length: u8, value: u128, width: u8)
    requires
        valid_range(width, start, length),
        width <= 128,
        data <= mask128(width),
        value <= mask128(length),
    ensures
        insert128(data, start, length, value) <= mask128(width),
{
    assert(insert128(data, start, length, value) <= mask128(width)) by (bit_vector)
        requires
            start < width,
            start + length <= width,
            width <= 128,
            data <= mask128(width),
            value <= mask128(length),
    ;
}

/// Round trip: reading a range immediately after writing it returns exactly
/// the written value.
pub proof fn lemma_insert_extract_roundtrip(data: u128, start: u8, length: u8, value: u128)
    requires
        start < 128,
        start + length <= 128,
        value <= mask128(length),
    ensures
        extract128(insert128(data, start, length, value), start, length) == value,
{
    assert(extract128(insert128(data, start, length, value), start, length) == value)
        by (bit_vector)
        requires
            start < 128,
            start + length <= 128,
            value <= mask128(length),
    ;
}

/// Writing a range never changes any bit outside `[start, start + length)`.
pub proof fn lemma_insert_preserves_outside(data: u128, start: u8, length: u8, value: u128)
    requires
        start < 128,
        start + length <= 128,
        value <= mask128(length),
    ensures
        forall|i: u8|
            i < 128 && (i < start || i >= start + length) ==> bit128(
                insert128(data, start, length, value),
                i,
            ) == bit128(data, i),
{
    assert forall|i: u8|
        i < 128 && (i < start || i >= start + length) implies bit128(
        insert128(data, start, length, value),
        i,
    ) == bit128(data, i) by {
        assert(bit128(insert128(data, start, length, value), i) == bit128(data, i))
            by (bit_vector)
            requires
                start < 128,
                start + length <= 128,
                value <= mask128(length),
                i < 128,
                i < start || i >= start + length,
        ;
    }
}

/// Disjoint ranges are independent: writing one range leaves the value read
/// from the other unchanged.
#[verifier::rlimit(100)]
#[verifier::spinoff_prover]
pub proof fn lemma_disjoint_independent(
    data: u128,
    s1: u8,
    l1: u8,
    value: u128,
    s2: u8,
    l2: u8,
)
    requires
        s1 < 128,
        s1 + l1 <= 128,
        value <= mask128(l1),
        s2 < 128,
        s2 + l2 <= 128,
        s1 + l1 <= s2 || s2 + l2 <= s1,
    ensures
        extract128(insert128(data, s1, l1, value), s2, l2) == extract128(data, s2, l2),
{
    assert(extract128(insert128(data, s1, l1, value), s2, l2) == extract128(data, s2, l2))
        by (bit_vector)
        requires
            s1 < 128,
            s1 + l1 <= 128,
            value <= mask128(l1),
            s2 < 128,
            s2 + l2 <= 128,
            s1 + l1 <= s2 || s2 + l2 <= s1,
    ;
}

/// A range that covers the whole of a `width`-bit word reads back the raw
/// word itself, and the word is the largest value such a range accepts.
pub proof fn lemma_full_width(data: u128, width: u8)
    requires
        width <= 128,
        data <= mask128(width),
    ensures
        extract128(data, 0, width) == data,
{
    assert(extract128(data, 0, width) == data) by (bit_vector)
        requires
            width <= 128,
            data <= mask128(width),
    ;
}

/// The mask of `length` bits is exactly `2^length - 1`: a value fits a
/// field of `length` bits (`value <= mask128(length)`) exactly when it is
/// strictly below `2^length`.
pub proof fn lemma_mask_is_pow2_minus_one(length: u8)
    requires
        length <= 128,
    ensures
        mask128(length) + 1 == pow2(length as nat),
    decreases length,
{
    if length == 0 {
        assert(mask128(0) == 0) by (bit_vector);
        lemma2_to64();
    } else {
        lemma_mask_is_pow2_minus_one((length - 1) as u8);
        assert(mask128(length) == 2 * mask128((length - 1) as u8) + 1) by (bit_vector)
            requires
                0 < length <= 128,
        ;
        lemma_pow2_unfold(length as nat);
    }
}

/// The numeric value of the mask at each supported register width.
pub proof fn lemma_mask_values()
    ensures
        mask128(1) == 1,
        mask128(8) == 0xff,
        mask128(16) == 0xffff,
        mask128(32) == 0xffff_ffff,
        mask128(64) == 0xffff_ffff_ffff_ffff,
        mask128(128) == u128::MAX,
{
    assert(mask128(1) == 1 && mask128(8) == 0xff && mask128(16) == 0xffff && mask128(32)
        == 0xffff_ffff && mask128(64) == 0xffff_ffff_ffff_ffff && mask128(128) == u128::MAX)
        by (bit_vector);
}

} // verus!
