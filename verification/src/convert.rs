//! Bit-pattern conversions between signed register types and the unsigned
//! 128-bit working representation.
//!
//! A signed register stores an `iN`, but all range arithmetic runs on the
//! zero-extended two's-complement bit pattern of that value. The spec
//! functions here define that pattern arithmetically; the executable
//! functions compute it (and its inverse) without any lossy cast.

use vstd::prelude::*;

use crate::bits::lemma_mask_values;
use crate::bits::mask128;

verus! {

/// The two's-complement bit pattern of an `i8`, zero-extended to 128 bits.
pub open spec fn i8_bits(v: i8) -> u128 {
    if v >= 0 {
        v as u128
    } else {
        (v + 0x100) as u128
    }
}

/// The two's-complement bit pattern of an `i16`, zero-extended to 128 bits.
pub open spec fn i16_bits(v: i16) -> u128 {
    if v >= 0 {
        v as u128
    } else {
        (v + 0x1_0000) as u128
    }
}

/// The two's-complement bit pattern of an `i32`, zero-extended to 128 bits.
pub open spec fn i32_bits(v: i32) -> u128 {
    if v >= 0 {
        v as u128
    } else {
        (v + 0x1_0000_0000) as u128
    }
}

/// The two's-complement bit pattern of an `i64`, zero-extended to 128 bits.
pub open spec fn i64_bits(v: i64) -> u128 {
    if v >= 0 {
        v as u128
    } else {
        (v + 0x1_0000_0000_0000_0000) as u128
    }
}

/// The two's-complement bit pattern of an `i128`.
pub open spec fn i128_bits(v: i128) -> u128 {
    if v >= 0 {
        v as u128
    } else {
        (v + u128::MAX + 1) as u128
    }
}

/// Computes [`i8_bits`].
pub fn i8_to_bits(v: i8) -> (r: u128)
    ensures
        r == i8_bits(v),
        r <= mask128(8),
{
    proof {
        lemma_mask_values();
    }
    if v >= 0 {
        v as u128
    } else {
        ((v as i16) + 0x100) as u128
    }
}

/// Recovers the `i8` whose bit pattern is the low 8 bits of `r`.
pub fn bits_to_i8(r: u128) -> (v: i8)
    requires
        r <= mask128(8),
    ensures
        i8_bits(v) == r,
{
    proof {
        lemma_mask_values();
    }
    if r < 0x80 {
        r as i8
    } else {
        ((r as i16) - 0x100) as i8
    }
}

/// Computes [`i16_bits`].
pub fn i16_to_bits(v: i16) -> (r: u128)
    ensures
        r == i16_bits(v),
        r <= mask128(16),
{
    proof {
        lemma_mask_values();
    }
    if v >= 0 {
        v as u128
    } else {
        ((v as i32) + 0x1_0000) as u128
    }
}

/// Recovers the `i16` whose bit pattern is the low 16 bits of `r`.
pub fn bits_to_i16(r: u128) -> (v: i16)
    requires
        r <= mask128(16),
    ensures
        i16_bits(v) == r,
{
    proof {
        lemma_mask_values();
    }
    if r < 0x8000 {
        r as i16
    } else {
        ((r as i32) - 0x1_0000) as i16
    }
}

/// Computes [`i32_bits`].
pub fn i32_to_bits(v: i32) -> (r: u128)
    ensures
        r == i32_bits(v),
        r <= mask128(32),
{
    proof {
        lemma_mask_values();
    }
    if v >= 0 {
        v as u128
    } else {
        ((v as i64) + 0x1_0000_0000) as u128
    }
}

/// Recovers the `i32` whose bit pattern is the low 32 bits of `r`.
pub fn bits_to_i32(r: u128) -> (v: i32)
    requires
        r <= mask128(32),
    ensures
        i32_bits(v) == r,
{
    proof {
        lemma_mask_values();
    }
    if r < 0x8000_0000 {
        r as i32
    } else {
        ((r as i64) - 0x1_0000_0000) as i32
    }
}

/// Computes [`i64_bits`].
pub fn i64_to_bits(v: i64) -> (r: u128)
    ensures
        r == i64_bits(v),
        r <= mask128(64),
{
    proof {
        lemma_mask_values();
    }
    if v >= 0 {
        v as u128
    } else {
        ((v as i128) + 0x1_0000_0000_0000_0000) as u128
    }
}

/// Recovers the `i64` whose bit pattern is the low 64 bits of `r`.
pub fn bits_to_i64(r: u128) -> (v: i64)
    requires
        r <= mask128(64),
    ensures
        i64_bits(v) == r,
{
    proof {
        lemma_mask_values();
    }
    if r < 0x8000_0000_0000_0000 {
        r as i64
    } else {
        ((r as i128) - 0x1_0000_0000_0000_0000) as i64
    }
}

/// Computes [`i128_bits`].
pub fn i128_to_bits(v: i128) -> (r: u128)
    ensures
        r == i128_bits(v),
{
    if v >= 0 {
        v as u128
    } else {
        // v + 2^128 computed in two halves, since 2^128 itself does not fit.
        let t: i128 = v - i128::MIN;
        (t as u128) + 0x8000_0000_0000_0000_0000_0000_0000_0000u128
    }
}

/// Recovers the `i128` whose bit pattern is `r`.
pub fn bits_to_i128(r: u128) -> (v: i128)
    ensures
        i128_bits(v) == r,
{
    if r < 0x8000_0000_0000_0000_0000_0000_0000_0000u128 {
        r as i128
    } else {
        let t: u128 = r - 0x8000_0000_0000_0000_0000_0000_0000_0000u128;
        (t as i128) + i128::MIN
    }
}

} // verus!
