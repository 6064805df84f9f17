//! A named bit-field accessor over a fixed-width integer.
//!
//! A [`register::Bitfield`] owns one integer value (8, 16, 32, 64 or 128
//! bits, signed or unsigned) together with a map from field names to
//! [`fieldmap::BitfieldValue`] descriptors. Each descriptor names a
//! `(start, length)` bit range of the stored value; callers read and write
//! those ranges as bounds-checked values while all other bits are preserved.
//!
//! All mask and shift arithmetic is carried out on an unsigned 128-bit
//! working representation ([`bits`]); the per-width methods only convert
//! between the stored type and that representation.

pub mod bits;
pub mod convert;
pub mod errors;
pub mod fieldmap;
pub mod register;
pub mod signed;
pub mod unsigned;
