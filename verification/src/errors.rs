//! The error taxonomy of the register operations.

use vstd::prelude::*;

verus! {

/// Why a register operation was refused.
///
/// Every operation reports failure through this type instead of panicking,
/// and each variant carries the numbers a caller needs to build a
/// diagnostic message.
#[derive(Clone, Copy, Debug, PartialEq, Eq, Structural)]
pub enum BitfieldError {
    /// The requested `(start, length)` range does not fit the register's
    /// fixed width, at creation or insertion time.
    InvalidRange { start: u8, length: u8 },
    /// An insertion named a key that is already registered; the existing
    /// entry is left untouched.
    DuplicateKey,
    /// A lookup, removal, rename or value access named an absent key.
    KeyNotFound,
    /// A field write supplied a value that does not fit in the field's
    /// declared bit length. `max` is the largest accepted value (the
    /// all-ones pattern of the field's length) and `value` is the rejected
    /// value, both in the unsigned working representation.
    ValueOutOfRange { max: u128, value: u128 },
}

} // verus!
