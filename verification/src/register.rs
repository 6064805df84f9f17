//! The register type: one fixed-width integer sliced into named bit ranges.
//!
//! `Bitfield<T>` owns a raw value of type `T` and a table of named
//! `(start, length)` descriptors, all viewing the same value. The supported
//! instantiations are the unsigned and signed integers of 8 to 128 bits;
//! each gets its own constructor (`create_u8`, `create_i8`, ...) and the
//! same set of accessors, defined in [`crate::unsigned`] and
//! [`crate::signed`]. Contracts are stated over the raw value's unsigned
//! 128-bit bit pattern (the per-instantiation `bits` spec function) and the
//! field table's map abstraction ([`Bitfield::fields_view`]).

use vstd::prelude::*;

use crate::bits::valid_range;
use crate::fieldmap::BitfieldValue;
use crate::fieldmap::FieldMap;

verus! {

/// A register: one integer of type `T`, partitioned into named,
/// possibly overlapping bit ranges.
#[derive(Debug)]
pub struct Bitfield<T> {
    pub(crate) data: T,
    pub(crate) fields: FieldMap,
}

impl<T> Bitfield<T> {
    /// The field table as a map from names to descriptors.
    pub open(crate) spec fn fields_view(self) -> Map<Seq<char>, BitfieldValue> {
        self.fields@
    }

    /// The field table's internal keys are pairwise distinct.
    pub open(crate) spec fn fields_wf(self) -> bool {
        self.fields.wf()
    }

    /// Every registered descriptor fits a register of `width` bits.
    pub open spec fn descriptors_valid(self, width: u8) -> bool {
        forall|k: Seq<char>|
            #[trigger] self.fields_view().contains_key(k) ==> valid_range(
                width,
                self.fields_view()[k].start,
                self.fields_view()[k].length,
            )
    }

    /// Well-formed for a register of `width` bits: distinct field names and
    /// only descriptors that fit the width. Constructors establish this and
    /// every method preserves it.
    pub open spec fn inv_for(self, width: u8) -> bool {
        self.fields_wf() && self.descriptors_valid(width)
    }
}

} // verus!
