//! The unsigned register instantiations: 8, 16, 32, 64 and 128 bits wide.
//!
//! Each impl block is the same algorithm at one width. The raw value's bit
//! pattern is its plain zero-extension to 128 bits, on which the range
//! arithmetic of [`crate::bits`] runs; the contracts of the accessors are
//! stated over that pattern and over the field table's map abstraction.

use vstd::prelude::*;

use crate::bits::extract128;
use crate::bits::extract_bits;
use crate::bits::insert128;
use crate::bits::insert_bits;
use crate::bits::lemma_extract_bound;
use crate::bits::lemma_insert_in_width;
use crate::bits::lemma_mask_monotone;
use crate::bits::lemma_mask_values;
use crate::bits::mask128;
use crate::bits::mask_bits;
use crate::bits::valid_range;
use crate::errors::BitfieldError;
use crate::fieldmap::BitfieldValue;
use crate::fieldmap::FieldMap;
use crate::register::Bitfield;

verus! {

impl Bitfield<u8> {
    /// The raw value's bit pattern, zero-extended to 128 bits.
    pub closed spec fn bits(self) -> u128 {
        self.data as u128
    }

    /// Well-formedness of a 8-bit register.
    pub open spec fn wf(self) -> bool {
        self.inv_for(8)
    }

    /// Creates a 8-bit register holding `bitfielddata`, with one field
    /// named `key` at the given range. Rejects a range that does not fit
    /// 8 bits with `InvalidRange`.
    pub fn create_u8(key: String, bitfielddata: u8, start: u8, length: u8) -> (r: Result<
        Bitfield<u8>,
        BitfieldError,
    >)
        ensures
            match r {
                Ok(b) => valid_range(8, start, length) && b.wf() && b.bits() == bitfielddata
                    as u128 && b.fields_view() == Map::<Seq<char>, BitfieldValue>::empty().insert(
                    key@,
                    (BitfieldValue { start, length }),
                ),
                Err(e) => !valid_range(8, start, length) && e == (BitfieldError::InvalidRange {
                    start,
                    length,
                }),
            },
    {
        if start >= 8 || length > 8 - start {
            return Err(BitfieldError::InvalidRange { start, length });
        }
        let mut fields = FieldMap::new();
        let _added = fields.try_insert(key, BitfieldValue { start, length });
        Ok(Bitfield { data: bitfielddata, fields })
    }

    /// Replaces the whole raw value. The field table is untouched: the
    /// descriptors describe positions, not values.
    pub fn set_data(&mut self, bitfielddata: u8)
        ensures
            final(self).bits() == bitfielddata as u128,
            final(self).fields_view() == old(self).fields_view(),
            final(self).fields_wf() == old(self).fields_wf(),
    {
        self.data = bitfielddata;
    }

    /// Reads the whole raw value.
    pub fn get_data(&self) -> (r: u8)
        ensures
            r as u128 == self.bits(),
    {
        self.data
    }

    /// Registers a new named field after validating its range. Fails with
    /// `InvalidRange` when the range does not fit 8 bits, and with
    /// `DuplicateKey` when the name is already registered; on failure the
    /// register is unchanged.
    pub fn insert(&mut self, key: String, start: u8, length: u8) -> (r: Result<
        (),
        BitfieldError,
    >)
        requires
            old(self).wf(),
        ensures
            final(self).wf(),
            final(self).bits() == old(self).bits(),
            match r {
                Ok(()) => valid_range(8, start, length) && !old(
                    self,
                ).fields_view().contains_key(key@) && final(self).fields_view() == old(
                    self,
                ).fields_view().insert(key@, (BitfieldValue { start, length })),
                Err(e) => *final(self) == *old(self) && ((e == (BitfieldError::InvalidRange {
                    start,
                    length,
                }) && !valid_range(8, start, length)) || (e == BitfieldError::DuplicateKey
                    && valid_range(8, start, length) && old(self).fields_view().contains_key(
                    key@,
                ))),
            },
    {
        if start >= 8 || length > 8 - start {
            return Err(BitfieldError::InvalidRange { start, length });
        }
        let ghost kv = key@;
        if self.fields.try_insert(key, BitfieldValue { start, length }) {
            proof {
                assert forall|k: Seq<char>| #[trigger] self.fields_view().contains_key(
                    k,
                ) implies valid_range(
                    8,
                    self.fields_view()[k].start,
                    self.fields_view()[k].length,
                ) by {
                    if k != kv {
                        assert(old(self).fields_view().contains_key(k));
                    }
                }
            }
            Ok(())
        } else {
            Err(BitfieldError::DuplicateKey)
        }
    }

    /// Renames and repositions a field in one step. Everything is validated
    /// before anything is mutated, so on any error the register is
    /// unchanged. Fails with `KeyNotFound` when `oldkey` is absent, with
    /// `InvalidRange` when the new range does not fit, and with
    /// `DuplicateKey` when `newkey` already names another field.
    pub fn modify(&mut self, oldkey: String, newkey: String, start: u8, length: u8) -> (r: Result<
        (),
        BitfieldError,
    >)
        requires
            old(self).wf(),
        ensures
            final(self).wf(),
            final(self).bits() == old(self).bits(),
            match r {
                Ok(()) => old(self).fields_view().contains_key(oldkey@) && valid_range(
                    8,
                    start,
                    length,
                ) && (newkey@ == oldkey@ || !old(self).fields_view().contains_key(newkey@))
                    && final(self).fields_view() == old(self).fields_view().remove(oldkey@).insert(
                    newkey@,
                    (BitfieldValue { start, length }),
                ),
                Err(e) => *final(self) == *old(self) && ((e == BitfieldError::KeyNotFound && !old(
                    self,
                ).fields_view().contains_key(oldkey@)) || (e == (BitfieldError::InvalidRange {
                    start,
                    length,
                }) && old(self).fields_view().contains_key(oldkey@) && !valid_range(
                    8,
                    start,
                    length,
                )) || (e == BitfieldError::DuplicateKey && old(self).fields_view().contains_key(
                    oldkey@,
                ) && valid_range(8, start, length) && newkey@ != oldkey@ && old(
                    self,
                ).fields_view().contains_key(newkey@))),
            },
    {
        if !self.fields.contains(oldkey.as_str()) {
            return Err(BitfieldError::KeyNotFound);
        }
        if start >= 8 || length > 8 - start {
            return Err(BitfieldError::InvalidRange { start, length });
        }
        let same = oldkey == newkey;
        if !same && self.fields.contains(newkey.as_str()) {
            return Err(BitfieldError::DuplicateKey);
        }
        let ghost nkv = newkey@;
        let _removed = self.fields.remove(oldkey.as_str());
        let ghost mid = self.fields@;
        let _added = self.fields.try_insert(newkey, BitfieldValue { start, length });
        proof {
            assert(!mid.contains_key(nkv));
            assert forall|k: Seq<char>| #[trigger] self.fields_view().contains_key(
                k,
            ) implies valid_range(
                8,
                self.fields_view()[k].start,
                self.fields_view()[k].length,
            ) by {
                if k != nkv {
                    assert(old(self).fields_view().contains_key(k));
                }
            }
        }
        Ok(())
    }

    /// Looks up a field's descriptor. Fails with `KeyNotFound` when the
    /// name is absent.
    pub fn get_param(&self, key: &str) -> (r: Result<&BitfieldValue, BitfieldError>)
        requires
            self.wf(),
        ensures
            match r {
                Ok(d) => self.fields_view().contains_key(key@) && *d == self.fields_view()[key@],
                Err(e) => e == BitfieldError::KeyNotFound && !self.fields_view().contains_key(
                    key@,
                ),
            },
    {
        match self.fields.get(key) {
            Some(d) => Ok(d),
            None => Err(BitfieldError::KeyNotFound),
        }
    }

    /// Removes a field descriptor. Fails with `KeyNotFound` when the name
    /// is absent; the raw value is never touched.
    pub fn del_param(&mut self, key: &str) -> (r: Result<(), BitfieldError>)
        requires
            old(self).wf(),
        ensures
            final(self).wf(),
            final(self).bits() == old(self).bits(),
            match r {
                Ok(()) => old(self).fields_view().contains_key(key@) && final(self).fields_view()
                    == old(self).fields_view().remove(key@),
                Err(e) => e == BitfieldError::KeyNotFound && !old(self).fields_view().contains_key(
                    key@,
                ) && *final(self) == *old(self),
            },
    {
        if self.fields.remove(key) {
            proof {
                assert forall|k: Seq<char>| #[trigger] self.fields_view().contains_key(
                    k,
                ) implies valid_range(
                    8,
                    self.fields_view()[k].start,
                    self.fields_view()[k].length,
                ) by {
                    assert(old(self).fields_view().contains_key(k));
                }
            }
            Ok(())
        } else {
            Err(BitfieldError::KeyNotFound)
        }
    }

    /// Reads the value stored in a named field: the raw value's bits
    /// `[start, start + length)`, as a number. Fails with `KeyNotFound`
    /// when the name is absent.
    pub fn get_value(&self, key: &str) -> (r: Result<u8, BitfieldError>)
        requires
            self.wf(),
        ensures
            match r {
                Ok(v) => self.fields_view().contains_key(key@) && v as u128 == extract128(
                    self.bits(),
                    self.fields_view()[key@].start,
                    self.fields_view()[key@].length,
                ),
                Err(e) => e == BitfieldError::KeyNotFound && !self.fields_view().contains_key(
                    key@,
                ),
            },
    {
        match self.fields.lookup(key) {
            None => Err(BitfieldError::KeyNotFound),
            Some(d) => {
                proof {
                    assert(self.fields_view().contains_key(key@));
                    assert(valid_range(8, d.start, d.length));
                }
                let e = extract_bits(self.data as u128, d.start, d.length);
                proof {
                    lemma_extract_bound(self.bits(), d.start, d.length);
                    lemma_mask_monotone(d.length, 8);
                    lemma_mask_values();
                }
                Ok(e as u8)
            },
        }
    }

    /// Writes a value into a named field, preserving every other bit of the
    /// raw value. Fails with `KeyNotFound` when the name is absent, and
    /// with `ValueOutOfRange` when the value does not fit in the field's
    /// declared length (its largest accepted value is the field's all-ones
    /// pattern `mask128(length)`, that is `2^length - 1`); on failure the
    /// register is unchanged.
    pub fn set_value(&mut self, key: &str, value: u8) -> (r: Result<(), BitfieldError>)
        requires
            old(self).wf(),
        ensures
            final(self).wf(),
            final(self).fields_view() == old(self).fields_view(),
            match r {
                Ok(()) => old(self).fields_view().contains_key(key@) && value as u128 <= mask128(
                    old(self).fields_view()[key@].length,
                ) && final(self).bits() == insert128(
                    old(self).bits(),
                    old(self).fields_view()[key@].start,
                    old(self).fields_view()[key@].length,
                    value as u128,
                ),
                Err(e) => *final(self) == *old(self) && ((e == BitfieldError::KeyNotFound && !old(
                    self,
                ).fields_view().contains_key(key@)) || (old(self).fields_view().contains_key(key@)
                    && value as u128 > mask128(old(self).fields_view()[key@].length) && e == (
                BitfieldError::ValueOutOfRange {
                    max: mask128(old(self).fields_view()[key@].length),
                    value: value as u128,
                }))),
            },
    {
        let d = match self.fields.lookup(key) {
            None => {
                return Err(BitfieldError::KeyNotFound);
            },
            Some(d) => d,
        };
        proof {
            assert(self.fields_view().contains_key(key@));
            assert(valid_range(8, d.start, d.length));
        }
        let maxv = mask_bits(d.length);
        let vb = value as u128;
        if vb > maxv {
            return Err(BitfieldError::ValueOutOfRange { max: maxv, value: vb });
        }
        let nb = insert_bits(self.data as u128, d.start, d.length, vb);
        proof {
            lemma_mask_values();
            lemma_insert_in_width(self.bits(), d.start, d.length, vb, 8);
        }
        self.data = nb as u8;
        Ok(())
    }

    /// The fixed bit width of this register's integer type.
    pub fn get_totalbit(&self) -> (r: usize)
        ensures
            r == 8,
    {
        8
    }
}

impl Bitfield<u16> {
    /// The raw value's bit pattern, zero-extended to 128 bits.
    pub closed spec fn bits(self) -> u128 {
        self.data as u128
    }

    /// Well-formedness of a 16-bit register.
    pub open spec fn wf(self) -> bool {
        self.inv_for(16)
    }

    /// Creates a 16-bit register holding `bitfielddata`, with one field
    /// named `key` at the given range. Rejects a range that does not fit
    /// 16 bits with `InvalidRange`.
    pub fn create_u16(key: String, bitfielddata: u16, start: u8, length: u8) -> (r: Result<
        Bitfield<u16>,
        BitfieldError,
    >)
        ensures
            match r {
                Ok(b) => valid_range(16, start, length) && b.wf() && b.bits() == bitfielddata
                    as u128 && b.fields_view() == Map::<Seq<char>, BitfieldValue>::empty().insert(
                    key@,
                    (BitfieldValue { start, length }),
                ),
                Err(e) => !valid_range(16, start, length) && e == (BitfieldError::InvalidRange {
                    start,
                    length,
                }),
            },
    {
        if start >= 16 || length > 16 - start {
            return Err(BitfieldError::InvalidRange { start, length });
        }
        let mut fields = FieldMap::new();
        let _added = fields.try_insert(key, BitfieldValue { start, length });
        Ok(Bitfield { data: bitfielddata, fields })
    }

    /// Replaces the whole raw value. The field table is untouched: the
    /// descriptors describe positions, not values.
    pub fn set_data(&mut self, bitfielddata: u16)
        ensures
            final(self).bits() == bitfielddata as u128,
            final(self).fields_view() == old(self).fields_view(),
            final(self).fields_wf() == old(self).fields_wf(),
    {
        self.data = bitfielddata;
    }

    /// Reads the whole raw value.
    pub fn get_data(&self) -> (r: u16)
        ensures
            r as u128 == self.bits(),
    {
        self.data
    }

    /// Registers a new named field after validating its range. Fails with
    /// `InvalidRange` when the range does not fit 16 bits, and with
    /// `DuplicateKey` when the name is already registered; on failure the
    /// register is unchanged.
    pub fn insert(&mut self, key: String, start: u8, length: u8) -> (r: Result<
        (),
        BitfieldError,
    >)
        requires
            old(self).wf(),
        ensures
            final(self).wf(),
            final(self).bits() == old(self).bits(),
            match r {
                Ok(()) => valid_range(16, start, length) && !old(
                    self,
                ).fields_view().contains_key(key@) && final(self).fields_view() == old(
                    self,
                ).fields_view().insert(key@, (BitfieldValue { start, length })),
                Err(e) => *final(self) == *old(self) && ((e == (BitfieldError::InvalidRange {
                    start,
                    length,
                }) && !valid_range(16, start, length)) || (e == BitfieldError::DuplicateKey
                    && valid_range(16, start, length) && old(self).fields_view().contains_key(
                    key@,
                ))),
            },
    {
        if start >= 16 || length > 16 - start {
            return Err(BitfieldError::InvalidRange { start, length });
        }
        let ghost kv = key@;
        if self.fields.try_insert(key, BitfieldValue { start, length }) {
            proof {
                assert forall|k: Seq<char>| #[trigger] self.fields_view().contains_key(
                    k,
                ) implies valid_range(
                    16,
                    self.fields_view()[k].start,
                    self.fields_view()[k].length,
                ) by {
                    if k != kv {
                        assert(old(self).fields_view().contains_key(k));
                    }
                }
            }
            Ok(())
        } else {
            Err(BitfieldError::DuplicateKey)
        }
    }

    /// Renames and repositions a field in one step. Everything is validated
    /// before anything is mutated, so on any error the register is
    /// unchanged. Fails with `KeyNotFound` when `oldkey` is absent, with
    /// `InvalidRange` when the new range does not fit, and with
    /// `DuplicateKey` when `newkey` already names another field.
    pub fn modify(&mut self, oldkey: String, newkey: String, start: u8, length: u8) -> (r: Result<
        (),
        BitfieldError,
    >)
        requires
            old(self).wf(),
        ensures
            final(self).wf(),
            final(self).bits() == old(self).bits(),
            match r {
                Ok(()) => old(self).fields_view().contains_key(oldkey@) && valid_range(
                    16,
                    start,
                    length,
                ) && (newkey@ == oldkey@ || !old(self).fields_view().contains_key(newkey@))
                    && final(self).fields_view() == old(self).fields_view().remove(oldkey@).insert(
                    newkey@,
                    (BitfieldValue { start, length }),
                ),
                Err(e) => *final(self) == *old(self) && ((e == BitfieldError::KeyNotFound && !old(
                    self,
                ).fields_view().contains_key(oldkey@)) || (e == (BitfieldError::InvalidRange {
                    start,
                    length,
                }) && old(self).fields_view().contains_key(oldkey@) && !valid_range(
                    16,
                    start,
                    length,
                )) || (e == BitfieldError::DuplicateKey && old(self).fields_view().contains_key(
                    oldkey@,
                ) && valid_range(16, start, length) && newkey@ != oldkey@ && old(
                    self,
                ).fields_view().contains_key(newkey@))),
            },
    {
        if !self.fields.contains(oldkey.as_str()) {
            return Err(BitfieldError::KeyNotFound);
        }
        if start >= 16 || length > 16 - start {
            return Err(BitfieldError::InvalidRange { start, length });
        }
        let same = oldkey == newkey;
        if !same && self.fields.contains(newkey.as_str()) {
            return Err(BitfieldError::DuplicateKey);
        }
        let ghost nkv = newkey@;
        let _removed = self.fields.remove(oldkey.as_str());
        let ghost mid = self.fields@;
        let _added = self.fields.try_insert(newkey, BitfieldValue { start, length });
        proof {
            assert(!mid.contains_key(nkv));
            assert forall|k: Seq<char>| #[trigger] self.fields_view().contains_key(
                k,
            ) implies valid_range(
                16,
                self.fields_view()[k].start,
                self.fields_view()[k].length,
            ) by {
                if k != nkv {
                    assert(old(self).fields_view().contains_key(k));
                }
            }
        }
        Ok(())
    }

    /// Looks up a field's descriptor. Fails with `KeyNotFound` when the
    /// name is absent.
    pub fn get_param(&self, key: &str) -> (r: Result<&BitfieldValue, BitfieldError>)
        requires
            self.wf(),
        ensures
            match r {
                Ok(d) => self.fields_view().contains_key(key@) && *d == self.fields_view()[key@],
                Err(e) => e == BitfieldError::KeyNotFound && !self.fields_view().contains_key(
                    key@,
                ),
            },
    {
        match self.fields.get(key) {
            Some(d) => Ok(d),
            None => Err(BitfieldError::KeyNotFound),
        }
    }

    /// Removes a field descriptor. Fails with `KeyNotFound` when the name
    /// is absent; the raw value is never touched.
    pub fn del_param(&mut self, key: &str) -> (r: Result<(), BitfieldError>)
        requires
            old(self).wf(),
        ensures
            final(self).wf(),
            final(self).bits() == old(self).bits(),
            match r {
                Ok(()) => old(self).fields_view().contains_key(key@) && final(self).fields_view()
                    == old(self).fields_view().remove(key@),
                Err(e) => e == BitfieldError::KeyNotFound && !old(self).fields_view().contains_key(
                    key@,
                ) && *final(self) == *old(self),
            },
    {
        if self.fields.remove(key) {
            proof {
                assert forall|k: Seq<char>| #[trigger] self.fields_view().contains_key(
                    k,
                ) implies valid_range(
                    16,
                    self.fields_view()[k].start,
                    self.fields_view()[k].length,
                ) by {
                    assert(old(self).fields_view().contains_key(k));
                }
            }
            Ok(())
        } else {
            Err(BitfieldError::KeyNotFound)
        }
    }

    /// Reads the value stored in a named field: the raw value's bits
    /// `[start, start + length)`, as a number. Fails with `KeyNotFound`
    /// when the name is absent.
    pub fn get_value(&self, key: &str) -> (r: Result<u16, BitfieldError>)
        requires
            self.wf(),
        ensures
            match r {
                Ok(v) => self.fields_view().contains_key(key@) && v as u128 == extract128(
                    self.bits(),
                    self.fields_view()[key@].start,
                    self.fields_view()[key@].length,
                ),
                Err(e) => e == BitfieldError::KeyNotFound && !self.fields_view().contains_key(
                    key@,
                ),
            },
    {
        match self.fields.lookup(key) {
            None => Err(BitfieldError::KeyNotFound),
            Some(d) => {
                proof {
                    assert(self.fields_view().contains_key(key@));
                    assert(valid_range(16, d.start, d.length));
                }
                let e = extract_bits(self.data as u128, d.start, d.length);
                proof {
                    lemma_extract_bound(self.bits(), d.start, d.length);
                    lemma_mask_monotone(d.length, 16);
                    lemma_mask_values();
                }
                Ok(e as u16)
            },
        }
    }

    /// Writes a value into a named field, preserving every other bit of the
    /// raw value. Fails with `KeyNotFound` when the name is absent, and
    /// with `ValueOutOfRange` when the value does not fit in the field's
    /// declared length (its largest accepted value is the field's all-ones
    /// pattern `mask128(length)`, that is `2^length - 1`); on failure the
    /// register is unchanged.
    pub fn set_value(&mut self, key: &str, value: u16) -> (r: Result<(), BitfieldError>)
        requires
            old(self).wf(),
        ensures
            final(self).wf(),
            final(self).fields_view() == old(self).fields_view(),
            match r {
                Ok(()) => old(self).fields_view().contains_key(key@) && value as u128 <= mask128(
                    old(self).fields_view()[key@].length,
                ) && final(self).bits() == insert128(
                    old(self).bits(),
                    old(self).fields_view()[key@].start,
                    old(self).fields_view()[key@].length,
                    value as u128,
                ),
                Err(e) => *final(self) == *old(self) && ((e == BitfieldError::KeyNotFound && !old(
                    self,
                ).fields_view().contains_key(key@)) || (old(self).fields_view().contains_key(key@)
                    && value as u128 > mask128(old(self).fields_view()[key@].length) && e == (
                BitfieldError::ValueOutOfRange {
                    max: mask128(old(self).fields_view()[key@].length),
                    value: value as u128,
                }))),
            },
    {
        let d = match self.fields.lookup(key) {
            None => {
                return Err(BitfieldError::KeyNotFound);
            },
            Some(d) => d,
        };
        proof {
            assert(self.fields_view().contains_key(key@));
            assert(valid_range(16, d.start, d.length));
        }
        let maxv = mask_bits(d.length);
        let vb = value as u128;
        if vb > maxv {
            return Err(BitfieldError::ValueOutOfRange { max: maxv, value: vb });
        }
        let nb = insert_bits(self.data as u128, d.start, d.length, vb);
        proof {
            lemma_mask_values();
            lemma_insert_in_width(self.bits(), d.start, d.length, vb, 16);
        }
        self.data = nb as u16;
        Ok(())
    }

    /// The fixed bit width of this register's integer type.
    pub fn get_totalbit(&self) -> (r: usize)
        ensures
            r == 16,
    {
        16
    }
}

impl Bitfield<u32> {
    /// The raw value's bit pattern, zero-extended to 128 bits.
    pub closed spec fn bits(self) -> u128 {
        self.data as u128
    }

    /// Well-formedness of a 32-bit register.
    pub open spec fn wf(self) -> bool {
        self.inv_for(32)
    }

    /// Creates a 32-bit register holding `bitfielddata`, with one field
    /// named `key` at the given range. Rejects a range that does not fit
    /// 32 bits with `InvalidRange`.
    pub fn create_u32(key: String, bitfielddata: u32, start: u8, length: u8) -> (r: Result<
        Bitfield<u32>,
        BitfieldError,
    >)
        ensures
            match r {
                Ok(b) => valid_range(32, start, length) && b.wf() && b.bits() == bitfielddata
                    as u128 && b.fields_view() == Map::<Seq<char>, BitfieldValue>::empty().insert(
                    key@,
                    (BitfieldValue { start, length }),
                ),
                Err(e) => !valid_range(32, start, length) && e == (BitfieldError::InvalidRange {
                    start,
                    length,
                }),
            },
    {
        if start >= 32 || length > 32 - start {
            return Err(BitfieldError::InvalidRange { start, length });
        }
        let mut fields = FieldMap::new();
        let _added = fields.try_insert(key, BitfieldValue { start, length });
        Ok(Bitfield { data: bitfielddata, fields })
    }

    /// Replaces the whole raw value. The field table is untouched: the
    /// descriptors describe positions, not values.
    pub fn set_data(&mut self, bitfielddata: u32)
        ensures
            final(self).bits() == bitfielddata as u128,
            final(self).fields_view() == old(self).fields_view(),
            final(self).fields_wf() == old(self).fields_wf(),
    {
        self.data = bitfielddata;
    }

    /// Reads the whole raw value.
    pub fn get_data(&self) -> (r: u32)
        ensures
            r as u128 == self.bits(),
    {
        self.data
    }

    /// Registers a new named field after validating its range. Fails with
    /// `InvalidRange` when the range does not fit 32 bits, and with
    /// `DuplicateKey` when the name is already registered; on failure the
    /// register is unchanged.
    pub fn insert(&mut self, key: String, start: u8, length: u8) -> (r: Result<
        (),
        BitfieldError,
    >)
        requires
            old(self).wf(),
        ensures
            final(self).wf(),
            final(self).bits() == old(self).bits(),
            match r {
                Ok(()) => valid_range(32, start, length) && !old(
                    self,
                ).fields_view().contains_key(key@) && final(self).fields_view() == old(
                    self,
                ).fields_view().insert(key@, (BitfieldValue { start, length })),
                Err(e) => *final(self) == *old(self) && ((e == (BitfieldError::InvalidRange {
                    start,
                    length,
                }) && !valid_range(32, start, length)) || (e == BitfieldError::DuplicateKey
                    && valid_range(32, start, length) && old(self).fields_view().contains_key(
                    key@,
                ))),
            },
    {
        if start >= 32 || length > 32 - start {
            return Err(BitfieldError::InvalidRange { start, length });
        }
        let ghost kv = key@;
        if self.fields.try_insert(key, BitfieldValue { start, length }) {
            proof {
                assert forall|k: Seq<char>| #[trigger] self.fields_view().contains_key(
                    k,
                ) implies valid_range(
                    32,
                    self.fields_view()[k].start,
                    self.fields_view()[k].length,
                ) by {
                    if k != kv {
                        assert(old(self).fields_view().contains_key(k));
                    }
                }
            }
            Ok(())
        } else {
            Err(BitfieldError::DuplicateKey)
        }
    }

    /// Renames and repositions a field in one step. Everything is validated
    /// before anything is mutated, so on any error the register is
    /// unchanged. Fails with `KeyNotFound` when `oldkey` is absent, with
    /// `InvalidRange` when the new range does not fit, and with
    /// `DuplicateKey` when `newkey` already names another field.
    pub fn modify(&mut self, oldkey: String, newkey: String, start: u8, length: u8) -> (r: Result<
        (),
        BitfieldError,
    >)
        requires
            old(self).wf(),
        ensures
            final(self).wf(),
            final(self).bits() == old(self).bits(),
            match r {
                Ok(()) => old(self).fields_view().contains_key(oldkey@) && valid_range(
                    32,
                    start,
                    length,
                ) && (newkey@ == oldkey@ || !old(self).fields_view().contains_key(newkey@))
                    && final(self).fields_view() == old(self).fields_view().remove(oldkey@).insert(
                    newkey@,
                    (BitfieldValue { start, length }),
                ),
                Err(e) => *final(self) == *old(self) && ((e == BitfieldError::KeyNotFound && !old(
                    self,
                ).fields_view().contains_key(oldkey@)) || (e == (BitfieldError::InvalidRange {
                    start,
                    length,
                }) && old(self).fields_view().contains_key(oldkey@) && !valid_range(
                    32,
                    start,
                    length,
                )) || (e == BitfieldError::DuplicateKey && old(self).fields_view().contains_key(
                    oldkey@,
                ) && valid_range(32, start, length) && newkey@ != oldkey@ && old(
                    self,
                ).fields_view().contains_key(newkey@))),
            },
    {
        if !self.fields.contains(oldkey.as_str()) {
            return Err(BitfieldError::KeyNotFound);
        }
        if start >= 32 || length > 32 - start {
            return Err(BitfieldError::InvalidRange { start, length });
        }
        let same = oldkey == newkey;
        if !same && self.fields.contains(newkey.as_str()) {
            return Err(BitfieldError::DuplicateKey);
        }
        let ghost nkv = newkey@;
        let _removed = self.fields.remove(oldkey.as_str());
        let ghost mid = self.fields@;
        let _added = self.fields.try_insert(newkey, BitfieldValue { start, length });
        proof {
            assert(!mid.contains_key(nkv));
            assert forall|k: Seq<char>| #[trigger] self.fields_view().contains_key(
                k,
            ) implies valid_range(
                32,
                self.fields_view()[k].start,
                self.fields_view()[k].length,
            ) by {
                if k != nkv {
                    assert(old(self).fields_view().contains_key(k));
                }
            }
        }
        Ok(())
    }

    /// Looks up a field's descriptor. Fails with `KeyNotFound` when the
    /// name is absent.
    pub fn get_param(&self, key: &str) -> (r: Result<&BitfieldValue, BitfieldError>)
        requires
            self.wf(),
        ensures
            match r {
                Ok(d) => self.fields_view().contains_key(key@) && *d == self.fields_view()[key@],
                Err(e) => e == BitfieldError::KeyNotFound && !self.fields_view().contains_key(
                    key@,
                ),
            },
    {
        match self.fields.get(key) {
            Some(d) => Ok(d),
            None => Err(BitfieldError::KeyNotFound),
        }
    }

    /// Removes a field descriptor. Fails with `KeyNotFound` when the name
    /// is absent; the raw value is never touched.
    pub fn del_param(&mut self, key: &str) -> (r: Result<(), BitfieldError>)
        requires
            old(self).wf(),
        ensures
            final(self).wf(),
            final(self).bits() == old(self).bits(),
            match r {
                Ok(()) => old(self).fields_view().contains_key(key@) && final(self).fields_view()
                    == old(self).fields_view().remove(key@),
                Err(e) => e == BitfieldError::KeyNotFound && !old(self).fields_view().contains_key(
                    key@,
                ) && *final(self) == *old(self),
            },
    {
        if self.fields.remove(key) {
            proof {
                assert forall|k: Seq<char>| #[trigger] self.fields_view().contains_key(
                    k,
                ) implies valid_range(
                    32,
                    self.fields_view()[k].start,
                    self.fields_view()[k].length,
                ) by {
                    assert(old(self).fields_view().contains_key(k));
                }
            }
            Ok(())
        } else {
            Err(BitfieldError::KeyNotFound)
        }
    }

    /// Reads the value stored in a named field: the raw value's bits
    /// `[start, start + length)`, as a number. Fails with `KeyNotFound`
    /// when the name is absent.
    pub fn get_value(&self, key: &str) -> (r: Result<u32, BitfieldError>)
        requires
            self.wf(),
        ensures
            match r {
                Ok(v) => self.fields_view().contains_key(key@) && v as u128 == extract128(
                    self.bits(),
                    self.fields_view()[key@].start,
                    self.fields_view()[key@].length,
                ),
                Err(e) => e == BitfieldError::KeyNotFound && !self.fields_view().contains_key(
                    key@,
                ),
            },
    {
        match self.fields.lookup(key) {
            None => Err(BitfieldError::KeyNotFound),
            Some(d) => {
                proof {
                    assert(self.fields_view().contains_key(key@));
                    assert(valid_range(32, d.start, d.length));
                }
                let e = extract_bits(self.data as u128, d.start, d.length);
                proof {
                    lemma_extract_bound(self.bits(), d.start, d.length);
                    lemma_mask_monotone(d.length, 32);
                    lemma_mask_values();
                }
                Ok(e as u32)
            },
        }
    }

    /// Writes a value into a named field, preserving every other bit of the
    /// raw value. Fails with `KeyNotFound` when the name is absent, and
    /// with `ValueOutOfRange` when the value does not fit in the field's
    /// declared length (its largest accepted value is the field's all-ones
    /// pattern `mask128(length)`, that is `2^length - 1`); on failure the
    /// register is unchanged.
    pub fn set_value(&mut self, key: &str, value: u32) -> (r: Result<(), BitfieldError>)
        requires
            old(self).wf(),
        ensures
            final(self).wf(),
            final(self).fields_view() == old(self).fields_view(),
            match r {
                Ok(()) => old(self).fields_view().contains_key(key@) && value as u128 <= mask128(
                    old(self).fields_view()[key@].length,
                ) && final(self).bits() == insert128(
                    old(self).bits(),
                    old(self).fields_view()[key@].start,
                    old(self).fields_view()[key@].length,
                    value as u128,
                ),
                Err(e) => *final(self) == *old(self) && ((e == BitfieldError::KeyNotFound && !old(
                    self,
                ).fields_view().contains_key(key@)) || (old(self).fields_view().contains_key(key@)
                    && value as u128 > mask128(old(self).fields_view()[key@].length) && e == (
                BitfieldError::ValueOutOfRange {
                    max: mask128(old(self).fields_view()[key@].length),
                    value: value as u128,
                }))),
            },
    {
        let d = match self.fields.lookup(key) {
            None => {
                return Err(BitfieldError::KeyNotFound);
            },
            Some(d) => d,
        };
        proof {
            assert(self.fields_view().contains_key(key@));
            assert(valid_range(32, d.start, d.length));
        }
        let maxv = mask_bits(d.length);
        let vb = value as u128;
        if vb > maxv {
            return Err(BitfieldError::ValueOutOfRange { max: maxv, value: vb });
        }
        let nb = insert_bits(self.data as u128, d.start, d.length, vb);
        proof {
            lemma_mask_values();
            lemma_insert_in_width(self.bits(), d.start, d.length, vb, 32);
        }
        self.data = nb as u32;
        Ok(())
    }

    /// The fixed bit width of this register's integer type.
    pub fn get_totalbit(&self) -> (r: usize)
        ensures
            r == 32,
    {
        32
    }
}

impl Bitfield<u64> {
    /// The raw value's bit pattern, zero-extended to 128 bits.
    pub closed spec fn bits(self) -> u128 {
        self.data as u128
    }

    /// Well-formedness of a 64-bit register.
    pub open spec fn wf(self) -> bool {
        self.inv_for(64)
    }

    /// Creates a 64-bit register holding `bitfielddata`, with one field
    /// named `key` at the given range. Rejects a range that does not fit
    /// 64 bits with `InvalidRange`.
    pub fn create_u64(key: String, bitfielddata: u64, start: u8, length: u8) -> (r: Result<
        Bitfield<u64>,
        BitfieldError,
    >)
        ensures
            match r {
                Ok(b) => valid_range(64, start, length) && b.wf() && b.bits() == bitfielddata
                    as u128 && b.fields_view() == Map::<Seq<char>, BitfieldValue>::empty().insert(
                    key@,
                    (BitfieldValue { start, length }),
                ),
                Err(e) => !valid_range(64, start, length) && e == (BitfieldError::InvalidRange {
                    start,
                    length,
                }),
            },
    {
        if start >= 64 || length > 64 - start {
            return Err(BitfieldError::InvalidRange { start, length });
        }
        let mut fields = FieldMap::new();
        let _added = fields.try_insert(key, BitfieldValue { start, length });
        Ok(Bitfield { data: bitfielddata, fields })
    }

    /// Replaces the whole raw value. The field table is untouched: the
    /// descriptors describe positions, not values.
    pub fn set_data(&mut self, bitfielddata: u64)
        ensures
            final(self).bits() == bitfielddata as u128,
            final(self).fields_view() == old(self).fields_view(),
            final(self).fields_wf() == old(self).fields_wf(),
    {
        self.data = bitfielddata;
    }

    /// Reads the whole raw value.
    pub fn get_data(&self) -> (r: u64)
        ensures
            r as u128 == self.bits(),
    {
        self.data
    }

    /// Registers a new named field after validating its range. Fails with
    /// `InvalidRange` when the range does not fit 64 bits, and with
    /// `DuplicateKey` when the name is already registered; on failure the
    /// register is unchanged.
    pub fn insert(&mut self, key: String, start: u8, length: u8) -> (r: Result<
        (),
        BitfieldError,
    >)
        requires
            old(self).wf(),
        ensures
            final(self).wf(),
            final(self).bits() == old(self).bits(),
            match r {
                Ok(()) => valid_range(64, start, length) && !old(
                    self,
                ).fields_view().contains_key(key@) && final(self).fields_view() == old(
                    self,
                ).fields_view().insert(key@, (BitfieldValue { start, length })),
                Err(e) => *final(self) == *old(self) && ((e == (BitfieldError::InvalidRange {
                    start,
                    length,
                }) && !valid_range(64, start, length)) || (e == BitfieldError::DuplicateKey
                    && valid_range(64, start, length) && old(self).fields_view().contains_key(
                    key@,
                ))),
            },
    {
        if start >= 64 || length > 64 - start {
            return Err(BitfieldError::InvalidRange { start, length });
        }
        let ghost kv = key@;
        if self.fields.try_insert(key, BitfieldValue { start, length }) {
            proof {
                assert forall|k: Seq<char>| #[trigger] self.fields_view().contains_key(
                    k,
                ) implies valid_range(
                    64,
                    self.fields_view()[k].start,
                    self.fields_view()[k].length,
                ) by {
                    if k != kv {
                        assert(old(self).fields_view().contains_key(k));
                    }
                }
            }
            Ok(())
        } else {
            Err(BitfieldError::DuplicateKey)
        }
    }

    /// Renames and repositions a field in one step. Everything is validated
    /// before anything is mutated, so on any error the register is
    /// unchanged. Fails with `KeyNotFound` when `oldkey` is absent, with
    /// `InvalidRange` when the new range does not fit, and with
    /// `DuplicateKey` when `newkey` already names another field.
    pub fn modify(&mut self, oldkey: String, newkey: String, start: u8, length: u8) -> (r: Result<
        (),
        BitfieldError,
    >)
        requires
            old(self).wf(),
        ensures
            final(self).wf(),
            final(self).bits() == old(self).bits(),
            match r {
                Ok(()) => old(self).fields_view().contains_key(oldkey@) && valid_range(
                    64,
                    start,
                    length,
                ) && (newkey@ == oldkey@ || !old(self).fields_view().contains_key(newkey@))
                    && final(self).fields_view() == old(self).fields_view().remove(oldkey@).insert(
                    newkey@,
                    (BitfieldValue { start, length }),
                ),
                Err(e) => *final(self) == *old(self) && ((e == BitfieldError::KeyNotFound && !old(
                    self,
                ).fields_view().contains_key(oldkey@)) || (e == (BitfieldError::InvalidRange {
                    start,
                    length,
                }) && old(self).fields_view().contains_key(oldkey@) && !valid_range(
                    64,
                    start,
                    length,
                )) || (e == BitfieldError::DuplicateKey && old(self).fields_view().contains_key(
                    oldkey@,
                ) && valid_range(64, start, length) && newkey@ != oldkey@ && old(
                    self,
                ).fields_view().contains_key(newkey@))),
            },
    {
        if !self.fields.contains(oldkey.as_str()) {
            return Err(BitfieldError::KeyNotFound);
        }
        if start >= 64 || length > 64 - start {
            return Err(BitfieldError::InvalidRange { start, length });
        }
        let same = oldkey == newkey;
        if !same && self.fields.contains(newkey.as_str()) {
            return Err(BitfieldError::DuplicateKey);
        }
        let ghost nkv = newkey@;
        let _removed = self.fields.remove(oldkey.as_str());
        let ghost mid = self.fields@;
        let _added = self.fields.try_insert(newkey, BitfieldValue { start, length });
        proof {
            assert(!mid.contains_key(nkv));
            assert forall|k: Seq<char>| #[trigger] self.fields_view().contains_key(
                k,
            ) implies valid_range(
                64,
                self.fields_view()[k].start,
                self.fields_view()[k].length,
            ) by {
                if k != nkv {
                    assert(old(self).fields_view().contains_key(k));
                }
            }
        }
        Ok(())
    }

    /// Looks up a field's descriptor. Fails with `KeyNotFound` when the
    /// name is absent.
    pub fn get_param(&self, key: &str) -> (r: Result<&BitfieldValue, BitfieldError>)
        requires
            self.wf(),
        ensures
            match r {
                Ok(d) => self.fields_view().contains_key(key@) && *d == self.fields_view()[key@],
                Err(e) => e == BitfieldError::KeyNotFound && !self.fields_view().contains_key(
                    key@,
                ),
            },
    {
        match self.fields.get(key) {
            Some(d) => Ok(d),
            None => Err(BitfieldError::KeyNotFound),
        }
    }

    /// Removes a field descriptor. Fails with `KeyNotFound` when the name
    /// is absent; the raw value is never touched.
    pub fn del_param(&mut self, key: &str) -> (r: Result<(), BitfieldError>)
        requires
            old(self).wf(),
        ensures
            final(self).wf(),
            final(self).bits() == old(self).bits(),
            match r {
                Ok(()) => old(self).fields_view().contains_key(key@) && final(self).fields_view()
                    == old(self).fields_view().remove(key@),
                Err(e) => e == BitfieldError::KeyNotFound && !old(self).fields_view().contains_key(
                    key@,
                ) && *final(self) == *old(self),
            },
    {
        if self.fields.remove(key) {
            proof {
                assert forall|k: Seq<char>| #[trigger] self.fields_view().contains_key(
                    k,
                ) implies valid_range(
                    64,
                    self.fields_view()[k].start,
                    self.fields_view()[k].length,
                ) by {
                    assert(old(self).fields_view().contains_key(k));
                }
            }
            Ok(())
        } else {
            Err(BitfieldError::KeyNotFound)
        }
    }

    /// Reads the value stored in a named field: the raw value's bits
    /// `[start, start + length)`, as a number. Fails with `KeyNotFound`
    /// when the name is absent.
    pub fn get_value(&self, key: &str) -> (r: Result<u64, BitfieldError>)
        requires
            self.wf(),
        ensures
            match r {
                Ok(v) => self.fields_view().contains_key(key@) && v as u128 == extract128(
                    self.bits(),
                    self.fields_view()[key@].start,
                    self.fields_view()[key@].length,
                ),
                Err(e) => e == BitfieldError::KeyNotFound && !self.fields_view().contains_key(
                    key@,
                ),
            },
    {
        match self.fields.lookup(key) {
            None => Err(BitfieldError::KeyNotFound),
            Some(d) => {
                proof {
                    assert(self.fields_view().contains_key(key@));
                    assert(valid_range(64, d.start, d.length));
                }
                let e = extract_bits(self.data as u128, d.start, d.length);
                proof {
                    lemma_extract_bound(self.bits(), d.start, d.length);
                    lemma_mask_monotone(d.length, 64);
                    lemma_mask_values();
                }
                Ok(e as u64)
            },
        }
    }

    /// Writes a value into a named field, preserving every other bit of the
    /// raw value. Fails with `KeyNotFound` when the name is absent, and
    /// with `ValueOutOfRange` when the value does not fit in the field's
    /// declared length (its largest accepted value is the field's all-ones
    /// pattern `mask128(length)`, that is `2^length - 1`); on failure the
    /// register is unchanged.
    pub fn set_value(&mut self, key: &str, value: u64) -> (r: Result<(), BitfieldError>)
        requires
            old(self).wf(),
        ensures
            final(self).wf(),
            final(self).fields_view() == old(self).fields_view(),
            match r {
                Ok(()) => old(self).fields_view().contains_key(key@) && value as u128 <= mask128(
                    old(self).fields_view()[key@].length,
                ) && final(self).bits() == insert128(
                    old(self).bits(),
                    old(self).fields_view()[key@].start,
                    old(self).fields_view()[key@].length,
                    value as u128,
                ),
                Err(e) => *final(self) == *old(self) && ((e == BitfieldError::KeyNotFound && !old(
                    self,
                ).fields_view().contains_key(key@)) || (old(self).fields_view().contains_key(key@)
                    && value as u128 > mask128(old(self).fields_view()[key@].length) && e == (
                BitfieldError::ValueOutOfRange {
                    max: mask128(old(self).fields_view()[key@].length),
                    value: value as u128,
                }))),
            },
    {
        let d = match self.fields.lookup(key) {
            None => {
                return Err(BitfieldError::KeyNotFound);
            },
            Some(d) => d,
        };
        proof {
            assert(self.fields_view().contains_key(key@));
            assert(valid_range(64, d.start, d.length));
        }
        let maxv = mask_bits(d.length);
        let vb = value as u128;
        if vb > maxv {
            return Err(BitfieldError::ValueOutOfRange { max: maxv, value: vb });
        }
        let nb = insert_bits(self.data as u128, d.start, d.length, vb);
        proof {
            lemma_mask_values();
            lemma_insert_in_width(self.bits(), d.start, d.length, vb, 64);
        }
        self.data = nb as u64;
        Ok(())
    }

    /// The fixed bit width of this register's integer type.
    pub fn get_totalbit(&self) -> (r: usize)
        ensures
            r == 64,
    {
        64
    }
}

impl Bitfield<u128> {
    /// The raw value's bit pattern, zero-extended to 128 bits.
    pub closed spec fn bits(self) -> u128 {
        self.data as u128
    }

    /// Well-formedness of a 128-bit register.
    pub open spec fn wf(self) -> bool {
        self.inv_for(128)
    }

    /// Creates a 128-bit register holding `bitfielddata`, with one field
    /// named `key` at the given range. Rejects a range that does not fit
    /// 128 bits with `InvalidRange`.
    pub fn create_u128(key: String, bitfielddata: u128, start: u8, length: u8) -> (r: Result<
        Bitfield<u128>,
        BitfieldError,
    >)
        ensures
            match r {
                Ok(b) => valid_range(128, start, length) && b.wf() && b.bits() == bitfielddata
                    as u128 && b.fields_view() == Map::<Seq<char>, BitfieldValue>::empty().insert(
                    key@,
                    (BitfieldValue { start, length }),
                ),
                Err(e) => !valid_range(128, start, length) && e == (BitfieldError::InvalidRange {
                    start,
                    length,
                }),
            },
    {
        if start >= 128 || length > 128 - start {
            return Err(BitfieldError::InvalidRange { start, length });
        }
        let mut fields = FieldMap::new();
        let _added = fields.try_insert(key, BitfieldValue { start, length });
        Ok(Bitfield { data: bitfielddata, fields })
    }

    /// Replaces the whole raw value. The field table is untouched: the
    /// descriptors describe positions, not values.
    pub fn set_data(&mut self, bitfielddata: u128)
        ensures
            final(self).bits() == bitfielddata as u128,
            final(self).fields_view() == old(self).fields_view(),
            final(self).fields_wf() == old(self).fields_wf(),
    {
        self.data = bitfielddata;
    }

    /// Reads the whole raw value.
    pub fn get_data(&self) -> (r: u128)
        ensures
            r as u128 == self.bits(),
    {
        self.data
    }

    /// Registers a new named field after validating its range. Fails with
    /// `InvalidRange` when the range does not fit 128 bits, and with
    /// `DuplicateKey` when the name is already registered; on failure the
    /// register is unchanged.
    pub fn insert(&mut self, key: String, start: u8, length: u8) -> (r: Result<
        (),
        BitfieldError,
    >)
        requires
            old(self).wf(),
        ensures
            final(self).wf(),
            final(self).bits() == old(self).bits(),
            match r {
                Ok(()) => valid_range(128, start, length) && !old(
                    self,
                ).fields_view().contains_key(key@) && final(self).fields_view() == old(
                    self,
                ).fields_view().insert(key@, (BitfieldValue { start, length })),
                Err(e) => *final(self) == *old(self) && ((e == (BitfieldError::InvalidRange {
                    start,
                    length,
                }) && !valid_range(128, start, length)) || (e == BitfieldError::DuplicateKey
                    && valid_range(128, start, length) && old(self).fields_view().contains_key(
                    key@,
                ))),
            },
    {
        if start >= 128 || length > 128 - start {
            return Err(BitfieldError::InvalidRange { start, length });
        }
        let ghost kv = key@;
        if self.fields.try_insert(key, BitfieldValue { start, length }) {
            proof {
                assert forall|k: Seq<char>| #[trigger] self.fields_view().contains_key(
                    k,
                ) implies valid_range(
                    128,
                    self.fields_view()[k].start,
                    self.fields_view()[k].length,
                ) by {
                    if k != kv {
                        assert(old(self).fields_view().contains_key(k));
                    }
                }
            }
            Ok(())
        } else {
            Err(BitfieldError::DuplicateKey)
        }
    }

    /// Renames and repositions a field in one step. Everything is validated
    /// before anything is mutated, so on any error the register is
    /// unchanged. Fails with `KeyNotFound` when `oldkey` is absent, with
    /// `InvalidRange` when the new range does not fit, and with
    /// `DuplicateKey` when `newkey` already names another field.
    pub fn modify(&mut self, oldkey: String, newkey: String, start: u8, length: u8) -> (r: Result<
        (),
        BitfieldError,
    >)
        requires
            old(self).wf(),
        ensures
            final(self).wf(),
            final(self).bits() == old(self).bits(),
            match r {
                Ok(()) => old(self).fields_view().contains_key(oldkey@) && valid_range(
                    128,
                    start,
                    length,
                ) && (newkey@ == oldkey@ || !old(self).fields_view().contains_key(newkey@))
                    && final(self).fields_view() == old(self).fields_view().remove(oldkey@).insert(
                    newkey@,
                    (BitfieldValue { start, length }),
                ),
                Err(e) => *final(self) == *old(self) && ((e == BitfieldError::KeyNotFound && !old(
                    self,
                ).fields_view().contains_key(oldkey@)) || (e == (BitfieldError::InvalidRange {
                    start,
                    length,
                }) && old(self).fields_view().contains_key(oldkey@) && !valid_range(
                    128,
                    start,
                    length,
                )) || (e == BitfieldError::DuplicateKey && old(self).fields_view().contains_key(
                    oldkey@,
                ) && valid_range(128, start, length) && newkey@ != oldkey@ && old(
                    self,
                ).fields_view().contains_key(newkey@))),
            },
    {
        if !self.fields.contains(oldkey.as_str()) {
            return Err(BitfieldError::KeyNotFound);
        }
        if start >= 128 || length > 128 - start {
            return Err(BitfieldError::InvalidRange { start, length });
        }
        let same = oldkey == newkey;
        if !same && self.fields.contains(newkey.as_str()) {
            return Err(BitfieldError::DuplicateKey);
        }
        let ghost nkv = newkey@;
        let _removed = self.fields.remove(oldkey.as_str());
        let ghost mid = self.fields@;
        let _added = self.fields.try_insert(newkey, BitfieldValue { start, length });
        proof {
            assert(!mid.contains_key(nkv));
            assert forall|k: Seq<char>| #[trigger] self.fields_view().contains_key(
                k,
            ) implies valid_range(
                128,
                self.fields_view()[k].start,
                self.fields_view()[k].length,
            ) by {
                if k != nkv {
                    assert(old(self).fields_view().contains_key(k));
                }
            }
        }
        Ok(())
    }

    /// Looks up a field's descriptor. Fails with `KeyNotFound` when the
    /// name is absent.
    pub fn get_param(&self, key: &str) -> (r: Result<&BitfieldValue, BitfieldError>)
        requires
            self.wf(),
        ensures
            match r {
                Ok(d) => self.fields_view().contains_key(key@) && *d == self.fields_view()[key@],
                Err(e) => e == BitfieldError::KeyNotFound && !self.fields_view().contains_key(
                    key@,
                ),
            },
    {
        match self.fields.get(key) {
            Some(d) => Ok(d),
            None => Err(BitfieldError::KeyNotFound),
        }
    }

    /// Removes a field descriptor. Fails with `KeyNotFound` when the name
    /// is absent; the raw value is never touched.
    pub fn del_param(&mut self, key: &str) -> (r: Result<(), BitfieldError>)
        requires
            old(self).wf(),
        ensures
            final(self).wf(),
            final(self).bits() == old(self).bits(),
            match r {
                Ok(()) => old(self).fields_view().contains_key(key@) && final(self).fields_view()
                    == old(self).fields_view().remove(key@),
                Err(e) => e == BitfieldError::KeyNotFound && !old(self).fields_view().contains_key(
                    key@,
                ) && *final(self) == *old(self),
            },
    {
        if self.fields.remove(key) {
            proof {
                assert forall|k: Seq<char>| #[trigger] self.fields_view().contains_key(
                    k,
                ) implies valid_range(
                    128,
                    self.fields_view()[k].start,
                    self.fields_view()[k].length,
                ) by {
                    assert(old(self).fields_view().contains_key(k));
                }
            }
            Ok(())
        } else {
            Err(BitfieldError::KeyNotFound)
        }
    }

    /// Reads the value stored in a named field: the raw value's bits
    /// `[start, start + length)`, as a number. Fails with `KeyNotFound`
    /// when the name is absent.
    pub fn get_value(&self, key: &str) -> (r: Result<u128, BitfieldError>)
        requires
            self.wf(),
        ensures
            match r {
                Ok(v) => self.fields_view().contains_key(key@) && v as u128 == extract128(
                    self.bits(),
                    self.fields_view()[key@].start,
                    self.fields_view()[key@].length,
                ),
                Err(e) => e == BitfieldError::KeyNotFound && !self.fields_view().contains_key(
                    key@,
                ),
            },
    {
        match self.fields.lookup(key) {
            None => Err(BitfieldError::KeyNotFound),
            Some(d) => {
                proof {
                    assert(self.fields_view().contains_key(key@));
                    assert(valid_range(128, d.start, d.length));
                }
                let e = extract_bits(self.data as u128, d.start, d.length);
                proof {
                    lemma_extract_bound(self.bits(), d.start, d.length);
                    lemma_mask_monotone(d.length, 128);
                    lemma_mask_values();
                }
                Ok(e as u128)
            },
        }
    }

    /// Writes a value into a named field, preserving every other bit of the
    /// raw value. Fails with `KeyNotFound` when the name is absent, and
    /// with `ValueOutOfRange` when the value does not fit in the field's
    /// declared length (its largest accepted value is the field's all-ones
    /// pattern `mask128(length)`, that is `2^length - 1`); on failure the
    /// register is unchanged.
    pub fn set_value(&mut self, key: &str, value: u128) -> (r: Result<(), BitfieldError>)
        requires
            old(self).wf(),
        ensures
            final(self).wf(),
            final(self).fields_view() == old(self).fields_view(),
            match r {
                Ok(()) => old(self).fields_view().contains_key(key@) && value as u128 <= mask128(
                    old(self).fields_view()[key@].length,
                ) && final(self).bits() == insert128(
                    old(self).bits(),
                    old(self).fields_view()[key@].start,
                    old(self).fields_view()[key@].length,
                    value as u128,
                ),
                Err(e) => *final(self) == *old(self) && ((e == BitfieldError::KeyNotFound && !old(
                    self,
                ).fields_view().contains_key(key@)) || (old(self).fields_view().contains_key(key@)
                    && value as u128 > mask128(old(self).fields_view()[key@].length) && e == (
                BitfieldError::ValueOutOfRange {
                    max: mask128(old(self).fields_view()[key@].length),
                    value: value as u128,
                }))),
            },
    {
        let d = match self.fields.lookup(key) {
            None => {
                return Err(BitfieldError::KeyNotFound);
            },
            Some(d) => d,
        };
        proof {
            assert(self.fields_view().contains_key(key@));
            assert(valid_range(128, d.start, d.length));
        }
        let maxv = mask_bits(d.length);
        let vb = value as u128;
        if vb > maxv {
            return Err(BitfieldError::ValueOutOfRange { max: maxv, value: vb });
        }
        let nb = insert_bits(self.data as u128, d.start, d.length, vb);
        proof {
            lemma_mask_values();
            lemma_insert_in_width(self.bits(), d.start, d.length, vb, 128);
        }
        self.data = nb as u128;
        Ok(())
    }

    /// The fixed bit width of this register's integer type.
    pub fn get_totalbit(&self) -> (r: usize)
        ensures
            r == 128,
    {
        128
    }
}

} // verus!
