//! The signed register instantiations: 8, 16, 32, 64 and 128 bits wide.
//!
//! A signed register stores an `iN`; all range arithmetic runs on the
//! zero-extended two's-complement bit pattern of that value, computed by
//! [`crate::convert`]. A field value is accepted for a write exactly when
//! its own bit pattern fits the field's length, so a negative value fits
//! only a full-width field; a field read is non-negative unless the field
//! covers the whole register, in which case it is the raw value itself.

use vstd::prelude::*;

use crate::bits::extract128;
use crate::bits::extract_bits;
use crate::bits::insert128;
use crate::bits::insert_bits;
use crate::bits::lemma_extract_bound;
use crate::bits::lemma_insert_in_width;
use crate::bits::lemma_mask_monotone;
use crate::bits::lemma_mask_values;
use crate::bits::mask128;
use crate::bits::mask_bits;
use crate::bits::valid_range;
use crate::convert::bits_to_i128;
use crate::convert::bits_to_i16;
use crate::convert::bits_to_i32;
use crate::convert::bits_to_i64;
use crate::convert::bits_to_i8;
use crate::convert::i128_bits;
use crate::convert::i128_to_bits;
use crate::convert::i16_bits;
use crate::convert::i16_to_bits;
use crate::convert::i32_bits;
use crate::convert::i32_to_bits;
use crate::convert::i64_bits;
use crate::convert::i64_to_bits;
use crate::convert::i8_bits;
use crate::convert::i8_to_bits;
use crate::errors::BitfieldError;
use crate::fieldmap::BitfieldValue;
use crate::fieldmap::FieldMap;
use crate::register::Bitfield;

verus! {

impl Bitfield<i8> {
    /// The raw value's two's-complement bit pattern, zero-extended to
    /// 128 bits.
    pub closed spec fn bits(self) -> u128 {
        i8_bits(self.data)
    }

    /// Well-formedness of a 8-bit register.
    pub open spec fn wf(self) -> bool {
        self.inv_for(8)
    }

    /// Creates a 8-bit signed register holding `bitfielddata`, with one
    /// field named `key` at the given range. Rejects a range that does not
    /// fit 8 bits with `InvalidRange`.
    pub fn create_i8(key: String, bitfielddata: i8, start: u8, length: u8) -> (r: Result<
        Bitfield<i8>,
        BitfieldError,
    >)
        ensures
            match r {
                Ok(b) => valid_range(8, start, length) && b.wf() && b.bits() == i8_bits(
                    bitfielddata,
                ) && b.fields_view() == Map::<Seq<char>, BitfieldValue>::empty().insert(
                    key@,
                    (BitfieldValue { start, length }),
                ),
                Err(e) => !valid_range(8, start, length) && e == (BitfieldError::InvalidRange {
                    start,
                    length,
                }),
            },
    {
        if start >= 8 || length > 8 - start {
            return Err(BitfieldError::InvalidRange { start, length });
        }
        let mut fields = FieldMap::new();
        let _added = fields.try_insert(key, BitfieldValue { start, length });
        Ok(Bitfield { data: bitfielddata, fields })
    }

    /// Replaces the whole raw value. The field table is untouched: the
    /// descriptors describe positions, not values.
    pub fn set_data(&mut self, bitfielddata: i8)
        ensures
            final(self).bits() == i8_bits(bitfielddata),
            final(self).fields_view() == old(self).fields_view(),
            final(self).fields_wf() == old(self).fields_wf(),
    {
        self.data = bitfielddata;
    }

    /// Reads the whole raw value.
    pub fn get_data(&self) -> (r: i8)
        ensures
            i8_bits(r) == self.bits(),
    {
        self.data
    }

    /// Registers a new named field after validating its range. Fails with
    /// `InvalidRange` when the range does not fit 8 bits, and with
    /// `DuplicateKey` when the name is already registered; on failure the
    /// register is unchanged.
    pub fn insert(&mut self, key: String, start: u8, length: u8) -> (r: Result<
        (),
        BitfieldError,
    >)
        requires
            old(self).wf(),
        ensures
            final(self).wf(),
            final(self).bits() == old(self).bits(),
            match r {
                Ok(()) => valid_range(8, start, length) && !old(
                    self,
                ).fields_view().contains_key(key@) && final(self).fields_view() == old(
                    self,
                ).fields_view().insert(key@, (BitfieldValue { start, length })),
                Err(e) => *final(self) == *old(self) && ((e == (BitfieldError::InvalidRange {
                    start,
                    length,
                }) && !valid_range(8, start, length)) || (e == BitfieldError::DuplicateKey
                    && valid_range(8, start, length) && old(self).fields_view().contains_key(
                    key@,
                ))),
            },
    {
        if start >= 8 || length > 8 - start {
            return Err(BitfieldError::InvalidRange { start, length });
        }
        let ghost kv = key@;
        if self.fields.try_insert(key, BitfieldValue { start, length }) {
            proof {
                assert forall|k: Seq<char>| #[trigger] self.fields_view().contains_key(
                    k,
                ) implies valid_range(
                    8,
                    self.fields_view()[k].start,
                    self.fields_view()[k].length,
                ) by {
                    if k != kv {
                        assert(old(self).fields_view().contains_key(k));
                    }
                }
            }
            Ok(())
        } else {
            Err(BitfieldError::DuplicateKey)
        }
    }

    /// Renames and repositions a field in one step. Everything is validated
    /// before anything is mutated, so on any error the register is
    /// unchanged. Fails with `KeyNotFound` when `oldkey` is absent, with
    /// `InvalidRange` when the new range does not fit, and with
    /// `DuplicateKey` when `newkey` already names another field.
    pub fn modify(&mut self, oldkey: String, newkey: String, start: u8, length: u8) -> (r: Result<
        (),
        BitfieldError,
    >)
        requires
            old(self).wf(),
        ensures
            final(self).wf(),
            final(self).bits() == old(self).bits(),
            match r {
                Ok(()) => old(self).fields_view().contains_key(oldkey@) && valid_range(
                    8,
                    start,
                    length,
                ) && (newkey@ == oldkey@ || !old(self).fields_view().contains_key(newkey@))
                    && final(self).fields_view() == old(self).fields_view().remove(oldkey@).insert(
                    newkey@,
                    (BitfieldValue { start, length }),
                ),
                Err(e) => *final(self) == *old(self) && ((e == BitfieldError::KeyNotFound && !old(
                    self,
                ).fields_view().contains_key(oldkey@)) || (e == (BitfieldError::InvalidRange {
                    start,
                    length,
                }) && old(self).fields_view().contains_key(oldkey@) && !valid_range(
                    8,
                    start,
                    length,
                )) || (e == BitfieldError::DuplicateKey && old(self).fields_view().contains_key(
                    oldkey@,
                ) && valid_range(8, start, length) && newkey@ != oldkey@ && old(
                    self,
                ).fields_view().contains_key(newkey@))),
            },
    {
        if !self.fields.contains(oldkey.as_str()) {
            return Err(BitfieldError::KeyNotFound);
        }
        if start >= 8 || length > 8 - start {
            return Err(BitfieldError::InvalidRange { start, length });
        }
        let same = oldkey == newkey;
        if !same && self.fields.contains(newkey.as_str()) {
            return Err(BitfieldError::DuplicateKey);
        }
        let ghost nkv = newkey@;
        let _removed = self.fields.remove(oldkey.as_str());
        let ghost mid = self.fields@;
        let _added = self.fields.try_insert(newkey, BitfieldValue { start, length });
        proof {
            assert(!mid.contains_key(nkv));
            assert forall|k: Seq<char>| #[trigger] self.fields_view().contains_key(
                k,
            ) implies valid_range(
                8,
                self.fields_view()[k].start,
                self.fields_view()[k].length,
            ) by {
                if k != nkv {
                    assert(old(self).fields_view().contains_key(k));
                }
            }
        }
        Ok(())
    }

    /// Looks up a field's descriptor. Fails with `KeyNotFound` when the
    /// name is absent.
    pub fn get_param(&self, key: &str) -> (r: Result<&BitfieldValue, BitfieldError>)
        requires
            self.wf(),
        ensures
            match r {
                Ok(d) => self.fields_view().contains_key(key@) && *d == self.fields_view()[key@],
                Err(e) => e == BitfieldError::KeyNotFound && !self.fields_view().contains_key(
                    key@,
                ),
            },
    {
        match self.fields.get(key) {
            Some(d) => Ok(d),
            None => Err(BitfieldError::KeyNotFound),
        }
    }

    /// Removes a field descriptor. Fails with `KeyNotFound` when the name
    /// is absent; the raw value is never touched.
    pub fn del_param(&mut self, key: &str) -> (r: Result<(), BitfieldError>)
        requires
            old(self).wf(),
        ensures
            final(self).wf(),
            final(self).bits() == old(self).bits(),
            match r {
                Ok(()) => old(self).fields_view().contains_key(key@) && final(self).fields_view()
                    == old(self).fields_view().remove(key@),
                Err(e) => e == BitfieldError::KeyNotFound && !old(self).fields_view().contains_key(
                    key@,
                ) && *final(self) == *old(self),
            },
    {
        if self.fields.remove(key) {
            proof {
                assert forall|k: Seq<char>| #[trigger] self.fields_view().contains_key(
                    k,
                ) implies valid_range(
                    8,
                    self.fields_view()[k].start,
                    self.fields_view()[k].length,
                ) by {
                    assert(old(self).fields_view().contains_key(k));
                }
            }
            Ok(())
        } else {
            Err(BitfieldError::KeyNotFound)
        }
    }

    /// Reads the value stored in a named field: the raw value's bits
    /// `[start, start + length)`, as a number. Fails with `KeyNotFound`
    /// when the name is absent.
    pub fn get_value(&self, key: &str) -> (r: Result<i8, BitfieldError>)
        requires
            self.wf(),
        ensures
            match r {
                Ok(v) => self.fields_view().contains_key(key@) && i8_bits(v) == extract128(
                    self.bits(),
                    self.fields_view()[key@].start,
                    self.fields_view()[key@].length,
                ),
                Err(e) => e == BitfieldError::KeyNotFound && !self.fields_view().contains_key(
                    key@,
                ),
            },
    {
        match self.fields.lookup(key) {
            None => Err(BitfieldError::KeyNotFound),
            Some(d) => {
                proof {
                    assert(self.fields_view().contains_key(key@));
                    assert(valid_range(8, d.start, d.length));
                }
                let db = i8_to_bits(self.data);
                let e = extract_bits(db, d.start, d.length);
                proof {
                    lemma_extract_bound(self.bits(), d.start, d.length);
                    lemma_mask_monotone(d.length, 8);
                    lemma_mask_values();
                }
                Ok(bits_to_i8(e))
            },
        }
    }

    /// Writes a value into a named field, preserving every other bit of the
    /// raw value. Fails with `KeyNotFound` when the name is absent, and
    /// with `ValueOutOfRange` when the value does not fit in the field's
    /// declared length (its largest accepted value is the field's all-ones
    /// pattern `mask128(length)`, that is `2^length - 1`); on failure the
    /// register is unchanged.
    pub fn set_value(&mut self, key: &str, value: i8) -> (r: Result<(), BitfieldError>)
        requires
            old(self).wf(),
        ensures
            final(self).wf(),
            final(self).fields_view() == old(self).fields_view(),
            match r {
                Ok(()) => old(self).fields_view().contains_key(key@) && i8_bits(value)
                    <= mask128(old(self).fields_view()[key@].length) && final(self).bits()
                    == insert128(
                    old(self).bits(),
                    old(self).fields_view()[key@].start,
                    old(self).fields_view()[key@].length,
                    i8_bits(value),
                ),
                Err(e) => *final(self) == *old(self) && ((e == BitfieldError::KeyNotFound && !old(
                    self,
                ).fields_view().contains_key(key@)) || (old(self).fields_view().contains_key(key@)
                    && i8_bits(value) > mask128(old(self).fields_view()[key@].length) && e == (
                BitfieldError::ValueOutOfRange {
                    max: mask128(old(self).fields_view()[key@].length),
                    value: i8_bits(value),
                }))),
            },
    {
        let d = match self.fields.lookup(key) {
            None => {
                return Err(BitfieldError::KeyNotFound);
            },
            Some(d) => d,
        };
        proof {
            assert(self.fields_view().contains_key(key@));
            assert(valid_range(8, d.start, d.length));
        }
        let maxv = mask_bits(d.length);
        let vb = i8_to_bits(value);
        if vb > maxv {
            return Err(BitfieldError::ValueOutOfRange { max: maxv, value: vb });
        }
        let db = i8_to_bits(self.data);
        let nb = insert_bits(db, d.start, d.length, vb);
        proof {
            lemma_mask_values();
            lemma_insert_in_width(self.bits(), d.start, d.length, vb, 8);
        }
        self.data = bits_to_i8(nb);
        Ok(())
    }

    /// The fixed bit width of this register's integer type.
    pub fn get_totalbit(&self) -> (r: usize)
        ensures
            r == 8,
    {
        8
    }
}

impl Bitfield<i16> {
    /// The raw value's two's-complement bit pattern, zero-extended to
    /// 128 bits.
    pub closed spec fn bits(self) -> u128 {
        i16_bits(self.data)
    }

    /// Well-formedness of a 16-bit register.
    pub open spec fn wf(self) -> bool {
        self.inv_for(16)
    }

    /// Creates a 16-bit signed register holding `bitfielddata`, with one
    /// field named `key` at the given range. Rejects a range that does not
    /// fit 16 bits with `InvalidRange`.
    pub fn create_i16(key: String, bitfielddata: i16, start: u8, length: u8) -> (r: Result<
        Bitfield<i16>,
        BitfieldError,
    >)
        ensures
            match r {
                Ok(b) => valid_range(16, start, length) && b.wf() && b.bits() == i16_bits(
                    bitfielddata,
                ) && b.fields_view() == Map::<Seq<char>, BitfieldValue>::empty().insert(
                    key@,
                    (BitfieldValue { start, length }),
                ),
                Err(e) => !valid_range(16, start, length) && e == (BitfieldError::InvalidRange {
                    start,
                    length,
                }),
            },
    {
        if start >= 16 || length > 16 - start {
            return Err(BitfieldError::InvalidRange { start, length });
        }
        let mut fields = FieldMap::new();
        let _added = fields.try_insert(key, BitfieldValue { start, length });
        Ok(Bitfield { data: bitfielddata, fields })
    }

    /// Replaces the whole raw value. The field table is untouched: the
    /// descriptors describe positions, not values.
    pub fn set_data(&mut self, bitfielddata: i16)
        ensures
            final(self).bits() == i16_bits(bitfielddata),
            final(self).fields_view() == old(self).fields_view(),
            final(self).fields_wf() == old(self).fields_wf(),
    {
        self.data = bitfielddata;
    }

    /// Reads the whole raw value.
    pub fn get_data(&self) -> (r: i16)
        ensures
            i16_bits(r) == self.bits(),
    {
        self.data
    }

    /// Registers a new named field after validating its range. Fails with
    /// `InvalidRange` when the range does not fit 16 bits, and with
    /// `DuplicateKey` when the name is already registered; on failure the
    /// register is unchanged.
    pub fn insert(&mut self, key: String, start: u8, length: u8) -> (r: Result<
        (),
        BitfieldError,
    >)
        requires
            old(self).wf(),
        ensures
            final(self).wf(),
            final(self).bits() == old(self).bits(),
            match r {
                Ok(()) => valid_range(16, start, length) && !old(
                    self,
                ).fields_view().contains_key(key@) && final(self).fields_view() == old(
                    self,
                ).fields_view().insert(key@, (BitfieldValue { start, length })),
                Err(e) => *final(self) == *old(self) && ((e == (BitfieldError::InvalidRange {
                    start,
                    length,
                }) && !valid_range(16, start, length)) || (e == BitfieldError::DuplicateKey
                    && valid_range(16, start, length) && old(self).fields_view().contains_key(
                    key@,
                ))),
            },
    {
        if start >= 16 || length > 16 - start {
            return Err(BitfieldError::InvalidRange { start, length });
        }
        let ghost kv = key@;
        if self.fields.try_insert(key, BitfieldValue { start, length }) {
            proof {
                assert forall|k: Seq<char>| #[trigger] self.fields_view().contains_key(
                    k,
                ) implies valid_range(
                    16,
                    self.fields_view()[k].start,
                    self.fields_view()[k].length,
                ) by {
                    if k != kv {
                        assert(old(self).fields_view().contains_key(k));
                    }
                }
            }
            Ok(())
        } else {
            Err(BitfieldError::DuplicateKey)
        }
    }

    /// Renames and repositions a field in one step. Everything is validated
    /// before anything is mutated, so on any error the register is
    /// unchanged. Fails with `KeyNotFound` when `oldkey` is absent, with
    /// `InvalidRange` when the new range does not fit, and with
    /// `DuplicateKey` when `newkey` already names another field.
    pub fn modify(&mut self, oldkey: String, newkey: String, start: u8, length: u8) -> (r: Result<
        (),
        BitfieldError,
    >)
        requires
            old(self).wf(),
        ensures
            final(self).wf(),
            final(self).bits() == old(self).bits(),
            match r {
                Ok(()) => old(self).fields_view().contains_key(oldkey@) && valid_range(
                    16,
                    start,
                    length,
                ) && (newkey@ == oldkey@ || !old(self).fields_view().contains_key(newkey@))
                    && final(self).fields_view() == old(self).fields_view().remove(oldkey@).insert(
                    newkey@,
                    (BitfieldValue { start, length }),
                ),
                Err(e) => *final(self) == *old(self) && ((e == BitfieldError::KeyNotFound && !old(
                    self,
                ).fields_view().contains_key(oldkey@)) || (e == (BitfieldError::InvalidRange {
                    start,
                    length,
                }) && old(self).fields_view().contains_key(oldkey@) && !valid_range(
                    16,
                    start,
                    length,
                )) || (e == BitfieldError::DuplicateKey && old(self).fields_view().contains_key(
                    oldkey@,
                ) && valid_range(16, start, length) && newkey@ != oldkey@ && old(
                    self,
                ).fields_view().contains_key(newkey@))),
            },
    {
        if !self.fields.contains(oldkey.as_str()) {
            return Err(BitfieldError::KeyNotFound);
        }
        if start >= 16 || length > 16 - start {
            return Err(BitfieldError::InvalidRange { start, length });
        }
        let same = oldkey == newkey;
        if !same && self.fields.contains(newkey.as_str()) {
            return Err(BitfieldError::DuplicateKey);
        }
        let ghost nkv = newkey@;
        let _removed = self.fields.remove(oldkey.as_str());
        let ghost mid = self.fields@;
        let _added = self.fields.try_insert(newkey, BitfieldValue { start, length });
        proof {
            assert(!mid.contains_key(nkv));
            assert forall|k: Seq<char>| #[trigger] self.fields_view().contains_key(
                k,
            ) implies valid_range(
                16,
                self.fields_view()[k].start,
                self.fields_view()[k].length,
            ) by {
                if k != nkv {
                    assert(old(self).fields_view().contains_key(k));
                }
            }
        }
        Ok(())
    }

    /// Looks up a field's descriptor. Fails with `KeyNotFound` when the
    /// name is absent.
    pub fn get_param(&self, key: &str) -> (r: Result<&BitfieldValue, BitfieldError>)
        requires
            self.wf(),
        ensures
            match r {
                Ok(d) => self.fields_view().contains_key(key@) && *d == self.fields_view()[key@],
                Err(e) => e == BitfieldError::KeyNotFound && !self.fields_view().contains_key(
                    key@,
                ),
            },
    {
        match self.fields.get(key) {
            Some(d) => Ok(d),
            None => Err(BitfieldError::KeyNotFound),
        }
    }

    /// Removes a field descriptor. Fails with `KeyNotFound` when the name
    /// is absent; the raw value is never touched.
    pub fn del_param(&mut self, key: &str) -> (r: Result<(), BitfieldError>)
        requires
            old(self).wf(),
        ensures
            final(self).wf(),
            final(self).bits() == old(self).bits(),
            match r {
                Ok(()) => old(self).fields_view().contains_key(key@) && final(self).fields_view()
                    == old(self).fields_view().remove(key@),
                Err(e) => e == BitfieldError::KeyNotFound && !old(self).fields_view().contains_key(
                    key@,
                ) && *final(self) == *old(self),
            },
    {
        if self.fields.remove(key) {
            proof {
                assert forall|k: Seq<char>| #[trigger] self.fields_view().contains_key(
                    k,
                ) implies valid_range(
                    16,
                    self.fields_view()[k].start,
                    self.fields_view()[k].length,
                ) by {
                    assert(old(self).fields_view().contains_key(k));
                }
            }
            Ok(())
        } else {
            Err(BitfieldError::KeyNotFound)
        }
    }

    /// Reads the value stored in a named field: the raw value's bits
    /// `[start, start + length)`, as a number. Fails with `KeyNotFound`
    /// when the name is absent.
    pub fn get_value(&self, key: &str) -> (r: Result<i16, BitfieldError>)
        requires
            self.wf(),
        ensures
            match r {
                Ok(v) => self.fields_view().contains_key(key@) && i16_bits(v) == extract128(
                    self.bits(),
                    self.fields_view()[key@].start,
                    self.fields_view()[key@].length,
                ),
                Err(e) => e == BitfieldError::KeyNotFound && !self.fields_view().contains_key(
                    key@,
                ),
            },
    {
        match self.fields.lookup(key) {
            None => Err(BitfieldError::KeyNotFound),
            Some(d) => {
                proof {
                    assert(self.fields_view().contains_key(key@));
                    assert(valid_range(16, d.start, d.length));
                }
                let db = i16_to_bits(self.data);
                let e = extract_bits(db, d.start, d.length);
                proof {
                    lemma_extract_bound(self.bits(), d.start, d.length);
                    lemma_mask_monotone(d.length, 16);
                    lemma_mask_values();
                }
                Ok(bits_to_i16(e))
            },
        }
    }

    /// Writes a value into a named field, preserving every other bit of the
    /// raw value. Fails with `KeyNotFound` when the name is absent, and
    /// with `ValueOutOfRange` when the value does not fit in the field's
    /// declared length (its largest accepted value is the field's all-ones
    /// pattern `mask128(length)`, that is `2^length - 1`); on failure the
    /// register is unchanged.
    pub fn set_value(&mut self, key: &str, value: i16) -> (r: Result<(), BitfieldError>)
        requires
            old(self).wf(),
        ensures
            final(self).wf(),
            final(self).fields_view() == old(self).fields_view(),
            match r {
                Ok(()) => old(self).fields_view().contains_key(key@) && i16_bits(value)
                    <= mask128(old(self).fields_view()[key@].length) && final(self).bits()
                    == insert128(
                    old(self).bits(),
                    old(self).fields_view()[key@].start,
                    old(self).fields_view()[key@].length,
                    i16_bits(value),
                ),
                Err(e) => *final(self) == *old(self) && ((e == BitfieldError::KeyNotFound && !old(
                    self,
                ).fields_view().contains_key(key@)) || (old(self).fields_view().contains_key(key@)
                    && i16_bits(value) > mask128(old(self).fields_view()[key@].length) && e == (
                BitfieldError::ValueOutOfRange {
                    max: mask128(old(self).fields_view()[key@].length),
                    value: i16_bits(value),
                }))),
            },
    {
        let d = match self.fields.lookup(key) {
            None => {
                return Err(BitfieldError::KeyNotFound);
            },
            Some(d) => d,
        };
        proof {
            assert(self.fields_view().contains_key(key@));
            assert(valid_range(16, d.start, d.length));
        }
        let maxv = mask_bits(d.length);
        let vb = i16_to_bits(value);
        if vb > maxv {
            return Err(BitfieldError::ValueOutOfRange { max: maxv, value: vb });
        }
        let db = i16_to_bits(self.data);
        let nb = insert_bits(db, d.start, d.length, vb);
        proof {
            lemma_mask_values();
            lemma_insert_in_width(self.bits(), d.start, d.length, vb, 16);
        }
        self.data = bits_to_i16(nb);
        Ok(())
    }

    /// The fixed bit width of this register's integer type.
    pub fn get_totalbit(&self) -> (r: usize)
        ensures
            r == 16,
    {
        16
    }
}

impl Bitfield<i32> {
    /// The raw value's two's-complement bit pattern, zero-extended to
    /// 128 bits.
    pub closed spec fn bits(self) -> u128 {
        i32_bits(self.data)
    }

    /// Well-formedness of a 32-bit register.
    pub open spec fn wf(self) -> bool {
        self.inv_for(32)
    }

    /// Creates a 32-bit signed register holding `bitfielddata`, with one
    /// field named `key` at the given range. Rejects a range that does not
    /// fit 32 bits with `InvalidRange`.
    pub fn create_i32(key: String, bitfielddata: i32, start: u8, length: u8) -> (r: Result<
        Bitfield<i32>,
        BitfieldError,
    >)
        ensures
            match r {
                Ok(b) => valid_range(32, start, length) && b.wf() && b.bits() == i32_bits(
                    bitfielddata,
                ) && b.fields_view() == Map::<Seq<char>, BitfieldValue>::empty().insert(
                    key@,
                    (BitfieldValue { start, length }),
                ),
                Err(e) => !valid_range(32, start, length) && e == (BitfieldError::InvalidRange {
                    start,
                    length,
                }),
            },
    {
        if start >= 32 || length > 32 - start {
            return Err(BitfieldError::InvalidRange { start, length });
        }
        let mut fields = FieldMap::new();
        let _added = fields.try_insert(key, BitfieldValue { start, length });
        Ok(Bitfield { data: bitfielddata, fields })
    }

    /// Replaces the whole raw value. The field table is untouched: the
    /// descriptors describe positions, not values.
    pub fn set_data(&mut self, bitfielddata: i32)
        ensures
            final(self).bits() == i32_bits(bitfielddata),
            final(self).fields_view() == old(self).fields_view(),
            final(self).fields_wf() == old(self).fields_wf(),
    {
        self.data = bitfielddata;
    }

    /// Reads the whole raw value.
    pub fn get_data(&self) -> (r: i32)
        ensures
            i32_bits(r) == self.bits(),
    {
        self.data
    }

    /// Registers a new named field after validating its range. Fails with
    /// `InvalidRange` when the range does not fit 32 bits, and with
    /// `DuplicateKey` when the name is already registered; on failure the
    /// register is unchanged.
    pub fn insert(&mut self, key: String, start: u8, length: u8) -> (r: Result<
        (),
        BitfieldError,
    >)
        requires
            old(self).wf(),
        ensures
            final(self).wf(),
            final(self).bits() == old(self).bits(),
            match r {
                Ok(()) => valid_range(32, start, length) && !old(
                    self,
                ).fields_view().contains_key(key@) && final(self).fields_view() == old(
                    self,
                ).fields_view().insert(key@, (BitfieldValue { start, length })),
                Err(e) => *final(self) == *old(self) && ((e == (BitfieldError::InvalidRange {
                    start,
                    length,
                }) && !valid_range(32, start, length)) || (e == BitfieldError::DuplicateKey
                    && valid_range(32, start, length) && old(self).fields_view().contains_key(
                    key@,
                ))),
            },
    {
        if start >= 32 || length > 32 - start {
            return Err(BitfieldError::InvalidRange { start, length });
        }
        let ghost kv = key@;
        if self.fields.try_insert(key, BitfieldValue { start, length }) {
            proof {
                assert forall|k: Seq<char>| #[trigger] self.fields_view().contains_key(
                    k,
                ) implies valid_range(
                    32,
                    self.fields_view()[k].start,
                    self.fields_view()[k].length,
                ) by {
                    if k != kv {
                        assert(old(self).fields_view().contains_key(k));
                    }
                }
            }
            Ok(())
        } else {
            Err(BitfieldError::DuplicateKey)
        }
    }

    /// Renames and repositions a field in one step. Everything is validated
    /// before anything is mutated, so on any error the register is
    /// unchanged. Fails with `KeyNotFound` when `oldkey` is absent, with
    /// `InvalidRange` when the new range does not fit, and with
    /// `DuplicateKey` when `newkey` already names another field.
    pub fn modify(&mut self, oldkey: String, newkey: String, start: u8, length: u8) -> (r: Result<
        (),
        BitfieldError,
    >)
        requires
            old(self).wf(),
        ensures
            final(self).wf(),
            final(self).bits() == old(self).bits(),
            match r {
                Ok(()) => old(self).fields_view().contains_key(oldkey@) && valid_range(
                    32,
                    start,
                    length,
                ) && (newkey@ == oldkey@ || !old(self).fields_view().contains_key(newkey@))
                    && final(self).fields_view() == old(self).fields_view().remove(oldkey@).insert(
                    newkey@,
                    (BitfieldValue { start, length }),
                ),
                Err(e) => *final(self) == *old(self) && ((e == BitfieldError::KeyNotFound && !old(
                    self,
                ).fields_view().contains_key(oldkey@)) || (e == (BitfieldError::InvalidRange {
                    start,
                    length,
                }) && old(self).fields_view().contains_key(oldkey@) && !valid_range(
                    32,
                    start,
                    length,
                )) || (e == BitfieldError::DuplicateKey && old(self).fields_view().contains_key(
                    oldkey@,
                ) && valid_range(32, start, length) && newkey@ != oldkey@ && old(
                    self,
                ).fields_view().contains_key(newkey@))),
            },
    {
        if !self.fields.contains(oldkey.as_str()) {
            return Err(BitfieldError::KeyNotFound);
        }
        if start >= 32 || length > 32 - start {
            return Err(BitfieldError::InvalidRange { start, length });
        }
        let same = oldkey == newkey;
        if !same && self.fields.contains(newkey.as_str()) {
            return Err(BitfieldError::DuplicateKey);
        }
        let ghost nkv = newkey@;
        let _removed = self.fields.remove(oldkey.as_str());
        let ghost mid = self.fields@;
        let _added = self.fields.try_insert(newkey, BitfieldValue { start, length });
        proof {
            assert(!mid.contains_key(nkv));
            assert forall|k: Seq<char>| #[trigger] self.fields_view().contains_key(
                k,
            ) implies valid_range(
                32,
                self.fields_view()[k].start,
                self.fields_view()[k].length,
            ) by {
                if k != nkv {
                    assert(old(self).fields_view().contains_key(k));
                }
            }
        }
        Ok(())
    }

    /// Looks up a field's descriptor. Fails with `KeyNotFound` when the
    /// name is absent.
    pub fn get_param(&self, key: &str) -> (r: Result<&BitfieldValue, BitfieldError>)
        requires
            self.wf(),
        ensures
            match r {
                Ok(d) => self.fields_view().contains_key(key@) && *d == self.fields_view()[key@],
                Err(e) => e == BitfieldError::KeyNotFound && !self.fields_view().contains_key(
                    key@,
                ),
            },
    {
        match self.fields.get(key) {
            Some(d) => Ok(d),
            None => Err(BitfieldError::KeyNotFound),
        }
    }

    /// Removes a field descriptor. Fails with `KeyNotFound` when the name
    /// is absent; the raw value is never touched.
    pub fn del_param(&mut self, key: &str) -> (r: Result<(), BitfieldError>)
        requires
            old(self).wf(),
        ensures
            final(self).wf(),
            final(self).bits() == old(self).bits(),
            match r {
                Ok(()) => old(self).fields_view().contains_key(key@) && final(self).fields_view()
                    == old(self).fields_view().remove(key@),
                Err(e) => e == BitfieldError::KeyNotFound && !old(self).fields_view().contains_key(
                    key@,
                ) && *final(self) == *old(self),
            },
    {
        if self.fields.remove(key) {
            proof {
                assert forall|k: Seq<char>| #[trigger] self.fields_view().contains_key(
                    k,
                ) implies valid_range(
                    32,
                    self.fields_view()[k].start,
                    self.fields_view()[k].length,
                ) by {
                    assert(old(self).fields_view().contains_key(k));
                }
            }
            Ok(())
        } else {
            Err(BitfieldError::KeyNotFound)
        }
    }

    /// Reads the value stored in a named field: the raw value's bits
    /// `[start, start + length)`, as a number. Fails with `KeyNotFound`
    /// when the name is absent.
    pub fn get_value(&self, key: &str) -> (r: Result<i32, BitfieldError>)
        requires
            self.wf(),
        ensures
            match r {
                Ok(v) => self.fields_view().contains_key(key@) && i32_bits(v) == extract128(
                    self.bits(),
                    self.fields_view()[key@].start,
                    self.fields_view()[key@].length,
                ),
                Err(e) => e == BitfieldError::KeyNotFound && !self.fields_view().contains_key(
                    key@,
                ),
            },
    {
        match self.fields.lookup(key) {
            None => Err(BitfieldError::KeyNotFound),
            Some(d) => {
                proof {
                    assert(self.fields_view().contains_key(key@));
                    assert(valid_range(32, d.start, d.length));
                }
                let db = i32_to_bits(self.data);
                let e = extract_bits(db, d.start, d.length);
                proof {
                    lemma_extract_bound(self.bits(), d.start, d.length);
                    lemma_mask_monotone(d.length, 32);
                    lemma_mask_values();
                }
                Ok(bits_to_i32(e))
            },
        }
    }

    /// Writes a value into a named field, preserving every other bit of the
    /// raw value. Fails with `KeyNotFound` when the name is absent, and
    /// with `ValueOutOfRange` when the value does not fit in the field's
    /// declared length (its largest accepted value is the field's all-ones
    /// pattern `mask128(length)`, that is `2^length - 1`); on failure the
    /// register is unchanged.
    pub fn set_value(&mut self, key: &str, value: i32) -> (r: Result<(), BitfieldError>)
        requires
            old(self).wf(),
        ensures
            final(self).wf(),
            final(self).fields_view() == old(self).fields_view(),
            match r {
                Ok(()) => old(self).fields_view().contains_key(key@) && i32_bits(value)
                    <= mask128(old(self).fields_view()[key@].length) && final(self).bits()
                    == insert128(
                    old(self).bits(),
                    old(self).fields_view()[key@].start,
                    old(self).fields_view()[key@].length,
                    i32_bits(value),
                ),
                Err(e) => *final(self) == *old(self) && ((e == BitfieldError::KeyNotFound && !old(
                    self,
                ).fields_view().contains_key(key@)) || (old(self).fields_view().contains_key(key@)
                    && i32_bits(value) > mask128(old(self).fields_view()[key@].length) && e == (
                BitfieldError::ValueOutOfRange {
                    max: mask128(old(self).fields_view()[key@].length),
                    value: i32_bits(value),
                }))),
            },
    {
        let d = match self.fields.lookup(key) {
            None => {
                return Err(BitfieldError::KeyNotFound);
            },
            Some(d) => d,
        };
        proof {
            assert(self.fields_view().contains_key(key@));
            assert(valid_range(32, d.start, d.length));
        }
        let maxv = mask_bits(d.length);
        let vb = i32_to_bits(value);
        if vb > maxv {
            return Err(BitfieldError::ValueOutOfRange { max: maxv, value: vb });
        }
        let db = i32_to_bits(self.data);
        let nb = insert_bits(db, d.start, d.length, vb);
        proof {
            lemma_mask_values();
            lemma_insert_in_width(self.bits(), d.start, d.length, vb, 32);
        }
        self.data = bits_to_i32(nb);
        Ok(())
    }

    /// The fixed bit width of this register's integer type.
    pub fn get_totalbit(&self) -> (r: usize)
        ensures
            r == 32,
    {
        32
    }
}

impl Bitfield<i64> {
    /// The raw value's two's-complement bit pattern, zero-extended to
    /// 128 bits.
    pub closed spec fn bits(self) -> u128 {
        i64_bits(self.data)
    }

    /// Well-formedness of a 64-bit register.
    pub open spec fn wf(self) -> bool {
        self.inv_for(64)
    }

    /// Creates a 64-bit signed register holding `bitfielddata`, with one
    /// field named `key` at the given range. Rejects a range that does not
    /// fit 64 bits with `InvalidRange`.
    pub fn create_i64(key: String, bitfielddata: i64, start: u8, length: u8) -> (r: Result<
        Bitfield<i64>,
        BitfieldError,
    >)
        ensures
            match r {
                Ok(b) => valid_range(64, start, length) && b.wf() && b.bits() == i64_bits(
                    bitfielddata,
                ) && b.fields_view() == Map::<Seq<char>, BitfieldValue>::empty().insert(
                    key@,
                    (BitfieldValue { start, length }),
                ),
                Err(e) => !valid_range(64, start, length) && e == (BitfieldError::InvalidRange {
                    start,
                    length,
                }),
            },
    {
        if start >= 64 || length > 64 - start {
            return Err(BitfieldError::InvalidRange { start, length });
        }
        let mut fields = FieldMap::new();
        let _added = fields.try_insert(key, BitfieldValue { start, length });
        Ok(Bitfield { data: bitfielddata, fields })
    }

    /// Replaces the whole raw value. The field table is untouched: the
    /// descriptors describe positions, not values.
    pub fn set_data(&mut self, bitfielddata: i64)
        ensures
            final(self).bits() == i64_bits(bitfielddata),
            final(self).fields_view() == old(self).fields_view(),
            final(self).fields_wf() == old(self).fields_wf(),
    {
        self.data = bitfielddata;
    }

    /// Reads the whole raw value.
    pub fn get_data(&self) -> (r: i64)
        ensures
            i64_bits(r) == self.bits(),
    {
        self.data
    }

    /// Registers a new named field after validating its range. Fails with
    /// `InvalidRange` when the range does not fit 64 bits, and with
    /// `DuplicateKey` when the name is already registered; on failure the
    /// register is unchanged.
    pub fn insert(&mut self, key: String, start: u8, length: u8) -> (r: Result<
        (),
        BitfieldError,
    >)
        requires
            old(self).wf(),
        ensures
            final(self).wf(),
            final(self).bits() == old(self).bits(),
            match r {
                Ok(()) => valid_range(64, start, length) && !old(
                    self,
                ).fields_view().contains_key(key@) && final(self).fields_view() == old(
                    self,
                ).fields_view().insert(key@, (BitfieldValue { start, length })),
                Err(e) => *final(self) == *old(self) && ((e == (BitfieldError::InvalidRange {
                    start,
                    length,
                }) && !valid_range(64, start, length)) || (e == BitfieldError::DuplicateKey
                    && valid_range(64, start, length) && old(self).fields_view().contains_key(
                    key@,
                ))),
            },
    {
        if start >= 64 || length > 64 - start {
            return Err(BitfieldError::InvalidRange { start, length });
        }
        let ghost kv = key@;
        if self.fields.try_insert(key, BitfieldValue { start, length }) {
            proof {
                assert forall|k: Seq<char>| #[trigger] self.fields_view().contains_key(
                    k,
                ) implies valid_range(
                    64,
                    self.fields_view()[k].start,
                    self.fields_view()[k].length,
                ) by {
                    if k != kv {
                        assert(old(self).fields_view().contains_key(k));
                    }
                }
            }
            Ok(())
        } else {
            Err(BitfieldError::DuplicateKey)
        }
    }

    /// Renames and repositions a field in one step. Everything is validated
    /// before anything is mutated, so on any error the register is
    /// unchanged. Fails with `KeyNotFound` when `oldkey` is absent, with
    /// `InvalidRange` when the new range does not fit, and with
    /// `DuplicateKey` when `newkey` already names another field.
    pub fn modify(&mut self, oldkey: String, newkey: String, start: u8, length: u8) -> (r: Result<
        (),
        BitfieldError,
    >)
        requires
            old(self).wf(),
        ensures
            final(self).wf(),
            final(self).bits() == old(self).bits(),
            match r {
                Ok(()) => old(self).fields_view().contains_key(oldkey@) && valid_range(
                    64,
                    start,
                    length,
                ) && (newkey@ == oldkey@ || !old(self).fields_view().contains_key(newkey@))
                    && final(self).fields_view() == old(self).fields_view().remove(oldkey@).insert(
                    newkey@,
                    (BitfieldValue { start, length }),
                ),
                Err(e) => *final(self) == *old(self) && ((e == BitfieldError::KeyNotFound && !old(
                    self,
                ).fields_view().contains_key(oldkey@)) || (e == (BitfieldError::InvalidRange {
                    start,
                    length,
                }) && old(self).fields_view().contains_key(oldkey@) && !valid_range(
                    64,
                    start,
                    length,
                )) || (e == BitfieldError::DuplicateKey && old(self).fields_view().contains_key(
                    oldkey@,
                ) && valid_range(64, start, length) && newkey@ != oldkey@ && old(
                    self,
                ).fields_view().contains_key(newkey@))),
            },
    {
        if !self.fields.contains(oldkey.as_str()) {
            return Err(BitfieldError::KeyNotFound);
        }
        if start >= 64 || length > 64 - start {
            return Err(BitfieldError::InvalidRange { start, length });
        }
        let same = oldkey == newkey;
        if !same && self.fields.contains(newkey.as_str()) {
            return Err(BitfieldError::DuplicateKey);
        }
        let ghost nkv = newkey@;
        let _removed = self.fields.remove(oldkey.as_str());
        let ghost mid = self.fields@;
        let _added = self.fields.try_insert(newkey, BitfieldValue { start, length });
        proof {
            assert(!mid.contains_key(nkv));
            assert forall|k: Seq<char>| #[trigger] self.fields_view().contains_key(
                k,
            ) implies valid_range(
                64,
                self.fields_view()[k].start,
                self.fields_view()[k].length,
            ) by {
                if k != nkv {
                    assert(old(self).fields_view().contains_key(k));
                }
            }
        }
        Ok(())
    }

    /// Looks up a field's descriptor. Fails with `KeyNotFound` when the
    /// name is absent.
    pub fn get_param(&self, key: &str) -> (r: Result<&BitfieldValue, BitfieldError>)
        requires
            self.wf(),
        ensures
            match r {
                Ok(d) => self.fields_view().contains_key(key@) && *d == self.fields_view()[key@],
                Err(e) => e == BitfieldError::KeyNotFound && !self.fields_view().contains_key(
                    key@,
                ),
            },
    {
        match self.fields.get(key) {
            Some(d) => Ok(d),
            None => Err(BitfieldError::KeyNotFound),
        }
    }

    /// Removes a field descriptor. Fails with `KeyNotFound` when the name
    /// is absent; the raw value is never touched.
    pub fn del_param(&mut self, key: &str) -> (r: Result<(), BitfieldError>)
        requires
            old(self).wf(),
        ensures
            final(self).wf(),
            final(self).bits() == old(self).bits(),
            match r {
                Ok(()) => old(self).fields_view().contains_key(key@) && final(self).fields_view()
                    == old(self).fields_view().remove(key@),
                Err(e) => e == BitfieldError::KeyNotFound && !old(self).fields_view().contains_key(
                    key@,
                ) && *final(self) == *old(self),
            },
    {
        if self.fields.remove(key) {
            proof {
                assert forall|k: Seq<char>| #[trigger] self.fields_view().contains_key(
                    k,
                ) implies valid_range(
                    64,
                    self.fields_view()[k].start,
                    self.fields_view()[k].length,
                ) by {
                    assert(old(self).fields_view().contains_key(k));
                }
            }
            Ok(())
        } else {
            Err(BitfieldError::KeyNotFound)
        }
    }

    /// Reads the value stored in a named field: the raw value's bits
    /// `[start, start + length)`, as a number. Fails with `KeyNotFound`
    /// when the name is absent.
    pub fn get_value(&self, key: &str) -> (r: Result<i64, BitfieldError>)
        requires
            self.wf(),
        ensures
            match r {
                Ok(v) => self.fields_view().contains_key(key@) && i64_bits(v) == extract128(
                    self.bits(),
                    self.fields_view()[key@].start,
                    self.fields_view()[key@].length,
                ),
                Err(e) => e == BitfieldError::KeyNotFound && !self.fields_view().contains_key(
                    key@,
                ),
            },
    {
        match self.fields.lookup(key) {
            None => Err(BitfieldError::KeyNotFound),
            Some(d) => {
                proof {
                    assert(self.fields_view().contains_key(key@));
                    assert(valid_range(64, d.start, d.length));
                }
                let db = i64_to_bits(self.data);
                let e = extract_bits(db, d.start, d.length);
                proof {
                    lemma_extract_bound(self.bits(), d.start, d.length);
                    lemma_mask_monotone(d.length, 64);
                    lemma_mask_values();
                }
                Ok(bits_to_i64(e))
            },
        }
    }

    /// Writes a value into a named field, preserving every other bit of the
    /// raw value. Fails with `KeyNotFound` when the name is absent, and
    /// with `ValueOutOfRange` when the value does not fit in the field's
    /// declared length (its largest accepted value is the field's all-ones
    /// pattern `mask128(length)`, that is `2^length - 1`); on failure the
    /// register is unchanged.
    pub fn set_value(&mut self, key: &str, value: i64) -> (r: Result<(), BitfieldError>)
        requires
            old(self).wf(),
        ensures
            final(self).wf(),
            final(self).fields_view() == old(self).fields_view(),
            match r {
                Ok(()) => old(self).fields_view().contains_key(key@) && i64_bits(value)
                    <= mask128(old(self).fields_view()[key@].length) && final(self).bits()
                    == insert128(
                    old(self).bits(),
                    old(self).fields_view()[key@].start,
                    old(self).fields_view()[key@].length,
                    i64_bits(value),
                ),
                Err(e) => *final(self) == *old(self) && ((e == BitfieldError::KeyNotFound && !old(
                    self,
                ).fields_view().contains_key(key@)) || (old(self).fields_view().contains_key(key@)
                    && i64_bits(value) > mask128(old(self).fields_view()[key@].length) && e == (
                BitfieldError::ValueOutOfRange {
                    max: mask128(old(self).fields_view()[key@].length),
                    value: i64_bits(value),
                }))),
            },
    {
        let d = match self.fields.lookup(key) {
            None => {
                return Err(BitfieldError::KeyNotFound);
            },
            Some(d) => d,
        };
        proof {
            assert(self.fields_view().contains_key(key@));
            assert(valid_range(64, d.start, d.length));
        }
        let maxv = mask_bits(d.length);
        let vb = i64_to_bits(value);
        if vb > maxv {
            return Err(BitfieldError::ValueOutOfRange { max: maxv, value: vb });
        }
        let db = i64_to_bits(self.data);
        let nb = insert_bits(db, d.start, d.length, vb);
        proof {
            lemma_mask_values();
            lemma_insert_in_width(self.bits(), d.start, d.length, vb, 64);
        }
        self.data = bits_to_i64(nb);
        Ok(())
    }

    /// The fixed bit width of this register's integer type.
    pub fn get_totalbit(&self) -> (r: usize)
        ensures
            r == 64,
    {
        64
    }
}

impl Bitfield<i128> {
    /// The raw value's two's-complement bit pattern, zero-extended to
    /// 128 bits.
    pub closed spec fn bits(self) -> u128 {
        i128_bits(self.data)
    }

    /// Well-formedness of a 128-bit register.
    pub open spec fn wf(self) -> bool {
        self.inv_for(128)
    }

    /// Creates a 128-bit signed register holding `bitfielddata`, with one
    /// field named `key` at the given range. Rejects a range that does not
    /// fit 128 bits with `InvalidRange`.
    pub fn create_i128(key: String, bitfielddata: i128, start: u8, length: u8) -> (r: Result<
        Bitfield<i128>,
        BitfieldError,
    >)
        ensures
            match r {
                Ok(b) => valid_range(128, start, length) && b.wf() && b.bits() == i128_bits(
                    bitfielddata,
                ) && b.fields_view() == Map::<Seq<char>, BitfieldValue>::empty().insert(
                    key@,
                    (BitfieldValue { start, length }),
                ),
                Err(e) => !valid_range(128, start, length) && e == (BitfieldError::InvalidRange {
                    start,
                    length,
                }),
            },
    {
        if start >= 128 || length > 128 - start {
            return Err(BitfieldError::InvalidRange { start, length });
        }
        let mut fields = FieldMap::new();
        let _added = fields.try_insert(key, BitfieldValue { start, length });
        Ok(Bitfield { data: bitfielddata, fields })
    }

    /// Replaces the whole raw value. The field table is untouched: the
    /// descriptors describe positions, not values.
    pub fn set_data(&mut self, bitfielddata: i128)
        ensures
            final(self).bits() == i128_bits(bitfielddata),
            final(self).fields_view() == old(self).fields_view(),
            final(self).fields_wf() == old(self).fields_wf(),
    {
        self.data = bitfielddata;
    }

    /// Reads the whole raw value.
    pub fn get_data(&self) -> (r: i128)
        ensures
            i128_bits(r) == self.bits(),
    {
        self.data
    }

    /// Registers a new named field after validating its range. Fails with
    /// `InvalidRange` when the range does not fit 128 bits, and with
    /// `DuplicateKey` when the name is already registered; on failure the
    /// register is unchanged.
    pub fn insert(&mut self, key: String, start: u8, length: u8) -> (r: Result<
        (),
        BitfieldError,
    >)
        requires
            old(self).wf(),
        ensures
            final(self).wf(),
            final(self).bits() == old(self).bits(),
            match r {
                Ok(()) => valid_range(128, start, length) && !old(
                    self,
                ).fields_view().contains_key(key@) && final(self).fields_view() == old(
                    self,
                ).fields_view().insert(key@, (BitfieldValue { start, length })),
                Err(e) => *final(self) == *old(self) && ((e == (BitfieldError::InvalidRange {
                    start,
                    length,
                }) && !valid_range(128, start, length)) || (e == BitfieldError::DuplicateKey
                    && valid_range(128, start, length) && old(self).fields_view().contains_key(
                    key@,
                ))),
            },
    {
        if start >= 128 || length > 128 - start {
            return Err(BitfieldError::InvalidRange { start, length });
        }
        let ghost kv = key@;
        if self.fields.try_insert(key, BitfieldValue { start, length }) {
            proof {
                assert forall|k: Seq<char>| #[trigger] self.fields_view().contains_key(
                    k,
                ) implies valid_range(
                    128,
                    self.fields_view()[k].start,
                    self.fields_view()[k].length,
                ) by {
                    if k != kv {
                        assert(old(self).fields_view().contains_key(k));
                    }
                }
            }
            Ok(())
        } else {
            Err(BitfieldError::DuplicateKey)
        }
    }

    /// Renames and repositions a field in one step. Everything is validated
    /// before anything is mutated, so on any error the register is
    /// unchanged. Fails with `KeyNotFound` when `oldkey` is absent, with
    /// `InvalidRange` when the new range does not fit, and with
    /// `DuplicateKey` when `newkey` already names another field.
    pub fn modify(&mut self, oldkey: String, newkey: String, start: u8, length: u8) -> (r: Result<
        (),
        BitfieldError,
    >)
        requires
            old(self).wf(),
        ensures
            final(self).wf(),
            final(self).bits() == old(self).bits(),
            match r {
                Ok(()) => old(self).fields_view().contains_key(oldkey@) && valid_range(
                    128,
                    start,
                    length,
                ) && (newkey@ == oldkey@ || !old(self).fields_view().contains_key(newkey@))
                    && final(self).fields_view() == old(self).fields_view().remove(oldkey@).insert(
                    newkey@,
                    (BitfieldValue { start, length }),
                ),
                Err(e) => *final(self) == *old(self) && ((e == BitfieldError::KeyNotFound && !old(
                    self,
                ).fields_view().contains_key(oldkey@)) || (e == (BitfieldError::InvalidRange {
                    start,
                    length,
                }) && old(self).fields_view().contains_key(oldkey@) && !valid_range(
                    128,
                    start,
                    length,
                )) || (e == BitfieldError::DuplicateKey && old(self).fields_view().contains_key(
                    oldkey@,
                ) && valid_range(128, start, length) && newkey@ != oldkey@ && old(
                    self,
                ).fields_view().contains_key(newkey@))),
            },
    {
        if !self.fields.contains(oldkey.as_str()) {
            return Err(BitfieldError::KeyNotFound);
        }
        if start >= 128 || length > 128 - start {
            return Err(BitfieldError::InvalidRange { start, length });
        }
        let same = oldkey == newkey;
        if !same && self.fields.contains(newkey.as_str()) {
            return Err(BitfieldError::DuplicateKey);
        }
        let ghost nkv = newkey@;
        let _removed = self.fields.remove(oldkey.as_str());
        let ghost mid = self.fields@;
        let _added = self.fields.try_insert(newkey, BitfieldValue { start, length });
        proof {
            assert(!mid.contains_key(nkv));
            assert forall|k: Seq<char>| #[trigger] self.fields_view().contains_key(
                k,
            ) implies valid_range(
                128,
                self.fields_view()[k].start,
                self.fields_view()[k].length,
            ) by {
                if k != nkv {
                    assert(old(self).fields_view().contains_key(k));
                }
            }
        }
        Ok(())
    }

    /// Looks up a field's descriptor. Fails with `KeyNotFound` when the
    /// name is absent.
    pub fn get_param(&self, key: &str) -> (r: Result<&BitfieldValue, BitfieldError>)
        requires
            self.wf(),
        ensures
            match r {
                Ok(d) => self.fields_view().contains_key(key@) && *d == self.fields_view()[key@],
                Err(e) => e == BitfieldError::KeyNotFound && !self.fields_view().contains_key(
                    key@,
                ),
            },
    {
        match self.fields.get(key) {
            Some(d) => Ok(d),
            None => Err(BitfieldError::KeyNotFound),
        }
    }

    /// Removes a field descriptor. Fails with `KeyNotFound` when the name
    /// is absent; the raw value is never touched.
    pub fn del_param(&mut self, key: &str) -> (r: Result<(), BitfieldError>)
        requires
            old(self).wf(),
        ensures
            final(self).wf(),
            final(self).bits() == old(self).bits(),
            match r {
                Ok(()) => old(self).fields_view().contains_key(key@) && final(self).fields_view()
                    == old(self).fields_view().remove(key@),
                Err(e) => e == BitfieldError::KeyNotFound && !old(self).fields_view().contains_key(
                    key@,
                ) && *final(self) == *old(self),
            },
    {
        if self.fields.remove(key) {
            proof {
                assert forall|k: Seq<char>| #[trigger] self.fields_view().contains_key(
                    k,
                ) implies valid_range(
                    128,
                    self.fields_view()[k].start,
                    self.fields_view()[k].length,
                ) by {
                    assert(old(self).fields_view().contains_key(k));
                }
            }
            Ok(())
        } else {
            Err(BitfieldError::KeyNotFound)
        }
    }

    /// Reads the value stored in a named field: the raw value's bits
    /// `[start, start + length)`, as a number. Fails with `KeyNotFound`
    /// when the name is absent.
    pub fn get_value(&self, key: &str) -> (r: Result<i128, BitfieldError>)
        requires
            self.wf(),
        ensures
            match r {
                Ok(v) => self.fields_view().contains_key(key@) && i128_bits(v) == extract128(
                    self.bits(),
                    self.fields_view()[key@].start,
                    self.fields_view()[key@].length,
                ),
                Err(e) => e == BitfieldError::KeyNotFound && !self.fields_view().contains_key(
                    key@,
                ),
            },
    {
        match self.fields.lookup(key) {
            None => Err(BitfieldError::KeyNotFound),
            Some(d) => {
                proof {
                    assert(self.fields_view().contains_key(key@));
                    assert(valid_range(128, d.start, d.length));
                }
                let db = i128_to_bits(self.data);
                let e = extract_bits(db, d.start, d.length);
                proof {
                    lemma_extract_bound(self.bits(), d.start, d.length);
                    lemma_mask_monotone(d.length, 128);
                    lemma_mask_values();
                }
                Ok(bits_to_i128(e))
            },
        }
    }

    /// Writes a value into a named field, preserving every other bit of the
    /// raw value. Fails with `KeyNotFound` when the name is absent, and
    /// with `ValueOutOfRange` when the value does not fit in the field's
    /// declared length (its largest accepted value is the field's all-ones
    /// pattern `mask128(length)`, that is `2^length - 1`); on failure the
    /// register is unchanged.
    pub fn set_value(&mut self, key: &str, value: i128) -> (r: Result<(), BitfieldError>)
        requires
            old(self).wf(),
        ensures
            final(self).wf(),
            final(self).fields_view() == old(self).fields_view(),
            match r {
                Ok(()) => old(self).fields_view().contains_key(key@) && i128_bits(value)
                    <= mask128(old(self).fields_view()[key@].length) && final(self).bits()
                    == insert128(
                    old(self).bits(),
                    old(self).fields_view()[key@].start,
                    old(self).fields_view()[key@].length,
                    i128_bits(value),
                ),
                Err(e) => *final(self) == *old(self) && ((e == BitfieldError::KeyNotFound && !old(
                    self,
                ).fields_view().contains_key(key@)) || (old(self).fields_view().contains_key(key@)
                    && i128_bits(value) > mask128(old(self).fields_view()[key@].length) && e == (
                BitfieldError::ValueOutOfRange {
                    max: mask128(old(self).fields_view()[key@].length),
                    value: i128_bits(value),
                }))),
            },
    {
        let d = match self.fields.lookup(key) {
            None => {
                return Err(BitfieldError::KeyNotFound);
            },
            Some(d) => d,
        };
        proof {
            assert(self.fields_view().contains_key(key@));
            assert(valid_range(128, d.start, d.length));
        }
        let maxv = mask_bits(d.length);
        let vb = i128_to_bits(value);
        if vb > maxv {
            return Err(BitfieldError::ValueOutOfRange { max: maxv, value: vb });
        }
        let db = i128_to_bits(self.data);
        let nb = insert_bits(db, d.start, d.length, vb);
        proof {
            lemma_mask_values();
            lemma_insert_in_width(self.bits(), d.start, d.length, vb, 128);
        }
        self.data = bits_to_i128(nb);
        Ok(())
    }

    /// The fixed bit width of this register's integer type.
    pub fn get_totalbit(&self) -> (r: usize)
        ensures
            r == 128,
    {
        128
    }
}

} // verus!
