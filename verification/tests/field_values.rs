//! Tests of field reads and writes: round trips at every width, the
//! full-width special case, value-bound rejection, and the independence of
//! disjoint fields.

use bitfield::errors::BitfieldError;
use bitfield::register::Bitfield;

#[test]
fn roundtrip_u8() {
    let mut r = Bitfield::<u8>::create_u8(String::from("f"), 0b1010_1010, 3, 4).unwrap();
    r.set_value("f", 0b0110).unwrap();
    assert_eq!(r.get_value("f").unwrap(), 0b0110);
    // Bits outside [3, 7) keep their old values.
    assert_eq!(r.get_data(), 0b1011_0010);
}

#[test]
fn roundtrip_u16() {
    let mut r = Bitfield::<u16>::create_u16(String::from("f"), 0xffff, 4, 8).unwrap();
    r.set_value("f", 0x00).unwrap();
    assert_eq!(r.get_value("f").unwrap(), 0x00);
    assert_eq!(r.get_data(), 0xf00f);
}

#[test]
fn roundtrip_u32() {
    let mut r = Bitfield::<u32>::create_u32(String::from("f"), 0, 16, 16).unwrap();
    r.set_value("f", 0xabcd).unwrap();
    assert_eq!(r.get_value("f").unwrap(), 0xabcd);
    assert_eq!(r.get_data(), 0xabcd_0000);
}

#[test]
fn roundtrip_u64() {
    let mut r = Bitfield::<u64>::create_u64(String::from("f"), u64::MAX, 1, 62).unwrap();
    r.set_value("f", 0).unwrap();
    assert_eq!(r.get_value("f").unwrap(), 0);
    // Only bit 0 and bit 63 survive.
    assert_eq!(r.get_data(), (1u64 << 63) | 1);
}

#[test]
fn roundtrip_u128() {
    let mut r = Bitfield::<u128>::create_u128(String::from("f"), 0, 100, 28).unwrap();
    r.set_value("f", 0x0abc_def0).unwrap();
    assert_eq!(r.get_value("f").unwrap(), 0x0abc_def0);
    assert_eq!(r.get_data(), 0x0abc_def0u128 << 100);
}

#[test]
fn roundtrip_at_the_top_of_the_word() {
    let mut r = Bitfield::<u128>::create_u128(String::from("f"), u128::MAX, 120, 8).unwrap();
    r.set_value("f", 0x42).unwrap();
    assert_eq!(r.get_value("f").unwrap(), 0x42);
    assert_eq!(r.get_data(), (0x42u128 << 120) | (u128::MAX >> 8));
}

#[test]
fn roundtrip_signed_widths() {
    let mut r = Bitfield::<i8>::create_i8(String::from("f"), -1, 2, 3).unwrap();
    r.set_value("f", 0b101).unwrap();
    assert_eq!(r.get_value("f").unwrap(), 0b101);
    let mut r = Bitfield::<i16>::create_i16(String::from("f"), 0, 9, 6).unwrap();
    r.set_value("f", 63).unwrap();
    assert_eq!(r.get_value("f").unwrap(), 63);
    let mut r = Bitfield::<i32>::create_i32(String::from("f"), -1, 0, 31).unwrap();
    r.set_value("f", 0).unwrap();
    assert_eq!(r.get_value("f").unwrap(), 0);
    // Only the sign bit is left standing.
    assert_eq!(r.get_data(), i32::MIN);
    let mut r = Bitfield::<i64>::create_i64(String::from("f"), 0, 32, 31).unwrap();
    r.set_value("f", i32::MAX as i64).unwrap();
    assert_eq!(r.get_value("f").unwrap(), i32::MAX as i64);
}

#[test]
fn full_width_reads_whole_register() {
    let r = Bitfield::<u8>::create_u8(String::from("all"), 0xfe, 0, 8).unwrap();
    assert_eq!(r.get_value("all").unwrap(), 0xfe);
    let r = Bitfield::<u32>::create_u32(String::from("all"), 0xdead_beef, 0, 32).unwrap();
    assert_eq!(r.get_value("all").unwrap(), 0xdead_beef);
    let r = Bitfield::<i8>::create_i8(String::from("all"), -2, 0, 8).unwrap();
    assert_eq!(r.get_value("all").unwrap(), -2);
    let r = Bitfield::<i128>::create_i128(String::from("all"), -12345, 0, 128).unwrap();
    assert_eq!(r.get_value("all").unwrap(), -12345);
}

#[test]
fn full_width_accepts_type_maximum() {
    let mut r = Bitfield::<u8>::create_u8(String::from("all"), 0, 0, 8).unwrap();
    r.set_value("all", u8::MAX).unwrap();
    assert_eq!(r.get_value("all").unwrap(), u8::MAX);
    let mut r = Bitfield::<u64>::create_u64(String::from("all"), 0, 0, 64).unwrap();
    r.set_value("all", u64::MAX).unwrap();
    assert_eq!(r.get_value("all").unwrap(), u64::MAX);
    let mut r = Bitfield::<u128>::create_u128(String::from("all"), 0, 0, 128).unwrap();
    r.set_value("all", u128::MAX).unwrap();
    assert_eq!(r.get_value("all").unwrap(), u128::MAX);
    assert_eq!(r.get_data(), u128::MAX);
}

#[test]
fn full_width_signed_accepts_negative_values() {
    // A negative value's bit pattern fits exactly when the field covers the
    // whole register.
    let mut r = Bitfield::<i8>::create_i8(String::from("all"), 0, 0, 8).unwrap();
    r.set_value("all", -1).unwrap();
    assert_eq!(r.get_value("all").unwrap(), -1);
    assert_eq!(r.get_data(), -1);
    let mut r = Bitfield::<i128>::create_i128(String::from("all"), 7, 0, 128).unwrap();
    r.set_value("all", -5).unwrap();
    assert_eq!(r.get_value("all").unwrap(), -5);
    assert_eq!(r.get_data(), -5);
}

#[test]
fn narrow_signed_field_rejects_negative_values() {
    let mut r = Bitfield::<i8>::create_i8(String::from("f"), 0x55, 0, 7).unwrap();
    let e = r.set_value("f", -1);
    // The bit pattern of -1 is 0xFF, far above the 7-bit maximum 0x7F.
    assert_eq!(e.unwrap_err(), BitfieldError::ValueOutOfRange { max: 0x7f, value: 0xff });
    assert_eq!(r.get_data(), 0x55);
}

#[test]
fn set_value_rejects_oversized_value() {
    let mut r = Bitfield::<u8>::create_u8(String::from("f"), 0x12, 0, 4).unwrap();
    let e = r.set_value("f", 16);
    assert_eq!(e.unwrap_err(), BitfieldError::ValueOutOfRange { max: 15, value: 16 });
    // The raw value is unchanged on rejection.
    assert_eq!(r.get_data(), 0x12);
    let mut r = Bitfield::<u64>::create_u64(String::from("f"), 9, 10, 10).unwrap();
    let e = r.set_value("f", 1024);
    assert_eq!(e.unwrap_err(), BitfieldError::ValueOutOfRange { max: 1023, value: 1024 });
    assert_eq!(r.get_data(), 9);
}

#[test]
fn set_value_missing_key_fails() {
    let mut r = Bitfield::<u8>::create_u8(String::from("f"), 0, 0, 4).unwrap();
    assert_eq!(r.set_value("g", 1).unwrap_err(), BitfieldError::KeyNotFound);
    assert_eq!(r.get_value("g").unwrap_err(), BitfieldError::KeyNotFound);
}

#[test]
fn disjoint_fields_are_independent() {
    let mut r = Bitfield::<u16>::create_u16(String::from("lo"), 0, 0, 8).unwrap();
    r.insert(String::from("hi"), 8, 8).unwrap();
    r.set_value("hi", 0xab).unwrap();
    r.set_value("lo", 0xcd).unwrap();
    // Writing one field never perturbs the other.
    assert_eq!(r.get_value("hi").unwrap(), 0xab);
    assert_eq!(r.get_value("lo").unwrap(), 0xcd);
    r.set_value("lo", 0x11).unwrap();
    assert_eq!(r.get_value("hi").unwrap(), 0xab);
    assert_eq!(r.get_data(), 0xab11);
}

#[test]
fn overlapping_fields_share_bits() {
    // Overlap is allowed: both names view the same storage.
    let mut r = Bitfield::<u8>::create_u8(String::from("wide"), 0, 0, 8).unwrap();
    r.insert(String::from("low"), 0, 4).unwrap();
    r.set_value("wide", 0xff).unwrap();
    assert_eq!(r.get_value("low").unwrap(), 0x0f);
    r.set_value("low", 0).unwrap();
    assert_eq!(r.get_value("wide").unwrap(), 0xf0);
}

#[test]
fn zero_length_field_holds_only_zero() {
    let mut r = Bitfield::<u8>::create_u8(String::from("z"), 0xff, 3, 0).unwrap();
    assert_eq!(r.get_value("z").unwrap(), 0);
    r.set_value("z", 0).unwrap();
    assert_eq!(r.get_data(), 0xff);
    let e = r.set_value("z", 1);
    assert_eq!(e.unwrap_err(), BitfieldError::ValueOutOfRange { max: 0, value: 1 });
}

#[test]
fn signed_read_is_nonnegative_below_full_width() {
    // Bits [4, 8) of 0xF0 are all ones, but the 4-bit value 15 comes back
    // non-negative: only a full-width field can read back a negative value.
    let r = Bitfield::<i8>::create_i8(String::from("hi"), -16, 4, 4).unwrap();
    assert_eq!(r.get_value("hi").unwrap(), 15);
}
