//! Tests of the register's field-table operations: creation, insertion,
//! renaming, deletion, lookup, and each error they can report.

use bitfield::errors::BitfieldError;
use bitfield::register::Bitfield;

#[test]
fn scenario_mode_field() {
    // An 8-bit field over an i32 register holding 0xFF, renamed and narrowed
    // to one bit, then probed and cleared.
    let mut r = Bitfield::<i32>::create_i32(String::from("mode"), 0xff, 0, 8).unwrap();
    r.modify(String::from("mode"), String::from("mode1"), 0, 1).unwrap();
    r.insert(String::from("test"), 2, 3).unwrap();
    let d = r.get_param("test").unwrap();
    assert_eq!((d.start, d.length), (2, 3));
    assert_eq!(r.get_value("mode1").unwrap(), 1);
    // Bits [2, 5) of 0xFF are all ones.
    assert_eq!(r.get_value("test").unwrap(), 0b111);
    r.set_value("mode1", 0).unwrap();
    assert_eq!(r.get_value("mode1").unwrap(), 0);
    assert_eq!(r.get_data(), 0xfe);
}

#[test]
fn create_rejects_bad_start() {
    let r = Bitfield::<u8>::create_u8(String::from("f"), 0, 8, 1);
    assert_eq!(r.unwrap_err(), BitfieldError::InvalidRange { start: 8, length: 1 });
    let r = Bitfield::<u16>::create_u16(String::from("f"), 0, 16, 0);
    assert_eq!(r.unwrap_err(), BitfieldError::InvalidRange { start: 16, length: 0 });
    let r = Bitfield::<u32>::create_u32(String::from("f"), 0, 200, 1);
    assert_eq!(r.unwrap_err(), BitfieldError::InvalidRange { start: 200, length: 1 });
    let r = Bitfield::<i64>::create_i64(String::from("f"), 0, 64, 1);
    assert_eq!(r.unwrap_err(), BitfieldError::InvalidRange { start: 64, length: 1 });
    let r = Bitfield::<u128>::create_u128(String::from("f"), 0, 128, 1);
    assert_eq!(r.unwrap_err(), BitfieldError::InvalidRange { start: 128, length: 1 });
}

#[test]
fn create_rejects_overlong_range() {
    let r = Bitfield::<u8>::create_u8(String::from("f"), 0, 4, 5);
    assert_eq!(r.unwrap_err(), BitfieldError::InvalidRange { start: 4, length: 5 });
    let r = Bitfield::<i8>::create_i8(String::from("f"), 0, 7, 2);
    assert_eq!(r.unwrap_err(), BitfieldError::InvalidRange { start: 7, length: 2 });
    let r = Bitfield::<u64>::create_u64(String::from("f"), 0, 63, 2);
    assert_eq!(r.unwrap_err(), BitfieldError::InvalidRange { start: 63, length: 2 });
    let r = Bitfield::<i128>::create_i128(String::from("f"), 0, 1, 128);
    assert_eq!(r.unwrap_err(), BitfieldError::InvalidRange { start: 1, length: 128 });
}

#[test]
fn create_accepts_full_width_range() {
    assert!(Bitfield::<u8>::create_u8(String::from("f"), 1, 0, 8).is_ok());
    assert!(Bitfield::<i16>::create_i16(String::from("f"), 1, 0, 16).is_ok());
    assert!(Bitfield::<u32>::create_u32(String::from("f"), 1, 0, 32).is_ok());
    assert!(Bitfield::<i64>::create_i64(String::from("f"), 1, 0, 64).is_ok());
    assert!(Bitfield::<u128>::create_u128(String::from("f"), 1, 0, 128).is_ok());
}

#[test]
fn insert_rejects_bad_range() {
    let mut r = Bitfield::<u16>::create_u16(String::from("a"), 0, 0, 4).unwrap();
    let e = r.insert(String::from("b"), 16, 1);
    assert_eq!(e.unwrap_err(), BitfieldError::InvalidRange { start: 16, length: 1 });
    let e = r.insert(String::from("b"), 10, 7);
    assert_eq!(e.unwrap_err(), BitfieldError::InvalidRange { start: 10, length: 7 });
    // The failed insertions registered nothing.
    assert_eq!(r.get_param("b").unwrap_err(), BitfieldError::KeyNotFound);
}

#[test]
fn insert_rejects_duplicate_key() {
    let mut r = Bitfield::<u8>::create_u8(String::from("a"), 0x5a, 1, 3).unwrap();
    let e = r.insert(String::from("a"), 4, 2);
    assert_eq!(e.unwrap_err(), BitfieldError::DuplicateKey);
    // The existing descriptor and the raw value are unchanged.
    let d = r.get_param("a").unwrap();
    assert_eq!((d.start, d.length), (1, 3));
    assert_eq!(r.get_data(), 0x5a);
}

#[test]
fn insert_checks_range_before_duplicate() {
    let mut r = Bitfield::<u8>::create_u8(String::from("a"), 0, 0, 2).unwrap();
    let e = r.insert(String::from("a"), 9, 1);
    assert_eq!(e.unwrap_err(), BitfieldError::InvalidRange { start: 9, length: 1 });
}

#[test]
fn modify_renames_and_repositions() {
    let mut r = Bitfield::<u32>::create_u32(String::from("old"), 7, 0, 3).unwrap();
    r.modify(String::from("old"), String::from("new"), 8, 4).unwrap();
    assert_eq!(r.get_param("old").unwrap_err(), BitfieldError::KeyNotFound);
    let d = r.get_param("new").unwrap();
    assert_eq!((d.start, d.length), (8, 4));
    // The raw value is untouched by a rename.
    assert_eq!(r.get_data(), 7);
}

#[test]
fn modify_same_key_repositions() {
    let mut r = Bitfield::<u8>::create_u8(String::from("f"), 0, 0, 8).unwrap();
    r.modify(String::from("f"), String::from("f"), 2, 3).unwrap();
    let d = r.get_param("f").unwrap();
    assert_eq!((d.start, d.length), (2, 3));
}

#[test]
fn modify_missing_key_fails() {
    let mut r = Bitfield::<u8>::create_u8(String::from("a"), 0, 0, 1).unwrap();
    let e = r.modify(String::from("x"), String::from("y"), 0, 1);
    assert_eq!(e.unwrap_err(), BitfieldError::KeyNotFound);
    assert!(r.get_param("a").is_ok());
}

#[test]
fn modify_bad_range_leaves_register_unchanged() {
    let mut r = Bitfield::<u8>::create_u8(String::from("a"), 3, 0, 2).unwrap();
    let e = r.modify(String::from("a"), String::from("b"), 7, 4);
    assert_eq!(e.unwrap_err(), BitfieldError::InvalidRange { start: 7, length: 4 });
    // The old entry is still there under its old name and position.
    let d = r.get_param("a").unwrap();
    assert_eq!((d.start, d.length), (0, 2));
    assert_eq!(r.get_param("b").unwrap_err(), BitfieldError::KeyNotFound);
}

#[test]
fn modify_duplicate_target_leaves_register_unchanged() {
    let mut r = Bitfield::<u8>::create_u8(String::from("a"), 3, 0, 2).unwrap();
    r.insert(String::from("b"), 4, 2).unwrap();
    let e = r.modify(String::from("a"), String::from("b"), 6, 2);
    assert_eq!(e.unwrap_err(), BitfieldError::DuplicateKey);
    // Both entries survive untouched: nothing was removed on the way out.
    let a = r.get_param("a").unwrap();
    assert_eq!((a.start, a.length), (0, 2));
    let b = r.get_param("b").unwrap();
    assert_eq!((b.start, b.length), (4, 2));
}

#[test]
fn del_param_removes_entry() {
    let mut r = Bitfield::<i16>::create_i16(String::from("a"), 0, 0, 5).unwrap();
    r.insert(String::from("b"), 5, 5).unwrap();
    r.del_param("a").unwrap();
    assert_eq!(r.get_param("a").unwrap_err(), BitfieldError::KeyNotFound);
    assert!(r.get_param("b").is_ok());
    assert_eq!(r.del_param("a").unwrap_err(), BitfieldError::KeyNotFound);
}

#[test]
fn get_param_reports_descriptor() {
    let r = Bitfield::<u64>::create_u64(String::from("hi"), 0, 32, 32).unwrap();
    let d = r.get_param("hi").unwrap();
    assert_eq!(d.start, 32);
    assert_eq!(d.length, 32);
    assert_eq!(r.get_param("lo").unwrap_err(), BitfieldError::KeyNotFound);
}

#[test]
fn get_and_set_data_replace_whole_value() {
    let mut r = Bitfield::<u16>::create_u16(String::from("f"), 0x1234, 0, 16).unwrap();
    assert_eq!(r.get_data(), 0x1234);
    r.set_data(0xffff);
    assert_eq!(r.get_data(), 0xffff);
    // The field map survives a whole-value replacement.
    assert!(r.get_param("f").is_ok());
    let mut s = Bitfield::<i8>::create_i8(String::from("f"), -1, 0, 8).unwrap();
    assert_eq!(s.get_data(), -1);
    s.set_data(-128);
    assert_eq!(s.get_data(), -128);
}

#[test]
fn get_totalbit_reports_width() {
    assert_eq!(Bitfield::<u8>::create_u8(String::from("f"), 0, 0, 1).unwrap().get_totalbit(), 8);
    assert_eq!(Bitfield::<i8>::create_i8(String::from("f"), 0, 0, 1).unwrap().get_totalbit(), 8);
    assert_eq!(Bitfield::<u16>::create_u16(String::from("f"), 0, 0, 1).unwrap().get_totalbit(), 16);
    assert_eq!(Bitfield::<i16>::create_i16(String::from("f"), 0, 0, 1).unwrap().get_totalbit(), 16);
    assert_eq!(Bitfield::<u32>::create_u32(String::from("f"), 0, 0, 1).unwrap().get_totalbit(), 32);
    assert_eq!(Bitfield::<i32>::create_i32(String::from("f"), 0, 0, 1).unwrap().get_totalbit(), 32);
    assert_eq!(Bitfield::<u64>::create_u64(String::from("f"), 0, 0, 1).unwrap().get_totalbit(), 64);
    assert_eq!(Bitfield::<i64>::create_i64(String::from("f"), 0, 0, 1).unwrap().get_totalbit(), 64);
    assert_eq!(
        Bitfield::<u128>::create_u128(String::from("f"), 0, 0, 1).unwrap().get_totalbit(),
        128
    );
    assert_eq!(
        Bitfield::<i128>::create_i128(String::from("f"), 0, 0, 1).unwrap().get_totalbit(),
        128
    );
}
