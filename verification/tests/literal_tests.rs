use cutils::codec::{encode_u16, encode_u32, encode_u8};
use cutils::{
    U16CStr, U16CString, U32CStr, U32CString, U8CStr, U8CString, WChar, WideCStr, WideCString,
};

fn as_u16(v: &[u8]) -> Vec<u16> {
    let mut r = Vec::new();
    for i in v {
        r.push(*i as u16);
    }
    r
}

fn as_u32(v: &[u8]) -> Vec<u32> {
    let mut r = Vec::new();
    for i in v {
        r.push(*i as u32);
    }
    r
}

fn as_wide(v: &[u8]) -> Vec<WChar> {
    let mut r = Vec::new();
    for i in v {
        r.push(*i as WChar);
    }
    r
}

/// A literal's view: its encoded scalars followed by one terminator.
fn u8_literal(s: &str) -> U8CStr {
    let mut units = encode_u8(s).unwrap();
    units.push(0);
    U8CStr::try_from_slice(&units).unwrap()
}

fn u16_literal(s: &str) -> U16CStr {
    let mut units = encode_u16(s).unwrap();
    units.push(0);
    U16CStr::try_from_slice(&units).unwrap()
}

fn u32_literal(s: &str) -> U32CStr {
    let mut units = encode_u32(s);
    units.push(0);
    U32CStr::try_from_slice(&units).unwrap()
}

fn wide_literal(s: &str) -> WideCStr {
    u32_literal(s)
}

#[test]
fn test_u16_macro_test_display() {
    let cstr = u16_literal("123");
    assert_eq!("123", cstr.display().unwrap());
}

#[test]
fn test_u16cstr_macro() {
    let string = u16_literal("123");
    assert_eq!(string.as_slice_full(), as_u16(b"123\0"));
    assert_eq!(string.as_slice(), as_u16(b"123"));
}

#[test]
fn test_u16cstr_macro_rlit() {
    let string = u16_literal(r#""123""#);
    assert_eq!(string.as_slice_full(), as_u16(b"\"123\"\0"));
    assert_eq!(string.as_slice(), as_u16(b"\"123\""));
}

#[test]
fn test_u16cstr_macro_with_internal_nul() {
    let string = u16_literal("123\0");
    assert_eq!(string.as_slice_full(), as_u16(b"123\0\0"));
    assert_eq!(string.as_slice(), as_u16(b"123"));
}

#[test]
fn test_u16cstr_macro_unicode() {
    let string = u16_literal("123\u{100}");
    assert_eq!(string.as_slice_full(), &[0x31, 0x32, 0x33, 0x100, 0]);
    assert_eq!(string.as_slice(), &[0x31, 0x32, 0x33, 0x100]);
}

#[test]
fn test_u16cstr_macro_const_str() {
    const TEST: &str = "123";
    let string = u16_literal(TEST);
    assert_eq!(string.as_slice_full(), as_u16(b"123\0"));
    assert_eq!(string.as_slice(), as_u16(b"123"));
}

#[test]
fn test_u16cstring_macro() {
    let string = U16CString::encode("123").unwrap();
    assert_eq!(string.as_slice_with_nul(), as_u16(b"123\0"));
    assert_eq!(string.as_slice(), as_u16(b"123"));
}

#[test]
fn test_u16cstring_macro_fmt() {
    let mut string = U16CString::new();
    string.write_str(&format!("123 {}", 456)).unwrap();
    assert_eq!(string.as_slice_with_nul(), as_u16(b"123 456\0"));
    assert_eq!(string.as_slice(), as_u16(b"123 456"));
}

#[test]
fn test_u32_macro_test_display() {
    let cstr = u32_literal("123");
    assert_eq!("123", cstr.display().unwrap());
}

#[test]
fn test_u32cstr_macro() {
    let string = u32_literal("123");
    assert_eq!(string.as_slice_full(), as_u32(b"123\0"));
    assert_eq!(string.as_slice(), as_u32(b"123"));
}

#[test]
fn test_u32cstr_macro_rlit() {
    let string = u32_literal(r#""123""#);
    assert_eq!(string.as_slice_full(), as_u32(b"\"123\"\0"));
    assert_eq!(string.as_slice(), as_u32(b"\"123\""));
}

#[test]
fn test_u32cstr_macro_with_internal_nul() {
    let string = u32_literal("123\0");
    assert_eq!(string.as_slice_full(), as_u32(b"123\0\0"));
    assert_eq!(string.as_slice(), as_u32(b"123"));
}

#[test]
fn test_u32cstr_macro_const_str() {
    const TEST: &str = "123";
    let string = u32_literal(TEST);
    assert_eq!(string.as_slice_full(), as_u32(b"123\0"));
    assert_eq!(string.as_slice(), as_u32(b"123"));
}

#[test]
fn test_u32cstring_macro() {
    let string = U32CString::encode("123");
    assert_eq!(string.as_slice_with_nul(), as_u32(b"123\0"));
    assert_eq!(string.as_slice(), as_u32(b"123"));
}

#[test]
fn test_u32cstring_macro_fmt() {
    let mut string = U32CString::new();
    string.write_str(&format!("123 {}", 456)).unwrap();
    assert_eq!(string.as_slice_with_nul(), as_u32(b"123 456\0"));
    assert_eq!(string.as_slice(), as_u32(b"123 456"));
}

#[test]
fn test_cstr_macro() {
    let string = u8_literal("123");
    assert_eq!(string.as_slice_full(), b"123\0");
    assert_eq!(string.as_slice(), b"123");
}

#[test]
fn test_cstr_macro_rlit() {
    let string = u8_literal(r#""123""#);
    assert_eq!(string.as_slice_full(), b"\"123\"\0");
    assert_eq!(string.as_slice(), b"\"123\"");
}

#[test]
fn test_cstr_macro_with_internal_nul() {
    let string = u8_literal("123\0");
    assert_eq!(string.as_slice_full(), b"123\0\0");
    assert_eq!(string.as_slice(), b"123");
}

#[test]
fn test_cstr_macro_const_str() {
    const TEST: &str = "123";
    let string = u8_literal(TEST);
    assert_eq!(string.as_slice_full(), b"123\0");
    assert_eq!(string.as_slice(), b"123");
}

#[test]
fn test_cstring_macro() {
    let string = U8CString::encode("123").unwrap();
    assert_eq!(string.as_slice_with_nul(), b"123\0");
    assert_eq!(string.as_slice(), b"123");
}

#[test]
fn test_cstring_macro_fmt() {
    let mut string = U8CString::new();
    string.write_str(&format!("123 {} {}", 456, "abc")).unwrap();
    assert_eq!(string.as_slice_with_nul(), b"123 456 abc\0");
    assert_eq!(string.as_slice(), b"123 456 abc");
}

#[test]
fn test_widecstr_macro() {
    let string = wide_literal("123");
    assert_eq!(string.as_slice_full(), as_wide(b"123\0"));
    assert_eq!(string.as_slice(), as_wide(b"123"));
}

#[test]
fn test_widecstr_macro_rlit() {
    let string = wide_literal(r#""123""#);
    assert_eq!(string.as_slice_full(), as_wide(b"\"123\"\0"));
    assert_eq!(string.as_slice(), as_wide(b"\"123\""));
}

#[test]
fn test_widecstr_macro_with_internal_nul() {
    let string = wide_literal("123\0");
    assert_eq!(string.as_slice_full(), as_wide(b"123\0\0"));
    assert_eq!(string.as_slice(), as_wide(b"123"));
}

#[test]
fn test_widecstr_macro_const_str() {
    const TEST: &str = "123";
    let string = wide_literal(TEST);
    assert_eq!(string.as_slice_full(), as_wide(b"123\0"));
    assert_eq!(string.as_slice(), as_wide(b"123"));
}

#[test]
fn test_widecstring_macro() {
    let string = WideCString::encode("123");
    assert_eq!(string.as_slice_with_nul(), as_wide(b"123\0"));
    assert_eq!(string.as_slice(), as_wide(b"123"));
}

#[test]
fn test_widecstring_macro_fmt() {
    let mut string = WideCString::new();
    string.write_str(&format!("123 {}", 456)).unwrap();
    assert_eq!(string.as_slice_with_nul(), as_wide(b"123 456\0"));
    assert_eq!(string.as_slice(), as_wide(b"123 456"));
}
