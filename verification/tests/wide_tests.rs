use cutils::writes::fmt::{Write16 as _, Write32 as _};
use cutils::writes::io::{Write16, Write32};
use cutils::{U16CStr, U16CString, U32CStr, U32CString};

#[test]
fn writes16_cstr() {
    let buf = [0u16; 5];
    let mut s = U16CStr::try_from_slice(&buf).unwrap();
    s.write16_all(&[1, 2, 3, 4]).unwrap();
    assert_eq!(s.as_slice_full(), &[0]);
    assert_eq!(s.as_backing(), &[1, 2, 3, 4, 0]);
}

#[test]
fn writes16_cstr_twice() {
    let buf = [0u16; 5];
    let mut s = U16CStr::try_from_slice(&buf).unwrap();
    s.write16_all(&[1, 2]).unwrap();
    assert_eq!(s.as_slice_full(), &[0, 0, 0]);
    s.write16_all(&[3, 4]).unwrap();
    assert_eq!(s.as_slice_full(), &[0]);
    assert_eq!(s.as_backing(), &[1, 2, 3, 4, 0]);
}

#[test]
fn writes16_cstr_fmt() {
    let buf = [0u16; 5];
    let mut s = U16CStr::try_from_slice(&buf).unwrap();
    s.write_str(&format!("abc{}", 1)).unwrap();
    assert_eq!(s.as_slice_full(), &[0]);
    assert_eq!(s.as_backing(), &[b'a' as u16, b'b' as u16, b'c' as u16, b'1' as u16, 0]);
}

#[test]
fn writes16_cstring() {
    let mut s = U16CString::new();
    s.write16_all(&[1, 2, 3, 4]).unwrap();
    assert_eq!(s.as_slice_with_nul(), &[1, 2, 3, 4, 0]);
}

#[test]
fn writes16_cstring_fmt() {
    let mut s = U16CString::new();
    s.write_all(format!("abc{}", 1).as_bytes()).unwrap();
    assert_eq!(
        s.as_slice_with_nul(),
        &[b'a' as u16, b'b' as u16, b'c' as u16, b'1' as u16, 0],
    );
}

#[test]
fn writes16_cstring_twice() {
    let mut s = U16CString::new();
    s.write16(&[1, 2]).unwrap();
    assert_eq!(s.as_slice_with_nul(), &[1, 2, 0]);
    s.write16(&[3, 4]).unwrap();
    assert_eq!(s.as_slice_with_nul(), &[1, 2, 3, 4, 0]);
}

#[test]
fn writes32_cstr() {
    let buf = [0u32; 5];
    let mut s = U32CStr::try_from_slice(&buf).unwrap();
    s.write32(&[1, 2, 3, 4]).unwrap();
    assert_eq!(s.as_slice_full(), &[0]);
    assert_eq!(s.as_backing(), &[1, 2, 3, 4, 0]);
}

#[test]
fn writes32_cstr_twice() {
    let buf = [0u32; 5];
    let mut s = U32CStr::try_from_slice(&buf).unwrap();
    s.write32(&[1, 2]).unwrap();
    assert_eq!(s.as_slice_full(), &[0, 0, 0]);
    s.write32(&[3, 4]).unwrap();
    assert_eq!(s.as_slice_full(), &[0]);
    assert_eq!(s.as_backing(), &[1, 2, 3, 4, 0]);
}

#[test]
fn writes32_cstr_fmt() {
    let buf = [0u32; 5];
    let mut s = U32CStr::try_from_slice(&buf).unwrap();
    s.write_str(&format!("abc{}", 1)).unwrap();
    assert_eq!(s.as_slice_full(), &[0]);
    assert_eq!(s.as_backing(), &[b'a' as u32, b'b' as u32, b'c' as u32, b'1' as u32, 0]);
}

#[test]
fn writes32_cstring() {
    let mut s = U32CString::new();
    s.write32_all(&[1, 2, 3, 4]).unwrap();
    assert_eq!(s.as_slice_with_nul(), &[1, 2, 3, 4, 0]);
}

#[test]
fn writes32_cstring_fmt() {
    let mut s = U32CString::new();
    s.write_all(format!("abc{}", 1).as_bytes()).unwrap();
    assert_eq!(
        s.as_slice_with_nul(),
        &[b'a' as u32, b'b' as u32, b'c' as u32, b'1' as u32, 0],
    );
}

#[test]
fn writes32_cstring_twice() {
    let mut s = U32CString::new();
    s.write32(&[1, 2]).unwrap();
    assert_eq!(s.as_slice_with_nul(), &[1, 2, 0]);
    s.write32(&[3, 4]).unwrap();
    assert_eq!(s.as_slice_with_nul(), &[1, 2, 3, 4, 0]);
}

#[test]
fn fmt_sink_writes_string_and_char() {
    let buf = [0u16; 6];
    let mut s = U16CStr::try_from_slice(&buf).unwrap();
    let lit = U16CStr::try_from_slice(&[104, 105, 0]).unwrap();
    s.write16_str(&lit).unwrap();
    s.write16_char(33).unwrap();
    assert_eq!(s.as_backing(), &[104, 105, 33, 0, 0, 0]);
    // A string that does not fit, terminator included, is refused whole.
    let long = U16CStr::try_from_slice(&[1, 2, 3, 4, 0]).unwrap();
    assert!(s.write16_str(&long).is_err());
    let mut o = U32CString::new();
    let lit32 = U32CStr::try_from_slice(&[7, 8, 0]).unwrap();
    o.write32_str(&lit32).unwrap();
    o.write32_char(9).unwrap();
    assert_eq!(o.as_slice_with_nul(), &[7, 8, 9, 0]);
}
