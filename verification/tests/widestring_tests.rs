use cutils::{U16CString, U32CString};

#[test]
fn widestring_u16_roundtrip() {
    let s = U16CString::encode("ab\u{20ac}").unwrap();
    let w = s.to_widestring();
    // Checked against the widestring crate's own view of the value.
    assert_eq!(w.as_slice(), &[0x61, 0x62, 0x20AC]);
    let back = U16CString::from_widestring(w);
    assert_eq!(back.as_slice(), &[0x61, 0x62, 0x20AC]);
    assert_eq!(back.decode().unwrap(), "ab\u{20ac}");
}

#[test]
fn widestring_u32_roundtrip() {
    let s = U32CString::encode("a\u{1d11e}");
    let w = s.to_widestring();
    assert_eq!(w.as_slice(), &[0x61, 0x1D11E]);
    let back = U32CString::from_widestring(w);
    assert_eq!(back.decode().unwrap(), "a\u{1d11e}");
}

#[test]
fn widestring_truncates_interior_nul() {
    // The conversion carries only the logical content: what the owned
    // string holds past its terminator never reaches the widestring value.
    let s = U16CString::from_units(&[0x61, 0x62, 0, 0x63, 0]);
    assert_eq!(s.len_usize(), 2);
    let w = s.to_widestring();
    assert_eq!(w.as_slice(), &[0x61, 0x62]);
}
