use cutils::{StaticU16CStr, StaticU32CStr, StaticWideCStr, WChar};

#[test]
fn creates_wide() {
    let wide = StaticWideCStr::<10>::encode("123").unwrap();
    assert_eq!(
        wide.as_slice_full(),
        &[b'1' as WChar, b'2' as WChar, b'3' as WChar, 0, 0, 0, 0, 0, 0, 0],
    );
}

#[test]
fn creates_u16() {
    let s = StaticU16CStr::<10>::encode("123").unwrap();
    assert_eq!(
        s.as_slice_full(),
        &[b'1' as u16, b'2' as u16, b'3' as u16, 0, 0, 0, 0, 0, 0, 0],
    );
}

#[test]
fn creates_u32() {
    let s = StaticU32CStr::<10>::encode("123").unwrap();
    assert_eq!(
        s.as_slice_full(),
        &[b'1' as u32, b'2' as u32, b'3' as u32, 0, 0, 0, 0, 0, 0, 0],
    );
}
