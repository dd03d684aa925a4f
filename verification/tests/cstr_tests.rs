use cutils::{StaticU8CStr, U8CStr, WriteError};

#[test]
fn test_comparison() {
    let buf1 = *b"123\0";
    let cstr1 = U8CStr::try_from_slice(&buf1).unwrap();
    let buf2 = *b"123\0";
    let cstr2 = U8CStr::try_from_slice(&buf2).unwrap();
    assert_eq!(cstr1, cstr2);
    assert_eq!(cstr2, cstr1);
    let buf1 = *b"1234\0";
    let cstr1 = U8CStr::try_from_slice(&buf1).unwrap();
    let buf2 = *b"123\0";
    let cstr2 = U8CStr::try_from_slice(&buf2).unwrap();
    assert_ne!(cstr1, cstr2);
    assert_ne!(cstr2, cstr1);
    let buf1 = *b"123\04\0";
    let cstr1 = U8CStr::try_from_slice(&buf1).unwrap();
    let buf2 = *b"123\0";
    let cstr2 = U8CStr::try_from_slice(&buf2).unwrap();
    assert_eq!(cstr1, cstr2);
    assert_eq!(cstr2, cstr1);
}

#[test]
fn test_comparison_static() {
    let buf1 = *b"123\0";
    let cstr1 = StaticU8CStr::<4>::try_from_slice(&buf1).unwrap();
    let buf2 = *b"123\0";
    let cstr2 = U8CStr::try_from_slice(&buf2).unwrap();
    assert_eq!(cstr1.as_cstr(), cstr2);
    assert_eq!(cstr2, cstr1.as_cstr());
    let buf1 = *b"1234\0";
    let cstr1 = StaticU8CStr::<5>::try_from_slice(&buf1).unwrap();
    let buf2 = *b"123\0";
    let cstr2 = StaticU8CStr::<4>::try_from_slice(&buf2).unwrap();
    assert_ne!(cstr1, cstr2);
    assert_ne!(cstr2, cstr1);
    let buf1 = *b"123\04\0";
    let cstr1 = StaticU8CStr::<6>::try_from_slice(&buf1).unwrap();
    let buf2 = *b"123\0";
    let cstr2 = StaticU8CStr::<4>::try_from_slice(&buf2).unwrap();
    assert_eq!(cstr1, cstr2);
    assert_eq!(cstr2, cstr1);
}

#[test]
fn cstr_test_display() {
    let buf = *b"123\0";
    let cstr = U8CStr::try_from_slice(&buf).unwrap();
    assert_eq!("123", cstr.display().unwrap());
}

#[test]
fn test_writes_full() {
    let buf = *b"123\0";
    let mut cstr = U8CStr::try_from_slice(&buf).unwrap();
    cstr.write_all(b"456").unwrap();
    assert_eq!(cstr.as_slice(), b"");
    assert_eq!(cstr.as_slice_with_nul(), b"\0");
    assert_eq!(cstr.as_slice_full(), b"\0");
    assert_eq!(cstr.as_backing(), *b"456\0");
}

#[test]
fn test_writes1() {
    let buf = *b"123\0";
    let mut cstr = U8CStr::try_from_slice(&buf).unwrap();
    cstr.write_all(b"45").unwrap();
    assert_eq!(cstr.as_slice(), b"");
    assert_eq!(cstr.as_slice_with_nul(), b"\0");
    assert_eq!(cstr.as_slice_full(), b"\0\0");
    assert_eq!(cstr.as_backing(), *b"45\0\0");
}

#[test]
fn test_writes_mid_nul() {
    let buf = *b"123\0456\0";
    let mut cstr = U8CStr::try_from_slice(&buf).unwrap();
    cstr.write_all(b"45").unwrap();
    assert_eq!(cstr.as_slice(), b"");
    assert_eq!(cstr.as_slice_with_nul(), b"\0");
    assert_eq!(cstr.as_slice_full(), b"\0\0456\0");
    assert_eq!(cstr.as_backing(), *b"45\0\0456\0");
}

#[test]
fn test_writes_over_mid_nul() {
    let buf = *b"123\0456\0";
    let mut cstr = U8CStr::try_from_slice(&buf).unwrap();
    cstr.write_all(b"4567").unwrap();
    assert_eq!(cstr.as_slice(), b"");
    assert_eq!(cstr.as_slice_with_nul(), b"\0");
    assert_eq!(cstr.as_slice_full(), b"\056\0");
    assert_eq!(cstr.as_backing(), *b"4567\056\0");
}

#[test]
fn test_writes_continue() {
    let buf = *b"123456789\0";
    let mut cstr = U8CStr::try_from_slice(&buf).unwrap();
    cstr.write_all(b"abc").unwrap();
    cstr.write_all(b"def").unwrap();
    assert_eq!(cstr.as_slice(), b"");
    assert_eq!(cstr.as_slice_with_nul(), b"\0");
    assert_eq!(cstr.as_slice_full(), b"\089\0");
    assert_eq!(cstr.as_backing(), *b"abcdef\089\0");
}

#[test]
fn test_writes_buf_overflow() {
    let buf = *b"\0";
    let mut cstr = U8CStr::try_from_slice(&buf).unwrap();
    assert!(matches!(cstr.write_all(b"a"), Err(WriteError::WriteZero)));
}

#[test]
fn test_writes_bufoverflow_once() {
    let buf = *b"\0";
    let mut cstr = U8CStr::try_from_slice(&buf).unwrap();
    assert_eq!(cstr.write(b"a").unwrap(), 0);
}

#[test]
fn test_index() {
    let buf = b"abc\0";
    let cstr = StaticU8CStr::<4>::try_from_slice(buf).unwrap();
    let cstr = cstr.as_cstr();
    assert_eq!(cstr.get(0).unwrap(), b'a');
    assert_eq!(cstr.get(1).unwrap(), b'b');
    assert_eq!(cstr.get(2).unwrap(), b'c');
    assert_eq!(cstr.get(3).unwrap(), b'\0');
}

#[test]
fn test_index_range() {
    let buf = b"abc\0";
    let cstr = StaticU8CStr::<4>::try_from_slice(buf).unwrap();
    let cstr = cstr.as_cstr();
    let abc = U8CStr::try_from_slice(b"abc\0").unwrap();
    let tmp = cstr.range(0);
    assert_eq!(tmp.len_with_nul_usize(), 4);
    assert_eq!(tmp.capacity_usize(), 4);
    assert_eq!(tmp.len_usize(), 3);
    assert_eq!(tmp, abc);
    let abc = U8CStr::try_from_slice(b"bc\0").unwrap();
    let tmp = cstr.range(1);
    assert_eq!(tmp.len_with_nul_usize(), 3);
    assert_eq!(tmp.capacity_usize(), 3);
    assert_eq!(tmp.len_usize(), 2);
    assert_eq!(tmp, abc);
    let abc = U8CStr::try_from_slice(b"c\0").unwrap();
    let tmp = cstr.range(2);
    assert_eq!(tmp.len_with_nul_usize(), 2);
    assert_eq!(tmp.capacity_usize(), 2);
    assert_eq!(tmp.len_usize(), 1);
    assert_eq!(tmp, abc);
    let abc = U8CStr::try_from_slice(b"\0").unwrap();
    let tmp = cstr.range(3);
    assert_eq!(tmp.len_with_nul_usize(), 1);
    assert_eq!(tmp.capacity_usize(), 1);
    assert_eq!(tmp.len_usize(), 0);
    assert_eq!(tmp, abc);
}

#[test]
fn test_static_index() {
    let buf = b"abc\0";
    let cstr = StaticU8CStr::<4>::try_from_slice(buf).unwrap();
    assert_eq!(cstr.get(0).unwrap(), b'a');
    assert_eq!(cstr.get(1).unwrap(), b'b');
    assert_eq!(cstr.get(2).unwrap(), b'c');
    assert_eq!(cstr.get(3).unwrap(), b'\0');
}

#[test]
fn test_static_index_range() {
    let buf = b"abc\0";
    let cstr = StaticU8CStr::<4>::try_from_slice(buf).unwrap();
    let abc = U8CStr::try_from_slice(b"abc\0").unwrap();
    let tmp = cstr.range(0);
    assert_eq!(tmp.len_with_nul_usize(), 4);
    assert_eq!(tmp.capacity_usize(), 4);
    assert_eq!(tmp.len_usize(), 3);
    assert_eq!(tmp, abc);
    let abc = U8CStr::try_from_slice(b"bc\0").unwrap();
    let tmp = cstr.range(1);
    assert_eq!(tmp.len_with_nul_usize(), 3);
    assert_eq!(tmp.capacity_usize(), 3);
    assert_eq!(tmp.len_usize(), 2);
    assert_eq!(tmp, abc);
    let abc = U8CStr::try_from_slice(b"c\0").unwrap();
    let tmp = cstr.range(2);
    assert_eq!(tmp.len_with_nul_usize(), 2);
    assert_eq!(tmp.capacity_usize(), 2);
    assert_eq!(tmp.len_usize(), 1);
    assert_eq!(tmp, abc);
    let abc = U8CStr::try_from_slice(b"\0").unwrap();
    let tmp = cstr.range(3);
    assert_eq!(tmp.len_with_nul_usize(), 1);
    assert_eq!(tmp.capacity_usize(), 1);
    assert_eq!(tmp.len_usize(), 0);
    assert_eq!(tmp, abc);
}
