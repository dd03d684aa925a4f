use cutils::ignore::ResultIgnoreExt;
use cutils::scanner::{length_as_u16_or_panic, length_as_u32_or_panic, length_as_u8_or_panic};
use cutils::writes::io::Write16;
use cutils::{StaticU32CStr, StaticU8CStr, StrError, U8CStr, U8CString, WriteError};

#[test]
fn length_is_first_zero_offset() {
    // The logical length of a view over a terminated buffer is the offset
    // of the buffer's first zero.
    let buf = *b"hello\0world\0";
    let cstr = U8CStr::try_from_slice(&buf).unwrap();
    assert_eq!(cstr.len_usize(), 5);
    let buf = *b"\0garbage\0";
    let cstr = U8CStr::try_from_slice(&buf).unwrap();
    assert_eq!(cstr.len_usize(), 0);
}

#[test]
fn refresh_idempotent() {
    let mut s = U8CString::encode("abc").unwrap();
    let first = s.refresh();
    let second = s.refresh();
    assert_eq!(first, 3);
    assert_eq!(second, first);
    assert_eq!(s.as_slice_with_nul(), b"abc\0");
}

#[test]
fn equality_ignores_slack() {
    // Same logical content, different capacities, different trailing
    // garbage past the terminator.
    let a = StaticU8CStr::<5>::try_from_slice(b"ab\0XY").unwrap();
    let b = StaticU8CStr::<7>::try_from_slice(b"ab\0QRST").unwrap();
    assert_eq!(a, b);
    assert_eq!(b, a);
    let c = StaticU8CStr::<5>::try_from_slice(b"ac\0XY").unwrap();
    assert_ne!(a, c);
}

#[test]
fn truncating_write_short_count() {
    // Writing more than the remaining capacity writes exactly up to the
    // boundary, terminates, and reports a short count of source bytes.
    let mut s = StaticU8CStr::<4>::encode("a").unwrap();
    let written = s.write(b"bcdef").unwrap();
    assert_eq!(written, 3);
    assert_eq!(s.len_usize(), 4);
    assert_eq!(s.as_slice(), b"abcd");
    assert_eq!(s.as_slice_full(), b"abcd");
}

#[test]
fn overflow_write_zero() {
    // A write into a full buffer reports zero bytes and write_all reports
    // the write-zero error; existing content is untouched.
    let mut s = StaticU8CStr::<3>::encode("abc").unwrap();
    assert_eq!(s.write(b"x").unwrap(), 0);
    assert!(matches!(s.write_all(b"x"), Err(WriteError::WriteZero)));
    assert_eq!(s.as_slice(), b"abc");
}

#[test]
fn static_from_bytes_index_and_subview() {
    let s = StaticU8CStr::<4>::try_from_slice(b"abc\0").unwrap();
    assert_eq!(s.get(0).unwrap(), b'a');
    assert_eq!(s.get(1).unwrap(), b'b');
    assert_eq!(s.get(2).unwrap(), b'c');
    assert_eq!(s.get(3).unwrap(), 0);
    let sub = s.range(1);
    assert_eq!(sub.capacity_usize(), 3);
    assert_eq!(sub.len_usize(), 2);
    assert_eq!(sub.as_slice(), b"bc");
}

#[test]
fn owned_sequential_writes_append() {
    let mut s = U8CString::new();
    s.write_all(b"abc").unwrap();
    s.write_all(b"def").unwrap();
    assert_eq!(s.as_slice(), b"abcdef");
    assert_eq!(s.decode().unwrap(), "abcdef");
}

#[test]
fn encode_width_scenario() {
    // A scalar above 0xFF cannot enter the 8-bit width, while the same
    // text encodes at the 32-bit width.
    assert!(StaticU8CStr::<8>::encode("a\u{20ac}").is_none());
    assert!(U8CString::encode("a\u{20ac}").is_none());
    let wide = StaticU32CStr::<8>::encode("a\u{20ac}").unwrap();
    assert_eq!(wide.as_slice(), &[0x61, 0x20AC]);
}

#[test]
fn nul_not_found_errors() {
    assert_eq!(U8CStr::try_from_slice(b"abc").unwrap_err(), StrError::NulNotFound);
    assert_eq!(StaticU8CStr::<8>::try_from_slice(b"abc").unwrap_err(), StrError::NulNotFound);
    // Too long for the capacity even though terminated.
    assert_eq!(StaticU8CStr::<2>::try_from_slice(b"abc\0").unwrap_err(), StrError::NulNotFound);
    assert_eq!(StrError::NulNotFound.message(), "Nul-terminator was not found in source");
}

#[test]
fn unrepresentable_write_error() {
    let buf = *b"xxxxxxx\0";
    let mut cstr = U8CStr::try_from_slice(&buf).unwrap();
    assert!(matches!(cstr.write_str("\u{20ac}"), Err(WriteError::Unrepresentable)));
    // Nothing was written.
    assert_eq!(cstr.as_slice(), b"xxxxxxx");
    let mut s = U8CString::new();
    assert!(matches!(s.write_all("\u{20ac}".as_bytes()), Err(WriteError::Unrepresentable)));
}

#[test]
fn encode_truncate_variants() {
    let s = StaticU8CStr::<3>::encode_truncate("abcdef").unwrap();
    assert_eq!(s.as_slice(), b"abc");
    let s = StaticU32CStr::<3>::encode_truncate("abcdef");
    assert_eq!(s.as_slice(), &[0x61, 0x62, 0x63]);
    // Within capacity nothing is dropped.
    let s = StaticU8CStr::<8>::encode_truncate("abc").unwrap();
    assert_eq!(s.as_slice(), b"abc");
}

#[test]
fn subview_past_end_anchors_at_terminator() {
    let buf = *b"ab\0";
    let cstr = U8CStr::try_from_slice(&buf).unwrap();
    let sub = cstr.range(10);
    assert_eq!(sub.len_usize(), 0);
    assert_eq!(sub.capacity_usize(), 0);
    assert_eq!(sub.as_slice_with_nul(), b"\0");
}

#[test]
fn try_into_static_roundtrip() {
    let buf = *b"abc\0";
    let cstr = U8CStr::try_from_slice(&buf).unwrap();
    let fixed: cutils::StaticU8CStr<5> = cstr.try_into_static().unwrap();
    assert_eq!(fixed.as_slice(), b"abc");
    let too_small: Result<cutils::StaticU8CStr<2>, _> = cstr.try_into_static();
    assert_eq!(too_small.unwrap_err(), StrError::NulNotFound);
}

#[test]
fn ignore_collapses_result() {
    let ok: Result<u32, u32> = Ok(3);
    let err: Result<u32, u32> = Err(7);
    assert_eq!(ok.ignore(), 3);
    assert_eq!(err.ignore(), 7);
}

#[test]
fn owned_reserve_and_capacity() {
    let mut s = U8CString::with_capacity(4);
    assert_eq!(s.capacity_usize(), 4);
    s.write_all(b"ab").unwrap();
    s.reserve(10);
    assert!(s.capacity_usize() >= 9);
    assert_eq!(s.as_slice(), b"ab");
}

#[test]
fn size_and_length_accessors() {
    let buf = *b"abc\0";
    let cstr = U8CStr::try_from_slice(&buf).unwrap();
    assert_eq!(cstr.len_usize(), 3);
    assert_eq!(cstr.len_dword(), 3);
    assert_eq!(cstr.len_with_nul_usize(), 4);
    assert_eq!(cstr.len_with_nul_dword(), 4);
    assert_eq!(cstr.capacity_usize(), 3);
    assert_eq!(cstr.sizeof_usize(), 4);
    assert!(!cstr.is_empty());
    let s16 = cutils::StaticU16CStr::<6>::encode("ab").unwrap();
    assert_eq!(s16.sizeof_usize(), 6);
    assert_eq!(s16.capacity_usize(), 6);
    assert_eq!(s16.len_dword(), 2);
}

#[test]
fn checked_scan_constructor() {
    // The scan stops at the first zero within the bound; slack past it is
    // not copied.
    let data = [0x61u8, 0x62, 0, 0x63, 0];
    let v = U8CStr::from_slice_n(&data, 4).unwrap();
    assert_eq!(v.as_backing(), b"ab\0");
    assert_eq!(v.len_usize(), 2);
    // No zero within the bound fails, even though one exists past it.
    let data = [0x61u8, 0x62, 0x63, 0];
    assert_eq!(U8CStr::from_slice_n(&data, 3).unwrap_err(), StrError::NulNotFound);
    assert!(U8CStr::from_slice_n(&data, 9).is_ok());
}

#[test]
fn view_to_owned_copy() {
    let buf = *b"ab\0cd\0";
    let v = U8CStr::try_from_slice(&buf).unwrap();
    let owned = U8CString::from_cstr(&v);
    assert_eq!(owned.as_slice(), b"ab");
    assert_eq!(owned.as_slice_full(), b"ab\0cd\0");
}

#[test]
fn bounded_mutation_protects_terminator() {
    let buf = *b"abc\0";
    let mut cstr = U8CStr::try_from_slice(&buf).unwrap();
    // In-range slots can change; the final slot cannot.
    assert!(cstr.set(0, b'z'));
    assert_eq!(cstr.as_slice(), b"zbc");
    assert!(!cstr.set(3, b'x'));
    assert_eq!(cstr.as_backing(), *b"zbc\0");
    let mut s = StaticU8CStr::<3>::encode("ab").unwrap();
    assert!(s.set(2, b'c'));
    assert_eq!(s.as_slice(), b"abc");
    assert!(!s.set(3, b'x'));
}

#[test]
fn default_instances_are_empty() {
    let s: StaticU8CStr<4> = Default::default();
    assert!(s.is_empty());
    assert_eq!(s.as_slice_full(), b"\0\0\0\0");
    let o: U8CString = Default::default();
    assert!(o.is_empty());
    assert_eq!(o.as_slice_with_nul(), b"\0");
}

#[test]
fn static_write_str_appends_whole_text() {
    let mut s = StaticU8CStr::<8>::encode("ab").unwrap();
    s.write_str("cd").unwrap();
    assert_eq!(s.as_slice(), b"abcd");
    // All-or-nothing: a text past the remaining capacity is refused whole.
    assert!(matches!(s.write_str("efghijk"), Err(WriteError::WriteZero)));
    assert_eq!(s.as_slice(), b"abcd");
}

#[test]
fn writes_preserve_reserved_room() {
    // Room made by with_capacity or reserve survives writes: the buffer is
    // zero-filled back up to its former length, never shrunk.
    let mut s = U8CString::with_capacity(8);
    s.write_all(b"ab").unwrap();
    assert_eq!(s.capacity_usize(), 8);
    assert_eq!(s.as_slice_full(), b"ab\0\0\0\0\0\0\0");
    s.reserve(12);
    s.write_all(b"cd").unwrap();
    assert_eq!(s.capacity_usize(), 11);
    assert_eq!(s.as_slice(), b"abcd");
}

#[test]
fn counted_lengths_for_prechecked_text() {
    assert_eq!(length_as_u8_or_panic("caf\u{e9}".as_bytes()), 4);
    assert_eq!(length_as_u16_or_panic("a\u{20ac}".as_bytes()), 2);
    assert_eq!(length_as_u32_or_panic("a\u{1d11e}".as_bytes()), 2);
}

#[test]
fn failed_all_write_keeps_fitting_prefix() {
    // The prefix that fit was written and the window consumed past it; the
    // failure is the write-zero kind.
    let buf = [0u16; 4];
    let mut s = cutils::U16CStr::try_from_slice(&buf).unwrap();
    assert!(matches!(
        s.write16_all(&[1, 2, 3, 4, 5]),
        Err(cutils::WriteError::WriteZero)
    ));
    assert_eq!(s.as_backing(), &[1, 2, 3, 0]);
    assert_eq!(s.as_slice_full(), &[0]);
}
