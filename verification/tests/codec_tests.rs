use cutils::codec::{decode_u16, decode_u32, decode_u8, encode_u16, encode_u32, encode_u8};
use cutils::scanner::{
    check_is_valid_utf8, length_as_u16, length_as_u32, length_as_u8, length_as_utf16,
    length_as_utf8, next_code_point,
};

#[test]
fn roundtrip_u8() {
    let encoded = encode_u8("caf\u{e9}").unwrap();
    assert_eq!(encoded, vec![0x63, 0x61, 0x66, 0xE9]);
    assert_eq!(decode_u8(&encoded).unwrap(), "caf\u{e9}");
}

#[test]
fn roundtrip_u16() {
    let encoded = encode_u16("a\u{20ac}").unwrap();
    assert_eq!(encoded, vec![0x61, 0x20AC]);
    assert_eq!(decode_u16(&encoded).unwrap(), "a\u{20ac}");
}

#[test]
fn roundtrip_u32() {
    let encoded = encode_u32("a\u{1d11e}");
    assert_eq!(encoded, vec![0x61, 0x1D11E]);
    assert_eq!(decode_u32(&encoded).unwrap(), "a\u{1d11e}");
}

#[test]
fn encode_width_rejection() {
    // A scalar above 0xFF fails the 8-bit width but not the 32-bit one.
    assert!(encode_u8("\u{20ac}").is_none());
    assert_eq!(encode_u32("\u{20ac}"), vec![0x20AC]);
    // A scalar above 0xFFFF fails the 16-bit width.
    assert!(encode_u16("\u{1d11e}").is_none());
}

#[test]
fn decode_width_rejection() {
    // An unpaired surrogate half is not a legal scalar.
    assert!(decode_u16(&[0xD800]).is_none());
    assert!(decode_u32(&[0xD800]).is_none());
    // A value past the scalar range is rejected at the 32-bit width.
    assert!(decode_u32(&[0x110000]).is_none());
    // Every byte value is a legal scalar at the 8-bit width.
    assert_eq!(decode_u8(&[0x00, 0xFF]).unwrap(), "\u{0}\u{ff}");
}

#[test]
fn utf8_validation() {
    assert!(check_is_valid_utf8(b"abc").is_ok());
    assert!(check_is_valid_utf8("caf\u{e9}\u{20ac}\u{1d11e}".as_bytes()).is_ok());
    // A lone continuation byte fails immediately.
    assert_eq!(check_is_valid_utf8(&[0x80]).unwrap_err(), 0);
    // The valid prefix length is reported on failure.
    assert_eq!(check_is_valid_utf8(&[b'a', b'b', 0xC3]).unwrap_err(), 2);
    // An overlong 2-byte encoding is rejected.
    assert_eq!(check_is_valid_utf8(&[0xC0, 0x80]).unwrap_err(), 0);
    // A surrogate half encoded as 3 bytes is rejected.
    assert_eq!(check_is_valid_utf8(&[0xED, 0xA0, 0x80]).unwrap_err(), 0);
}

#[test]
fn scanner_steps() {
    let bytes = "a\u{e9}\u{20ac}\u{1d11e}".as_bytes();
    let (cp, next) = next_code_point(bytes, 0).unwrap();
    assert_eq!((cp, next), (0x61, 1));
    let (cp, next) = next_code_point(bytes, next).unwrap();
    assert_eq!((cp, next), (0xE9, 3));
    let (cp, next) = next_code_point(bytes, next).unwrap();
    assert_eq!((cp, next), (0x20AC, 6));
    let (cp, next) = next_code_point(bytes, next).unwrap();
    assert_eq!((cp, next), (0x1D11E, 10));
    assert!(next_code_point(bytes, next).is_none());
}

#[test]
fn length_counting() {
    let text = "a\u{e9}\u{20ac}\u{1d11e}";
    assert_eq!(length_as_utf8(text.as_bytes()), 10);
    assert_eq!(length_as_u32(text.as_bytes()), Ok(4));
    // The musical symbol needs a surrogate pair in UTF-16.
    assert_eq!(length_as_utf16(text.as_bytes()), 5);
    // Counting stops at the first scalar that does not fit the width.
    assert_eq!(length_as_u8("ab\u{20ac}cd".as_bytes()), Err(2));
    assert_eq!(length_as_u8("caf\u{e9}".as_bytes()), Ok(4));
    assert_eq!(length_as_u16("a\u{20ac}".as_bytes()), Ok(2));
    assert_eq!(length_as_u16("a\u{1d11e}".as_bytes()), Err(1));
}
