//! Lossless conversion between the host Unicode string and sequences of
//! fixed-width code units.
//!
//! Encoding maps each scalar value of the text to one code unit of the
//! target width and fails outright when any scalar exceeds the width's
//! maximum; the 32-bit width cannot fail. Decoding maps each unit back to a
//! scalar value and fails when any unit is not a legal scalar (a surrogate
//! half or an out-of-range value).

use vstd::prelude::*;
use vstd::utf8::is_scalar;
use crate::unit::{CodeUnit, unit_vals};

verus! {

/// The scalar values of a text, one `u32` per character.
pub open spec fn units_of_chars(t: Seq<char>) -> Seq<u32> {
    t.map_values(|c: char| c as u32)
}

/// The characters denoted by a sequence of scalar values; meaningful when
/// every value is a legal scalar.
pub open spec fn chars_of_units(s: Seq<u32>) -> Seq<char> {
    s.map_values(|v: u32| v as char)
}

/// True when every scalar value of the text fits `max`, i.e. the text is
/// encodable at the width whose largest unit value is `max`.
pub open spec fn encodable(t: Seq<char>, max: u32) -> bool {
    forall|i: int| 0 <= i < t.len() ==> (#[trigger] t[i] as u32) <= max
}

/// True when every value in the sequence is a legal Unicode scalar, i.e. the
/// sequence is decodable back to text.
pub open spec fn decodable(s: Seq<u32>) -> bool {
    forall|i: int| 0 <= i < s.len() ==> is_scalar(#[trigger] s[i])
}

/// Relies on `char::from_u32` of std: returns `Some` exactly for legal
/// Unicode scalar values (at most `0x10FFFF` and not a surrogate half), and
/// the returned character denotes that value.
pub assume_specification[ char::from_u32 ](v: u32) -> (r: Option<char>)
    ensures
        r is Some <==> is_scalar(v),
        r matches Some(c) ==> c as u32 == v,
;

/// Relies on `String::push` of std: appends the given character to the end
/// of the string.
pub assume_specification[ String::push ](s: &mut String, c: char)
    ensures
        final(s)@ == old(s)@.push(c),
;

/// Law: encoding and decoding are mutually inverse on every encodable text.
/// A text's scalar values are always decodable, and decoding them yields the
/// text back; with the contracts of the `encode` and `decode` functions this
/// says `decode(encode(t)) == Some(t)` for every text `t` encodable at the
/// given width.
pub proof fn law_encode_decode_roundtrip(t: Seq<char>, max: u32)
    requires
        encodable(t, max),
    ensures
        decodable(units_of_chars(t)),
        chars_of_units(units_of_chars(t)) == t,
{
    assert forall|i: int| 0 <= i < t.len() implies is_scalar(
        #[trigger] units_of_chars(t)[i],
    ) by {
        vstd::utf8::char_is_scalar(t[i]);
    }
    assert forall|i: int| 0 <= i < t.len() implies chars_of_units(units_of_chars(t))[i]
        == t[i] by {
        vstd::utf8::char_u32_cast(t[i], t[i] as u32);
    }
    assert(chars_of_units(units_of_chars(t)) =~= t);
}

/// Law: width rejection. A text holding any scalar above a width's maximum
/// is not encodable at that width, while every text is encodable at the
/// 32-bit width; with the contracts of the `encode` functions this says the
/// narrow encode fails on such a text and the 32-bit encode succeeds.
pub proof fn law_width_rejection(t: Seq<char>, max: u32)
    requires
        exists|i: int| 0 <= i < t.len() && (#[trigger] t[i] as u32) > max,
    ensures
        !encodable(t, max),
        encodable(t, 0xFFFFFFFF),
{
}

/// Encodes text into code units of width `U`: one unit per scalar value.
/// Fails exactly when some scalar exceeds the width's maximum; on success
/// the units are the text's scalar values, in order.
pub fn encode_units<U: CodeUnit>(utf8: &str) -> (r: Option<Vec<U>>)
    ensures
        r is Some <==> encodable(utf8@, U::max_val()),
        r matches Some(v) ==> unit_vals(v@) == units_of_chars(utf8@),
{
    let n = utf8.unicode_len();
    let maxv = U::max_value();
    let mut out: Vec<U> = Vec::new();
    let mut i: usize = 0;
    while i < n
        invariant
            n == utf8@.len(),
            maxv == U::max_val(),
            i <= n,
            out@.len() == i,
            forall|j: int| 0 <= j < i ==> (#[trigger] utf8@[j] as u32) <= U::max_val(),
            forall|j: int| 0 <= j < i ==> (#[trigger] out@[j]).val() == utf8@[j] as u32,
        decreases n - i,
    {
        let c = utf8.get_char(i);
        let cv = c as u32;
        if cv > maxv {
            return None;
        }
        out.push(U::of_u32(cv));
        i = i + 1;
    }
    assert(unit_vals(out@) =~= units_of_chars(utf8@));
    Some(out)
}

/// Decodes a sequence of code units back to text: one character per unit.
/// Fails exactly when some unit's value is not a legal scalar; on success
/// the text's characters denote the units' values, in order.
pub fn decode_units<U: CodeUnit>(data: &[U]) -> (r: Option<String>)
    ensures
        r is Some <==> decodable(unit_vals(data@)),
        r matches Some(s) ==> s@ == chars_of_units(unit_vals(data@)),
{
    let n = data.len();
    let mut out = String::new();
    let mut i: usize = 0;
    while i < n
        invariant
            n == data@.len(),
            i <= n,
            out@.len() == i,
            forall|j: int| 0 <= j < i ==> is_scalar(#[trigger] unit_vals(data@)[j]),
            forall|j: int| 0 <= j < i ==> out@[j] == (unit_vals(data@)[j] as char),
        decreases n - i,
    {
        let u = data[i];
        let v = u.to_u32();
        match char::from_u32(v) {
            None => {
                assert(!is_scalar(unit_vals(data@)[i as int]));
                return None;
            },
            Some(c) => {
                out.push(c);
                // A legal scalar's value round-trips through `char`.
                proof {
                    vstd::utf8::char_u32_cast(c, v);
                }
                assert(c == (v as char));
            },
        }
        i = i + 1;
    }
    assert(out@ =~= chars_of_units(unit_vals(data@)));
    Some(out)
}

/// Encodes text at the 8-bit width. Fails exactly when some scalar exceeds
/// `0xFF`.
pub fn encode_u8(utf8: &str) -> (r: Option<Vec<u8>>)
    ensures
        r is Some <==> encodable(utf8@, 0xFF),
        r matches Some(v) ==> unit_vals(v@) == units_of_chars(utf8@),
{
    encode_units(utf8)
}

/// Encodes text at the 16-bit width. Fails exactly when some scalar exceeds
/// `0xFFFF`.
pub fn encode_u16(utf8: &str) -> (r: Option<Vec<u16>>)
    ensures
        r is Some <==> encodable(utf8@, 0xFFFF),
        r matches Some(v) ==> unit_vals(v@) == units_of_chars(utf8@),
{
    encode_units(utf8)
}

/// Encodes text at the 32-bit width. Every scalar value fits, so this never
/// fails.
pub fn encode_u32(utf8: &str) -> (r: Vec<u32>)
    ensures
        unit_vals(r@) == units_of_chars(utf8@),
{
    let r = encode_units::<u32>(utf8);
    match r {
        Some(v) => v,
        None => {
            // Unreachable: every scalar fits 32 bits.
            proof {
                assert(encodable(utf8@, 0xFFFFFFFF));
            }
            Vec::new()
        },
    }
}

/// Decodes 8-bit units to text. Every byte value is a legal scalar, so this
/// never fails.
pub fn decode_u8(data: &[u8]) -> (r: Option<String>)
    ensures
        r is Some,
        r matches Some(s) ==> s@ == chars_of_units(unit_vals(data@)),
{
    let r = decode_units(data);
    proof {
        assert forall|j: int| 0 <= j < data@.len() implies is_scalar(
            #[trigger] unit_vals(data@)[j],
        ) by {
            assert(unit_vals(data@)[j] == data@[j] as u32);
        }
    }
    r
}

/// Decodes 16-bit units to text. Fails exactly when some unit is a
/// surrogate half.
pub fn decode_u16(data: &[u16]) -> (r: Option<String>)
    ensures
        r is Some <==> decodable(unit_vals(data@)),
        r matches Some(s) ==> s@ == chars_of_units(unit_vals(data@)),
{
    decode_units(data)
}

/// Transcodes the leading scalars of the valid UTF-8 `bytes` into at most
/// `max_units` code units of width `U`: as many whole scalars as both fit
/// the unit budget and exist. Fails, producing nothing, exactly when one of
/// those scalars exceeds the width's maximum. On success returns the units
/// together with the number of source bytes consumed.
pub fn transcode_units<U: CodeUnit>(bytes: &[u8], max_units: usize) -> (r: Result<
    (Vec<U>, usize),
    crate::WriteError,
>)
    requires
        vstd::utf8::valid_utf8(bytes@),
    ensures
        ({
            let chars = vstd::utf8::decode_utf8(bytes@);
            let k = if chars.len() <= max_units {
                chars.len() as int
            } else {
                max_units as int
            };
            let taken = chars.take(k);
            match r {
                Ok(p) => {
                    &&& crate::scanner::prefix_fitting(taken, U::max_val()) == k
                    &&& p.0@.len() == k
                    &&& unit_vals(p.0@) == units_of_chars(taken)
                    &&& p.1 <= bytes@.len()
                    &&& vstd::utf8::is_char_boundary(bytes@, p.1 as int)
                    &&& vstd::utf8::decode_utf8(bytes@.take(p.1 as int)) == taken
                },
                Err(e) => {
                    &&& e == crate::WriteError::Unrepresentable
                    &&& crate::scanner::prefix_fitting(taken, U::max_val()) < k
                },
            }
        }),
{
    let ghost s = bytes@;
    let ghost chars = vstd::utf8::decode_utf8(s);
    let ghost k: int = if chars.len() <= max_units {
        chars.len() as int
    } else {
        max_units as int
    };
    proof {
        crate::scanner::lemma_decode_len(s);
        vstd::utf8::is_char_boundary_start_end_of_seq(s);
    }
    let maxv = U::max_value();
    let mut out: Vec<U> = Vec::new();
    let mut pos: usize = 0;
    let mut count: usize = 0;
    loop
        invariant
            vstd::utf8::valid_utf8(s),
            s == bytes@,
            chars == vstd::utf8::decode_utf8(s),
            k == if chars.len() <= max_units {
                chars.len() as int
            } else {
                max_units as int
            },
            maxv == U::max_val(),
            pos <= s.len(),
            count <= max_units,
            count <= pos,
            vstd::utf8::is_char_boundary(s, pos as int),
            vstd::utf8::decode_utf8(s.take(pos as int)) =~= chars.take(count as int),
            count == vstd::utf8::decode_utf8(s.take(pos as int)).len(),
            out@.len() == count,
            unit_vals(out@) =~= units_of_chars(chars.take(count as int)),
            forall|i: int| 0 <= i < count ==> (#[trigger] chars[i] as u32) <= U::max_val(),
        decreases s.len() - pos,
    {
        proof {
            if pos < s.len() {
                crate::scanner::lemma_decode_step(s, pos as int);
            } else {
                assert(s.take(pos as int) =~= s);
            }
        }
        if count == max_units {
            proof {
                assert(count == k);
                crate::scanner::lemma_prefix_fitting_exact(
                    chars.take(k),
                    U::max_val(),
                    k,
                );
            }
            return Ok((out, pos));
        }
        match crate::scanner::next_code_point(bytes, pos) {
            None => {
                proof {
                    assert(count == chars.len() && count == k);
                    crate::scanner::lemma_prefix_fitting_exact(
                        chars.take(k),
                        U::max_val(),
                        k,
                    );
                }
                return Ok((out, pos));
            },
            Some((cp, next)) => {
                let ghost rest = s.skip(pos as int);
                proof {
                    crate::scanner::lemma_scalar_width_bounds(rest);
                    assert(chars[count as int] == vstd::utf8::decode_first_scalar(rest) as char);
                    assert(!(0xD800 <= cp <= 0xDFFF) && cp <= 0x10FFFF);
                    assert((chars[count as int] as u32) == cp);
                }
                if cp > maxv {
                    proof {
                        assert(count < k && chars.take(k)[count as int] == chars[count as int]);
                        crate::scanner::lemma_prefix_fitting_exact(
                            chars.take(k),
                            U::max_val(),
                            count as int,
                        );
                    }
                    return Err(crate::WriteError::Unrepresentable);
                }
                let u = U::of_u32(cp);
                let ghost prev = out@;
                out.push(u);
                proof {
                    assert(vstd::utf8::decode_utf8(s.take(next as int)) =~= chars.take(
                        count + 1,
                    )) by {
                        assert(vstd::utf8::decode_utf8(s.take(pos as int)).push(
                            chars[count as int],
                        ) =~= chars.take(count + 1));
                    }
                    assert(out@ == prev.push(u));
                    assert forall|j: int| 0 <= j < count + 1 implies unit_vals(out@)[j]
                        == units_of_chars(chars.take(count + 1))[j] by {
                        if j < count {
                            assert(out@[j] == prev[j]);
                            assert(unit_vals(prev)[j] == prev[j].val());
                            assert(unit_vals(prev)[j] == units_of_chars(chars.take(count as int))[j]);
                        } else {
                            assert(out@[j] == u);
                        }
                    }
                    assert(unit_vals(out@) =~= units_of_chars(chars.take(count + 1)));
                }
                pos = next;
                count = count + 1;
            },
        }
    }
}

/// Decodes 32-bit units to text. Fails exactly when some unit is above
/// `0x10FFFF` or is a surrogate half.
pub fn decode_u32(data: &[u32]) -> (r: Option<String>)
    ensures
        r is Some <==> decodable(unit_vals(data@)),
        r matches Some(s) ==> s@ == chars_of_units(unit_vals(data@)),
{
    decode_units(data)
}

} // verus!
