//! The code-point scanner: steps through a UTF-8 byte sequence one scalar
//! value at a time, validates byte sequences, and counts how many code units
//! a text needs at each fixed width.
//!
//! The scanner is a pure, restartable stepping function over a byte slice and
//! a position, not a stateful iterator. Behaviour is specified against the
//! UTF-8 model of `vstd::utf8`.

use vstd::prelude::*;
use vstd::utf8::*;

verus! {

/// Number of leading scalars of `chars` whose value fits `max`; equals
/// `chars.len()` when every scalar fits.
pub open spec fn prefix_fitting(chars: Seq<char>, max: u32) -> int
    decreases chars.len(),
{
    if chars.len() == 0 {
        0
    } else if (chars[0] as u32) > max {
        0
    } else {
        1 + prefix_fitting(chars.drop_first(), max)
    }
}

/// Basic facts about `prefix_fitting`: it is in bounds, it stops at the
/// first scalar that does not fit, and everything before it fits.
pub broadcast proof fn lemma_prefix_fitting(chars: Seq<char>, max: u32)
    ensures
        0 <= #[trigger] prefix_fitting(chars, max) <= chars.len(),
        prefix_fitting(chars, max) < chars.len() ==> (chars[prefix_fitting(chars, max)] as u32)
            > max,
        forall|i: int| 0 <= i < prefix_fitting(chars, max) ==> (chars[i] as u32) <= max,
    decreases chars.len(),
{
    if chars.len() == 0 {
    } else if (chars[0] as u32) > max {
    } else {
        lemma_prefix_fitting(chars.drop_first(), max);
        assert forall|i: int| 0 <= i < prefix_fitting(chars, max) implies (chars[i] as u32)
            <= max by {
            if i > 0 {
                assert((chars.drop_first()[i - 1] as u32) <= max);
            }
        }
    }
}

/// `prefix_fitting` is pinned by a witness: if the first `n` scalars fit and
/// the one at `n` (when there is one) does not, the count is exactly `n`.
pub proof fn lemma_prefix_fitting_exact(chars: Seq<char>, max: u32, n: int)
    requires
        0 <= n <= chars.len(),
        forall|i: int| 0 <= i < n ==> (chars[i] as u32) <= max,
        n < chars.len() ==> (chars[n] as u32) > max,
    ensures
        prefix_fitting(chars, max) == n,
    decreases chars.len(),
{
    if chars.len() == 0 {
    } else if n == 0 {
        if (chars[0] as u32) <= max {
            lemma_prefix_fitting(chars.drop_first(), max);
        }
    } else {
        lemma_prefix_fitting_exact(chars.drop_first(), max, n - 1);
    }
}

/// Number of 16-bit units the UTF-16 form of `chars` takes: one unit for
/// scalars below `0x10000`, two (a surrogate pair) for the rest.
pub open spec fn utf16_length(chars: Seq<char>) -> int
    decreases chars.len(),
{
    if chars.len() == 0 {
        0
    } else {
        (if (chars[0] as u32) < 0x10000 {
            1int
        } else {
            2int
        }) + utf16_length(chars.drop_first())
    }
}

/// `utf16_length` grows by the weight of the scalar appended.
pub proof fn lemma_utf16_length_push(chars: Seq<char>, c: char)
    ensures
        utf16_length(chars.push(c)) == utf16_length(chars) + (
        if (c as u32) < 0x10000 {
            1int
        } else {
            2int
        }),
    decreases chars.len(),
{
    if chars.len() == 0 {
        assert(chars.push(c).drop_first() =~= chars);
    } else {
        assert(chars.push(c).drop_first() =~= chars.drop_first().push(c));
        lemma_utf16_length_push(chars.drop_first(), c);
    }
}

/// A decoded sequence is never longer than the bytes it came from.
pub proof fn lemma_decode_len(s: Seq<u8>)
    requires
        valid_utf8(s),
    ensures
        decode_utf8(s).len() <= s.len(),
    decreases s.len(),
{
    if s.len() != 0 {
        lemma_decode_len(pop_first_scalar(s));
    }
}

/// Width bounds of a single scalar encoding: short encodings carry small
/// scalars, and every scalar is at most `0x10FFFF`.
pub proof fn lemma_scalar_width_bounds(rest: Seq<u8>)
    requires
        valid_first_scalar(rest),
    ensures
        1 <= length_of_first_scalar(rest) <= 4,
        length_of_first_scalar(rest) <= rest.len(),
        length_of_first_scalar(rest) == 1 ==> decode_first_scalar(rest) <= 0x7F,
        length_of_first_scalar(rest) == 2 ==> decode_first_scalar(rest) <= 0x7FF,
        length_of_first_scalar(rest) == 3 ==> decode_first_scalar(rest) <= 0xFFFF,
        decode_first_scalar(rest) <= 0x10FFFF,
{
    let b0 = rest[0];
    if is_leading_byte_width_1(b0) {
        assert(codepoint_width_1(b0) <= 0x7F) by (bit_vector);
    } else if is_leading_byte_width_2(b0) {
        let b1 = rest[1];
        assert(codepoint_width_2(b0, b1) <= 0x7FF) by (bit_vector);
    } else if is_leading_byte_width_3(b0) {
        let b1 = rest[1];
        let b2 = rest[2];
        assert(codepoint_width_3(b0, b1, b2) <= 0xFFFF) by (bit_vector);
    } else {
    }
}

/// Stepping facts used by every scan loop: from a character boundary inside a
/// valid sequence, the suffix starts with a well-formed scalar, the next
/// boundary lies one encoding further, and the decoded prefix grows by
/// exactly that scalar.
pub proof fn lemma_decode_step(s: Seq<u8>, pos: int)
    requires
        valid_utf8(s),
        is_char_boundary(s, pos),
        0 <= pos < s.len(),
    ensures
        ({
            let rest = s.skip(pos);
            let l = length_of_first_scalar(rest);
            let c = decode_first_scalar(rest) as char;
            &&& valid_first_scalar(rest)
            &&& 1 <= l && pos + l <= s.len()
            &&& is_char_boundary(s, pos + l)
            &&& decode_utf8(s.take(pos + l)) =~= decode_utf8(s.take(pos)).push(c)
            &&& decode_utf8(s) == decode_utf8(s.take(pos)) + decode_utf8(s.skip(pos))
            &&& decode_utf8(s.take(pos)).len() < decode_utf8(s).len()
            &&& decode_utf8(s)[decode_utf8(s.take(pos)).len() as int] == c
        }),
{
    broadcast use vstd::seq_lib::group_seq_lib_default;

    valid_utf8_split(s, pos);
    let rest = s.skip(pos);
    assert(rest =~= s.subrange(pos, s.len() as int));
    assert(valid_utf8(rest));
    assert(rest.len() > 0);
    assert(valid_first_scalar(rest));
    let l = length_of_first_scalar(rest);
    lemma_scalar_width_bounds(rest);
    let c = decode_first_scalar(rest) as char;

    // The next boundary.
    let rest2 = s.skip(pos + l);
    assert(rest2 =~= pop_first_scalar(rest));
    assert(valid_utf8(rest2));
    if pos + l == s.len() {
        is_char_boundary_start_end_of_seq(s);
    } else {
        assert(valid_first_scalar(rest2));
        assert(!is_continuation_byte(rest2[0]));
        assert(s[pos + l] == rest2[0]);
        is_char_boundary_iff_not_is_continuation_byte(s, pos + l);
    }
    assert(is_char_boundary(s, pos + l));

    // Decomposition of the decoded sequence at both boundaries.
    decode_utf8_split(s, pos);
    decode_utf8_split(s, pos + l);
    let a = decode_utf8(s.take(pos));
    let b = decode_utf8(s.take(pos + l));
    let x = decode_utf8(rest);
    let y = decode_utf8(rest2);
    assert(s.take(pos) =~= s.subrange(0, pos));
    assert(s.take(pos + l) =~= s.subrange(0, pos + l));
    assert(decode_utf8(s) =~= a + x);
    assert(decode_utf8(s) =~= b + y);
    assert(x =~= seq![c] + y);
    assert(a.len() + x.len() == b.len() + y.len());
    assert(b =~= a.push(c)) by {
        assert forall|i: int| 0 <= i < b.len() implies b[i] == a.push(c)[i] by {
            assert(b[i] == (b + y)[i]);
            assert((a + x)[i] == (a + (seq![c] + y))[i]);
        }
    }
    assert(decode_utf8(s)[a.len() as int] == (a + x)[a.len() as int]);
}

/// Decodes the scalar value whose encoding begins at `pos`, returning it with
/// the position just past that encoding; `None` when `pos` is at the end.
pub fn next_code_point(bytes: &[u8], pos: usize) -> (r: Option<(u32, usize)>)
    requires
        pos <= bytes@.len(),
        pos < bytes@.len() ==> valid_first_scalar(bytes@.skip(pos as int)),
    ensures
        r is Some <==> pos < bytes@.len(),
        r matches Some(p) ==> ({
            let rest = bytes@.skip(pos as int);
            &&& p.0 == decode_first_scalar(rest)
            &&& p.1 == pos + length_of_first_scalar(rest)
            &&& pos < p.1 <= bytes@.len()
        }),
{
    if pos >= bytes.len() {
        return None;
    }
    let ghost rest = bytes@.skip(pos as int);
    proof {
        lemma_scalar_width_bounds(rest);
    }
    let b0 = bytes[pos];
    assert(b0 == rest[0]);
    if b0 < 0x80 {
        Some(((b0 & 0x7F) as u32, pos + 1))
    } else if b0 < 0xE0 {
        assert(is_leading_byte_width_2(rest[0]));
        assert(rest.len() >= 2);
        let b1 = bytes[pos + 1];
        assert(b1 == rest[1]);
        let cp = (((b0 & 0x1F) as u32) << 6) | ((b1 & 0x3F) as u32);
        assert(cp == codepoint_width_2(rest[0], rest[1]));
        Some((cp, pos + 2))
    } else if b0 < 0xF0 {
        assert(is_leading_byte_width_3(rest[0]));
        assert(rest.len() >= 3);
        let b1 = bytes[pos + 1];
        let b2 = bytes[pos + 2];
        assert(b1 == rest[1] && b2 == rest[2]);
        let cp = (((b0 & 0x0F) as u32) << 12) | (((b1 & 0x3F) as u32) << 6) | ((b2
            & 0x3F) as u32);
        assert(cp == codepoint_width_3(rest[0], rest[1], rest[2]));
        Some((cp, pos + 3))
    } else {
        assert(is_leading_byte_width_4(rest[0]));
        assert(rest.len() >= 4);
        let b1 = bytes[pos + 1];
        let b2 = bytes[pos + 2];
        let b3 = bytes[pos + 3];
        assert(b1 == rest[1] && b2 == rest[2] && b3 == rest[3]);
        let cp = (((b0 & 0x07) as u32) << 18) | (((b1 & 0x3F) as u32) << 12) | (((b2
            & 0x3F) as u32) << 6) | ((b3 & 0x3F) as u32);
        assert(cp == codepoint_width_4(rest[0], rest[1], rest[2], rest[3]));
        Some((cp, pos + 4))
    }
}

/// Validates that `slice` is well-formed UTF-8. On failure the error carries
/// the length of the longest valid prefix: the scan stopped there because no
/// well-formed scalar encoding starts at that offset.
pub fn check_is_valid_utf8(slice: &[u8]) -> (r: Result<(), usize>)
    ensures
        r is Ok <==> valid_utf8(slice@),
        r matches Err(n) ==> ({
            &&& n < slice@.len()
            &&& partial_valid_utf8(slice@, n as int)
            &&& !valid_first_scalar(slice@.skip(n as int))
        }),
{
    let s_len = slice.len();
    let mut pos: usize = 0;
    while pos < s_len
        invariant
            pos <= s_len,
            s_len == slice@.len(),
            partial_valid_utf8(slice@, pos as int),
        decreases s_len - pos,
    {
        let ghost rest = slice@.skip(pos as int);
        assert(rest =~= slice@.subrange(pos as int, s_len as int));
        let b0 = slice[pos];
        assert(b0 == rest[0]);
        let width: usize;
        let cp: u32;
        if b0 < 0x80 {
            width = 1;
            cp = (b0 & 0x7F) as u32;
            assert(cp == decode_first_codepoint(rest));
        } else if b0 < 0xC2 {
            // A continuation byte, or the two leading bytes whose 2-byte
            // encodings are always overlong (0xC0, 0xC1).
            assert(!valid_first_scalar(rest)) by {
                if valid_leading_and_continuation_bytes_first_codepoint(rest) {
                    assert(is_leading_byte_width_2(rest[0]));
                    let c = codepoint_width_2(rest[0], rest[1]);
                    let r0 = rest[0];
                    let r1 = rest[1];
                    assert(codepoint_width_2(r0, r1) < 0x80) by (bit_vector)
                        requires
                            0xc0 <= r0 < 0xc2,
                    ;
                }
            }
            proof {
                invalid_suffix_invalid(slice@, pos as int);
            }
            return Err(pos);
        } else if b0 < 0xE0 {
            if s_len - pos < 2 || !is_cont(slice[pos + 1]) {
                assert(!valid_first_scalar(rest));
                proof {
                    invalid_suffix_invalid(slice@, pos as int);
                }
                return Err(pos);
            }
            let b1 = slice[pos + 1];
            assert(b1 == rest[1]);
            width = 2;
            cp = (((b0 & 0x1F) as u32) << 6) | ((b1 & 0x3F) as u32);
            assert(cp == decode_first_codepoint(rest));
            let r0 = b0;
            assert(codepoint_width_2(r0, b1) >= 0x80) by (bit_vector)
                requires
                    0xc2 <= r0 <= 0xdf,
            ;
        } else if b0 < 0xF0 {
            if s_len - pos < 3 || !is_cont(slice[pos + 1]) || !is_cont(slice[pos + 2]) {
                assert(!valid_first_scalar(rest));
                proof {
                    invalid_suffix_invalid(slice@, pos as int);
                }
                return Err(pos);
            }
            let b1 = slice[pos + 1];
            let b2 = slice[pos + 2];
            assert(b1 == rest[1] && b2 == rest[2]);
            width = 3;
            cp = (((b0 & 0x0F) as u32) << 12) | (((b1 & 0x3F) as u32) << 6) | ((b2
                & 0x3F) as u32);
            assert(cp == decode_first_codepoint(rest));
            if cp < 0x800 {
                assert(!valid_first_scalar(rest));
                proof {
                    invalid_suffix_invalid(slice@, pos as int);
                }
                return Err(pos);
            }
        } else if b0 < 0xF8 {
            if s_len - pos < 4 || !is_cont(slice[pos + 1]) || !is_cont(slice[pos + 2])
                || !is_cont(slice[pos + 3]) {
                assert(!valid_first_scalar(rest));
                proof {
                    invalid_suffix_invalid(slice@, pos as int);
                }
                return Err(pos);
            }
            let b1 = slice[pos + 1];
            let b2 = slice[pos + 2];
            let b3 = slice[pos + 3];
            assert(b1 == rest[1] && b2 == rest[2] && b3 == rest[3]);
            width = 4;
            cp = (((b0 & 0x07) as u32) << 18) | (((b1 & 0x3F) as u32) << 12) | (((b2
                & 0x3F) as u32) << 6) | ((b3 & 0x3F) as u32);
            assert(cp == decode_first_codepoint(rest));
            if cp < 0x10000 || cp > 0x10FFFF {
                assert(!valid_first_scalar(rest));
                proof {
                    invalid_suffix_invalid(slice@, pos as int);
                }
                return Err(pos);
            }
        } else {
            assert(!valid_leading_and_continuation_bytes_first_codepoint(rest));
            proof {
                invalid_suffix_invalid(slice@, pos as int);
            }
            return Err(pos);
        }
        if 0xD800 <= cp && cp <= 0xDFFF {
            assert(!valid_first_scalar(rest));
            proof {
                invalid_suffix_invalid(slice@, pos as int);
            }
            return Err(pos);
        }
        assert(valid_first_scalar(rest));
        assert(width == length_of_first_scalar(rest));
        proof {
            partial_valid_utf8_extend(slice@, pos as int);
        }
        pos = pos + width;
    }
    proof {
        assert(slice@.subrange(0, s_len as int) =~= slice@);
    }
    Ok(())
}

/// Length of the longest prefix of `bytes` that is valid UTF-8: the greedy
/// scan consumes whole scalar encodings until none starts at the front.
pub open spec fn valid_prefix_len(bytes: Seq<u8>) -> int
    decreases bytes.len(),
{
    if !valid_first_scalar(bytes) {
        0
    } else {
        let l = length_of_first_scalar(bytes);
        l + valid_prefix_len(bytes.skip(l))
    }
}

/// The prefix that `valid_prefix_len` measures is itself valid UTF-8.
pub proof fn lemma_valid_prefix_valid(bytes: Seq<u8>)
    ensures
        0 <= valid_prefix_len(bytes) <= bytes.len(),
        valid_utf8(bytes.subrange(0, valid_prefix_len(bytes))),
    decreases bytes.len(),
{
    if !valid_first_scalar(bytes) {
        assert(bytes.subrange(0, 0) =~= Seq::<u8>::empty());
    } else {
        let l = length_of_first_scalar(bytes);
        lemma_scalar_width_bounds(bytes);
        let rest = bytes.skip(l);
        lemma_valid_prefix_valid(rest);
        let head = bytes.subrange(0, l);
        assert(valid_utf8(head)) by {
            assert(valid_first_scalar(head));
            assert(pop_first_scalar(head) =~= Seq::<u8>::empty());
            reveal_with_fuel(valid_utf8, 2);
        }
        valid_utf8_concat(head, rest.subrange(0, valid_prefix_len(rest)));
        assert(head + rest.subrange(0, valid_prefix_len(rest)) =~= bytes.subrange(
            0,
            valid_prefix_len(bytes),
        ));
    }
}

/// `valid_prefix_len` is pinned by a witness: a valid prefix that cannot be
/// extended by a whole scalar encoding is the longest one.
pub proof fn lemma_valid_prefix_len_exact(bytes: Seq<u8>, n: int)
    requires
        0 <= n <= bytes.len(),
        partial_valid_utf8(bytes, n),
        n == bytes.len() || !valid_first_scalar(bytes.skip(n)),
    ensures
        valid_prefix_len(bytes) == n,
    decreases n,
{
    let pre = bytes.subrange(0, n);
    if n == 0 {
        if bytes.len() > 0 {
            assert(bytes.skip(0) =~= bytes);
            assert(!valid_first_scalar(bytes));
        }
    } else {
        assert(valid_utf8(pre));
        assert(pre.len() > 0);
        assert(valid_first_scalar(pre));
        lemma_scalar_width_bounds(pre);
        let l = length_of_first_scalar(pre);
        // The first scalar of the prefix is also the first scalar of the
        // whole sequence: the leading and continuation bytes examined lie
        // inside the prefix.
        assert(valid_first_scalar(bytes) && length_of_first_scalar(bytes) == l) by {
            assert(forall|i: int| 0 <= i < n ==> pre[i] == bytes[i]);
        }
        // Recurse past that scalar.
        let rest = bytes.skip(l);
        assert(rest.subrange(0, n - l) =~= pop_first_scalar(pre));
        assert(valid_utf8(pop_first_scalar(pre)));
        assert(partial_valid_utf8(rest, n - l));
        if n < bytes.len() {
            assert(rest.skip(n - l) =~= bytes.skip(n));
        } else {
            assert(n - l == rest.len());
        }
        lemma_valid_prefix_len_exact(rest, n - l);
    }
}

/// Guard for well-formed UTF-8: callers must establish validity up front,
/// so nothing is left for the guard to reject at runtime.
pub fn panic_on_invalid_utf8(slice: &[u8])
    requires
        valid_utf8(slice@),
{
}

/// True exactly when `b` has the form of a UTF-8 continuation byte.
fn is_cont(b: u8) -> (r: bool)
    ensures
        r <==> is_continuation_byte(b),
{
    0x80 <= b && b <= 0xBF
}

/// A sequence whose prefix up to `pos` is valid but whose suffix starts with
/// no well-formed scalar encoding is not valid UTF-8.
proof fn invalid_suffix_invalid(s: Seq<u8>, pos: int)
    requires
        partial_valid_utf8(s, pos),
        pos < s.len(),
        !valid_first_scalar(s.skip(pos)),
    ensures
        !valid_utf8(s),
{
    assert(s.skip(pos) =~= s.subrange(pos, s.len() as int));
    assert(!valid_utf8(s.subrange(pos, s.len() as int)));
    partial_valid_partial_invalid_utf8(s, pos);
}

/// Number of scalars in `bytes` when every scalar's value fits `max`;
/// otherwise the count of leading scalars that do fit, as the error.
pub fn scalar_count_fitting(bytes: &[u8], max: u32) -> (r: Result<usize, usize>)
    requires
        valid_utf8(bytes@),
    ensures
        ({
            let chars = decode_utf8(bytes@);
            let k = prefix_fitting(chars, max);
            if k == chars.len() {
                r == Ok::<usize, usize>(chars.len() as usize)
            } else {
                r == Err::<usize, usize>(k as usize)
            }
        }),
{
    let ghost s = bytes@;
    let ghost chars = decode_utf8(s);
    proof {
        lemma_decode_len(s);
        is_char_boundary_start_end_of_seq(s);
        lemma_prefix_fitting(chars, max);
    }
    let mut pos: usize = 0;
    let mut count: usize = 0;
    loop
        invariant
            valid_utf8(s),
            s == bytes@,
            chars == decode_utf8(s),
            pos <= s.len(),
            count <= pos,
            is_char_boundary(s, pos as int),
            decode_utf8(s.take(pos as int)) =~= chars.take(count as int),
            count == decode_utf8(s.take(pos as int)).len(),
            forall|i: int| 0 <= i < count ==> (chars[i] as u32) <= max,
        decreases s.len() - pos,
    {
        proof {
            if pos < s.len() {
                lemma_decode_step(s, pos as int);
            } else {
                assert(s.take(pos as int) =~= s);
            }
        }
        match next_code_point(bytes, pos) {
            None => {
                proof {
                    lemma_prefix_fitting_exact(chars, max, count as int);
                }
                return Ok(count);
            },
            Some((cp, next)) => {
                let ghost rest = s.skip(pos as int);
                proof {
                    lemma_scalar_width_bounds(rest);
                    assert(chars[count as int] == decode_first_scalar(rest) as char);
                    // A decoded scalar is a legal char value, so the cast
                    // round-trips.
                    assert(!(0xD800 <= cp <= 0xDFFF) && cp <= 0x10FFFF);
                    assert((chars[count as int] as u32) == cp);
                }
                if cp > max {
                    proof {
                        lemma_prefix_fitting_exact(chars, max, count as int);
                    }
                    return Err(count);
                }
                proof {
                    assert(decode_utf8(s.take(next as int)) =~= chars.take(count + 1)) by {
                        assert(decode_utf8(s.take(pos as int)).push(chars[count as int])
                            =~= chars.take(count + 1));
                    }
                }
                pos = next;
                count = count + 1;
            },
        }
    }
}

/// Length of `bytes` in 8-bit code units when every scalar fits eight bits,
/// else the count of leading scalars that fit, as the error.
pub fn length_as_u8(bytes: &[u8]) -> (r: Result<usize, usize>)
    requires
        valid_utf8(bytes@),
    ensures
        ({
            let chars = decode_utf8(bytes@);
            let k = prefix_fitting(chars, 0xFF);
            if k == chars.len() {
                r == Ok::<usize, usize>(chars.len() as usize)
            } else {
                r == Err::<usize, usize>(k as usize)
            }
        }),
{
    scalar_count_fitting(bytes, 0xFF)
}

/// Length of `bytes` in 16-bit code units when every scalar fits sixteen
/// bits, else the count of leading scalars that fit, as the error.
pub fn length_as_u16(bytes: &[u8]) -> (r: Result<usize, usize>)
    requires
        valid_utf8(bytes@),
    ensures
        ({
            let chars = decode_utf8(bytes@);
            let k = prefix_fitting(chars, 0xFFFF);
            if k == chars.len() {
                r == Ok::<usize, usize>(chars.len() as usize)
            } else {
                r == Err::<usize, usize>(k as usize)
            }
        }),
{
    scalar_count_fitting(bytes, 0xFFFF)
}

/// Length of `bytes` in 32-bit code units: the number of scalars. Every
/// scalar fits thirty-two bits, so this never fails.
pub fn length_as_u32(bytes: &[u8]) -> (r: Result<usize, usize>)
    requires
        valid_utf8(bytes@),
    ensures
        r == Ok::<usize, usize>(decode_utf8(bytes@).len() as usize),
{
    let r = scalar_count_fitting(bytes, 0xFFFFFFFF);
    proof {
        let chars = decode_utf8(bytes@);
        lemma_prefix_fitting(chars, 0xFFFFFFFF);
        if prefix_fitting(chars, 0xFFFFFFFF) < chars.len() {
            char_is_scalar(chars[prefix_fitting(chars, 0xFFFFFFFF)]);
        }
    }
    r
}

/// Length of `bytes` in 8-bit code units, for callers who have already
/// established that every scalar fits; the contract excludes the inputs on
/// which the count is not owed.
pub fn length_as_u8_or_panic(bytes: &[u8]) -> (r: usize)
    requires
        valid_utf8(bytes@),
        prefix_fitting(decode_utf8(bytes@), 0xFF) == decode_utf8(bytes@).len(),
    ensures
        r == decode_utf8(bytes@).len(),
{
    let bytes_len = bytes.len();
    proof {
        lemma_decode_len(bytes@);
        assert(decode_utf8(bytes@).len() <= bytes_len);
    }
    match length_as_u8(bytes) {
        Ok(n) => n,
        // Unreachable: every scalar fits by the precondition.
        Err(_) => vstd::pervasive::unreached(),
    }
}

/// Length of `bytes` in 16-bit code units, for callers who have already
/// established that every scalar fits; the contract excludes the inputs on
/// which the count is not owed.
pub fn length_as_u16_or_panic(bytes: &[u8]) -> (r: usize)
    requires
        valid_utf8(bytes@),
        prefix_fitting(decode_utf8(bytes@), 0xFFFF) == decode_utf8(bytes@).len(),
    ensures
        r == decode_utf8(bytes@).len(),
{
    let bytes_len = bytes.len();
    proof {
        lemma_decode_len(bytes@);
        assert(decode_utf8(bytes@).len() <= bytes_len);
    }
    match length_as_u16(bytes) {
        Ok(n) => n,
        // Unreachable: every scalar fits by the precondition.
        Err(_) => vstd::pervasive::unreached(),
    }
}

/// Length of `bytes` in 32-bit code units: the scalar count, which every
/// input has.
pub fn length_as_u32_or_panic(bytes: &[u8]) -> (r: usize)
    requires
        valid_utf8(bytes@),
    ensures
        r == decode_utf8(bytes@).len(),
{
    let bytes_len = bytes.len();
    proof {
        lemma_decode_len(bytes@);
        assert(decode_utf8(bytes@).len() <= bytes_len);
    }
    match length_as_u32(bytes) {
        Ok(n) => n,
        // Unreachable: the scalar count always exists.
        Err(_) => vstd::pervasive::unreached(),
    }
}

/// Length of `bytes` in 8-bit storage: UTF-8 is the identity storage, so
/// this is the byte count itself.
pub fn length_as_utf8(bytes: &[u8]) -> (r: usize)
    ensures
        r == bytes@.len(),
{
    bytes.len()
}

/// Length of `bytes` in UTF-16 code units: scalars below `0x10000` take one
/// unit, the rest take a surrogate pair.
pub fn length_as_utf16(bytes: &[u8]) -> (r: usize)
    requires
        valid_utf8(bytes@),
    ensures
        r == utf16_length(decode_utf8(bytes@)),
{
    let ghost s = bytes@;
    let ghost chars = decode_utf8(s);
    proof {
        lemma_decode_len(s);
        is_char_boundary_start_end_of_seq(s);
    }
    let mut pos: usize = 0;
    let mut count: usize = 0;
    let ghost mut done: int = 0;
    loop
        invariant
            valid_utf8(s),
            s == bytes@,
            chars == decode_utf8(s),
            pos <= s.len(),
            count <= pos,
            is_char_boundary(s, pos as int),
            decode_utf8(s.take(pos as int)) =~= chars.take(done),
            done == decode_utf8(s.take(pos as int)).len(),
            count == utf16_length(chars.take(done)),
        decreases s.len() - pos,
    {
        proof {
            if pos < s.len() {
                lemma_decode_step(s, pos as int);
            } else {
                assert(s.take(pos as int) =~= s);
            }
        }
        match next_code_point(bytes, pos) {
            None => {
                return count;
            },
            Some((cp, next)) => {
                let ghost rest = s.skip(pos as int);
                proof {
                    lemma_scalar_width_bounds(rest);
                    assert(chars[done] == decode_first_scalar(rest) as char);
                    assert(!(0xD800 <= cp <= 0xDFFF) && cp <= 0x10FFFF);
                    assert((chars[done] as u32) == cp);
                    assert(decode_utf8(s.take(next as int)) =~= chars.take(done + 1)) by {
                        assert(decode_utf8(s.take(pos as int)).push(chars[done])
                            =~= chars.take(done + 1));
                    }
                    assert(chars.take(done + 1) =~= chars.take(done).push(chars[done]));
                    lemma_utf16_length_push(chars.take(done), chars[done]);
                }
                if cp < 0x10000 {
                    count = count + 1;
                } else {
                    // A scalar needing a surrogate pair has a 4-byte UTF-8
                    // encoding, so the position advances by at least 2.
                    assert(next - pos == 4);
                    count = count + 2;
                }
                pos = next;
                proof {
                    done = done + 1;
                }
            },
        }
    }
}

} // verus!
