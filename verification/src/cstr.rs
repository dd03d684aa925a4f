//! The borrowed-view string type: a window onto a backing allocation of
//! code units that ends in a zero unit.
//!
//! A value holds the backing units together with the window's offset; the
//! logical content is the maximal zero-free prefix of the window. All
//! read-only operations (length-by-scan, sub-views, slices, decoding) live
//! here, together with the bounded write operations that consume the window
//! from its front.

use vstd::prelude::*;
use crate::StrError;
use crate::codec::{chars_of_units, decodable};
use crate::unit::{CodeUnit, first_zero, lemma_first_zero, lemma_first_zero_exact, unit_vals};

verus! {

/// A window onto a zero-terminated buffer of code units of width `U`.
#[derive(Debug, Clone)]
pub struct CStrView<U> {
    buf: Vec<U>,
    start: usize,
}

/// The 8-bit instantiation.
pub type U8CStr = CStrView<u8>;

/// The 16-bit instantiation.
pub type U16CStr = CStrView<u16>;

/// The 32-bit instantiation.
pub type U32CStr = CStrView<u32>;

impl<U: CodeUnit> CStrView<U> {
    /// The numeric image of the whole backing allocation.
    pub closed spec fn backing(self) -> Seq<u32> {
        unit_vals(self.buf@)
    }

    /// The window's offset into the backing.
    pub closed spec fn offset(self) -> int {
        self.start as int
    }

    /// The window itself: the backing from the offset on.
    pub open spec fn full(self) -> Seq<u32> {
        self.backing().skip(self.offset())
    }

    /// Well-formed: the window is nonempty and the backing ends in a zero,
    /// so a terminator is always in reach of a scan.
    pub open spec fn wf(self) -> bool {
        &&& 0 <= self.offset() < self.backing().len()
        &&& self.backing().last() == 0
    }

    /// Logical length: the offset of the first zero in the window.
    pub open spec fn spec_len(self) -> int {
        first_zero(self.full())
    }

    /// Logical content: the maximal zero-free prefix of the window.
    pub open spec fn content(self) -> Seq<u32> {
        self.full().take(self.spec_len())
    }

    /// A well-formed view's window ends in a zero, so its logical length is
    /// strictly below the window length.
    pub proof fn lemma_wf_len(self)
        requires
            self.wf(),
        ensures
            self.full().len() >= 1,
            self.full().last() == 0,
            0 <= self.spec_len() < self.full().len(),
            self.full()[self.spec_len()] == 0,
            forall|i: int| 0 <= i < self.spec_len() ==> self.full()[i] != 0,
    {
        lemma_first_zero(self.full());
        if self.spec_len() == self.full().len() {
            assert(self.full().last() != 0);
        }
    }

    /// Builds a view over a copy of the given units. Succeeds exactly when
    /// the slice's final element is a zero unit; the check is structural,
    /// not content-based.
    pub fn try_from_slice(value: &[U]) -> (r: Result<Self, StrError>)
        ensures
            r is Ok <==> (value@.len() >= 1 && unit_vals(value@).last() == 0),
            r matches Ok(v) ==> v.wf() && v.offset() == 0 && v.backing() == unit_vals(value@),
    {
        let n = value.len();
        if n == 0 || !value[n - 1].is_nul() {
            return Err(StrError::NulNotFound);
        }
        let buf = vstd::slice::slice_to_vec(value);
        Ok(CStrView { buf, start: 0 })
    }

    /// The checked bridge from untrusted memory handed over as a slice:
    /// scans up to `max_len` units for a terminator and builds a view over
    /// a copy of the units up to and including it. Fails with `NulNotFound`
    /// exactly when no zero occurs within the scanned bound.
    pub fn from_slice_n(data: &[U], max_len: usize) -> (r: Result<Self, StrError>)
        ensures
            ({
                let k = if max_len <= data@.len() {
                    max_len as int
                } else {
                    data@.len() as int
                };
                let fz = first_zero(unit_vals(data@).take(k));
                &&& (r is Ok <==> fz < k)
                &&& r matches Ok(v) ==> {
                    &&& v.wf()
                    &&& v.offset() == 0
                    &&& v.backing() == unit_vals(data@).take(fz + 1)
                }
            }),
    {
        let bound = if max_len <= data.len() {
            max_len
        } else {
            data.len()
        };
        let ghost k = bound as int;
        let ghost vals = unit_vals(data@).take(k);
        let mut i: usize = 0;
        while i < bound
            invariant
                i <= bound,
                bound <= data@.len(),
                k == bound as int,
                k == if max_len <= data@.len() {
                    max_len as int
                } else {
                    data@.len() as int
                },
                vals == unit_vals(data@).take(k),
                forall|j: int| 0 <= j < i ==> vals[j] != 0,
            decreases bound - i,
        {
            if data[i].is_nul() {
                proof {
                    lemma_first_zero_exact(vals, i as int);
                }
                let sub = vstd::slice::slice_subrange(data, 0, i + 1);
                let buf = vstd::slice::slice_to_vec(sub);
                let v = CStrView { buf, start: 0usize };
                proof {
                    assert forall|j: int| 0 <= j < i + 1 implies v.backing()[j] == unit_vals(
                        data@,
                    ).take(i + 1)[j] by {
                        assert(sub@[j] == data@[j]);
                        assert(unit_vals(sub@)[j] == sub@[j].val());
                        assert(unit_vals(data@)[j] == data@[j].val());
                    }
                    assert(v.backing() =~= unit_vals(data@).take(i + 1));
                    assert(v.backing().last() == 0);
                }
                return Ok(v);
            }
            i = i + 1;
        }
        proof {
            lemma_first_zero_exact(vals, k);
        }
        Err(StrError::NulNotFound)
    }

    /// Scans the window for its terminator and returns the logical length.
    pub fn len_usize(&self) -> (r: usize)
        requires
            self.wf(),
        ensures
            r == self.spec_len(),
    {
        proof {
            self.lemma_wf_len();
        }
        let n = self.buf.len();
        let mut i: usize = self.start;
        loop
            invariant
                self.wf(),
                n == self.backing().len(),
                self.start <= i <= n,
                forall|j: int| self.offset() <= j < i ==> self.backing()[j] != 0,
            decreases n - i,
        {
            if self.buf[i].is_nul() {
                proof {
                    lemma_first_zero_exact(self.full(), i - self.offset());
                }
                return i - self.start;
            }
            i = i + 1;
            proof {
                // The backing ends in zero, so the scan stops before the end.
                if i == n {
                    assert(self.backing().last() != 0);
                }
            }
        }
    }

    /// True when the logical content is empty, i.e. the window starts with
    /// the terminator.
    pub fn is_empty(&self) -> (r: bool)
        requires
            self.wf(),
        ensures
            r <==> self.spec_len() == 0,
    {
        self.len_usize() == 0
    }

    /// The logical length, as a 32-bit value.
    pub fn len_dword(&self) -> (r: u32)
        requires
            self.wf(),
            self.spec_len() <= u32::MAX,
        ensures
            r == self.spec_len(),
    {
        self.len_usize() as u32
    }

    /// The logical length including the terminator.
    pub fn len_with_nul_usize(&self) -> (r: usize)
        requires
            self.wf(),
        ensures
            r == self.spec_len() + 1,
    {
        proof {
            self.lemma_wf_len();
        }
        let n = self.buf.len();
        let l = self.len_usize();
        assert(l < n);
        l + 1
    }

    /// The logical length including the terminator, as a 32-bit value.
    pub fn len_with_nul_dword(&self) -> (r: u32)
        requires
            self.wf(),
            self.spec_len() + 1 <= u32::MAX,
        ensures
            r == self.spec_len() + 1,
    {
        self.len_with_nul_usize() as u32
    }

    /// Total window length excluding the final slot: how many units the
    /// window can hold before its last, always-zero position.
    pub fn capacity_usize(&self) -> (r: usize)
        requires
            self.wf(),
        ensures
            r == self.full().len() - 1,
    {
        self.buf.len() - self.start - 1
    }

    /// The capacity, as a 32-bit value.
    pub fn capacity_dword(&self) -> (r: u32)
        requires
            self.wf(),
            self.full().len() - 1 <= u32::MAX,
        ensures
            r == self.full().len() - 1,
    {
        self.capacity_usize() as u32
    }

    /// Size in bytes of the content including the terminator.
    pub fn sizeof_usize(&self) -> (r: usize)
        requires
            self.wf(),
            (self.spec_len() + 1) * 4 <= usize::MAX,
        ensures
            r == (self.spec_len() + 1) * U::unit_size_spec(),
    {
        let l = self.len_with_nul_usize();
        let sz = U::unit_size();
        proof {
            vstd::arithmetic::mul::lemma_mul_inequality(
                sz as int,
                4,
                l as int,
            );
            vstd::arithmetic::mul::lemma_mul_is_commutative(l as int, sz as int);
        }
        l * sz
    }

    /// Size in bytes of the content including the terminator, as a 32-bit
    /// value.
    pub fn sizeof_dword(&self) -> (r: u32)
        requires
            self.wf(),
            (self.spec_len() + 1) * 4 <= u32::MAX,
        ensures
            r == (self.spec_len() + 1) * U::unit_size_spec(),
    {
        let r = self.sizeof_usize();
        proof {
            self.lemma_wf_len();
            U::lemma_unit_size_bounded();
            vstd::arithmetic::mul::lemma_mul_inequality(
                U::unit_size_spec() as int,
                4,
                self.spec_len() + 1,
            );
            vstd::arithmetic::mul::lemma_mul_is_commutative(
                self.spec_len() + 1,
                U::unit_size_spec() as int,
            );
        }
        r as u32
    }

    /// The logical content, without the terminator.
    pub fn as_slice(&self) -> (r: &[U])
        requires
            self.wf(),
        ensures
            unit_vals(r@) == self.content(),
    {
        proof {
            self.lemma_wf_len();
        }
        let n = self.buf.len();
        let l = self.len_usize();
        assert(self.start + l < n);
        let r = vstd::slice::slice_subrange(self.buf.as_slice(), self.start, self.start + l);
        assert(unit_vals(r@) =~= self.content());
        r
    }

    /// The logical content together with its terminator.
    pub fn as_slice_with_nul(&self) -> (r: &[U])
        requires
            self.wf(),
        ensures
            unit_vals(r@) == self.content().push(0u32),
            unit_vals(r@) == self.full().take(self.spec_len() + 1),
    {
        proof {
            self.lemma_wf_len();
        }
        let n = self.buf.len();
        let l = self.len_usize();
        assert(self.start + l < n);
        let r = vstd::slice::slice_subrange(self.buf.as_slice(), self.start, self.start + l + 1);
        assert(unit_vals(r@) =~= self.content().push(0u32));
        assert(unit_vals(r@) =~= self.full().take(self.spec_len() + 1));
        r
    }

    /// The entire backing allocation, the consumed region before the
    /// window included. After writes have advanced the window, this is
    /// where what they wrote can be read back.
    pub fn as_backing(&self) -> (r: &[U])
        requires
            self.wf(),
        ensures
            unit_vals(r@) == self.backing(),
    {
        let r = self.buf.as_slice();
        r
    }

    /// The entire window, terminator slot and slack past it included.
    pub fn as_slice_full(&self) -> (r: &[U])
        requires
            self.wf(),
        ensures
            unit_vals(r@) == self.full(),
    {
        let r = vstd::slice::slice_subrange(self.buf.as_slice(), self.start, self.buf.len());
        assert(unit_vals(r@) =~= self.full());
        r
    }

    /// Writes one unit inside the window, the final slot excluded so the
    /// window's closing terminator stays in place. Returns whether the
    /// index was writable; an out-of-range index changes nothing.
    pub fn set(&mut self, index: usize, value: U) -> (r: bool)
        requires
            old(self).wf(),
        ensures
            final(self).wf(),
            r <==> index + 1 < old(self).full().len(),
            final(self).offset() == old(self).offset(),
            final(self).backing() == if index + 1 < old(self).full().len() {
                old(self).backing().update(old(self).offset() + index, value.val())
            } else {
                old(self).backing()
            },
    {
        if index >= self.buf.len() - self.start - 1 {
            proof {
                assert(self.backing() =~= old(self).backing());
            }
            return false;
        }
        self.buf[self.start + index] = value;
        proof {
            assert(self.backing() =~= old(self).backing().update(
                old(self).offset() + index,
                value.val(),
            ));
        }
        true
    }

    /// The unit at window index `index`, or `None` past the window's end.
    pub fn get(&self, index: usize) -> (r: Option<U>)
        requires
            self.wf(),
        ensures
            r is Some <==> index < self.full().len(),
            r matches Some(u) ==> u.val() == self.full()[index as int],
    {
        if index >= self.buf.len() - self.start {
            return None;
        }
        Some(self.buf[self.start + index])
    }

    /// The sub-view starting at window index `offset`: a view over a copy of
    /// the window's suffix. An offset at or past the window's end yields the
    /// length-zero view anchored at the window's final slot.
    pub fn range(&self, offset: usize) -> (r: Self)
        requires
            self.wf(),
        ensures
            r.wf(),
            r.backing() == self.full().skip(
                if offset < self.full().len() {
                    offset as int
                } else {
                    self.full().len() - 1
                },
            ),
            r.offset() == 0,
    {
        let view_len = self.buf.len() - self.start;
        let off: usize = if offset < view_len {
            offset
        } else {
            view_len - 1
        };
        let sub = vstd::slice::slice_subrange(
            self.buf.as_slice(),
            self.start + off,
            self.buf.len(),
        );
        let buf = vstd::slice::slice_to_vec(sub);
        let r = CStrView { buf, start: 0usize };
        assert(r.backing() =~= self.full().skip(off as int));
        r
    }

    /// A presentation form of the content: each unit decoded to a character.
    /// Fails exactly when some unit is not a legal scalar value.
    pub fn display(&self) -> (r: Option<String>)
        requires
            self.wf(),
        ensures
            r is Some <==> decodable(self.content()),
            r matches Some(s) ==> s@ == chars_of_units(self.content()),
    {
        crate::codec::decode_units(self.as_slice())
    }

    /// Copies as many of the given units as fit before the window's final
    /// slot into the window's front, terminates them with a zero, and
    /// consumes the window past the copied units. Returns how many units
    /// were copied; a full window (zero capacity) copies none and only
    /// rewrites its terminator.
    pub fn write_units(&mut self, src: &[U]) -> (w: usize)
        requires
            old(self).wf(),
        ensures
            ({
                let cap = old(self).full().len() - 1;
                let wv = if src@.len() <= cap {
                    src@.len() as int
                } else {
                    cap
                };
                &&& w == wv
                &&& final(self).wf()
                &&& final(self).offset() == old(self).offset() + wv
                &&& final(self).backing() == old(self).backing().take(old(self).offset())
                    + unit_vals(src@).take(wv) + seq![0u32] + old(self).backing().skip(
                    old(self).offset() + wv + 1,
                )
            }),
    {
        let n = self.buf.len();
        let cap = n - self.start - 1;
        let w = if src.len() <= cap {
            src.len()
        } else {
            cap
        };
        let mut i: usize = 0;
        while i < w
            invariant
                i <= w,
                w <= src@.len(),
                self.start + w + 1 <= n,
                n == self.buf@.len(),
                self.start == old(self).start,
                forall|j: int|
                    0 <= j < i ==> (#[trigger] self.buf@[self.start + j]).val() == unit_vals(
                        src@,
                    )[j],
                forall|j: int|
                    0 <= j < n && !(self.start <= j < self.start + i) ==> self.buf@[j] == old(
                        self,
                    ).buf@[j],
            decreases w - i,
        {
            self.buf[self.start + i] = src[i];
            i = i + 1;
        }
        let ghost filled = self.buf@;
        self.buf[self.start + w] = U::nul();
        self.start = self.start + w;
        proof {
            let ob = old(self).backing();
            let off = old(self).offset();
            let wv = w as int;
            assert(self.buf@ =~= filled.update(off + wv, self.buf@[off + wv]));
            assert forall|j: int|
                0 <= j < ob.len() implies self.backing()[j] == (ob.take(off) + unit_vals(
                src@,
            ).take(wv) + seq![0u32] + ob.skip(off + wv + 1))[j] by {
                assert(self.backing()[j] == self.buf@[j].val());
                if j < off || j > off + wv {
                    assert(self.buf@[j] == filled[j]);
                    assert(filled[j] == old(self).buf@[j]);
                } else if j < off + wv {
                    assert(self.buf@[j] == filled[j]);
                    assert(filled[off + (j - off)].val() == unit_vals(src@)[j - off]);
                }
            }
            assert(self.backing() =~= ob.take(off) + unit_vals(src@).take(wv) + seq![0u32]
                + ob.skip(off + wv + 1));
            assert(self.backing().last() == 0) by {
                if off + wv + 1 < ob.len() {
                    assert(self.buf@[ob.len() - 1] == old(self).buf@[ob.len() - 1]);
                }
            }
        }
        w
    }

    /// Copies another view's content and terminator into the window's front
    /// and consumes the window up to (but not past) the copied terminator,
    /// so that further writes overwrite it. Fails, changing nothing, when
    /// the window is too short for content and terminator together.
    pub fn write_view(&mut self, other: &CStrView<U>) -> (r: Result<(), crate::WriteError>)
        requires
            old(self).wf(),
            other.wf(),
        ensures
            ({
                let l = other.spec_len();
                match r {
                    Ok(()) => {
                        &&& old(self).full().len() >= l + 1
                        &&& final(self).wf()
                        &&& final(self).offset() == old(self).offset() + l
                        &&& final(self).backing() == old(self).backing().take(old(self).offset())
                            + other.content() + seq![0u32] + old(self).backing().skip(
                            old(self).offset() + l + 1,
                        )
                    },
                    Err(e) => {
                        &&& e == crate::WriteError::WriteZero
                        &&& old(self).full().len() < l + 1
                        &&& *final(self) == *old(self)
                    },
                }
            }),
    {
        proof {
            other.lemma_wf_len();
        }
        let l = other.len_usize();
        let cap = self.buf.len() - self.start - 1;
        if l > cap {
            return Err(crate::WriteError::WriteZero);
        }
        let content = other.as_slice();
        let w = self.write_units(content);
        proof {
            assert(unit_vals(content@).take(l as int) =~= other.content());
        }
        Ok(())
    }

    /// Writes one unit as a one-character string: its content followed by a
    /// terminator. A zero unit writes only a terminator. Fails, changing
    /// nothing, when the window is too short.
    pub fn write_unit_char(&mut self, c: U) -> (r: Result<(), crate::WriteError>)
        requires
            old(self).wf(),
        ensures
            ({
                let l: int = if c.val() == 0 {
                    0
                } else {
                    1
                };
                match r {
                    Ok(()) => {
                        &&& old(self).full().len() >= l + 1
                        &&& final(self).wf()
                        &&& final(self).offset() == old(self).offset() + l
                        &&& final(self).backing() == old(self).backing().take(old(self).offset())
                            + seq![c.val()].take(l) + seq![0u32] + old(self).backing().skip(
                            old(self).offset() + l + 1,
                        )
                    },
                    Err(e) => {
                        &&& e == crate::WriteError::WriteZero
                        &&& old(self).full().len() < l + 1
                        &&& *final(self) == *old(self)
                    },
                }
            }),
    {
        let mut two: Vec<U> = Vec::new();
        two.push(c);
        two.push(U::nul());
        let v = CStrView { buf: two, start: 0usize };
        proof {
            lemma_first_zero(v.full());
            if c.val() == 0 {
                lemma_first_zero_exact(v.full(), 0);
            } else {
                lemma_first_zero_exact(v.full(), 1);
            }
            assert(v.content() =~= seq![c.val()].take(v.spec_len()));
        }
        self.write_view(&v)
    }

    /// Decodes `data` as UTF-8 text up to its longest valid prefix,
    /// transcodes as many whole scalars as fit before the window's final
    /// slot, writes them at the window's front with a terminator, consumes
    /// the window past them, and reports how many source bytes those scalars
    /// spanned. Fails, changing nothing, when a scalar that would be written
    /// does not fit the width.
    pub fn write(&mut self, data: &[u8]) -> (r: Result<usize, crate::WriteError>)
        requires
            old(self).wf(),
        ensures
            ({
                let vb = crate::scanner::valid_prefix_len(data@);
                let chars = vstd::utf8::decode_utf8(data@.take(vb));
                let cap = old(self).full().len() - 1;
                let w = if chars.len() <= cap {
                    chars.len() as int
                } else {
                    cap
                };
                match r {
                    Ok(n) => {
                        &&& crate::scanner::prefix_fitting(chars.take(w), U::max_val()) == w
                        &&& n <= vb <= data@.len()
                        &&& vstd::utf8::valid_utf8(data@.take(n as int))
                        &&& vstd::utf8::decode_utf8(data@.take(n as int)) == chars.take(w)
                        &&& final(self).wf()
                        &&& final(self).offset() == old(self).offset() + w
                        &&& final(self).backing() == old(self).backing().take(old(self).offset())
                            + crate::codec::units_of_chars(chars.take(w)) + seq![0u32] + old(
                            self,
                        ).backing().skip(old(self).offset() + w + 1)
                    },
                    Err(e) => {
                        &&& e == crate::WriteError::Unrepresentable
                        &&& crate::scanner::prefix_fitting(chars.take(w), U::max_val()) < w
                        &&& *final(self) == *old(self)
                    },
                }
            }),
    {
        let vb = match crate::scanner::check_is_valid_utf8(data) {
            Ok(()) => {
                proof {
                    assert(data@.subrange(0, data@.len() as int) =~= data@);
                    crate::scanner::lemma_valid_prefix_len_exact(data@, data@.len() as int);
                }
                data.len()
            },
            Err(n) => {
                proof {
                    crate::scanner::lemma_valid_prefix_len_exact(data@, n as int);
                }
                n
            },
        };
        let vslice = vstd::slice::slice_subrange(data, 0, vb);
        let ghost chars = vstd::utf8::decode_utf8(vslice@);
        let cap = self.buf.len() - self.start - 1;
        match crate::codec::transcode_units::<U>(vslice, cap) {
            Err(e) => Err(e),
            Ok((units, consumed)) => {
                let ghost w = units@.len() as int;
                let _ = self.write_units(units.as_slice());
                proof {
                    assert(unit_vals(units@).take(w) =~= unit_vals(units@));
                    assert(vslice@.take(consumed as int) =~= data@.take(consumed as int));
                    assert(vstd::utf8::valid_utf8(vslice@));
                    vstd::utf8::valid_utf8_split(vslice@, consumed as int);
                    assert(vslice@.subrange(0, consumed as int) =~= data@.take(consumed as int));
                }
                Ok(consumed)
            },
        }
    }

    /// Writes a text whole: all its scalars transcoded and written at the
    /// window's front with a terminator, consuming the window past them.
    /// Fails, changing nothing, when the text does not fit before the
    /// window's final slot or when some scalar does not fit the width.
    pub fn write_str(&mut self, text: &str) -> (r: Result<(), crate::WriteError>)
        requires
            old(self).wf(),
        ensures
            ({
                let chars = text@;
                let cap = old(self).full().len() - 1;
                match r {
                    Ok(()) => {
                        &&& chars.len() <= cap
                        &&& crate::scanner::prefix_fitting(chars, U::max_val()) == chars.len()
                        &&& final(self).wf()
                        &&& final(self).offset() == old(self).offset() + chars.len()
                        &&& final(self).backing() == old(self).backing().take(old(self).offset())
                            + crate::codec::units_of_chars(chars) + seq![0u32] + old(
                            self,
                        ).backing().skip(old(self).offset() + chars.len() + 1)
                    },
                    Err(e) => {
                        &&& *final(self) == *old(self)
                        &&& e == crate::WriteError::WriteZero ==> chars.len() > cap
                        &&& e == crate::WriteError::Unrepresentable ==> (chars.len() <= cap
                            && crate::scanner::prefix_fitting(chars, U::max_val()) < chars.len())
                        &&& (e == crate::WriteError::WriteZero || e
                            == crate::WriteError::Unrepresentable)
                    },
                }
            }),
    {
        let cl = text.unicode_len();
        let cap = self.buf.len() - self.start - 1;
        if cl > cap {
            return Err(crate::WriteError::WriteZero);
        }
        let bytes = text.as_bytes();
        proof {
            vstd::utf8::encode_utf8_valid_utf8(text@);
            vstd::utf8::encode_utf8_decode_utf8(text@);
        }
        let ghost chars = vstd::utf8::decode_utf8(bytes@);
        match crate::codec::transcode_units::<U>(bytes, cl) {
            Err(e) => {
                proof {
                    assert(chars.take(cl as int) =~= text@);
                }
                Err(e)
            },
            Ok((units, _consumed)) => {
                proof {
                    assert(chars.take(cl as int) =~= text@);
                }
                let w = self.write_units(units.as_slice());
                proof {
                    assert(unit_vals(units@).take(units@.len() as int) =~= unit_vals(units@));
                }
                Ok(())
            },
        }
    }

    /// Writes the whole of `data`, or reports why it could not: a window
    /// too short for the remaining text reports `WriteZero` after writing
    /// what fit, and an unrepresentable scalar reports `Unrepresentable`.
    pub fn write_all(&mut self, data: &[u8]) -> (r: Result<(), crate::WriteError>)
        requires
            old(self).wf(),
        ensures
            ({
                let vb = crate::scanner::valid_prefix_len(data@);
                let chars = vstd::utf8::decode_utf8(data@.take(vb));
                let cap = old(self).full().len() - 1;
                let w = if chars.len() <= cap {
                    chars.len() as int
                } else {
                    cap
                };
                match r {
                    Ok(()) => {
                        &&& vb == data@.len()
                        &&& w == chars.len()
                        &&& crate::scanner::prefix_fitting(chars, U::max_val()) == chars.len()
                        &&& final(self).wf()
                        &&& final(self).offset() == old(self).offset() + chars.len()
                        &&& final(self).backing() == old(self).backing().take(old(self).offset())
                            + crate::codec::units_of_chars(chars) + seq![0u32] + old(
                            self,
                        ).backing().skip(old(self).offset() + chars.len() + 1)
                    },
                    Err(e) => {
                        &&& e == crate::WriteError::Unrepresentable ==> {
                            &&& crate::scanner::prefix_fitting(chars.take(w), U::max_val()) < w
                            &&& *final(self) == *old(self)
                        }
                        &&& e == crate::WriteError::WriteZero ==> {
                            &&& vb < data@.len() || w < chars.len()
                            &&& final(self).wf()
                            &&& final(self).offset() == old(self).offset() + w
                            &&& final(self).backing() == old(self).backing().take(
                                old(self).offset(),
                            ) + crate::codec::units_of_chars(chars.take(w)) + seq![0u32] + old(
                                self,
                            ).backing().skip(old(self).offset() + w + 1)
                        }
                        &&& (e == crate::WriteError::WriteZero || e
                            == crate::WriteError::Unrepresentable)
                    },
                }
            }),
    {
        match self.write(data) {
            Err(e) => Err(e),
            Ok(n) => {
                if n == data.len() {
                    proof {
                        let vb = crate::scanner::valid_prefix_len(data@);
                        let chars = vstd::utf8::decode_utf8(data@.take(vb));
                        assert(data@.take(n as int) =~= data@.take(vb));
                        crate::scanner::lemma_prefix_fitting(chars, U::max_val());
                    }
                    Ok(())
                } else {
                    proof {
                        // A short count means not everything fit: were the
                        // whole of `data` valid and every scalar within the
                        // window, the consumed boundary would be the whole
                        // of `data`.
                        let vb = crate::scanner::valid_prefix_len(data@);
                        let chars = vstd::utf8::decode_utf8(data@.take(vb));
                        let cap = old(self).full().len() - 1;
                        let w = if chars.len() <= cap {
                            chars.len() as int
                        } else {
                            cap
                        };
                        if vb == data@.len() && w == chars.len() {
                            crate::scanner::lemma_valid_prefix_valid(data@);
                            assert(data@.take(vb) =~= data@.subrange(0, vb));
                            vstd::utf8::decode_utf8_encode_utf8(data@.take(n as int));
                            vstd::utf8::decode_utf8_encode_utf8(data@.take(vb));
                            assert(chars.take(w) =~= chars);
                            assert(data@.take(n as int) == vstd::utf8::encode_utf8(chars));
                            assert(data@.take(vb) == vstd::utf8::encode_utf8(chars));
                            assert(n == vb);
                        }
                    }
                    Err(crate::WriteError::WriteZero)
                }
            },
        }
    }

    /// Completes any buffered writing; writes here are immediate, so this
    /// does nothing and cannot fail.
    pub fn flush(&mut self) -> (r: Result<(), crate::WriteError>)
        ensures
            r is Ok,
            *final(self) == *old(self),
    {
        Ok(())
    }

    /// The window as seen by a defensive scan: empty when the recorded
    /// offset lies past the backing. On well-formed views this is `full()`.
    pub open spec fn raw_window(self) -> Seq<u32> {
        if self.offset() <= self.backing().len() {
            self.full()
        } else {
            Seq::empty()
        }
    }

    /// The logical content as seen by a defensive scan: the zero-free
    /// prefix of `raw_window`, the whole window when it holds no zero. On
    /// well-formed views this is `content()`. Equality compares this, so it
    /// never inspects slack past the terminator.
    pub open spec fn raw_content(self) -> Seq<u32> {
        self.raw_window().take(first_zero(self.raw_window()))
    }

    /// On a well-formed view the defensive content is the content.
    pub proof fn lemma_raw_content_wf(self)
        requires
            self.wf(),
        ensures
            self.raw_content() == self.content(),
    {
    }

    /// Offset of the first zero in the window, or the window's length when
    /// it holds none. Makes no well-formedness assumption.
    fn scan_content_len(&self) -> (r: usize)
        ensures
            r == first_zero(self.raw_window()),
    {
        let n = self.buf.len();
        let from = if self.start <= n {
            self.start
        } else {
            n
        };
        let ghost win = self.raw_window();
        proof {
            if self.start > n {
                assert(win =~= Seq::<u32>::empty());
            }
        }
        let mut i = from;
        while i < n
            invariant
                from <= i <= n,
                n == self.buf@.len(),
                from == if self.start <= n {
                    self.start as int
                } else {
                    n as int
                },
                win == self.raw_window(),
                win.len() == n - from,
                forall|j: int| 0 <= j < i - from ==> win[j] != 0,
            decreases n - i,
        {
            if self.buf[i].is_nul() {
                proof {
                    lemma_first_zero_exact(win, i - from);
                }
                return i - from;
            }
            i = i + 1;
        }
        proof {
            lemma_first_zero_exact(win, (n - from) as int);
        }
        n - from
    }

    /// Whether the logical contents of two views are equal element-wise:
    /// equality never inspects slack past the terminator, and views of
    /// different backing capacities can compare equal.
    pub fn content_eq(&self, other: &Self) -> (r: bool)
        ensures
            r <==> self.raw_content() == other.raw_content(),
    {
        proof {
            lemma_first_zero(self.raw_window());
            lemma_first_zero(other.raw_window());
        }
        let l1 = self.scan_content_len();
        let l2 = other.scan_content_len();
        if l1 != l2 {
            proof {
                assert(self.raw_content().len() != other.raw_content().len());
            }
            return false;
        }
        let from1 = if self.start <= self.buf.len() {
            self.start
        } else {
            self.buf.len()
        };
        let from2 = if other.start <= other.buf.len() {
            other.start
        } else {
            other.buf.len()
        };
        let n1 = self.buf.len();
        let n2 = other.buf.len();
        let mut i: usize = 0;
        while i < l1
            invariant
                i <= l1,
                l1 == l2,
                l1 == first_zero(self.raw_window()),
                l2 == first_zero(other.raw_window()),
                from1 == if self.offset() <= self.backing().len() {
                    self.offset()
                } else {
                    self.backing().len() as int
                },
                from2 == if other.offset() <= other.backing().len() {
                    other.offset()
                } else {
                    other.backing().len() as int
                },
                n1 == self.buf@.len(),
                n2 == other.buf@.len(),
                from1 + l1 <= n1,
                from2 + l2 <= n2,
                forall|j: int| 0 <= j < i ==> self.raw_content()[j] == other.raw_content()[j],
            decreases l1 - i,
        {
            proof {
                lemma_first_zero(self.raw_window());
                lemma_first_zero(other.raw_window());
            }
            if !self.buf[from1 + i].same(other.buf[from2 + i]) {
                proof {
                    assert(self.raw_content()[i as int] == self.raw_window()[i as int]);
                    assert(other.raw_content()[i as int] == other.raw_window()[i as int]);
                }
                return false;
            }
            i = i + 1;
        }
        proof {
            assert(self.raw_content() =~= other.raw_content());
        }
        true
    }
}

impl<U: CodeUnit> PartialEq for CStrView<U> {
    /// Two views are equal when their zero-free logical prefixes are equal
    /// element-wise; trailing slack is never inspected.
    fn eq(&self, other: &Self) -> (r: bool) {
        self.content_eq(other)
    }
}

impl<U: CodeUnit> vstd::std_specs::cmp::PartialEqSpecImpl for CStrView<U> {
    open spec fn obeys_eq_spec() -> bool {
        true
    }

    open spec fn eq_spec(&self, other: &Self) -> bool {
        self.raw_content() == other.raw_content()
    }
}

impl<U: CodeUnit> Eq for CStrView<U> {

}

/// Law: a view's logical length is the offset of the first zero in the
/// units it was built over. For a view standing at the start of its
/// backing, the scanned length is exactly `first_zero` of the backing.
pub proof fn law_length_is_first_zero<U: CodeUnit>(v: CStrView<U>)
    requires
        v.wf(),
        v.offset() == 0,
    ensures
        v.spec_len() == first_zero(v.backing()),
        0 <= v.spec_len() < v.backing().len(),
        v.backing()[v.spec_len()] == 0,
        forall|i: int| 0 <= i < v.spec_len() ==> v.backing()[i] != 0,
{
    assert(v.full() =~= v.backing());
    v.lemma_wf_len();
}

impl U8CStr {
    /// Decodes the logical content to text; every byte value is a legal
    /// scalar, so this cannot fail.
    pub fn decode(&self) -> (r: Option<String>)
        requires
            self.wf(),
        ensures
            r is Some,
            r matches Some(s) ==> s@ == chars_of_units(self.content()),
    {
        crate::codec::decode_u8(self.as_slice())
    }
}

impl U16CStr {
    /// Decodes the logical content to text; fails exactly when some unit
    /// is a surrogate half.
    pub fn decode(&self) -> (r: Option<String>)
        requires
            self.wf(),
        ensures
            r is Some <==> decodable(self.content()),
            r matches Some(s) ==> s@ == chars_of_units(self.content()),
    {
        crate::codec::decode_u16(self.as_slice())
    }
}

impl U32CStr {
    /// Decodes the logical content to text; fails exactly when some unit
    /// is not a legal scalar value.
    pub fn decode(&self) -> (r: Option<String>)
        requires
            self.wf(),
        ensures
            r is Some <==> decodable(self.content()),
            r matches Some(s) ==> s@ == chars_of_units(self.content()),
    {
        crate::codec::decode_u32(self.as_slice())
    }
}

} // verus!
