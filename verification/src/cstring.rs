//! The owned, growable string type: a heap buffer of code units that ends
//! in a zero unit, with slack past the terminator available for growth.
//!
//! The value carries a cached-length hint alongside the buffer. The hint is
//! an optimization only: a refresh recomputes it from the buffer, and every
//! length accessor scans the buffer itself, so a stale hint never changes
//! observable behaviour.

use vstd::prelude::*;
use crate::codec::{chars_of_units, decodable, encodable, units_of_chars};
use crate::cstr::CStrView;
use crate::unit::{CodeUnit, first_zero, lemma_first_zero, lemma_first_zero_exact, unit_vals};

verus! {

/// An owned, growable, zero-terminated string of code units of width `U`.
#[derive(Debug, Clone)]
pub struct CStringBuf<U> {
    units: Vec<U>,
    len_hint: usize,
}

/// The 8-bit instantiation.
pub type U8CString = CStringBuf<u8>;

/// The 16-bit instantiation.
pub type U16CString = CStringBuf<u16>;

/// The 32-bit instantiation.
pub type U32CString = CStringBuf<u32>;

impl<U: CodeUnit> CStringBuf<U> {
    /// The numeric image of the whole backing buffer.
    pub closed spec fn raw(self) -> Seq<u32> {
        unit_vals(self.units@)
    }

    /// The cached-length hint.
    pub closed spec fn hint(self) -> int {
        self.len_hint as int
    }

    /// Well-formed: the buffer is nonempty and ends in a zero. Nothing is
    /// assumed of the hint; it may be stale.
    pub open spec fn wf(self) -> bool {
        &&& self.raw().len() >= 1
        &&& self.raw().last() == 0
    }

    /// Logical length: the offset of the first zero in the buffer.
    pub open spec fn spec_len(self) -> int {
        first_zero(self.raw())
    }

    /// Logical content: the maximal zero-free prefix of the buffer.
    pub open spec fn content(self) -> Seq<u32> {
        self.raw().take(self.spec_len())
    }

    /// The refresh relation: the buffer is unchanged and the hint now holds
    /// the true logical length.
    pub open spec fn refreshed(pre: Self, post: Self) -> bool {
        &&& post.raw() == pre.raw()
        &&& post.hint() == pre.spec_len()
    }

    /// Bounds of the logical length.
    pub proof fn lemma_wf_len(self)
        requires
            self.wf(),
        ensures
            0 <= self.spec_len() < self.raw().len(),
            self.raw()[self.spec_len()] == 0,
            forall|i: int| 0 <= i < self.spec_len() ==> self.raw()[i] != 0,
    {
        lemma_first_zero(self.raw());
        if self.spec_len() == self.raw().len() {
            assert(self.raw().last() != 0);
        }
    }

    /// A new empty string: one terminator slot, nothing else.
    pub fn new() -> (r: Self)
        ensures
            r.wf(),
            r.raw() == seq![0u32],
            r.hint() == 0,
    {
        let mut units: Vec<U> = Vec::new();
        units.push(U::nul());
        let r = CStringBuf { units, len_hint: 0usize };
        proof {
            assert(r.raw() =~= seq![0u32]);
        }
        r
    }

    /// A new empty string whose buffer already holds `cap + 1` zeroed
    /// slots, so it can take `cap` units without growing.
    pub fn with_capacity(cap: usize) -> (r: Self)
        requires
            cap < usize::MAX,
        ensures
            r.wf(),
            r.raw() == Seq::new((cap + 1) as nat, |i: int| 0u32),
            r.hint() == 0,
    {
        let mut units: Vec<U> = Vec::new();
        let mut i: usize = 0;
        while i < cap + 1
            invariant
                cap < usize::MAX,
                i <= cap + 1,
                units@.len() == i,
                forall|j: int| 0 <= j < i ==> (#[trigger] units@[j]).val() == 0,
            decreases cap + 1 - i,
        {
            units.push(U::nul());
            i = i + 1;
        }
        let r = CStringBuf { units, len_hint: 0usize };
        proof {
            assert(r.raw() =~= Seq::new((cap + 1) as nat, |i: int| 0u32));
        }
        r
    }

    /// Recomputes the cached-length hint by scanning the buffer, and
    /// returns the logical length. The buffer itself is untouched.
    pub fn refresh(&mut self) -> (r: usize)
        requires
            old(self).wf(),
        ensures
            Self::refreshed(*old(self), *final(self)),
            final(self).wf(),
            r == old(self).spec_len(),
    {
        let l = self.len_usize();
        self.len_hint = l;
        l
    }

    /// Scans the buffer for its terminator and returns the logical length.
    pub fn len_usize(&self) -> (r: usize)
        requires
            self.wf(),
        ensures
            r == self.spec_len(),
    {
        proof {
            self.lemma_wf_len();
        }
        let n = self.units.len();
        let mut i: usize = 0;
        loop
            invariant
                self.wf(),
                n == self.raw().len(),
                i <= n,
                forall|j: int| 0 <= j < i ==> self.raw()[j] != 0,
            decreases n - i,
        {
            if self.units[i].is_nul() {
                proof {
                    lemma_first_zero_exact(self.raw(), i as int);
                }
                return i;
            }
            i = i + 1;
            proof {
                if i == n {
                    assert(self.raw().last() != 0);
                }
            }
        }
    }

    /// True when the logical content is empty.
    pub fn is_empty(&self) -> (r: bool)
        requires
            self.wf(),
        ensures
            r <==> self.spec_len() == 0,
    {
        self.len_usize() == 0
    }

    /// The logical length, as a 32-bit value.
    pub fn len_dword(&self) -> (r: u32)
        requires
            self.wf(),
            self.spec_len() <= u32::MAX,
        ensures
            r == self.spec_len(),
    {
        self.len_usize() as u32
    }

    /// The logical length including the terminator.
    pub fn len_with_nul_usize(&self) -> (r: usize)
        requires
            self.wf(),
        ensures
            r == self.spec_len() + 1,
    {
        proof {
            self.lemma_wf_len();
        }
        let n = self.units.len();
        let l = self.len_usize();
        assert(l < n);
        l + 1
    }

    /// The logical length including the terminator, as a 32-bit value.
    pub fn len_with_nul_dword(&self) -> (r: u32)
        requires
            self.wf(),
            self.spec_len() + 1 <= u32::MAX,
        ensures
            r == self.spec_len() + 1,
    {
        self.len_with_nul_usize() as u32
    }

    /// Size in bytes of the content including the terminator.
    pub fn sizeof_usize(&self) -> (r: usize)
        requires
            self.wf(),
            (self.spec_len() + 1) * 4 <= usize::MAX,
        ensures
            r == (self.spec_len() + 1) * U::unit_size_spec(),
    {
        let l = self.len_with_nul_usize();
        let sz = U::unit_size();
        proof {
            vstd::arithmetic::mul::lemma_mul_inequality(sz as int, 4, l as int);
            vstd::arithmetic::mul::lemma_mul_is_commutative(l as int, sz as int);
        }
        l * sz
    }

    /// Size in bytes of the content including the terminator, as a 32-bit
    /// value.
    pub fn sizeof_dword(&self) -> (r: u32)
        requires
            self.wf(),
            (self.spec_len() + 1) * 4 <= u32::MAX,
        ensures
            r == (self.spec_len() + 1) * U::unit_size_spec(),
    {
        let r = self.sizeof_usize();
        proof {
            self.lemma_wf_len();
            U::lemma_unit_size_bounded();
            vstd::arithmetic::mul::lemma_mul_inequality(
                U::unit_size_spec() as int,
                4,
                self.spec_len() + 1,
            );
            vstd::arithmetic::mul::lemma_mul_is_commutative(
                self.spec_len() + 1,
                U::unit_size_spec() as int,
            );
        }
        r as u32
    }

    /// Total buffer slots excluding one terminator slot: how many units the
    /// string can hold before it must grow.
    pub fn capacity_usize(&self) -> (r: usize)
        requires
            self.wf(),
        ensures
            r == self.raw().len() - 1,
    {
        self.units.len() - 1
    }

    /// The capacity, as a 32-bit value.
    pub fn capacity_dword(&self) -> (r: u32)
        requires
            self.wf(),
            self.raw().len() - 1 <= u32::MAX,
        ensures
            r == self.raw().len() - 1,
    {
        self.capacity_usize() as u32
    }

    /// Grows the buffer, zero-filling, until it holds at least `total`
    /// slots; a buffer already that large is untouched. Content and hint
    /// are preserved.
    pub fn reserve(&mut self, total: usize)
        requires
            old(self).wf(),
        ensures
            final(self).wf(),
            final(self).hint() == old(self).hint(),
            final(self).raw() == if total <= old(self).raw().len() {
                old(self).raw()
            } else {
                old(self).raw() + Seq::new((total - old(self).raw().len()) as nat, |i: int| 0u32)
            },
            final(self).raw().len() >= total,
            final(self).content() == old(self).content(),
            final(self).spec_len() == old(self).spec_len(),
    {
        proof {
            self.lemma_wf_len();
        }
        let n = self.units.len();
        let ghost ob = self.raw();
        let mut i = n;
        while i < total
            invariant
                n <= i,
                i <= total || i == n,
                self.units@.len() == i,
                self.len_hint == old(self).len_hint,
                self.raw().take(n as int) == ob,
                forall|j: int| n <= j < i ==> self.raw()[j] == 0,
            decreases total - i,
        {
            let ghost prev = self.units@;
            self.units.push(U::nul());
            proof {
                assert(self.units@ == prev.push(self.units@[i as int]));
                assert(self.raw().take(n as int) =~= ob);
                assert forall|j: int| n <= j < i + 1 implies self.raw()[j] == 0 by {
                    if j < i {
                        assert(self.units@[j] == prev[j]);
                        assert(unit_vals(prev)[j] == prev[j].val());
                    }
                }
            }
            i = i + 1;
        }
        proof {
            if total <= n {
                assert(self.raw() =~= ob);
            } else {
                assert(self.raw() =~= ob + Seq::new((total - n) as nat, |j: int| 0u32));
                assert(self.raw().last() == 0);
            }
            lemma_first_zero_exact(self.raw(), old(self).spec_len());
            assert(self.content() =~= old(self).content());
        }
    }

    /// The logical content, without the terminator.
    pub fn as_slice(&self) -> (r: &[U])
        requires
            self.wf(),
        ensures
            unit_vals(r@) == self.content(),
    {
        proof {
            self.lemma_wf_len();
        }
        let l = self.len_usize();
        let r = vstd::slice::slice_subrange(self.units.as_slice(), 0, l);
        assert(unit_vals(r@) =~= self.content());
        r
    }

    /// The logical content together with its terminator.
    pub fn as_slice_with_nul(&self) -> (r: &[U])
        requires
            self.wf(),
        ensures
            unit_vals(r@) == self.content().push(0u32),
    {
        proof {
            self.lemma_wf_len();
        }
        let n = self.units.len();
        let l = self.len_usize();
        assert(l < n);
        let r = vstd::slice::slice_subrange(self.units.as_slice(), 0, l + 1);
        assert(unit_vals(r@) =~= self.content().push(0u32));
        r
    }

    /// The entire buffer, terminator and slack included.
    pub fn as_slice_full(&self) -> (r: &[U])
        requires
            self.wf(),
        ensures
            unit_vals(r@) == self.raw(),
    {
        let r = self.units.as_slice();
        r
    }

    /// A view of the whole buffer.
    pub fn as_cstr(&self) -> (r: CStrView<U>)
        requires
            self.wf(),
        ensures
            r.wf(),
            r.offset() == 0,
            r.backing() == self.raw(),
    {
        proof {
            assert(unit_vals(self.units@).last() == 0);
        }
        match CStrView::try_from_slice(self.units.as_slice()) {
            Ok(v) => v,
            // Unreachable: the buffer always ends in a zero.
            Err(_) => vstd::pervasive::unreached(),
        }
    }

    /// Builds an owned string from a copy of the given units. A slice that
    /// does not end in a zero gets one appended; what it holds past an
    /// interior zero is kept as slack.
    pub fn from_units(value: &[U]) -> (r: Self)
        ensures
            r.wf(),
            r.raw() == if value@.len() > 0 && unit_vals(value@).last() == 0 {
                unit_vals(value@)
            } else {
                unit_vals(value@) + seq![0u32]
            },
            r.hint() == r.spec_len(),
    {
        let n = value.len();
        let mut units = vstd::slice::slice_to_vec(value);
        if n == 0 || !value[n - 1].is_nul() {
            units.push(U::nul());
        }
        let mut r = CStringBuf { units, len_hint: 0usize };
        proof {
            if n > 0 && unit_vals(value@).last() == 0 {
                assert(r.raw() =~= unit_vals(value@));
            } else {
                assert(r.raw() =~= unit_vals(value@) + seq![0u32]);
            }
            assert(r.raw().last() == 0);
        }
        let _ = r.refresh();
        r
    }

    /// Copies a borrowed view, slack past the terminator included, into a
    /// fresh owned string.
    pub fn from_cstr(v: &CStrView<U>) -> (r: Self)
        requires
            v.wf(),
        ensures
            r.wf(),
            r.raw() == v.full(),
            r.hint() == r.spec_len(),
    {
        proof {
            v.lemma_wf_len();
        }
        let full = v.as_slice_full();
        let r = Self::from_units(full);
        proof {
            assert(unit_vals(full@).last() == 0);
        }
        r
    }

    /// Decodes the logical content to text; fails exactly when some unit is
    /// not a legal scalar value.
    pub fn decode(&self) -> (r: Option<String>)
        requires
            self.wf(),
        ensures
            r is Some <==> decodable(self.content()),
            r matches Some(s) ==> s@ == chars_of_units(self.content()),
    {
        crate::codec::decode_units(self.as_slice())
    }

    /// A presentation form of the content: each unit decoded to a
    /// character. Fails exactly when some unit is not a legal scalar value.
    pub fn display(&self) -> (r: Option<String>)
        requires
            self.wf(),
        ensures
            r is Some <==> decodable(self.content()),
            r matches Some(s) ==> s@ == chars_of_units(self.content()),
    {
        self.decode()
    }
}

/// `base` extended with zero-filled slack up to `total` slots, or `base`
/// itself when already that long. The owned string's write operations keep
/// their buffer at least as long as before, so room made by `reserve` or
/// `with_capacity` survives every write.
pub open spec fn grown(base: Seq<u32>, total: int) -> Seq<u32> {
    if base.len() >= total {
        base
    } else {
        base + Seq::new((total - base.len()) as nat, |i: int| 0u32)
    }
}

impl<U: CodeUnit> CStringBuf<U> {
    /// Rewrites the buffer in place to its first `keep` units followed by
    /// `src` and, when `term` is set, one terminator, then zero-fills back
    /// up to the buffer's former length: reserved room is never given up.
    /// The hint is untouched.
    fn rebuild(&mut self, keep: usize, src: &[U], term: bool)
        requires
            keep <= old(self).raw().len(),
        ensures
            final(self).raw() == grown(
                old(self).raw().take(keep as int) + unit_vals(src@) + (
                if term {
                    seq![0u32]
                } else {
                    Seq::<u32>::empty()
                }),
                old(self).raw().len() as int,
            ),
            final(self).raw().len() >= old(self).raw().len(),
            final(self).hint() == old(self).hint(),
    {
        let old_len = self.units.len();
        let sn = src.len();
        self.units.truncate(keep);
        let mut j: usize = 0;
        while j < sn
            invariant
                j <= sn,
                sn == src@.len(),
                self.units@.len() == keep + j,
                self.units@.take(keep as int) == old(self).units@.take(keep as int),
                forall|t: int| 0 <= t < j ==> self.units@[keep + t] == src@[t],
                self.len_hint == old(self).len_hint,
            decreases sn - j,
        {
            self.units.push(src[j]);
            proof {
                assert(self.units@.take(keep as int) =~= old(self).units@.take(keep as int));
            }
            j = j + 1;
        }
        if term {
            self.units.push(U::nul());
            proof {
                assert(self.units@.take(keep as int) =~= old(self).units@.take(keep as int));
            }
        }
        let ghost base = unit_vals(self.units@);
        let ghost bl = self.units@.len() as int;
        let ghost target = old(self).raw().take(keep as int) + unit_vals(src@) + (
        if term {
            seq![0u32]
        } else {
            Seq::<u32>::empty()
        });
        proof {
            assert forall|t: int| 0 <= t < bl implies base[t] == target[t] by {
                assert(base[t] == self.units@[t].val());
                if t < keep {
                    assert(self.units@.take(keep as int)[t] == old(self).units@.take(
                        keep as int,
                    )[t]);
                    assert(old(self).raw().take(keep as int)[t] == old(self).units@[t].val());
                } else if t < keep + sn {
                    assert(self.units@[t] == src@[t - keep]);
                    assert(unit_vals(src@)[t - keep] == src@[t - keep].val());
                }
            }
            assert(base =~= target);
        }
        while self.units.len() < old_len
            invariant
                old_len == old(self).raw().len(),
                base.len() == bl,
                bl <= self.units@.len(),
                self.units@.len() <= if bl >= old_len as int {
                    bl
                } else {
                    old_len as int
                },
                unit_vals(self.units@).take(bl) == base,
                forall|t: int| bl <= t < self.units@.len() ==> unit_vals(self.units@)[t] == 0,
                self.len_hint == old(self).len_hint,
            decreases old_len - self.units@.len(),
        {
            let z = U::nul();
            let ghost prevu = self.units@;
            self.units.push(z);
            proof {
                assert(self.units@ == prevu.push(z));
                assert forall|t: int|
                    bl <= t < self.units@.len() implies unit_vals(self.units@)[t] == 0 by {
                    assert(unit_vals(self.units@)[t] == self.units@[t].val());
                    if t < prevu.len() {
                        assert(self.units@[t] == prevu[t]);
                        assert(unit_vals(prevu)[t] == prevu[t].val());
                    } else {
                        assert(self.units@[t] == z);
                    }
                }
                assert(unit_vals(self.units@).take(bl) =~= base);
            }
        }
        proof {
            if bl >= old_len {
                assert(self.units@.len() == bl);
                assert(self.raw() =~= base);
                assert(self.raw() =~= grown(base, old_len as int));
            } else {
                assert(self.units@.len() == old_len);
                assert(self.raw() =~= base + Seq::new((old_len - bl) as nat, |i: int| 0u32));
            }
        }
    }

    /// Appends raw code units to the logical content: the buffer holds the
    /// content, the units as given, and a terminator when the units do not
    /// already end in one, zero-filled back up to its former length. An
    /// empty input changes nothing. Returns how many units were appended.
    pub fn write_units(&mut self, src: &[U]) -> (r: usize)
        requires
            old(self).wf(),
        ensures
            r == src@.len(),
            final(self).wf(),
            final(self).hint() == old(self).hint(),
            final(self).raw().len() >= old(self).raw().len(),
            final(self).raw() == if src@.len() == 0 {
                old(self).raw()
            } else if unit_vals(src@).last() == 0 {
                grown(old(self).content() + unit_vals(src@), old(self).raw().len() as int)
            } else {
                grown(
                    old(self).content() + unit_vals(src@) + seq![0u32],
                    old(self).raw().len() as int,
                )
            },
    {
        let sn = src.len();
        if sn == 0 {
            return 0;
        }
        proof {
            self.lemma_wf_len();
        }
        let prev = self.len_usize();
        let needs_term = !src[sn - 1].is_nul();
        self.rebuild(prev, src, needs_term);
        proof {
            let base = old(self).content() + unit_vals(src@) + (if needs_term {
                seq![0u32]
            } else {
                Seq::<u32>::empty()
            });
            // Either the rewritten buffer outgrew the old one and ends in
            // the units or terminator just written, or zero-fill padding
            // ends it; the case split unfolds `grown` on each side.
            if base.len() >= old(self).raw().len() {
                if needs_term {
                    assert(self.raw().last() == 0);
                } else {
                    assert(self.raw().last() == unit_vals(src@).last());
                }
            } else {
                assert(self.raw().last() == 0);
            }
        }
        sn
    }

    /// Appends another string's content and terminator to the logical
    /// content, the buffer zero-filled back up to its former length. This
    /// cannot fail: the buffer grows as needed.
    pub fn write_view(&mut self, other: &CStrView<U>) -> (r: Result<(), crate::WriteError>)
        requires
            old(self).wf(),
            other.wf(),
        ensures
            r is Ok,
            final(self).wf(),
            final(self).hint() == old(self).hint(),
            final(self).raw().len() >= old(self).raw().len(),
            final(self).raw() == grown(
                old(self).content() + other.content() + seq![0u32],
                old(self).raw().len() as int,
            ),
    {
        proof {
            self.lemma_wf_len();
            other.lemma_wf_len();
        }
        let prev = self.len_usize();
        let content = other.as_slice_with_nul();
        self.rebuild(prev, content, false);
        proof {
            assert(old(self).raw().take(prev as int) == old(self).content());
            let base = old(self).content() + other.content() + seq![0u32];
            assert(old(self).raw().take(prev as int) + unit_vals(content@)
                + Seq::<u32>::empty() =~= base);
            // Either the rewritten buffer outgrew the old one and ends in
            // the terminator just written, or zero-fill padding ends it;
            // the case split unfolds `grown` on each side.
            if base.len() >= old(self).raw().len() {
                assert(self.raw().last() == 0);
            } else {
                assert(self.raw().last() == 0);
            }
        }
        Ok(())
    }

    /// Writes one unit as a one-character string: its content followed by a
    /// terminator. A zero unit appends only a terminator.
    pub fn write_unit_char(&mut self, c: U) -> (r: Result<(), crate::WriteError>)
        requires
            old(self).wf(),
        ensures
            r is Ok,
            final(self).wf(),
            final(self).hint() == old(self).hint(),
            final(self).raw().len() >= old(self).raw().len(),
            final(self).raw() == grown(
                old(self).content() + seq![c.val()].take(
                    if c.val() == 0 {
                        0
                    } else {
                        1
                    },
                ) + seq![0u32],
                old(self).raw().len() as int,
            ),
    {
        let mut two: Vec<U> = Vec::new();
        two.push(c);
        two.push(U::nul());
        let v = match CStrView::try_from_slice(two.as_slice()) {
            Ok(v) => v,
            // Unreachable: the two-unit slice ends in a zero.
            Err(_) => vstd::pervasive::unreached(),
        };
        proof {
            lemma_first_zero(v.full());
            if c.val() == 0 {
                lemma_first_zero_exact(v.full(), 0);
            } else {
                lemma_first_zero_exact(v.full(), 1);
            }
            assert(v.content() =~= seq![c.val()].take(v.spec_len()));
        }
        self.write_view(&v)
    }

    /// Decodes `data` as UTF-8 text up to its longest valid prefix,
    /// transcodes every scalar of it, and appends the units to the logical
    /// content with a terminator; the buffer grows as needed and keeps its
    /// former length, zero-filled, when that is longer. Reports how many
    /// source bytes were consumed: the valid prefix. Fails, changing
    /// nothing, when some scalar does not fit the width.
    pub fn write(&mut self, data: &[u8]) -> (r: Result<usize, crate::WriteError>)
        requires
            old(self).wf(),
        ensures
            ({
                let vb = crate::scanner::valid_prefix_len(data@);
                let chars = vstd::utf8::decode_utf8(data@.take(vb));
                match r {
                    Ok(n) => {
                        &&& n == vb <= data@.len()
                        &&& vstd::utf8::valid_utf8(data@.take(n as int))
                        &&& crate::scanner::prefix_fitting(chars, U::max_val()) == chars.len()
                        &&& final(self).wf()
                        &&& final(self).hint() == final(self).spec_len()
                        &&& final(self).raw().len() >= old(self).raw().len()
                        &&& final(self).raw() == grown(
                            old(self).content() + units_of_chars(chars) + seq![0u32],
                            old(self).raw().len() as int,
                        )
                    },
                    Err(e) => {
                        &&& e == crate::WriteError::Unrepresentable
                        &&& crate::scanner::prefix_fitting(chars, U::max_val()) < chars.len()
                        &&& *final(self) == *old(self)
                    },
                }
            }),
    {
        proof {
            self.lemma_wf_len();
        }
        let prev = self.len_usize();
        let vb = match crate::scanner::check_is_valid_utf8(data) {
            Ok(()) => {
                proof {
                    assert(data@.subrange(0, data@.len() as int) =~= data@);
                    crate::scanner::lemma_valid_prefix_len_exact(data@, data@.len() as int);
                }
                data.len()
            },
            Err(n) => {
                proof {
                    crate::scanner::lemma_valid_prefix_len_exact(data@, n as int);
                }
                n
            },
        };
        let vslice = vstd::slice::slice_subrange(data, 0, vb);
        let ghost chars = vstd::utf8::decode_utf8(vslice@);
        proof {
            crate::scanner::lemma_decode_len(vslice@);
        }
        match crate::codec::transcode_units::<U>(vslice, vb) {
            Err(e) => {
                proof {
                    assert(chars.take(chars.len() as int) =~= chars);
                    crate::scanner::lemma_prefix_fitting(chars, U::max_val());
                }
                Err(e)
            },
            Ok((units, _consumed)) => {
                proof {
                    assert(chars.take(chars.len() as int) =~= chars);
                }
                self.rebuild(prev, units.as_slice(), true);
                proof {
                    let base = old(self).content() + units_of_chars(chars) + seq![0u32];
                    assert(old(self).raw().take(prev as int) + unit_vals(units@) + seq![0u32]
                        =~= base);
                    assert(self.raw() == grown(base, old(self).raw().len() as int));
                    // The case split unfolds `grown` on each side; the
                    // buffer ends in the written terminator or in padding.
                    if base.len() >= old(self).raw().len() {
                        assert(self.raw().last() == 0);
                    } else {
                        assert(self.raw().last() == 0);
                    }
                    assert(data@.take(vb as int) =~= vslice@);
                    assert(vstd::utf8::valid_utf8(vslice@));
                }
                let _ = self.refresh();
                Ok(vb)
            },
        }
    }

    /// Writes a text whole: every scalar transcoded and appended to the
    /// logical content with a terminator; the buffer grows as needed and
    /// old slack is dropped. Fails, changing nothing, when some scalar does
    /// not fit the width.
    pub fn write_str(&mut self, text: &str) -> (r: Result<(), crate::WriteError>)
        requires
            old(self).wf(),
        ensures
            ({
                let chars = text@;
                match r {
                    Ok(()) => {
                        &&& crate::scanner::prefix_fitting(chars, U::max_val()) == chars.len()
                        &&& final(self).wf()
                        &&& final(self).hint() == final(self).spec_len()
                        &&& final(self).raw().len() >= old(self).raw().len()
                        &&& final(self).raw() == grown(
                            old(self).content() + units_of_chars(chars) + seq![0u32],
                            old(self).raw().len() as int,
                        )
                    },
                    Err(e) => {
                        &&& e == crate::WriteError::Unrepresentable
                        &&& crate::scanner::prefix_fitting(chars, U::max_val()) < chars.len()
                        &&& *final(self) == *old(self)
                    },
                }
            }),
    {
        proof {
            self.lemma_wf_len();
        }
        let prev = self.len_usize();
        let bytes = text.as_bytes();
        proof {
            vstd::utf8::encode_utf8_valid_utf8(text@);
            vstd::utf8::encode_utf8_decode_utf8(text@);
        }
        let ghost chars = vstd::utf8::decode_utf8(bytes@);
        let cl = text.unicode_len();
        match crate::codec::transcode_units::<U>(bytes, cl) {
            Err(e) => {
                proof {
                    assert(chars.take(cl as int) =~= text@);
                }
                Err(e)
            },
            Ok((units, _consumed)) => {
                proof {
                    assert(chars.take(cl as int) =~= text@);
                }
                self.rebuild(prev, units.as_slice(), true);
                proof {
                    let base = old(self).content() + units_of_chars(text@) + seq![0u32];
                    assert(old(self).raw().take(prev as int) + unit_vals(units@) + seq![0u32]
                        =~= base);
                    assert(self.raw() == grown(base, old(self).raw().len() as int));
                    // The case split unfolds `grown` on each side; the
                    // buffer ends in the written terminator or in padding.
                    if base.len() >= old(self).raw().len() {
                        assert(self.raw().last() == 0);
                    } else {
                        assert(self.raw().last() == 0);
                    }
                }
                let _ = self.refresh();
                Ok(())
            },
        }
    }

    /// Writes the whole of `data` when it is valid UTF-8 and every scalar
    /// fits; a trailing invalid fragment leaves the valid part written and
    /// reports `WriteZero`.
    pub fn write_all(&mut self, data: &[u8]) -> (r: Result<(), crate::WriteError>)
        requires
            old(self).wf(),
        ensures
            ({
                let vb = crate::scanner::valid_prefix_len(data@);
                let chars = vstd::utf8::decode_utf8(data@.take(vb));
                match r {
                    Ok(()) => {
                        &&& vb == data@.len()
                        &&& crate::scanner::prefix_fitting(chars, U::max_val()) == chars.len()
                        &&& final(self).wf()
                        &&& final(self).raw().len() >= old(self).raw().len()
                        &&& final(self).raw() == grown(
                            old(self).content() + units_of_chars(chars) + seq![0u32],
                            old(self).raw().len() as int,
                        )
                    },
                    Err(e) => {
                        &&& e == crate::WriteError::Unrepresentable ==> {
                            &&& crate::scanner::prefix_fitting(chars, U::max_val()) < chars.len()
                            &&& *final(self) == *old(self)
                        }
                        &&& e == crate::WriteError::WriteZero ==> {
                            &&& vb < data@.len()
                            &&& final(self).wf()
                            &&& final(self).raw().len() >= old(self).raw().len()
                            &&& final(self).raw() == grown(
                                old(self).content() + units_of_chars(chars) + seq![0u32],
                                old(self).raw().len() as int,
                            )
                        }
                        &&& (e == crate::WriteError::WriteZero || e
                            == crate::WriteError::Unrepresentable)
                    },
                }
            }),
    {
        match self.write(data) {
            Err(e) => Err(e),
            Ok(n) => {
                if n == data.len() {
                    Ok(())
                } else {
                    Err(crate::WriteError::WriteZero)
                }
            },
        }
    }

    /// Completes any buffered writing; writes here are immediate, so this
    /// does nothing and cannot fail.
    pub fn flush(&mut self) -> (r: Result<(), crate::WriteError>)
        ensures
            r is Ok,
            *final(self) == *old(self),
    {
        Ok(())
    }
}

impl U8CString {
    /// Encodes a text at the 8-bit width into a fresh owned string. Fails
    /// exactly when some scalar exceeds `0xFF`.
    pub fn encode(data: &str) -> (r: Option<Self>)
        ensures
            r is Some <==> encodable(data@, 0xFF),
            r matches Some(v) ==> {
                &&& v.wf()
                &&& v.raw() == if data@.len() > 0 && (data@[data@.len() - 1] as u32) == 0 {
                    units_of_chars(data@)
                } else {
                    units_of_chars(data@) + seq![0u32]
                }
            },
    {
        encode_to_cstring(data)
    }
}

impl U16CString {
    /// Encodes a text at the 16-bit width into a fresh owned string. Fails
    /// exactly when some scalar exceeds `0xFFFF`.
    pub fn encode(data: &str) -> (r: Option<Self>)
        ensures
            r is Some <==> encodable(data@, 0xFFFF),
            r matches Some(v) ==> {
                &&& v.wf()
                &&& v.raw() == if data@.len() > 0 && (data@[data@.len() - 1] as u32) == 0 {
                    units_of_chars(data@)
                } else {
                    units_of_chars(data@) + seq![0u32]
                }
            },
    {
        encode_to_cstring(data)
    }
}

impl U32CString {
    /// Encodes a text at the 32-bit width into a fresh owned string; every
    /// scalar fits, so this cannot fail.
    pub fn encode(data: &str) -> (r: Self)
        ensures
            r.wf(),
            r.raw() == if data@.len() > 0 && (data@[data@.len() - 1] as u32) == 0 {
                units_of_chars(data@)
            } else {
                units_of_chars(data@) + seq![0u32]
            },
    {
        match encode_to_cstring::<u32>(data) {
            Some(v) => v,
            // Unreachable: every scalar fits 32 bits.
            None => vstd::pervasive::unreached(),
        }
    }
}

/// Shared encode path: text to units to an owned string.
fn encode_to_cstring<U: CodeUnit>(data: &str) -> (r: Option<CStringBuf<U>>)
    ensures
        r is Some <==> encodable(data@, U::max_val()),
        r matches Some(v) ==> {
            &&& v.wf()
            &&& v.raw() == if data@.len() > 0 && (data@[data@.len() - 1] as u32) == 0 {
                units_of_chars(data@)
            } else {
                units_of_chars(data@) + seq![0u32]
            }
        },
{
    let encoded = match crate::codec::encode_units::<U>(data) {
        None => {
            return None;
        },
        Some(e) => e,
    };
    proof {
        assert(unit_vals(encoded@).len() == units_of_chars(data@).len());
    }
    let r = CStringBuf::from_units(encoded.as_slice());
    Some(r)
}

impl<U: CodeUnit> Default for CStringBuf<U> {
    /// The default instance is the empty string.
    fn default() -> (r: Self)
        ensures
            r.wf(),
            r.raw() == seq![0u32],
            r.hint() == 0,
    {
        Self::new()
    }
}

/// An owned string whose buffer became content, appended units and one
/// terminator, zero-filled back up to its former length, has, when the
/// appended units are zero-free, exactly the old content extended by those
/// units.
pub proof fn lemma_content_after_append<U: CodeUnit>(
    pre: CStringBuf<U>,
    post: CStringBuf<U>,
    added: Seq<u32>,
)
    requires
        pre.wf(),
        forall|i: int| 0 <= i < added.len() ==> added[i] != 0,
        post.raw() == grown(pre.content() + added + seq![0u32], pre.raw().len() as int),
    ensures
        post.content() == pre.content() + added,
{
    pre.lemma_wf_len();
    let oc = pre.content();
    let base = oc + added + seq![0u32];
    let g = post.raw();
    assert forall|j: int| 0 <= j < base.len() implies g[j] == base[j] by {
        if base.len() < pre.raw().len() {
            assert(g == base + Seq::new((pre.raw().len() - base.len()) as nat, |i: int| 0u32));
        }
    }
    assert forall|j: int| 0 <= j < oc.len() + added.len() implies g[j] != 0 by {
        if j < oc.len() {
            assert(base[j] == oc[j]);
        } else {
            assert(base[j] == added[j - oc.len()]);
        }
    }
    assert(g[oc.len() + added.len() as int] == 0);
    lemma_first_zero_exact(g, oc.len() + added.len() as int);
    assert(post.content() =~= oc + added);
}

/// Law: refresh is idempotent. Refreshing twice in a row leaves the same
/// buffer and the same cached length as refreshing once.
pub proof fn law_refresh_idempotent<U: CodeUnit>(
    a: CStringBuf<U>,
    b: CStringBuf<U>,
    c: CStringBuf<U>,
)
    requires
        CStringBuf::refreshed(a, b),
        CStringBuf::refreshed(b, c),
    ensures
        c.raw() == b.raw(),
        c.hint() == b.hint(),
{
}

} // verus!
