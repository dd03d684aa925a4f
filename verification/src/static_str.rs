//! The fixed-capacity string type: inline storage of exactly `N + 1` code
//! units whose final slot is permanently zero and never exposed for
//! mutation.
//!
//! The logical length is found by scanning the content area, the first `N`
//! slots, for a zero; it can equal `N`, in which case the hidden final slot
//! is the terminator. Bounded in-place writes append at the current logical
//! length.

use vstd::prelude::*;
use crate::StrError;
use crate::codec::{chars_of_units, decodable, encodable, units_of_chars};
use crate::cstr::CStrView;
use crate::unit::{CodeUnit, first_zero, lemma_first_zero, lemma_first_zero_exact, unit_vals};

verus! {

/// A fixed-capacity string of `N` code units of width `U`, with one hidden
/// extra terminator slot.
#[derive(Debug, Clone)]
pub struct StaticCStr<U, const N: usize> {
    units: Vec<U>,
}

/// The 8-bit instantiation.
pub type StaticU8CStr<const N: usize> = StaticCStr<u8, N>;

/// The 16-bit instantiation.
pub type StaticU16CStr<const N: usize> = StaticCStr<u16, N>;

/// The 32-bit instantiation.
pub type StaticU32CStr<const N: usize> = StaticCStr<u32, N>;

impl<U: CodeUnit, const N: usize> StaticCStr<U, N> {
    /// The numeric image of all `N + 1` stored slots.
    pub closed spec fn raw(self) -> Seq<u32> {
        unit_vals(self.units@)
    }

    /// Well-formed: all slots present and the final slot zero.
    pub open spec fn wf(self) -> bool {
        &&& self.raw().len() == N + 1
        &&& self.raw()[N as int] == 0
    }

    /// The content area: the first `N` slots.
    pub open spec fn full(self) -> Seq<u32> {
        self.raw().take(N as int)
    }

    /// Logical length: the offset of the first zero in the content area, or
    /// `N` when the area holds none.
    pub open spec fn spec_len(self) -> int {
        first_zero(self.full())
    }

    /// Logical content: the maximal zero-free prefix of the content area.
    pub open spec fn content(self) -> Seq<u32> {
        self.full().take(self.spec_len())
    }

    /// Bounds of the logical length.
    pub proof fn lemma_wf_len(self)
        requires
            self.wf(),
        ensures
            self.full().len() == N,
            0 <= self.spec_len() <= N,
            self.spec_len() < N ==> self.full()[self.spec_len()] == 0,
            forall|i: int| 0 <= i < self.spec_len() ==> self.full()[i] != 0,
    {
        lemma_first_zero(self.full());
    }

    /// A new instance holding only zeros.
    pub fn zeroed() -> (r: Self)
        ensures
            r.wf(),
            r.raw() == Seq::new((N + 1) as nat, |i: int| 0u32),
    {
        let mut units: Vec<U> = Vec::new();
        let mut i: usize = 0;
        while i < N
            invariant
                i <= N,
                units@.len() == i,
                forall|j: int| 0 <= j < i ==> (#[trigger] units@[j]).val() == 0,
            decreases N - i,
        {
            units.push(U::nul());
            i = i + 1;
        }
        units.push(U::nul());
        let r = StaticCStr { units };
        proof {
            assert(r.raw() =~= Seq::new((N + 1) as nat, |i: int| 0u32));
        }
        r
    }

    /// Copies the given units into a fresh instance, zero-filling the rest
    /// of the content area. The data must fit the capacity.
    pub fn from_slice(data: &[U]) -> (r: Self)
        requires
            data@.len() <= N,
        ensures
            r.wf(),
            r.full().take(data@.len() as int) == unit_vals(data@),
            forall|j: int| data@.len() <= j < N ==> r.full()[j] == 0,
    {
        let dn = data.len();
        let mut units: Vec<U> = Vec::new();
        let mut i: usize = 0;
        while i < dn
            invariant
                i <= dn,
                dn == data@.len(),
                dn <= N,
                units@.len() == i,
                forall|j: int|
                    0 <= j < i ==> (#[trigger] units@[j]).val() == unit_vals(data@)[j],
            decreases dn - i,
        {
            units.push(data[i]);
            i = i + 1;
        }
        while i < N
            invariant
                dn <= i <= N,
                dn == data@.len(),
                units@.len() == i,
                forall|j: int|
                    0 <= j < dn ==> (#[trigger] units@[j]).val() == unit_vals(data@)[j],
                forall|j: int| dn <= j < i ==> (#[trigger] units@[j]).val() == 0,
            decreases N - i,
        {
            units.push(U::nul());
            i = i + 1;
        }
        units.push(U::nul());
        let r = StaticCStr { units };
        proof {
            assert(r.full().take(dn as int) =~= unit_vals(data@));
        }
        r
    }

    /// Builds an instance from a slice that must fit the capacity and hold
    /// a zero; everything in the slice, slack past its first zero included,
    /// is copied. Fails with `NulNotFound` otherwise.
    pub fn try_from_slice(value: &[U]) -> (r: Result<Self, StrError>)
        ensures
            r is Ok <==> (value@.len() <= N && first_zero(unit_vals(value@)) < value@.len()),
            r matches Ok(v) ==> {
                &&& v.wf()
                &&& v.full().take(value@.len() as int) == unit_vals(value@)
                &&& forall|j: int| value@.len() <= j < N ==> v.full()[j] == 0
            },
    {
        proof {
            lemma_first_zero(unit_vals(value@));
        }
        let vn = value.len();
        if vn > N {
            return Err(StrError::NulNotFound);
        }
        let mut i: usize = 0;
        while i < vn
            invariant
                i <= vn,
                vn == value@.len(),
                vn <= N,
                forall|j: int| 0 <= j < i ==> unit_vals(value@)[j] != 0,
            decreases vn - i,
        {
            if value[i].is_nul() {
                proof {
                    lemma_first_zero_exact(unit_vals(value@), i as int);
                }
                return Ok(Self::from_slice(value));
            }
            i = i + 1;
        }
        proof {
            lemma_first_zero_exact(unit_vals(value@), vn as int);
        }
        Err(StrError::NulNotFound)
    }

    /// The capacity: code units the content area can hold, the hidden
    /// terminator slot not included.
    pub fn capacity_usize(&self) -> (r: usize)
        ensures
            r == N,
    {
        N
    }

    /// The capacity, as a 32-bit value.
    pub fn capacity_dword(&self) -> (r: u32)
        requires
            N <= u32::MAX,
        ensures
            r == N,
    {
        N as u32
    }

    /// Scans the content area for its first zero and returns the logical
    /// length; it never exceeds the capacity but can equal it.
    pub fn len_usize(&self) -> (r: usize)
        requires
            self.wf(),
        ensures
            r == self.spec_len(),
    {
        proof {
            self.lemma_wf_len();
        }
        let mut i: usize = 0;
        while i < N
            invariant
                self.wf(),
                i <= N,
                forall|j: int| 0 <= j < i ==> self.full()[j] != 0,
            decreases N - i,
        {
            if self.units[i].is_nul() {
                proof {
                    lemma_first_zero_exact(self.full(), i as int);
                }
                return i;
            }
            i = i + 1;
        }
        proof {
            lemma_first_zero_exact(self.full(), N as int);
        }
        N
    }

    /// True when the logical content is empty.
    pub fn is_empty(&self) -> (r: bool)
        requires
            self.wf(),
        ensures
            r <==> self.spec_len() == 0,
    {
        self.len_usize() == 0
    }

    /// The logical length, as a 32-bit value.
    pub fn len_dword(&self) -> (r: u32)
        requires
            self.wf(),
            N <= u32::MAX,
        ensures
            r == self.spec_len(),
    {
        proof {
            self.lemma_wf_len();
        }
        self.len_usize() as u32
    }

    /// The logical length including the terminator.
    pub fn len_with_nul_usize(&self) -> (r: usize)
        requires
            self.wf(),
        ensures
            r == self.spec_len() + 1,
    {
        proof {
            self.lemma_wf_len();
        }
        let n = self.units.len();
        let l = self.len_usize();
        assert(l < n);
        l + 1
    }

    /// The logical length including the terminator, as a 32-bit value.
    pub fn len_with_nul_dword(&self) -> (r: u32)
        requires
            self.wf(),
            N + 1 <= u32::MAX,
        ensures
            r == self.spec_len() + 1,
    {
        proof {
            self.lemma_wf_len();
        }
        self.len_with_nul_usize() as u32
    }

    /// Size in bytes of the content including the terminator.
    pub fn sizeof_usize(&self) -> (r: usize)
        requires
            self.wf(),
            (N + 1) * 4 <= usize::MAX,
        ensures
            r == (self.spec_len() + 1) * U::unit_size_spec(),
    {
        proof {
            self.lemma_wf_len();
        }
        let l = self.len_with_nul_usize();
        let sz = U::unit_size();
        proof {
            vstd::arithmetic::mul::lemma_mul_inequality(sz as int, 4, l as int);
            vstd::arithmetic::mul::lemma_mul_inequality(l as int, N + 1, 4);
            vstd::arithmetic::mul::lemma_mul_is_commutative(l as int, sz as int);
            vstd::arithmetic::mul::lemma_mul_is_commutative(l as int, 4);
        }
        l * sz
    }

    /// Size in bytes of the content including the terminator, as a 32-bit
    /// value.
    pub fn sizeof_dword(&self) -> (r: u32)
        requires
            self.wf(),
            (N + 1) * 4 <= u32::MAX,
        ensures
            r == (self.spec_len() + 1) * U::unit_size_spec(),
    {
        proof {
            self.lemma_wf_len();
            U::lemma_unit_size_bounded();
            vstd::arithmetic::mul::lemma_mul_inequality(
                U::unit_size_spec() as int,
                4,
                self.spec_len() + 1,
            );
            vstd::arithmetic::mul::lemma_mul_inequality(self.spec_len() + 1, N + 1, 4);
            vstd::arithmetic::mul::lemma_mul_is_commutative(
                self.spec_len() + 1,
                U::unit_size_spec() as int,
            );
            vstd::arithmetic::mul::lemma_mul_is_commutative(self.spec_len() + 1, 4);
        }
        self.sizeof_usize() as u32
    }

    /// The logical content, without the terminator.
    pub fn as_slice(&self) -> (r: &[U])
        requires
            self.wf(),
        ensures
            unit_vals(r@) == self.content(),
    {
        proof {
            self.lemma_wf_len();
        }
        let l = self.len_usize();
        let r = vstd::slice::slice_subrange(self.units.as_slice(), 0, l);
        assert(unit_vals(r@) =~= self.content());
        r
    }

    /// The logical content together with its terminator.
    pub fn as_slice_with_nul(&self) -> (r: &[U])
        requires
            self.wf(),
        ensures
            unit_vals(r@) == self.content().push(0u32),
    {
        proof {
            self.lemma_wf_len();
        }
        let n = self.units.len();
        let l = self.len_usize();
        assert(l < n);
        let r = vstd::slice::slice_subrange(self.units.as_slice(), 0, l + 1);
        assert(unit_vals(r@) =~= self.content().push(0u32));
        r
    }

    /// The whole content area, slack included; the hidden terminator slot
    /// is not exposed.
    pub fn as_slice_full(&self) -> (r: &[U])
        requires
            self.wf(),
        ensures
            unit_vals(r@) == self.full(),
    {
        let r = vstd::slice::slice_subrange(self.units.as_slice(), 0, N);
        assert(unit_vals(r@) =~= self.full());
        r
    }

    /// Writes one unit inside the content area; the hidden terminator slot
    /// is never exposed for mutation. Returns whether the index was
    /// writable; an index at or past the capacity changes nothing.
    pub fn set(&mut self, index: usize, value: U) -> (r: bool)
        requires
            old(self).wf(),
        ensures
            final(self).wf(),
            r <==> index < N,
            final(self).raw() == if index < N {
                old(self).raw().update(index as int, value.val())
            } else {
                old(self).raw()
            },
    {
        if index >= N {
            proof {
                assert(self.raw() =~= old(self).raw());
            }
            return false;
        }
        self.units[index] = value;
        proof {
            assert(self.raw() =~= old(self).raw().update(index as int, value.val()));
        }
        true
    }

    /// The unit at the given index of the content area, or `None` at or
    /// past the capacity.
    pub fn get(&self, index: usize) -> (r: Option<U>)
        requires
            self.wf(),
        ensures
            r is Some <==> index < N,
            r matches Some(u) ==> u.val() == self.full()[index as int],
    {
        if index >= N {
            return None;
        }
        Some(self.units[index])
    }

    /// A view of the whole backing, hidden terminator slot included.
    pub fn as_cstr(&self) -> (r: CStrView<U>)
        requires
            self.wf(),
        ensures
            r.wf(),
            r.offset() == 0,
            r.backing() == self.raw(),
    {
        proof {
            assert(unit_vals(self.units@).last() == 0);
        }
        let r = CStrView::try_from_slice(self.units.as_slice());
        match r {
            Ok(v) => v,
            // Unreachable: the backing always ends in the zero slot.
            Err(_) => vstd::pervasive::unreached(),
        }
    }

    /// The sub-view starting at `offset` of the backing, the hidden
    /// terminator slot included; an offset at or past the capacity yields
    /// the view of the final slot alone.
    pub fn range(&self, offset: usize) -> (r: CStrView<U>)
        requires
            self.wf(),
        ensures
            r.wf(),
            r.offset() == 0,
            r.backing() == self.raw().skip(
                if offset <= N {
                    offset as int
                } else {
                    N as int
                },
            ),
    {
        let v = self.as_cstr();
        let off = if offset <= N {
            offset
        } else {
            N
        };
        let r = v.range(off);
        proof {
            assert(v.full() =~= self.raw());
        }
        r
    }

    /// Decodes the logical content to text; fails exactly when some unit is
    /// not a legal scalar value.
    pub fn decode(&self) -> (r: Option<String>)
        requires
            self.wf(),
        ensures
            r is Some <==> decodable(self.content()),
            r matches Some(s) ==> s@ == chars_of_units(self.content()),
    {
        crate::codec::decode_units(self.as_slice())
    }

    /// A presentation form of the content: each unit decoded to a
    /// character. Fails exactly when some unit is not a legal scalar value.
    pub fn display(&self) -> (r: Option<String>)
        requires
            self.wf(),
        ensures
            r is Some <==> decodable(self.content()),
            r matches Some(s) ==> s@ == chars_of_units(self.content()),
    {
        self.decode()
    }


    /// Copies `src` into the content area at position `at` and terminates
    /// it with a zero; a copy that fills the area exactly is terminated by
    /// the hidden final slot.
    fn splice(&mut self, at: usize, src: &[U])
        requires
            old(self).wf(),
            at + src@.len() <= N,
        ensures
            final(self).wf(),
            final(self).raw() == old(self).raw().take(at as int) + unit_vals(src@) + seq![0u32]
                + old(self).raw().skip(at + src@.len() + 1),
    {
        let sn = src.len();
        let mut i: usize = 0;
        while i < sn
            invariant
                i <= sn,
                sn == src@.len(),
                at + sn <= N,
                self.units@.len() == old(self).units@.len(),
                old(self).wf(),
                forall|j: int|
                    0 <= j < i ==> (#[trigger] self.units@[at + j]).val() == unit_vals(src@)[j],
                forall|j: int|
                    0 <= j < self.units@.len() && !(at <= j < at + i) ==> self.units@[j] == old(
                        self,
                    ).units@[j],
            decreases sn - i,
        {
            self.units[at + i] = src[i];
            i = i + 1;
        }
        let ghost filled = self.units@;
        if at + sn < N {
            self.units[at + sn] = U::nul();
        }
        proof {
            let ob = old(self).raw();
            let a = at as int;
            let sv = sn as int;
            assert forall|j: int|
                0 <= j < ob.len() implies self.raw()[j] == (ob.take(a) + unit_vals(src@)
                + seq![0u32] + ob.skip(a + sv + 1))[j] by {
                assert(self.raw()[j] == self.units@[j].val());
                if at + sn < N {
                    assert(self.units@ =~= filled.update(a + sv, self.units@[a + sv]));
                }
                if j < a || j > a + sv {
                    assert(self.units@[j] == filled[j]);
                    assert(filled[j] == old(self).units@[j]);
                } else if j < a + sv {
                    assert(self.units@[j] == filled[j]);
                    assert(filled[a + (j - a)].val() == unit_vals(src@)[j - a]);
                } else {
                    if at + sn == N {
                        assert(self.units@[j] == filled[j]);
                        assert(filled[j] == old(self).units@[j]);
                        assert(ob[N as int] == 0);
                    }
                }
            }
            assert(self.raw() =~= ob.take(a) + unit_vals(src@) + seq![0u32] + ob.skip(
                a + sv + 1,
            ));
            assert(self.raw()[N as int] == 0);
        }
    }

    /// Decodes `data` as UTF-8 text up to its longest valid prefix,
    /// transcodes as many whole scalars as fit the remaining capacity,
    /// appends them at the current logical length with a terminator, and
    /// reports how many source bytes those scalars spanned. Fails, changing
    /// nothing, when a scalar that would be written does not fit the width.
    pub fn write(&mut self, data: &[u8]) -> (r: Result<usize, crate::WriteError>)
        requires
            old(self).wf(),
        ensures
            ({
                let vb = crate::scanner::valid_prefix_len(data@);
                let chars = vstd::utf8::decode_utf8(data@.take(vb));
                let prev = old(self).spec_len();
                let cap = N - prev;
                let w = if chars.len() <= cap {
                    chars.len() as int
                } else {
                    cap
                };
                match r {
                    Ok(n) => {
                        &&& crate::scanner::prefix_fitting(chars.take(w), U::max_val()) == w
                        &&& n <= vb <= data@.len()
                        &&& vstd::utf8::valid_utf8(data@.take(n as int))
                        &&& vstd::utf8::decode_utf8(data@.take(n as int)) == chars.take(w)
                        &&& final(self).wf()
                        &&& final(self).raw() == old(self).raw().take(prev) + units_of_chars(
                            chars.take(w),
                        ) + seq![0u32] + old(self).raw().skip(prev + w + 1)
                    },
                    Err(e) => {
                        &&& e == crate::WriteError::Unrepresentable
                        &&& crate::scanner::prefix_fitting(chars.take(w), U::max_val()) < w
                        &&& *final(self) == *old(self)
                    },
                }
            }),
    {
        proof {
            self.lemma_wf_len();
        }
        let prev = self.len_usize();
        let cap = N - prev;
        let vb = match crate::scanner::check_is_valid_utf8(data) {
            Ok(()) => {
                proof {
                    assert(data@.subrange(0, data@.len() as int) =~= data@);
                    crate::scanner::lemma_valid_prefix_len_exact(data@, data@.len() as int);
                }
                data.len()
            },
            Err(n) => {
                proof {
                    crate::scanner::lemma_valid_prefix_len_exact(data@, n as int);
                }
                n
            },
        };
        let vslice = vstd::slice::slice_subrange(data, 0, vb);
        match crate::codec::transcode_units::<U>(vslice, cap) {
            Err(e) => Err(e),
            Ok((units, consumed)) => {
                self.splice(prev, units.as_slice());
                proof {
                    assert(vslice@.take(consumed as int) =~= data@.take(consumed as int));
                    assert(vstd::utf8::valid_utf8(vslice@));
                    vstd::utf8::valid_utf8_split(vslice@, consumed as int);
                    assert(vslice@.subrange(0, consumed as int) =~= data@.take(consumed as int));
                }
                Ok(consumed)
            },
        }
    }

    /// Writes a text whole, appending all its scalars at the current
    /// logical length with a terminator. Fails, changing nothing, when the
    /// text does not fit the remaining capacity or when some scalar does
    /// not fit the width.
    pub fn write_str(&mut self, text: &str) -> (r: Result<(), crate::WriteError>)
        requires
            old(self).wf(),
        ensures
            ({
                let chars = text@;
                let prev = old(self).spec_len();
                let cap = N - prev;
                match r {
                    Ok(()) => {
                        &&& chars.len() <= cap
                        &&& crate::scanner::prefix_fitting(chars, U::max_val()) == chars.len()
                        &&& final(self).wf()
                        &&& final(self).raw() == old(self).raw().take(prev) + units_of_chars(
                            chars,
                        ) + seq![0u32] + old(self).raw().skip(prev + chars.len() + 1)
                    },
                    Err(e) => {
                        &&& *final(self) == *old(self)
                        &&& e == crate::WriteError::WriteZero ==> chars.len() > cap
                        &&& e == crate::WriteError::Unrepresentable ==> (chars.len() <= cap
                            && crate::scanner::prefix_fitting(chars, U::max_val()) < chars.len())
                        &&& (e == crate::WriteError::WriteZero || e
                            == crate::WriteError::Unrepresentable)
                    },
                }
            }),
    {
        proof {
            self.lemma_wf_len();
        }
        let prev = self.len_usize();
        let cap = N - prev;
        let cl = text.unicode_len();
        if cl > cap {
            return Err(crate::WriteError::WriteZero);
        }
        let bytes = text.as_bytes();
        proof {
            vstd::utf8::encode_utf8_valid_utf8(text@);
            vstd::utf8::encode_utf8_decode_utf8(text@);
        }
        let ghost chars = vstd::utf8::decode_utf8(bytes@);
        match crate::codec::transcode_units::<U>(bytes, cl) {
            Err(e) => {
                proof {
                    assert(chars.take(cl as int) =~= text@);
                }
                Err(e)
            },
            Ok((units, _consumed)) => {
                proof {
                    assert(chars.take(cl as int) =~= text@);
                }
                self.splice(prev, units.as_slice());
                Ok(())
            },
        }
    }

    /// Writes the whole of `data`, or reports why it could not: remaining
    /// capacity too small for the text reports `WriteZero` after writing
    /// what fit, and an unrepresentable scalar reports `Unrepresentable`.
    pub fn write_all(&mut self, data: &[u8]) -> (r: Result<(), crate::WriteError>)
        requires
            old(self).wf(),
        ensures
            ({
                let vb = crate::scanner::valid_prefix_len(data@);
                let chars = vstd::utf8::decode_utf8(data@.take(vb));
                let prev = old(self).spec_len();
                let cap = N - prev;
                let w = if chars.len() <= cap {
                    chars.len() as int
                } else {
                    cap
                };
                match r {
                    Ok(()) => {
                        &&& vb == data@.len()
                        &&& w == chars.len()
                        &&& crate::scanner::prefix_fitting(chars, U::max_val()) == chars.len()
                        &&& final(self).wf()
                        &&& final(self).raw() == old(self).raw().take(prev) + units_of_chars(
                            chars,
                        ) + seq![0u32] + old(self).raw().skip(prev + chars.len() + 1)
                    },
                    Err(e) => {
                        &&& e == crate::WriteError::Unrepresentable ==> {
                            &&& crate::scanner::prefix_fitting(chars.take(w), U::max_val()) < w
                            &&& *final(self) == *old(self)
                        }
                        &&& e == crate::WriteError::WriteZero ==> {
                            &&& vb < data@.len() || w < chars.len()
                            &&& final(self).wf()
                            &&& final(self).raw() == old(self).raw().take(prev) + units_of_chars(
                                chars.take(w),
                            ) + seq![0u32] + old(self).raw().skip(prev + w + 1)
                        }
                        &&& (e == crate::WriteError::WriteZero || e
                            == crate::WriteError::Unrepresentable)
                    },
                }
            }),
    {
        match self.write(data) {
            Err(e) => Err(e),
            Ok(n) => {
                if n == data.len() {
                    proof {
                        let vb = crate::scanner::valid_prefix_len(data@);
                        let chars = vstd::utf8::decode_utf8(data@.take(vb));
                        assert(data@.take(n as int) =~= data@.take(vb));
                        crate::scanner::lemma_prefix_fitting(chars, U::max_val());
                    }
                    Ok(())
                } else {
                    proof {
                        // A short count means not everything fit: were the
                        // whole of `data` valid and every scalar within the
                        // remaining capacity, the consumed boundary would be
                        // the whole of `data`.
                        let vb = crate::scanner::valid_prefix_len(data@);
                        let chars = vstd::utf8::decode_utf8(data@.take(vb));
                        let prev = old(self).spec_len();
                        let cap = N - prev;
                        let w = if chars.len() <= cap {
                            chars.len() as int
                        } else {
                            cap
                        };
                        if vb == data@.len() && w == chars.len() {
                            crate::scanner::lemma_valid_prefix_valid(data@);
                            assert(data@.take(vb) =~= data@.subrange(0, vb));
                            vstd::utf8::decode_utf8_encode_utf8(data@.take(n as int));
                            vstd::utf8::decode_utf8_encode_utf8(data@.take(vb));
                            assert(chars.take(w) =~= chars);
                            assert(data@.take(n as int) == vstd::utf8::encode_utf8(chars));
                            assert(data@.take(vb) == vstd::utf8::encode_utf8(chars));
                            assert(n == vb);
                        }
                    }
                    Err(crate::WriteError::WriteZero)
                }
            },
        }
    }
}

/// Shared encode path: text to units to a fixed-capacity instance.
fn encode_static<U: CodeUnit, const N: usize>(data: &str) -> (r: Option<StaticCStr<U, N>>)
    ensures
        r is Some <==> (encodable(data@, U::max_val()) && data@.len() <= N),
        r matches Some(v) ==> {
            &&& v.wf()
            &&& v.full().take(data@.len() as int) == units_of_chars(data@)
            &&& forall|j: int| data@.len() <= j < N ==> v.full()[j] == 0
        },
{
    let encoded = match crate::codec::encode_units::<U>(data) {
        None => {
            return None;
        },
        Some(e) => e,
    };
    proof {
        assert(unit_vals(encoded@).len() == units_of_chars(data@).len());
    }
    if encoded.len() > N {
        return None;
    }
    Some(StaticCStr::from_slice(encoded.as_slice()))
}

impl<const N: usize> StaticU8CStr<N> {
    /// Encodes a text at the 8-bit width into a fresh instance. Fails
    /// exactly when some scalar exceeds `0xFF` or the text is longer than
    /// the capacity.
    pub fn encode(data: &str) -> (r: Option<Self>)
        ensures
            r is Some <==> (encodable(data@, 0xFF) && data@.len() <= N),
            r matches Some(v) ==> {
                &&& v.wf()
                &&& v.full().take(data@.len() as int) == units_of_chars(data@)
                &&& forall|j: int| data@.len() <= j < N ==> v.full()[j] == 0
            },
    {
        encode_static(data)
    }
}

impl<const N: usize> StaticU16CStr<N> {
    /// Encodes a text at the 16-bit width into a fresh instance. Fails
    /// exactly when some scalar exceeds `0xFFFF` or the text is longer
    /// than the capacity.
    pub fn encode(data: &str) -> (r: Option<Self>)
        ensures
            r is Some <==> (encodable(data@, 0xFFFF) && data@.len() <= N),
            r matches Some(v) ==> {
                &&& v.wf()
                &&& v.full().take(data@.len() as int) == units_of_chars(data@)
                &&& forall|j: int| data@.len() <= j < N ==> v.full()[j] == 0
            },
    {
        encode_static(data)
    }
}

impl<const N: usize> StaticU32CStr<N> {
    /// Encodes a text at the 32-bit width into a fresh instance. Fails
    /// exactly when the text is longer than the capacity; every scalar
    /// fits the width.
    pub fn encode(data: &str) -> (r: Option<Self>)
        ensures
            r is Some <==> data@.len() <= N,
            r matches Some(v) ==> {
                &&& v.wf()
                &&& v.full().take(data@.len() as int) == units_of_chars(data@)
                &&& forall|j: int| data@.len() <= j < N ==> v.full()[j] == 0
            },
    {
        let r = encode_static::<u32, N>(data);
        proof {
            assert(encodable(data@, 0xFFFFFFFFu32));
        }
        r
    }
}

impl<const N: usize> StaticU8CStr<N> {
    /// Encodes a text at the 8-bit width, silently dropping the scalars
    /// past the capacity. Fails exactly when some scalar exceeds `0xFF`.
    pub fn encode_truncate(data: &str) -> (r: Option<Self>)
        ensures
            r is Some <==> encodable(data@, 0xFF),
            r matches Some(v) ==> ({
                let k = if data@.len() <= N {
                    data@.len() as int
                } else {
                    N as int
                };
                &&& v.wf()
                &&& v.full().take(k) == units_of_chars(data@).take(k)
                &&& forall|j: int| k <= j < N ==> v.full()[j] == 0
            }),
    {
        let encoded = match crate::codec::encode_units::<u8>(data) {
            None => {
                return None;
            },
            Some(e) => e,
        };
        proof {
            assert(unit_vals(encoded@).len() == units_of_chars(data@).len());
        }
        let l = if encoded.len() <= N {
            encoded.len()
        } else {
            N
        };
        let part = vstd::slice::slice_subrange(encoded.as_slice(), 0, l);
        let r = Self::from_slice(part);
        proof {
            assert(unit_vals(part@) =~= units_of_chars(data@).take(l as int));
        }
        Some(r)
    }
}

impl<const N: usize> StaticU32CStr<N> {
    /// Encodes a text at the 32-bit width, silently dropping the scalars
    /// past the capacity; every scalar fits, so this cannot fail.
    pub fn encode_truncate(data: &str) -> (r: Self)
        ensures
            ({
                let k = if data@.len() <= N {
                    data@.len() as int
                } else {
                    N as int
                };
                &&& r.wf()
                &&& r.full().take(k) == units_of_chars(data@).take(k)
                &&& forall|j: int| k <= j < N ==> r.full()[j] == 0
            }),
    {
        let encoded = crate::codec::encode_u32(data);
        proof {
            assert(unit_vals(encoded@).len() == units_of_chars(data@).len());
        }
        let l = if encoded.len() <= N {
            encoded.len()
        } else {
            N
        };
        let part = vstd::slice::slice_subrange(encoded.as_slice(), 0, l);
        let r = Self::from_slice(part);
        proof {
            assert(unit_vals(part@) =~= units_of_chars(data@).take(l as int));
        }
        r
    }
}

impl<U: CodeUnit, const N: usize> StaticCStr<U, N> {
    /// The content area as seen by a defensive scan: clipped to the slots
    /// actually stored. On well-formed values this is `full()`.
    pub open spec fn raw_area(self) -> Seq<u32> {
        if self.raw().len() <= N {
            self.raw()
        } else {
            self.raw().take(N as int)
        }
    }

    /// The logical content as seen by a defensive scan: the zero-free
    /// prefix of the content area. Equality compares this, so it never
    /// inspects slack past the terminator. On well-formed values this is
    /// `content()`.
    pub open spec fn raw_content(self) -> Seq<u32> {
        self.raw_area().take(first_zero(self.raw_area()))
    }

    /// On a well-formed value the defensive content is the content.
    pub proof fn lemma_raw_content_wf(self)
        requires
            self.wf(),
        ensures
            self.raw_content() == self.content(),
    {
    }

    /// Offset of the first zero in the content area, or the area's length
    /// when it holds none. Makes no well-formedness assumption.
    fn scan_content_len(&self) -> (r: usize)
        ensures
            r == first_zero(self.raw_area()),
    {
        let n = self.units.len();
        let upto = if n <= N {
            n
        } else {
            N
        };
        let ghost area = self.raw_area();
        proof {
            if n > N {
                assert(area =~= self.raw().take(N as int));
            }
            assert(area.len() == upto);
        }
        let mut i: usize = 0;
        while i < upto
            invariant
                i <= upto,
                n == self.units@.len(),
                upto == if n <= N {
                    n as int
                } else {
                    N as int
                },
                area == self.raw_area(),
                area.len() == upto,
                forall|j: int| 0 <= j < i ==> area[j] != 0,
            decreases upto - i,
        {
            if self.units[i].is_nul() {
                proof {
                    lemma_first_zero_exact(area, i as int);
                }
                return i;
            }
            i = i + 1;
        }
        proof {
            lemma_first_zero_exact(area, upto as int);
        }
        upto
    }

    /// Whether the logical contents of two fixed-capacity strings, of
    /// possibly different capacities, are equal element-wise. Slack past
    /// either terminator is never inspected.
    pub fn content_eq<const M: usize>(&self, other: &StaticCStr<U, M>) -> (r: bool)
        ensures
            r <==> self.raw_content() == other.raw_content(),
    {
        proof {
            lemma_first_zero(self.raw_area());
            lemma_first_zero(other.raw_area());
        }
        let l1 = self.scan_content_len();
        let l2 = other.scan_content_len();
        if l1 != l2 {
            proof {
                assert(self.raw_content().len() != other.raw_content().len());
            }
            return false;
        }
        let mut i: usize = 0;
        while i < l1
            invariant
                i <= l1,
                l1 == l2,
                l1 == first_zero(self.raw_area()),
                l2 == first_zero(other.raw_area()),
                l1 <= self.raw_area().len(),
                l2 <= other.raw_area().len(),
                self.raw_area().len() <= self.units@.len(),
                other.raw_area().len() <= other.units@.len(),
                forall|j: int| 0 <= j < i ==> self.raw_content()[j] == other.raw_content()[j],
            decreases l1 - i,
        {
            if !self.units[i].same(other.units[i]) {
                proof {
                    assert(self.raw_content()[i as int] == self.raw_area()[i as int]);
                    assert(other.raw_content()[i as int] == other.raw_area()[i as int]);
                }
                return false;
            }
            i = i + 1;
        }
        proof {
            assert(self.raw_content() =~= other.raw_content());
        }
        true
    }
}

impl<U: CodeUnit, const A: usize, const B: usize> PartialEq<StaticCStr<U, B>> for StaticCStr<U, A> {
    /// Two fixed-capacity strings, of possibly different capacities, are
    /// equal when their zero-free logical prefixes are equal element-wise;
    /// trailing slack is never inspected.
    fn eq(&self, other: &StaticCStr<U, B>) -> (r: bool) {
        self.content_eq(other)
    }
}

impl<U: CodeUnit, const A: usize, const B: usize> vstd::std_specs::cmp::PartialEqSpecImpl<StaticCStr<U, B>> for StaticCStr<U, A> {
    open spec fn obeys_eq_spec() -> bool {
        true
    }

    open spec fn eq_spec(&self, other: &StaticCStr<U, B>) -> bool {
        self.raw_content() == other.raw_content()
    }
}

impl<U: CodeUnit, const N: usize> Eq for StaticCStr<U, N> {

}

impl<U: CodeUnit, const N: usize> Default for StaticCStr<U, N> {
    /// The default instance holds only zeros.
    fn default() -> (r: Self)
        ensures
            r.wf(),
            r.raw() == Seq::new((N + 1) as nat, |i: int| 0u32),
    {
        Self::zeroed()
    }
}

/// Law: equality ignores slack. Two fixed-capacity strings of possibly
/// different capacities compare equal exactly when their logical contents
/// are equal, whatever either holds past its terminator.
pub proof fn law_eq_ignores_slack<U: CodeUnit, const A: usize, const B: usize>(
    a: StaticCStr<U, A>,
    b: StaticCStr<U, B>,
)
    requires
        a.wf(),
        b.wf(),
    ensures
        vstd::std_specs::cmp::PartialEqSpec::eq_spec(&a, &b) <==> a.content() == b.content(),
{
    a.lemma_raw_content_wf();
    b.lemma_raw_content_wf();
}

/// Law: a truncating write fills the content area exactly to the capacity
/// boundary and leaves the string terminated. Given the state relation that
/// `write` establishes when the decoded text is longer than the remaining
/// capacity, and content free of zero scalars, the new logical length is
/// the full capacity and the new content is the old content extended by
/// exactly the units that fit.
pub proof fn law_truncating_write<U: CodeUnit, const N: usize>(
    pre: StaticCStr<U, N>,
    post: StaticCStr<U, N>,
    chars: Seq<char>,
)
    requires
        pre.wf(),
        chars.len() > N - pre.spec_len(),
        forall|i: int| 0 <= i < chars.len() ==> (#[trigger] chars[i] as u32) != 0,
        post.raw() == pre.raw().take(pre.spec_len()) + units_of_chars(
            chars.take(N - pre.spec_len()),
        ) + seq![0u32] + pre.raw().skip(N as int + 1),
    ensures
        post.wf(),
        post.spec_len() == N,
        post.content() == pre.content() + units_of_chars(chars.take(N - pre.spec_len())),
{
    pre.lemma_wf_len();
    let prev = pre.spec_len();
    let w = N - prev;
    assert(post.raw().len() == N + 1);
    assert(post.raw()[N as int] == 0);
    assert forall|j: int| 0 <= j < N implies post.full()[j] != 0 by {
        if j < prev {
            assert(post.full()[j] == pre.raw()[j]);
            assert(pre.full()[j] != 0);
        } else {
            assert(post.full()[j] == units_of_chars(chars.take(w))[j - prev]);
            assert((chars[j - prev] as u32) != 0);
        }
    }
    lemma_first_zero_exact(post.full(), N as int);
    assert(post.content() =~= pre.content() + units_of_chars(chars.take(w)));
}

/// Law: a write into a full string corrupts nothing. Given the state
/// relation that `write` establishes when the remaining capacity is zero,
/// the stored units are unchanged; with the write's contract this says such
/// a call reports zero units written.
pub proof fn law_overflow_write_preserves<U: CodeUnit, const N: usize>(
    pre: StaticCStr<U, N>,
    post: StaticCStr<U, N>,
)
    requires
        pre.wf(),
        pre.spec_len() == N,
        post.raw() == pre.raw().take(N as int) + units_of_chars(Seq::empty()) + seq![0u32]
            + pre.raw().skip(N as int + 1),
    ensures
        post.raw() == pre.raw(),
        post.content() == pre.content(),
{
    pre.lemma_wf_len();
    assert(units_of_chars(Seq::empty()) =~= Seq::<u32>::empty());
    assert(post.raw() =~= pre.raw());
}

impl<U: CodeUnit> CStrView<U> {
    /// Copies the view's content into a fixed-capacity string, zero-filling
    /// the rest. Fails exactly when the content is longer than the
    /// capacity.
    pub fn try_into_static<const CAP: usize>(&self) -> (r: Result<StaticCStr<U, CAP>, StrError>)
        requires
            self.wf(),
        ensures
            r is Ok <==> self.spec_len() <= CAP,
            r matches Ok(v) ==> {
                &&& v.wf()
                &&& v.full().take(self.spec_len()) == self.content()
                &&& forall|j: int| self.spec_len() <= j < CAP ==> v.full()[j] == 0
            },
    {
        let l = self.len_usize();
        if l > CAP {
            return Err(StrError::NulNotFound);
        }
        let content = self.as_slice();
        proof {
            self.lemma_wf_len();
            assert(unit_vals(content@).len() == content@.len());
            assert(content@.len() == self.spec_len());
        }
        Ok(StaticCStr::from_slice(content))
    }
}

} // verus!
