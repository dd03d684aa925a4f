//! Conversions between this crate's owned wide strings and the owned wide
//! C strings of the `widestring` crate.
//!
//! The `widestring` types are opaque here; what each value holds is named
//! by an uninterpreted content function, and the two calls relied on are
//! specified against the crate's documented behaviour: construction
//! truncates at the first nul, and extraction returns the content followed
//! by one nul and free of interior nuls.

use vstd::prelude::*;
use widestring::U16CString as WideString16;
use widestring::U32CString as WideString32;
use crate::cstring::{CStringBuf, U16CString, U32CString};
use crate::unit::{CodeUnit, first_zero, lemma_first_zero_exact, unit_vals};

verus! {

#[verifier::external_type_specification]
#[verifier::external_body]
pub struct ExWideU16CString(WideString16);

#[verifier::external_type_specification]
#[verifier::external_body]
pub struct ExWideU32CString(WideString32);

/// The 16-bit code units a `widestring::U16CString` holds, terminator not
/// included.
pub uninterp spec fn widestring_u16_units(s: WideString16) -> Seq<u16>;

/// The 32-bit code units a `widestring::U32CString` holds, terminator not
/// included.
pub uninterp spec fn widestring_u32_units(s: WideString32) -> Seq<u32>;

/// Relies on `widestring::U16CString::from_vec_truncate`: the result holds
/// the vector's units up to, not including, their first nul.
#[verifier::external_body]
fn u16cstring_from_vec_truncate(v: Vec<u16>) -> (r: WideString16)
    ensures
        widestring_u16_units(r) == v@.take(first_zero(unit_vals(v@))),
{
    widestring::U16CString::from_vec_truncate(v)
}

/// Relies on `widestring::U16CString::into_vec_with_nul`: the result is the
/// string's units followed by one nul, with no interior nul.
#[verifier::external_body]
fn u16cstring_into_vec_with_nul(s: WideString16) -> (r: Vec<u16>)
    ensures
        r@ == widestring_u16_units(s).push(0u16),
        forall|i: int| 0 <= i < widestring_u16_units(s).len() ==> r@[i] != 0,
{
    s.into_vec_with_nul()
}

/// Relies on `widestring::U32CString::from_vec_truncate`: the result holds
/// the vector's units up to, not including, their first nul.
#[verifier::external_body]
fn u32cstring_from_vec_truncate(v: Vec<u32>) -> (r: WideString32)
    ensures
        widestring_u32_units(r) == v@.take(first_zero(unit_vals(v@))),
{
    widestring::U32CString::from_vec_truncate(v)
}

/// Relies on `widestring::U32CString::into_vec_with_nul`: the result is the
/// string's units followed by one nul, with no interior nul.
#[verifier::external_body]
fn u32cstring_into_vec_with_nul(s: WideString32) -> (r: Vec<u32>)
    ensures
        r@ == widestring_u32_units(s).push(0u32),
        forall|i: int| 0 <= i < widestring_u32_units(s).len() ==> r@[i] != 0,
{
    s.into_vec_with_nul()
}

impl U16CString {
    /// Converts this string into the `widestring` crate's owned 16-bit C
    /// string holding the same logical content.
    pub fn to_widestring(&self) -> (r: WideString16)
        requires
            self.wf(),
        ensures
            unit_vals(widestring_u16_units(r)) == self.content(),
    {
        proof {
            self.lemma_wf_len();
        }
        let with_nul = self.as_slice_with_nul();
        let v = vstd::slice::slice_to_vec(with_nul);
        let r = u16cstring_from_vec_truncate(v);
        proof {
            let vals = unit_vals(v@);
            assert(vals =~= self.content().push(0u32));
            assert forall|i: int| 0 <= i < self.content().len() implies vals[i] != 0 by {
                assert(self.content()[i] != 0);
            }
            lemma_first_zero_exact(vals, self.content().len() as int);
            let units = widestring_u16_units(r);
            assert(units == v@.take(self.content().len() as int));
            assert forall|i: int| 0 <= i < self.content().len() implies unit_vals(units)[i]
                == self.content()[i] by {
                assert(unit_vals(units)[i] == units[i].val());
                assert(units[i] == v@[i]);
                assert(unit_vals(v@)[i] == v@[i].val());
            }
            assert(unit_vals(units) =~= self.content());
        }
        r
    }

    /// Builds an owned string from the `widestring` crate's owned 16-bit C
    /// string, keeping its logical content.
    pub fn from_widestring(w: WideString16) -> (r: Self)
        ensures
            r.wf(),
            r.content() == unit_vals(widestring_u16_units(w)),
    {
        let v = u16cstring_into_vec_with_nul(w);
        let r = CStringBuf::from_units(v.as_slice());
        proof {
            let units = widestring_u16_units(w);
            assert(unit_vals(v@).last() == 0);
            assert(r.raw() == unit_vals(v@));
            assert forall|i: int| 0 <= i < units.len() implies r.raw()[i] != 0 by {
                assert(v@[i] != 0);
            }
            assert(r.raw()[units.len() as int] == 0);
            lemma_first_zero_exact(r.raw(), units.len() as int);
            assert(r.content() =~= unit_vals(units));
        }
        r
    }
}

impl U32CString {
    /// Converts this string into the `widestring` crate's owned 32-bit C
    /// string holding the same logical content.
    pub fn to_widestring(&self) -> (r: WideString32)
        requires
            self.wf(),
        ensures
            unit_vals(widestring_u32_units(r)) == self.content(),
    {
        proof {
            self.lemma_wf_len();
        }
        let with_nul = self.as_slice_with_nul();
        let v = vstd::slice::slice_to_vec(with_nul);
        let r = u32cstring_from_vec_truncate(v);
        proof {
            let vals = unit_vals(v@);
            assert(vals =~= self.content().push(0u32));
            assert forall|i: int| 0 <= i < self.content().len() implies vals[i] != 0 by {
                assert(self.content()[i] != 0);
            }
            lemma_first_zero_exact(vals, self.content().len() as int);
            let units = widestring_u32_units(r);
            assert(units == v@.take(self.content().len() as int));
            assert forall|i: int| 0 <= i < self.content().len() implies unit_vals(units)[i]
                == self.content()[i] by {
                assert(unit_vals(units)[i] == units[i].val());
                assert(units[i] == v@[i]);
                assert(unit_vals(v@)[i] == v@[i].val());
            }
            assert(unit_vals(units) =~= self.content());
        }
        r
    }

    /// Builds an owned string from the `widestring` crate's owned 32-bit C
    /// string, keeping its logical content.
    pub fn from_widestring(w: WideString32) -> (r: Self)
        ensures
            r.wf(),
            r.content() == unit_vals(widestring_u32_units(w)),
    {
        let v = u32cstring_into_vec_with_nul(w);
        let r = CStringBuf::from_units(v.as_slice());
        proof {
            let units = widestring_u32_units(w);
            assert(unit_vals(v@).last() == 0);
            assert(r.raw() == unit_vals(v@));
            assert forall|i: int| 0 <= i < units.len() implies r.raw()[i] != 0 by {
                assert(v@[i] != 0);
            }
            assert(r.raw()[units.len() as int] == 0);
            lemma_first_zero_exact(r.raw(), units.len() as int);
            assert(r.content() =~= unit_vals(units));
        }
        r
    }
}

} // verus!
