//! The code-unit abstraction: one fixed-width storage slot of a
//! nul-terminated string, instantiated at widths of 8, 16 and 32 bits.
//!
//! Contracts throughout the crate speak of sequences of `u32` values, the
//! common numeric image of every width; `unit_vals` maps a stored sequence
//! into that image and `first_zero` locates the terminator.

use vstd::prelude::*;

verus! {

/// One fixed-width storage slot. Zero is reserved as the terminator and may
/// not appear inside logical content.
pub trait CodeUnit: Sized + Copy {
    /// The numeric value of this unit, as the common 32-bit image.
    spec fn val(self) -> u32;

    /// The largest scalar value representable in this width.
    spec fn max_val() -> u32;

    /// Every unit's value fits the width's maximum.
    proof fn lemma_val_bounded(self)
        ensures
            self.val() <= Self::max_val(),
    ;

    /// The zero (terminator) unit.
    fn nul() -> (r: Self)
        ensures
            r.val() == 0,
    ;

    /// True exactly when this unit is the terminator.
    fn is_nul(self) -> (r: bool)
        ensures
            r <==> self.val() == 0,
    ;

    /// Value equality of two units.
    fn same(self, other: Self) -> (r: bool)
        ensures
            r <==> self.val() == other.val(),
    ;

    /// The numeric value of this unit.
    fn to_u32(self) -> (r: u32)
        ensures
            r == self.val(),
    ;

    /// The unit holding the given scalar value, which must fit the width.
    fn of_u32(c: u32) -> (r: Self)
        requires
            c <= Self::max_val(),
        ensures
            r.val() == c,
    ;

    /// The largest representable scalar value, as a runtime value.
    fn max_value() -> (r: u32)
        ensures
            r == Self::max_val(),
    ;

    /// The width of one unit in bytes.
    spec fn unit_size_spec() -> usize;

    /// A unit is between one and four bytes wide.
    proof fn lemma_unit_size_bounded()
        ensures
            1 <= Self::unit_size_spec() <= 4,
    ;

    /// The width of one unit in bytes, as a runtime value.
    fn unit_size() -> (r: usize)
        ensures
            r == Self::unit_size_spec(),
            1 <= r <= 4,
    ;
}

impl CodeUnit for u8 {
    open spec fn val(self) -> u32 {
        self as u32
    }

    open spec fn max_val() -> u32 {
        0xFF
    }

    proof fn lemma_val_bounded(self) {
    }

    fn nul() -> (r: Self) {
        0
    }

    fn is_nul(self) -> (r: bool) {
        self == 0
    }

    fn same(self, other: Self) -> (r: bool) {
        self == other
    }

    fn to_u32(self) -> (r: u32) {
        self as u32
    }

    fn of_u32(c: u32) -> (r: Self) {
        c as u8
    }

    fn max_value() -> (r: u32) {
        0xFF
    }

    open spec fn unit_size_spec() -> usize {
        1
    }

    proof fn lemma_unit_size_bounded() {
    }

    fn unit_size() -> (r: usize) {
        1
    }
}

impl CodeUnit for u16 {
    open spec fn val(self) -> u32 {
        self as u32
    }

    open spec fn max_val() -> u32 {
        0xFFFF
    }

    proof fn lemma_val_bounded(self) {
    }

    fn nul() -> (r: Self) {
        0
    }

    fn is_nul(self) -> (r: bool) {
        self == 0
    }

    fn same(self, other: Self) -> (r: bool) {
        self == other
    }

    fn to_u32(self) -> (r: u32) {
        self as u32
    }

    fn of_u32(c: u32) -> (r: Self) {
        c as u16
    }

    fn max_value() -> (r: u32) {
        0xFFFF
    }

    open spec fn unit_size_spec() -> usize {
        2
    }

    proof fn lemma_unit_size_bounded() {
    }

    fn unit_size() -> (r: usize) {
        2
    }
}

impl CodeUnit for u32 {
    open spec fn val(self) -> u32 {
        self
    }

    open spec fn max_val() -> u32 {
        0xFFFFFFFF
    }

    proof fn lemma_val_bounded(self) {
    }

    fn nul() -> (r: Self) {
        0
    }

    fn is_nul(self) -> (r: bool) {
        self == 0
    }

    fn same(self, other: Self) -> (r: bool) {
        self == other
    }

    fn to_u32(self) -> (r: u32) {
        self
    }

    fn of_u32(c: u32) -> (r: Self) {
        c
    }

    fn max_value() -> (r: u32) {
        0xFFFFFFFF
    }

    open spec fn unit_size_spec() -> usize {
        4
    }

    proof fn lemma_unit_size_bounded() {
    }

    fn unit_size() -> (r: usize) {
        4
    }
}

/// The numeric image of a stored sequence of code units.
pub open spec fn unit_vals<U: CodeUnit>(s: Seq<U>) -> Seq<u32> {
    s.map_values(|u: U| u.val())
}

/// Index of the first zero in `s`, or `s.len()` when `s` holds no zero.
/// The logical length of every string in this crate is the first zero's
/// offset in the scanned region.
pub open spec fn first_zero(s: Seq<u32>) -> int
    decreases s.len(),
{
    if s.len() == 0 {
        0
    } else if s[0] == 0 {
        0
    } else {
        1 + first_zero(s.drop_first())
    }
}

/// Basic facts about `first_zero`: it is in bounds, it points at a zero
/// when one exists, and nothing before it is zero.
pub broadcast proof fn lemma_first_zero(s: Seq<u32>)
    ensures
        0 <= #[trigger] first_zero(s) <= s.len(),
        first_zero(s) < s.len() ==> s[first_zero(s)] == 0,
        forall|i: int| 0 <= i < first_zero(s) ==> s[i] != 0,
    decreases s.len(),
{
    if s.len() == 0 {
    } else if s[0] == 0 {
    } else {
        lemma_first_zero(s.drop_first());
        assert forall|i: int| 0 <= i < first_zero(s) implies s[i] != 0 by {
            if i > 0 {
                assert(s.drop_first()[i - 1] != 0);
            }
        }
    }
}

/// `first_zero` is pinned by a witness: if nothing before `n` is zero and
/// the entry at `n` (when there is one) is zero, the first zero is at `n`.
pub proof fn lemma_first_zero_exact(s: Seq<u32>, n: int)
    requires
        0 <= n <= s.len(),
        forall|i: int| 0 <= i < n ==> s[i] != 0,
        n < s.len() ==> s[n] == 0,
    ensures
        first_zero(s) == n,
    decreases s.len(),
{
    if s.len() == 0 {
    } else if n == 0 {
    } else {
        lemma_first_zero_exact(s.drop_first(), n - 1);
    }
}

} // verus!
