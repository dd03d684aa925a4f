//! Fixed-width, nul-terminated string value types for interop with native
//! APIs that pass strings as contiguous, nul-terminated buffers of a fixed
//! code-unit width (8, 16 or 32 bits).
//!
//! Every string type maintains one invariant: the backing storage ends in a
//! zero code unit, and the logical content is the maximal zero-free prefix.

pub mod codec;
pub mod ignore;
pub mod cstr;
pub mod cstring;
pub mod scanner;
pub mod static_str;
pub mod widestr_convs;
pub mod writes;
pub mod unit;

pub use cstr::{CStrView, U16CStr, U32CStr, U8CStr};
pub use cstring::{CStringBuf, U16CString, U32CString, U8CString};
pub use static_str::{StaticCStr, StaticU16CStr, StaticU32CStr, StaticU8CStr};
pub use unit::CodeUnit;

use vstd::prelude::*;

verus! {

/// The 8-bit family under its plain names.
pub type CStr = cstr::U8CStr;

/// The 8-bit owned string under its plain name.
pub type CString = cstring::U8CString;

/// The native wide-character width on this platform: 32 bits.
pub type WChar = u32;

/// The borrowed view at the native wide-character width.
pub type WideCStr = cstr::U32CStr;

/// The owned string at the native wide-character width.
pub type WideCString = cstring::U32CString;

/// The fixed-capacity string at the native wide-character width.
pub type StaticWideCStr<const N: usize> = static_str::StaticU32CStr<N>;

/// Names the code-unit type a string type stores.
pub trait CStrCharType {
    /// The stored code-unit type.
    type Char;
}

impl<U: unit::CodeUnit> CStrCharType for cstr::CStrView<U> {
    type Char = U;
}

impl<U: unit::CodeUnit> CStrCharType for cstring::CStringBuf<U> {
    type Char = U;
}

impl<U: unit::CodeUnit, const N: usize> CStrCharType for static_str::StaticCStr<U, N> {
    type Char = U;
}

/// Error returned by the checked constructors when no terminating zero code
/// unit was found within the scanned bound.
#[derive(Debug, Clone, Copy, PartialEq, Eq, Structural)]
pub enum StrError {
    NulNotFound,
}

/// Error reported by the bounded write operations.
#[derive(Debug, Clone, Copy, PartialEq, Eq, Structural)]
pub enum WriteError {
    /// No code unit could be written at all (zero remaining capacity).
    WriteZero,
    /// The input contained a scalar value that does not fit the target
    /// code-unit width.
    Unrepresentable,
}

impl StrError {
    /// A human-readable description of the error.
    pub fn message(&self) -> (r: &'static str)
        ensures
            r@ == "Nul-terminator was not found in source"@,
    {
        "Nul-terminator was not found in source"
    }
}

} // verus!
