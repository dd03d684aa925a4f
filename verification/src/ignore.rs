//! Collapsing a `Result` whose two sides carry the same type.

use vstd::prelude::*;

verus! {

/// Extension that extracts the carried value from a `Result` whose success
/// and failure sides hold the same type.
pub trait ResultIgnoreExt: Sized {
    /// The carried type.
    type Output;

    /// The value carried on either side.
    spec fn ignored(self) -> Self::Output;

    /// Returns the carried value, whichever side holds it.
    fn ignore(self) -> (r: Self::Output)
        ensures
            r == self.ignored(),
    ;
}

impl<T> ResultIgnoreExt for Result<T, T> {
    type Output = T;

    open spec fn ignored(self) -> T {
        match self {
            Ok(v) => v,
            Err(v) => v,
        }
    }

    fn ignore(self) -> (r: T) {
        match self {
            Ok(v) => v,
            Err(v) => v,
        }
    }
}

} // verus!
