//! Parse errors.

use vstd::prelude::*;

verus! {

/// Error signalled by the string parsers.
#[derive(Clone, Copy, Debug, PartialEq, Eq, Structural)]
pub enum ParseError {
    /// No digits in the input (after sign and prefix stripping).
    NoDigits,
    /// A byte outside the digit set of the requested radix.
    InvalidDigit,
}

} // verus!
