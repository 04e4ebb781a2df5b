//! Sign of a signed big integer or of a signed multiply.

use vstd::prelude::*;

verus! {

/// Sign tag: drives the choice between the adding and subtracting kernels
/// and the sign of an IBig.
#[derive(Clone, Copy, Debug, PartialEq, Eq, Structural)]
pub enum Sign {
    Positive,
    Negative,
}

impl Sign {
    /// The sign as the factor +1 or -1.
    pub open spec fn to_int(self) -> int {
        match self {
            Sign::Positive => 1,
            Sign::Negative => -1,
        }
    }
}

} // verus!
