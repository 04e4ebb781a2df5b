//! Signed big integer: a sign and a UBig magnitude, with zero always
//! carrying the positive sign.

use vstd::prelude::*;
use vstd::std_specs::cmp::PartialEqSpec;
use crate::sign::Sign;
use crate::ubig::UBig;

verus! {

/// Signed big integer.
#[derive(Debug)]
pub struct IBig {
    /// The sign; Positive whenever the magnitude is zero.
    pub sign: Sign,
    /// The magnitude.
    pub magnitude: UBig,
}

impl View for IBig {
    type V = int;

    /// The numeric value.
    open spec fn view(&self) -> int {
        match self.sign {
            Sign::Positive => self.magnitude@ as int,
            Sign::Negative => -(self.magnitude@ as int),
        }
    }
}

impl IBig {
    /// Canonical form: the magnitude is normalized and zero is Positive.
    pub open spec fn wf(&self) -> bool {
        &&& self.magnitude.wf()
        &&& (self.magnitude@ == 0 ==> self.sign == Sign::Positive)
    }

    /// Builds a signed value, canonicalizing the sign of zero.
    pub fn from_sign_magnitude(sign: Sign, magnitude: UBig) -> (r: IBig)
        requires
            magnitude.wf(),
        ensures
            r.wf(),
            r@ == sign.to_int() * magnitude@,
            r.magnitude@ == magnitude@,
    {
        let sign = if magnitude.is_zero() {
            Sign::Positive
        } else {
            sign
        };
        proof {
            let m = magnitude@ as int;
            assert(1 * m == m && (-1) * m == -m) by (nonlinear_arith);
        }
        IBig { sign, magnitude }
    }
}

impl PartialEq for IBig {
    /// Structural equality; for canonical values this coincides with
    /// equality of the numeric values.
    fn eq(&self, other: &IBig) -> (r: bool) {
        self.sign == other.sign && self.magnitude == other.magnitude
    }
}

impl vstd::std_specs::cmp::PartialEqSpecImpl for IBig {
    open spec fn obeys_eq_spec() -> bool {
        true
    }

    open spec fn eq_spec(&self, other: &IBig) -> bool {
        self.sign == other.sign && (match (self.magnitude.0, other.magnitude.0) {
            (crate::ubig::Repr::Small(a), crate::ubig::Repr::Small(b)) => a == b,
            (crate::ubig::Repr::Large(a), crate::ubig::Repr::Large(b)) => a@ =~= b@,
            _ => false,
        })
    }
}

/// Sign canonicalization: a canonical IBig worth zero is Positive.
pub proof fn lemma_sign_canonical(x: IBig)
    requires
        x.wf(),
    ensures
        x@ == 0 ==> x.sign == Sign::Positive,
{
}

} // verus!
