//! The growth regime of the weight function `w(d) = d^γ + c`, on which the
//! bound of the run-length sampler depends.

use vstd::prelude::*;

verus! {

/// How the weight grows with the degree: slower than, as fast as, or
/// faster than linearly (γ below, at, or above one).
#[derive(Debug, Copy, Clone, Eq, PartialEq, Structural)]
pub enum Regime {
    Sublinear,
    Linear,
    Superlinear,
}

impl Regime {
    /// The regime of an exponent that compares to one as `exponent_vs_one`
    /// says: below one is sublinear, one is linear, above one superlinear.
    pub fn from_ordering(exponent_vs_one: std::cmp::Ordering) -> (r: Regime)
        ensures
            r == match exponent_vs_one {
                std::cmp::Ordering::Less => Regime::Sublinear,
                std::cmp::Ordering::Equal => Regime::Linear,
                std::cmp::Ordering::Greater => Regime::Superlinear,
            },
    {
        match exponent_vs_one {
            std::cmp::Ordering::Less => Regime::Sublinear,
            std::cmp::Ordering::Equal => Regime::Linear,
            std::cmp::Ordering::Greater => Regime::Superlinear,
        }
    }
}

} // verus!
