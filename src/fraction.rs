//! Exact fractions.
use vstd::prelude::*;

verus! {

/// The exact fraction `num / den`; a denominator is positive wherever a
/// contract of this crate produces one.
#[derive(Clone, Copy, Debug, PartialEq, Eq, Structural)]
pub struct Ratio {
    pub num: i128,
    pub den: i128,
}

/// A non-negative parameter given as the fraction `num / den`, such as a
/// tolerance, a process-variation multiplier or a critical value.
#[derive(Clone, Copy, Debug, PartialEq, Eq, Structural)]
pub struct Scalar {
    pub num: u32,
    pub den: u32,
}

impl Scalar {
    /// Whether the fraction is well formed (positive denominator).
    pub open spec fn valid(&self) -> bool {
        self.den > 0
    }

    /// Whether the fraction is well formed and strictly positive.
    pub open spec fn positive(&self) -> bool {
        self.den > 0 && self.num > 0
    }

    /// The fraction `num / den`.
    pub fn new(num: u32, den: u32) -> (s: Scalar)
        ensures
            s.num == num,
            s.den == den,
    {
        Scalar { num, den }
    }
}

} // verus!
