//! Exact fractions, for the metrics whose value is not a whole number.

use vstd::prelude::*;

verus! {

/// The fraction `num / den` of two natural numbers.
#[derive(Clone, Copy, Debug, PartialEq, Eq)]
pub struct Ratio {
    /// The numerator.
    pub num: u128,
    /// The denominator.
    pub den: u128,
}

impl Ratio {
    /// Whether the fraction is defined and lies between zero and one.
    pub open spec fn is_unit(&self) -> bool {
        self.den > 0 && self.num <= self.den
    }

    /// One minus the fraction.
    pub fn complement(&self) -> (r: Ratio)
        requires
            self.is_unit(),
        ensures
            r.is_unit(),
            r.den == self.den,
            r.num == self.den - self.num,
    {
        Ratio { num: self.den - self.num, den: self.den }
    }
}

} // verus!
