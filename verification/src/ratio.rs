//! Exact fractions of counts.

use vstd::prelude::*;

verus! {

/// The fraction `num / den`, as it was computed and not reduced.
#[derive(Debug, Clone, Copy, PartialEq, Eq)]
pub struct Ratio {
    pub num: u64,
    pub den: u64,
}

impl Ratio {
    /// The value of `self` is smaller than that of `other`; both have a
    /// positive denominator.
    pub open spec fn less(self, other: Ratio) -> bool {
        self.num * other.den < other.num * self.den
    }

    /// The fraction is 1.
    pub open spec fn whole(self) -> bool {
        self.num == self.den
    }

    /// Compares two fractions by cross-multiplication.
    pub fn less_than(&self, other: &Ratio) -> (b: bool)
        ensures
            b == self.less(*other),
    {
        assert(self.num * other.den <= u64::MAX * u64::MAX) by (nonlinear_arith)
            requires
                self.num <= u64::MAX,
                other.den <= u64::MAX,
        ;
        assert(other.num * self.den <= u64::MAX * u64::MAX) by (nonlinear_arith)
            requires
                other.num <= u64::MAX,
                self.den <= u64::MAX,
        ;
        let a: u128 = (self.num as u128) * (other.den as u128);
        let b: u128 = (other.num as u128) * (self.den as u128);
        a < b
    }

    /// Whether the fraction is 1.
    pub fn is_whole(&self) -> (b: bool)
        ensures
            b == self.whole(),
    {
        self.num == self.den
    }
}

} // verus!
