//! Exact scores.  Every enrichment statistic of the library is a fraction of
//! two integers; comparisons cross-multiply, so no rounding ever happens.

use vstd::prelude::*;

verus! {

/// Absolute value over the mathematical integers.
pub open spec fn abs1(x: int) -> int {
    if x < 0 {
        -x
    } else {
        x
    }
}

/// The product of two factors below `2^62` in magnitude stays well inside
/// the 128-bit range.
pub proof fn lemma_cross_mul_bounded(a: int, b: int)
    requires
        -0x4000_0000_0000_0000 < a < 0x4000_0000_0000_0000,
        -0x4000_0000_0000_0000 < b < 0x4000_0000_0000_0000,
    ensures
        -0x1000_0000_0000_0000_0000_0000_0000_0000 < a * b
            < 0x1000_0000_0000_0000_0000_0000_0000_0000,
{
    assert(-0x1000_0000_0000_0000_0000_0000_0000_0000 < a * b
        < 0x1000_0000_0000_0000_0000_0000_0000_0000) by (nonlinear_arith)
        requires
            -0x4000_0000_0000_0000 < a < 0x4000_0000_0000_0000,
            -0x4000_0000_0000_0000 < b < 0x4000_0000_0000_0000,
    ;
}

/// An exact signed score `num / den`.
#[derive(Debug, Clone, Copy, PartialEq, Eq, Structural)]
pub struct Frac {
    pub num: i128,
    pub den: i128,
}

impl Frac {
    /// Well-formed scores keep both parts small enough that two of them can
    /// be compared by cross-multiplying inside `i128`.
    pub open spec fn wf(self) -> bool {
        &&& 0 < self.den < 0x4000_0000_0000_0000
        &&& -0x4000_0000_0000_0000 < self.num < 0x4000_0000_0000_0000
    }

    /// `self <= other` as rational numbers.
    pub open spec fn le_spec(self, other: Frac) -> bool {
        self.num * other.den <= other.num * self.den
    }

    /// The score is strictly negative.
    pub open spec fn is_neg_spec(self) -> bool {
        self.num < 0
    }

    /// The zero score.
    pub fn zero() -> (r: Frac)
        ensures
            r.num == 0 && r.den == 1,
            r.wf(),
    {
        Frac { num: 0, den: 1 }
    }

    /// The unit score, the neutral upper cap of the probability estimates.
    pub fn one() -> (r: Frac)
        ensures
            r.num == 1 && r.den == 1,
            r.wf(),
    {
        Frac { num: 1, den: 1 }
    }

    pub fn le(&self, other: &Frac) -> (r: bool)
        requires
            self.wf(),
            other.wf(),
        ensures
            r == self.le_spec(*other),
    {
        proof {
            lemma_cross_mul_bounded(self.num as int, other.den as int);
            lemma_cross_mul_bounded(other.num as int, self.den as int);
        }
        self.num * other.den <= other.num * self.den
    }

    pub fn is_neg(&self) -> (r: bool)
        ensures
            r == self.is_neg_spec(),
    {
        self.num < 0
    }
}

} // verus!
