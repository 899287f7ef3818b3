//! Relevance scores and similarities.
//!
//! A score is a single-precision number, held by its IEEE 754 bit pattern. The
//! library only ever compares scores, which the bit pattern allows: as long as
//! neither is a NaN, two numbers are in the order of their sign and magnitude.
use vstd::prelude::*;

verus! {

/// A single-precision number, by its bit pattern.
#[derive(Debug, Clone, Copy, PartialEq, Eq, Structural)]
pub struct Score {
    pub bits: u32,
}

impl Score {
    /// The bits below the sign.
    pub open spec fn magnitude(self) -> int {
        if self.bits < 0x8000_0000 {
            self.bits as int
        } else {
            self.bits - 0x8000_0000
        }
    }

    /// Not a number.
    pub open spec fn nan(self) -> bool {
        self.magnitude() > 0x7f80_0000
    }

    /// A whole number that orders scores as their values do; both zeros have 0.
    pub open spec fn rank(self) -> int {
        if self.bits < 0x8000_0000 {
            self.bits as int
        } else {
            -(self.bits - 0x8000_0000)
        }
    }

    /// The score is a number above zero.
    pub open spec fn positive(self) -> bool {
        !self.nan() && self.rank() > 0
    }

    /// `self >= other`, which holds of no NaN.
    pub open spec fn reaches(self, other: Score) -> bool {
        !self.nan() && !other.nan() && self.rank() >= other.rank()
    }

    /// `self > other`, which holds of no NaN.
    pub open spec fn exceeds(self, other: Score) -> bool {
        !self.nan() && !other.nan() && self.rank() > other.rank()
    }

    /// The score 0.
    pub fn zero() -> (r: Score)
        ensures
            r.bits == 0,
            r.rank() == 0,
            !r.nan(),
    {
        Score { bits: 0 }
    }

    /// Whether the bit pattern is no number.
    pub fn is_nan(&self) -> (r: bool)
        ensures
            r == self.nan(),
    {
        if self.bits < 0x8000_0000 {
            self.bits > 0x7f80_0000
        } else {
            self.bits - 0x8000_0000 > 0x7f80_0000
        }
    }

    /// The whole number by which scores are ordered.
    pub fn ranking(&self) -> (r: i64)
        ensures
            r == self.rank(),
    {
        if self.bits < 0x8000_0000 {
            self.bits as i64
        } else {
            -((self.bits - 0x8000_0000) as i64)
        }
    }

    /// Whether the score is a number above zero.
    pub fn is_positive(&self) -> (r: bool)
        ensures
            r == self.positive(),
    {
        !self.is_nan() && self.ranking() > 0
    }

    /// Whether the score is at least `other`.
    pub fn is_at_least(&self, other: Score) -> (r: bool)
        ensures
            r == self.reaches(other),
    {
        !self.is_nan() && !other.is_nan() && self.ranking() >= other.ranking()
    }

    /// Whether the score is above `other`.
    pub fn is_above(&self, other: Score) -> (r: bool)
        ensures
            r == self.exceeds(other),
    {
        !self.is_nan() && !other.is_nan() && self.ranking() > other.ranking()
    }
}

} // verus!
