//! Binary floating-point readings, held by their bits.
//!
//! The feed measures in IEEE 754 double precision. What the library asks of such a
//! number is only how it compares, and the bits answer that: without the sign bit
//! they grow with the magnitude, zero is all zeros, and everything above the
//! infinity is not a number.

use vstd::prelude::*;

verus! {

/// The sign bit.
pub const SIGN: u64 = 0x8000_0000_0000_0000;

/// The bits of positive infinity.
pub const INFINITY: u64 = 0x7ff0_0000_0000_0000;

/// A double-precision number, by its bits.
#[derive(Debug, Clone, Copy, PartialEq, Eq, Structural)]
pub struct Real {
    pub bits: u64,
}

impl Real {
    /// The bits below the sign.
    pub open spec fn magnitude(self) -> int {
        if self.bits >= SIGN {
            self.bits - SIGN
        } else {
            self.bits as int
        }
    }

    /// An integer that orders numbers as they are ordered; both zeros have rank 0.
    pub open spec fn rank(self) -> int {
        if self.bits >= SIGN {
            -self.magnitude()
        } else {
            self.magnitude()
        }
    }

    /// Not a number.
    pub open spec fn nan(self) -> bool {
        self.magnitude() > INFINITY
    }

    /// `self <= other`; false as soon as one of them is not a number.
    pub open spec fn at_most(self, other: Real) -> bool {
        !self.nan() && !other.nan() && self.rank() <= other.rank()
    }

    /// `-limit <= self <= limit` for a positive finite `limit`.
    pub open spec fn within(self, limit: Real) -> bool {
        self.magnitude() <= limit.magnitude()
    }

    /// Positive zero.
    pub fn zero() -> (r: Real)
        ensures
            r.bits == 0,
    {
        Real { bits: 0 }
    }

    fn magnitude_bits(self) -> (r: u64)
        ensures
            r == self.magnitude(),
    {
        if self.bits >= SIGN {
            self.bits - SIGN
        } else {
            self.bits
        }
    }

    /// Whether this is not a number.
    pub fn is_nan(self) -> (r: bool)
        ensures
            r == self.nan(),
    {
        self.magnitude_bits() > INFINITY
    }

    /// Whether this is one of the two zeros.
    pub fn is_zero(self) -> (r: bool)
        ensures
            r == (self.rank() == 0),
    {
        self.magnitude_bits() == 0
    }

    /// Whether this is below zero.
    pub fn is_negative(self) -> (r: bool)
        ensures
            r == (!self.nan() && self.rank() < 0),
    {
        !self.is_nan() && self.bits > SIGN
    }

    /// Whether this is at most `other`.
    pub fn le(self, other: Real) -> (r: bool)
        ensures
            r == self.at_most(other),
    {
        if self.is_nan() || other.is_nan() {
            return false;
        }
        let a = self.magnitude_bits();
        let b = other.magnitude_bits();
        if self.bits >= SIGN {
            if other.bits >= SIGN {
                a >= b
            } else {
                true
            }
        } else if other.bits >= SIGN {
            a == 0 && b == 0
        } else {
            a <= b
        }
    }

    /// Whether this lies between `-limit` and `limit`.
    pub fn is_within(self, limit: Real) -> (r: bool)
        ensures
            r == self.within(limit),
    {
        self.magnitude_bits() <= limit.magnitude_bits()
    }

    /// The smaller of two numbers; one that is not a number gives way to the other.
    pub open spec fn lower(self, other: Real) -> Real {
        if self.nan() || other.at_most(self) && other.rank() < self.rank() {
            other
        } else {
            self
        }
    }

    /// The larger of two numbers; one that is not a number gives way to the other.
    pub open spec fn upper(self, other: Real) -> Real {
        if self.nan() || self.at_most(other) && self.rank() < other.rank() {
            other
        } else {
            self
        }
    }

    /// The smaller of two numbers.
    pub fn min(self, other: Real) -> (r: Real)
        ensures
            r == self.lower(other),
    {
        if self.is_nan() || (other.le(self) && !self.le(other)) {
            other
        } else {
            self
        }
    }

    /// The larger of two numbers.
    pub fn max(self, other: Real) -> (r: Real)
        ensures
            r == self.upper(other),
    {
        if self.is_nan() || (self.le(other) && !other.le(self)) {
            other
        } else {
            self
        }
    }
}

/// A measured quantity: the number and the way it is printed.
#[derive(Debug, Clone)]
pub struct Measure {
    pub value: Real,
    pub shown: String,
}

} // verus!
