//! Double precision numbers, carried by their bits.
//!
//! The highest bit is the sign and the others, read as a whole number, grow with
//! the magnitude of the number. So numbers can be compared without computing
//! with them.

use vstd::prelude::*;

verus! {

/// The weight of the sign bit.
pub const SIGN_BIT: u64 = 0x8000_0000_0000_0000;

/// The bits of infinity. Magnitudes beyond it belong to what is not a number.
pub const INFINITY_BITS: u64 = 0x7ff0_0000_0000_0000;

/// A double precision number.
#[derive(Debug, Clone, Copy, PartialEq, Eq, Structural)]
pub struct Real {
    pub bits: u64,
}

/// 0.0
pub const ZERO_BITS: u64 = 0;

/// 0.000001
pub const MILLIONTH_BITS: u64 = 0x3eb0_c6f7_a0b5_ed8d;

/// 1.0
pub const ONE_BITS: u64 = 0x3ff0_0000_0000_0000;

/// 6.0
pub const SIX_BITS: u64 = 0x4018_0000_0000_0000;

/// 10.0
pub const TEN_BITS: u64 = 0x4024_0000_0000_0000;

/// 360.0
pub const FULL_TURN_BITS: u64 = 0x4076_8000_0000_0000;

impl Real {
    pub open spec fn spec_magnitude(self) -> u64 {
        if self.bits >= SIGN_BIT {
            (self.bits - SIGN_BIT) as u64
        } else {
            self.bits
        }
    }

    /// Whether this is not a number.
    pub open spec fn spec_is_nan(self) -> bool {
        self.spec_magnitude() > INFINITY_BITS
    }

    /// The place of a number among the others: both zeros have place 0.
    pub open spec fn rank(self) -> int {
        if self.bits >= SIGN_BIT {
            -(self.spec_magnitude() as int)
        } else {
            self.spec_magnitude() as int
        }
    }

    /// Whether this is less than `other`. What is not a number is neither less
    /// nor more than anything.
    pub open spec fn lt(self, other: Real) -> bool {
        !self.spec_is_nan() && !other.spec_is_nan() && self.rank() < other.rank()
    }

    pub open spec fn le(self, other: Real) -> bool {
        !self.spec_is_nan() && !other.spec_is_nan() && self.rank() <= other.rank()
    }

    /// The larger of two numbers, or the one of them that is a number.
    pub open spec fn spec_larger(self, other: Real) -> Real {
        if self.spec_is_nan() {
            other
        } else if other.spec_is_nan() || other.rank() <= self.rank() {
            self
        } else {
            other
        }
    }

    /// The smaller of two numbers, or the one of them that is a number.
    pub open spec fn spec_smaller(self, other: Real) -> Real {
        if self.spec_is_nan() {
            other
        } else if other.spec_is_nan() || self.rank() <= other.rank() {
            self
        } else {
            other
        }
    }

    /// This number without its sign.
    pub open spec fn spec_abs(self) -> Real {
        Real { bits: self.spec_magnitude() }
    }

    pub fn new(bits: u64) -> (r: Self)
        ensures
            r == (Real { bits }),
    {
        Real { bits }
    }

    pub fn magnitude(self) -> (r: u64)
        ensures
            r == self.spec_magnitude(),
    {
        if self.bits >= SIGN_BIT {
            self.bits - SIGN_BIT
        } else {
            self.bits
        }
    }

    pub fn is_nan(self) -> (r: bool)
        ensures
            r == self.spec_is_nan(),
    {
        self.magnitude() > INFINITY_BITS
    }

    fn rank_below(self, other: Real) -> (r: bool)
        ensures
            r == (self.rank() < other.rank()),
    {
        let a: u64 = self.magnitude();
        let b: u64 = other.magnitude();
        if self.bits >= SIGN_BIT {
            if other.bits >= SIGN_BIT {
                b < a
            } else {
                a > 0 || b > 0
            }
        } else {
            other.bits < SIGN_BIT && a < b
        }
    }

    pub fn is_less(self, other: Real) -> (r: bool)
        ensures
            r == self.lt(other),
    {
        !self.is_nan() && !other.is_nan() && self.rank_below(other)
    }

    pub fn is_at_most(self, other: Real) -> (r: bool)
        ensures
            r == self.le(other),
    {
        !self.is_nan() && !other.is_nan() && !other.rank_below(self)
    }

    pub fn larger(self, other: Real) -> (r: Real)
        ensures
            r == self.spec_larger(other),
    {
        if self.is_nan() {
            other
        } else if other.is_nan() || !self.rank_below(other) {
            self
        } else {
            other
        }
    }

    pub fn smaller(self, other: Real) -> (r: Real)
        ensures
            r == self.spec_smaller(other),
    {
        if self.is_nan() {
            other
        } else if other.is_nan() || !other.rank_below(self) {
            self
        } else {
            other
        }
    }

    pub fn abs(self) -> (r: Real)
        ensures
            r == self.spec_abs(),
    {
        Real { bits: self.magnitude() }
    }
}

pub open spec fn zero() -> Real {
    Real { bits: ZERO_BITS }
}

/// Of two numbers one is less than the other or both have the same place; the
/// larger is at least, and the smaller at most, either of them; and a number
/// without its sign is never below zero.
pub proof fn law_real_order(a: Real, b: Real)
    requires
        !a.spec_is_nan(),
        !b.spec_is_nan(),
    ensures
        a.lt(b) || b.lt(a) || a.rank() == b.rank(),
        a.le(b) <==> !b.lt(a),
        a.le(a.spec_larger(b)) && b.le(a.spec_larger(b)),
        a.spec_smaller(b).le(a) && a.spec_smaller(b).le(b),
        a.spec_larger(b) == a || a.spec_larger(b) == b,
        a.spec_smaller(b) == a || a.spec_smaller(b) == b,
        zero().le(a.spec_abs()),
        a.spec_abs().rank() == a.rank() || a.spec_abs().rank() == -a.rank(),
{
}

/// Of a number and what is not one the number is both the larger and the smaller.
pub proof fn law_real_not_a_number(a: Real, b: Real)
    requires
        a.spec_is_nan(),
    ensures
        a.spec_larger(b) == b && a.spec_smaller(b) == b,
        !b.spec_is_nan() ==> b.spec_larger(a) == b && b.spec_smaller(a) == b,
        !a.lt(b) && !b.lt(a) && !a.le(b) && !b.le(a),
{
}

} // verus!
