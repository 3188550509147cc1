//! Binary floating-point numbers as bit patterns.
//!
//! A [`Real`] holds the 64 bits of an IEEE 754 double. Only what compares
//! two numbers is computed here: the order, the NaN and infinity tests and
//! the selection of the smaller or larger of two numbers.

use vstd::prelude::*;

verus! {

/// Bit pattern of positive infinity, the largest magnitude of a number.
pub const INFINITY_BITS: u64 = 0x7ff0_0000_0000_0000;

/// Bit pattern of the quiet NaN that stands for "no data".
pub const NAN_BITS: u64 = 0x7ff8_0000_0000_0000;

/// The sign bit.
pub const SIGN_BIT: u64 = 0x8000_0000_0000_0000;

/// A double, held as its bits.
#[derive(Clone, Copy, Debug, PartialEq, Eq, Hash, Structural)]
pub struct Real {
    pub bits: u64,
}

impl Real {
    /// The bits without the sign.
    pub open spec fn magnitude(self) -> int {
        if self.bits >= SIGN_BIT {
            self.bits - SIGN_BIT
        } else {
            self.bits as int
        }
    }

    /// Whether the pattern stands for no number.
    pub open spec fn nan(self) -> bool {
        self.magnitude() > INFINITY_BITS
    }

    /// Whether the pattern stands for a number other than an infinity.
    pub open spec fn finite(self) -> bool {
        self.magnitude() < INFINITY_BITS
    }

    /// The place of a number in the numeric order; both zeros share one.
    pub open spec fn place(self) -> int {
        if self.bits >= SIGN_BIT {
            -self.magnitude()
        } else {
            self.magnitude()
        }
    }

    /// The place of a pattern in the total order: negative NaNs first, then
    /// the numbers with the negative zero below the positive one, then
    /// positive NaNs.
    pub open spec fn total_place(self) -> int {
        if self.bits >= SIGN_BIT {
            -self.magnitude() - 1
        } else {
            self.magnitude()
        }
    }

    /// Numeric `<`: false as soon as one side is no number.
    pub open spec fn below(self, other: Real) -> bool {
        !self.nan() && !other.nan() && self.place() < other.place()
    }

    /// Numeric `<=`: false as soon as one side is no number.
    pub open spec fn at_most(self, other: Real) -> bool {
        !self.nan() && !other.nan() && self.place() <= other.place()
    }

    /// Numeric `==`: false as soon as one side is no number.
    pub open spec fn equals(self, other: Real) -> bool {
        !self.nan() && !other.nan() && self.place() == other.place()
    }

    /// The larger of two numbers, the other side where one is no number.
    pub open spec fn larger(self, other: Real) -> Real {
        if self.nan() {
            other
        } else if other.nan() {
            self
        } else if self.place() < other.place() {
            other
        } else {
            self
        }
    }

    /// The smaller of two numbers, the other side where one is no number.
    pub open spec fn smaller(self, other: Real) -> Real {
        if self.nan() {
            other
        } else if other.nan() {
            self
        } else if other.place() < self.place() {
            other
        } else {
            self
        }
    }

    /// The number without its sign.
    pub open spec fn unsigned(self) -> Real {
        Real { bits: self.magnitude() as u64 }
    }

    /// The number with its sign turned.
    pub open spec fn negated(self) -> Real {
        if self.bits >= SIGN_BIT {
            Real { bits: (self.bits - SIGN_BIT) as u64 }
        } else {
            Real { bits: (self.bits + SIGN_BIT) as u64 }
        }
    }

    pub fn neg(&self) -> (r: Real)
        ensures
            r == self.negated(),
    {
        if self.bits >= SIGN_BIT {
            Real { bits: self.bits - SIGN_BIT }
        } else {
            Real { bits: self.bits + SIGN_BIT }
        }
    }

    pub fn from_bits(bits: u64) -> (r: Real)
        ensures
            r.bits == bits,
    {
        Real { bits }
    }

    pub fn to_bits(&self) -> (bits: u64)
        ensures
            bits == self.bits,
    {
        self.bits
    }

    pub fn zero() -> (r: Real)
        ensures
            r.bits == 0,
            !r.nan(),
            r.place() == 0,
    {
        Real { bits: 0 }
    }

    pub fn infinity() -> (r: Real)
        ensures
            r.bits == INFINITY_BITS,
            !r.nan(),
    {
        Real { bits: INFINITY_BITS }
    }

    pub fn neg_infinity() -> (r: Real)
        ensures
            r.bits == SIGN_BIT + INFINITY_BITS,
            !r.nan(),
    {
        Real { bits: SIGN_BIT + INFINITY_BITS }
    }

    pub fn not_a_number() -> (r: Real)
        ensures
            r.bits == NAN_BITS,
            r.nan(),
    {
        Real { bits: NAN_BITS }
    }

    fn magnitude_bits(&self) -> (m: u64)
        ensures
            m == self.magnitude(),
    {
        if self.bits >= SIGN_BIT {
            self.bits - SIGN_BIT
        } else {
            self.bits
        }
    }

    pub fn is_nan(&self) -> (b: bool)
        ensures
            b == self.nan(),
    {
        self.magnitude_bits() > INFINITY_BITS
    }

    pub fn is_finite(&self) -> (b: bool)
        ensures
            b == self.finite(),
    {
        self.magnitude_bits() < INFINITY_BITS
    }

    pub fn abs(&self) -> (r: Real)
        ensures
            r == self.unsigned(),
    {
        Real { bits: self.magnitude_bits() }
    }

    pub fn lt(&self, other: Real) -> (b: bool)
        ensures
            b == self.below(other),
    {
        if self.is_nan() || other.is_nan() {
            false
        } else if self.bits >= SIGN_BIT {
            if other.bits >= SIGN_BIT {
                self.bits > other.bits
            } else {
                self.bits > SIGN_BIT || other.bits > 0
            }
        } else {
            other.bits < SIGN_BIT && self.bits < other.bits
        }
    }

    pub fn le(&self, other: Real) -> (b: bool)
        ensures
            b == self.at_most(other),
    {
        !self.is_nan() && !other.is_nan() && !other.lt(*self)
    }

    pub fn eq_num(&self, other: Real) -> (b: bool)
        ensures
            b == self.equals(other),
    {
        self.le(other) && other.le(*self)
    }

    pub fn max(&self, other: Real) -> (r: Real)
        ensures
            r == self.larger(other),
    {
        if self.is_nan() {
            other
        } else if other.is_nan() {
            *self
        } else if self.lt(other) {
            other
        } else {
            *self
        }
    }

    pub fn min(&self, other: Real) -> (r: Real)
        ensures
            r == self.smaller(other),
    {
        if self.is_nan() {
            other
        } else if other.is_nan() {
            *self
        } else if other.lt(*self) {
            other
        } else {
            *self
        }
    }

    /// Total order `<`, under which every pattern has its own place.
    pub fn total_lt(&self, other: Real) -> (b: bool)
        ensures
            b == (self.total_place() < other.total_place()),
    {
        if self.bits >= SIGN_BIT {
            other.bits < SIGN_BIT || self.bits > other.bits
        } else {
            other.bits < SIGN_BIT && self.bits < other.bits
        }
    }
}

/// The total order tells any two patterns apart.
pub proof fn total_order_separates(a: Real, b: Real)
    requires
        a.total_place() == b.total_place(),
    ensures
        a == b,
{
}

/// The total order refines the numeric one on numbers.
pub proof fn total_order_refines(a: Real, b: Real)
    requires
        a.below(b),
    ensures
        a.total_place() < b.total_place(),
{
}

} // verus!
