//! Floating-point numbers held by their bit patterns.
//!
//! The engine compares, selects, stores and transports many numbers without
//! ever computing with them. For those uses a number is its IEEE 754 bit
//! pattern, and the order of the numbers is the order of an integer read off
//! that pattern: the magnitude bits, negated where the sign bit is set.
use vstd::prelude::*;

verus! {

/// A binary64 number by its bit pattern.
#[derive(Clone, Copy, Debug, PartialEq, Eq, Structural)]
pub struct Real {
    pub bits: u64,
}

/// A binary32 number by its bit pattern.
#[derive(Clone, Copy, Debug, PartialEq, Eq, Structural)]
pub struct Real32 {
    pub bits: u32,
}

/// The sign bit of a binary64 pattern.
pub const SIGN_64: u64 = 0x8000_0000_0000_0000;

/// The binary64 pattern of positive infinity, one above the largest finite magnitude.
pub const INFINITY_64: u64 = 0x7FF0_0000_0000_0000;

/// The sign bit of a binary32 pattern.
pub const SIGN_32: u32 = 0x8000_0000;

/// The binary32 pattern of positive infinity, one above the largest finite magnitude.
pub const INFINITY_32: u32 = 0x7F80_0000;

impl Real {
    /// The pattern without its sign bit.
    pub open spec fn magnitude(self) -> int {
        if self.bits < SIGN_64 {
            self.bits as int
        } else {
            self.bits - SIGN_64
        }
    }

    /// An integer that orders as the number does. Both zeros have the key 0.
    pub open spec fn key(self) -> int {
        if self.bits < SIGN_64 {
            self.bits as int
        } else {
            SIGN_64 - self.bits
        }
    }

    /// The number without its sign.
    pub open spec fn unsigned(self) -> Real {
        Real { bits: self.magnitude() as u64 }
    }

    /// Whether the pattern stands for no number.
    pub open spec fn nan(self) -> bool {
        self.magnitude() > INFINITY_64
    }

    /// Whether the number is neither infinite nor NaN.
    pub open spec fn finite(self) -> bool {
        self.magnitude() < INFINITY_64
    }

    /// `self < other`; no NaN is below or above anything.
    pub open spec fn below(self, other: Real) -> bool {
        !self.nan() && !other.nan() && self.key() < other.key()
    }

    /// `self <= other`; no NaN is below, above or equal to anything.
    pub open spec fn at_most(self, other: Real) -> bool {
        !self.nan() && !other.nan() && self.key() <= other.key()
    }

    /// `self == other` as numbers: the two zeros are equal, no NaN equals anything.
    pub open spec fn equals(self, other: Real) -> bool {
        !self.nan() && !other.nan() && self.key() == other.key()
    }

    /// The larger of two numbers, or the one that is a number. Where both
    /// compare equal, `self`.
    pub open spec fn greater_of(self, other: Real) -> Real {
        if self.nan() || self.below(other) {
            other
        } else {
            self
        }
    }

    /// The smaller of two numbers, or the one that is a number. Where both
    /// compare equal, `self`.
    pub open spec fn lesser_of(self, other: Real) -> Real {
        if self.nan() || other.below(self) {
            other
        } else {
            self
        }
    }

    /// Whether the pattern stands for no number.
    pub fn is_nan(self) -> (r: bool)
        ensures
            r == self.nan(),
    {
        let magnitude: u64 = if self.bits < SIGN_64 { self.bits } else { self.bits - SIGN_64 };
        magnitude > INFINITY_64
    }

    /// Whether the number is neither infinite nor NaN.
    pub fn is_finite(self) -> (r: bool)
        ensures
            r == self.finite(),
    {
        let magnitude: u64 = if self.bits < SIGN_64 { self.bits } else { self.bits - SIGN_64 };
        magnitude < INFINITY_64
    }

    /// `self < other` as numbers.
    pub fn lt(self, other: Real) -> (r: bool)
        ensures
            r == self.below(other),
    {
        if self.is_nan() || other.is_nan() {
            return false;
        }
        if self.bits < SIGN_64 {
            other.bits < SIGN_64 && self.bits < other.bits
        } else if other.bits < SIGN_64 {
            self.bits > SIGN_64 || other.bits > 0
        } else {
            self.bits > other.bits
        }
    }

    /// `self <= other` as numbers.
    pub fn le(self, other: Real) -> (r: bool)
        ensures
            r == self.at_most(other),
    {
        !self.is_nan() && !other.is_nan() && !other.lt(self)
    }

    /// `self == other` as numbers.
    pub fn eq_num(self, other: Real) -> (r: bool)
        ensures
            r == self.equals(other),
    {
        self.le(other) && other.le(self)
    }

    /// The number without its sign.
    pub fn abs(self) -> (r: Real)
        ensures
            r == self.unsigned(),
    {
        Real { bits: if self.bits < SIGN_64 { self.bits } else { self.bits - SIGN_64 } }
    }

    /// The larger of two numbers; a NaN gives way to the other operand.
    pub fn max(self, other: Real) -> (r: Real)
        ensures
            r == self.greater_of(other),
    {
        if self.is_nan() || self.lt(other) {
            other
        } else {
            self
        }
    }

    /// The smaller of two numbers; a NaN gives way to the other operand.
    pub fn min(self, other: Real) -> (r: Real)
        ensures
            r == self.lesser_of(other),
    {
        if self.is_nan() || other.lt(self) {
            other
        } else {
            self
        }
    }
}

impl Real32 {
    /// The pattern without its sign bit.
    pub open spec fn magnitude(self) -> int {
        if self.bits < SIGN_32 {
            self.bits as int
        } else {
            self.bits - SIGN_32
        }
    }

    /// An integer that orders as the number does. Both zeros have the key 0.
    pub open spec fn key(self) -> int {
        if self.bits < SIGN_32 {
            self.bits as int
        } else {
            SIGN_32 - self.bits
        }
    }

    /// Whether the pattern stands for no number.
    pub open spec fn nan(self) -> bool {
        self.magnitude() > INFINITY_32
    }

    /// Whether the number is neither infinite nor NaN.
    pub open spec fn finite(self) -> bool {
        self.magnitude() < INFINITY_32
    }

    /// `self < other`; no NaN is below or above anything.
    pub open spec fn below(self, other: Real32) -> bool {
        !self.nan() && !other.nan() && self.key() < other.key()
    }

    /// `self <= other`; no NaN is below, above or equal to anything.
    pub open spec fn at_most(self, other: Real32) -> bool {
        !self.nan() && !other.nan() && self.key() <= other.key()
    }

    /// `self == other` as numbers: the two zeros are equal, no NaN equals anything.
    pub open spec fn equals(self, other: Real32) -> bool {
        !self.nan() && !other.nan() && self.key() == other.key()
    }

    /// Whether the pattern stands for no number.
    pub fn is_nan(self) -> (r: bool)
        ensures
            r == self.nan(),
    {
        let magnitude: u32 = if self.bits < SIGN_32 { self.bits } else { self.bits - SIGN_32 };
        magnitude > INFINITY_32
    }

    /// Whether the number is neither infinite nor NaN.
    pub fn is_finite(self) -> (r: bool)
        ensures
            r == self.finite(),
    {
        let magnitude: u32 = if self.bits < SIGN_32 { self.bits } else { self.bits - SIGN_32 };
        magnitude < INFINITY_32
    }

    /// `self < other` as numbers.
    pub fn lt(self, other: Real32) -> (r: bool)
        ensures
            r == self.below(other),
    {
        if self.is_nan() || other.is_nan() {
            return false;
        }
        if self.bits < SIGN_32 {
            other.bits < SIGN_32 && self.bits < other.bits
        } else if other.bits < SIGN_32 {
            self.bits > SIGN_32 || other.bits > 0
        } else {
            self.bits > other.bits
        }
    }

    /// `self <= other` as numbers.
    pub fn le(self, other: Real32) -> (r: bool)
        ensures
            r == self.at_most(other),
    {
        !self.is_nan() && !other.is_nan() && !other.lt(self)
    }

    /// `self == other` as numbers.
    pub fn eq_num(self, other: Real32) -> (r: bool)
        ensures
            r == self.equals(other),
    {
        self.le(other) && other.le(self)
    }
}


/// Numbers without a sign are ordered as their patterns, those with a sign the other way
/// round, and a number with a sign comes before one without, but for the two zeros, which
/// are equal. A pattern beyond that of infinity, with either sign, is no number and comes
/// neither before nor after anything.
pub proof fn law_order_of_patterns(a: Real, b: Real)
    ensures
        a.nan() <==> (0x7FF0_0000_0000_0000 < a.bits < 0x8000_0000_0000_0000 || a.bits > 0xFFF0_0000_0000_0000),
        a.finite() <==> (a.bits < 0x7FF0_0000_0000_0000 || 0x8000_0000_0000_0000 <= a.bits < 0xFFF0_0000_0000_0000),
        a.nan() || b.nan() ==> !a.below(b) && !a.at_most(b) && !a.equals(b),
        !a.nan() && !b.nan() ==> {
            &&& a.at_most(b) <==> a.below(b) || a.equals(b)
            &&& a.below(b) <==> !b.at_most(a)
            &&& a.equals(b) <==> a.bits == b.bits || (a.bits == 0 && b.bits == 0x8000_0000_0000_0000) || (a.bits
                == 0x8000_0000_0000_0000 && b.bits == 0)
            &&& a.bits < 0x8000_0000_0000_0000 && b.bits < 0x8000_0000_0000_0000 ==> (a.below(b) <==> a.bits < b.bits)
            &&& a.bits >= 0x8000_0000_0000_0000 && b.bits >= 0x8000_0000_0000_0000 ==> (a.below(b) <==> a.bits > b.bits)
            &&& a.bits >= 0x8000_0000_0000_0000 && b.bits < 0x8000_0000_0000_0000 ==> (a.below(b) <==> a.bits > 0x8000_0000_0000_0000
                || b.bits > 0)
        },
{
}


/// Numbers without a sign are ordered as their patterns, those with a sign the other way
/// round, and a number with a sign comes before one without, but for the two zeros, which
/// are equal. A pattern beyond that of infinity, with either sign, is no number and comes
/// neither before nor after anything.
pub proof fn law_order_of_patterns_32(a: Real32, b: Real32)
    ensures
        a.nan() <==> (0x7F80_0000 < a.bits < 0x8000_0000 || a.bits > 0xFF80_0000),
        a.finite() <==> (a.bits < 0x7F80_0000 || 0x8000_0000 <= a.bits < 0xFF80_0000),
        a.nan() || b.nan() ==> !a.below(b) && !a.at_most(b) && !a.equals(b),
        !a.nan() && !b.nan() ==> {
            &&& a.at_most(b) <==> a.below(b) || a.equals(b)
            &&& a.below(b) <==> !b.at_most(a)
            &&& a.equals(b) <==> a.bits == b.bits || (a.bits == 0 && b.bits == 0x8000_0000) || (a.bits
                == 0x8000_0000 && b.bits == 0)
            &&& a.bits < 0x8000_0000 && b.bits < 0x8000_0000 ==> (a.below(b) <==> a.bits < b.bits)
            &&& a.bits >= 0x8000_0000 && b.bits >= 0x8000_0000 ==> (a.below(b) <==> a.bits > b.bits)
            &&& a.bits >= 0x8000_0000 && b.bits < 0x8000_0000 ==> (a.below(b) <==> a.bits > 0x8000_0000
                || b.bits > 0)
        },
{
}


/// The greater and the lesser of two numbers are those two, in either order, and something
/// that is no number gives way to the other. Without its sign a number keeps its distance
/// from zero.
pub proof fn law_greater_and_lesser(a: Real, b: Real)
    ensures
        !a.nan() && !b.nan() ==> {
            &&& a.at_most(a.greater_of(b)) && b.at_most(a.greater_of(b))
            &&& a.lesser_of(b).at_most(a) && a.lesser_of(b).at_most(b)
        },
        a.greater_of(b) == a || a.greater_of(b) == b,
        a.lesser_of(b) == a || a.lesser_of(b) == b,
        a.nan() ==> a.greater_of(b) == b && a.lesser_of(b) == b,
        b.nan() ==> a.greater_of(b) == a && a.lesser_of(b) == a || a.nan(),
        a.bits < 0x8000_0000_0000_0000 ==> a.unsigned() == a,
        a.bits >= 0x8000_0000_0000_0000 ==> a.unsigned().bits == a.bits - 0x8000_0000_0000_0000,
{
}

} // verus!
