//! Floating-point numbers in the two widths that the monitor uses.
//!
//! `Single` and `Double` hold the bit patterns of 32 and 64 bits. Their views say
//! which number a pattern stands for; patterns that are not a number are not
//! told apart.

use vstd::prelude::*;

use crate::number;
use crate::number::Number;
use crate::value::{
    at_least, clamped, converted, difference, fraction, greater_of, lesser_of, product, quotient,
    sum, truncated, whole, Format, Value,
};

verus! {

/// A number of 32 bits.
#[derive(Clone, Copy, Debug)]
pub struct Single {
    pub bits: u32,
}

/// A number of 64 bits.
#[derive(Clone, Copy, Debug)]
pub struct Double {
    pub bits: u64,
}

/// The number with the given sign and magnitude.
pub open spec fn decoded(f: Format, neg: bool, mag: nat) -> Value {
    if mag > f.overflow() {
        Value::Nan
    } else if mag == f.overflow() {
        Value::Infinite { neg }
    } else {
        Value::Finite { neg, mag }
    }
}

impl Single {
    /// The number that the bits stand for.
    pub open spec fn view(&self) -> Value {
        decoded(
            Format::Single,
            self.bits >= 0x8000_0000,
            (self.bits % 0x8000_0000) as nat,
        )
    }

    /// Takes the bits apart.
    pub fn unpack(self) -> (r: Number)
        ensures
            r.fits(Format::Single),
            r@ == self@,
    {
        let neg = self.bits >= 0x8000_0000;
        let mag: u32 = self.bits % 0x8000_0000;
        if mag > 0x7f80_0000 {
            Number::Nan
        } else if mag == 0x7f80_0000 {
            Number::Infinite { neg }
        } else {
            Number::Finite { neg, mag: mag as u64 }
        }
    }

    /// Puts the bits together.
    pub fn pack(n: Number) -> (r: Single)
        requires
            n.fits(Format::Single),
        ensures
            r@ == n@,
    {
        let (neg, mag): (bool, u32) = match n {
            Number::Nan => (false, 0x7fc0_0000),
            Number::Infinite { neg } => (neg, 0x7f80_0000),
            Number::Finite { neg, mag } => (neg, mag as u32),
        };
        if neg {
            Single { bits: mag + 0x8000_0000 }
        } else {
            Single { bits: mag }
        }
    }

    /// The whole number `n`, rounded.
    pub fn from_whole(n: u64) -> (r: Single)
        ensures
            r@ == whole(Format::Single, n as nat),
    {
        Self::pack(number::from_whole(Format::Single, n))
    }

    /// The number `num / den`, rounded.
    pub fn from_fraction(num: u64, den: u64) -> (r: Single)
        requires
            den > 0,
        ensures
            r@ == fraction(Format::Single, num as nat, den as nat),
    {
        Self::pack(number::from_fraction(Format::Single, num, den))
    }

    /// `self + other`.
    pub fn plus(self, other: Single) -> (r: Single)
        ensures
            r@ == sum(Format::Single, self@, other@),
    {
        Self::pack(number::plus(Format::Single, self.unpack(), other.unpack()))
    }

    /// `self - other`.
    pub fn minus(self, other: Single) -> (r: Single)
        ensures
            r@ == difference(Format::Single, self@, other@),
    {
        Self::pack(number::minus(Format::Single, self.unpack(), other.unpack()))
    }

    /// `self * other`.
    pub fn times(self, other: Single) -> (r: Single)
        ensures
            r@ == product(Format::Single, self@, other@),
    {
        Self::pack(number::multiply(Format::Single, self.unpack(), other.unpack()))
    }

    /// `self / other`.
    pub fn over(self, other: Single) -> (r: Single)
        ensures
            r@ == quotient(Format::Single, self@, other@),
    {
        Self::pack(number::divide(Format::Single, self.unpack(), other.unpack()))
    }

    /// The greater of two; a number where one of them is not.
    pub fn max(self, other: Single) -> (r: Single)
        ensures
            r@ == greater_of(Format::Single, self@, other@),
    {
        Self::pack(number::greater(Format::Single, self.unpack(), other.unpack()))
    }

    /// The number moved into the range from `low` to `high`.
    pub fn clamp(self, low: Single, high: Single) -> (r: Single)
        ensures
            r@ == clamped(Format::Single, self@, low@, high@),
    {
        Self::pack(number::clamp(Format::Single, self.unpack(), low.unpack(), high.unpack()))
    }

    /// Whether this is a number and at least `other`.
    pub fn is_at_least(self, other: Single) -> (r: bool)
        ensures
            r == at_least(Format::Single, self@, other@),
    {
        let (a, b) = (self.unpack(), other.unpack());
        !matches!(a, Number::Nan) && !matches!(b, Number::Nan) && !number::is_less(
            Format::Single,
            a,
            b,
        )
    }

    /// Whether this is neither infinite nor not a number.
    pub fn is_finite(self) -> (r: bool)
        ensures
            r == (self@ is Finite),
    {
        matches!(self.unpack(), Number::Finite { .. })
    }

    /// The same number in 64 bits.
    pub fn widen(self) -> (r: Double)
        ensures
            r@ == converted(Format::Single, Format::Double, self@),
    {
        Double::pack(number::convert(Format::Single, Format::Double, self.unpack()))
    }
}

impl Double {
    /// The number that the bits stand for.
    pub open spec fn view(&self) -> Value {
        decoded(
            Format::Double,
            self.bits >= 0x8000_0000_0000_0000,
            (self.bits % 0x8000_0000_0000_0000) as nat,
        )
    }

    /// Takes the bits apart.
    pub fn unpack(self) -> (r: Number)
        ensures
            r.fits(Format::Double),
            r@ == self@,
    {
        let neg = self.bits >= 0x8000_0000_0000_0000;
        let mag: u64 = self.bits % 0x8000_0000_0000_0000;
        if mag > 0x7ff0_0000_0000_0000 {
            Number::Nan
        } else if mag == 0x7ff0_0000_0000_0000 {
            Number::Infinite { neg }
        } else {
            Number::Finite { neg, mag: mag }
        }
    }

    /// Puts the bits together.
    pub fn pack(n: Number) -> (r: Double)
        requires
            n.fits(Format::Double),
        ensures
            r@ == n@,
    {
        let (neg, mag): (bool, u64) = match n {
            Number::Nan => (false, 0x7ff8_0000_0000_0000),
            Number::Infinite { neg } => (neg, 0x7ff0_0000_0000_0000),
            Number::Finite { neg, mag } => (neg, mag),
        };
        if neg {
            Double { bits: mag + 0x8000_0000_0000_0000 }
        } else {
            Double { bits: mag }
        }
    }

    /// The whole number `n`, rounded.
    pub fn from_whole(n: u64) -> (r: Double)
        ensures
            r@ == whole(Format::Double, n as nat),
    {
        Self::pack(number::from_whole(Format::Double, n))
    }

    /// The number `num / den`, rounded.
    pub fn from_fraction(num: u64, den: u64) -> (r: Double)
        requires
            den > 0,
        ensures
            r@ == fraction(Format::Double, num as nat, den as nat),
    {
        Self::pack(number::from_fraction(Format::Double, num, den))
    }

    /// `self + other`.
    pub fn plus(self, other: Double) -> (r: Double)
        ensures
            r@ == sum(Format::Double, self@, other@),
    {
        Self::pack(number::plus(Format::Double, self.unpack(), other.unpack()))
    }

    /// `self - other`.
    pub fn minus(self, other: Double) -> (r: Double)
        ensures
            r@ == difference(Format::Double, self@, other@),
    {
        Self::pack(number::minus(Format::Double, self.unpack(), other.unpack()))
    }

    /// `self * other`.
    pub fn times(self, other: Double) -> (r: Double)
        ensures
            r@ == product(Format::Double, self@, other@),
    {
        Self::pack(number::multiply(Format::Double, self.unpack(), other.unpack()))
    }

    /// `self / other`.
    pub fn over(self, other: Double) -> (r: Double)
        ensures
            r@ == quotient(Format::Double, self@, other@),
    {
        Self::pack(number::divide(Format::Double, self.unpack(), other.unpack()))
    }

    /// The greater of two; a number where one of them is not.
    pub fn max(self, other: Double) -> (r: Double)
        ensures
            r@ == greater_of(Format::Double, self@, other@),
    {
        Self::pack(number::greater(Format::Double, self.unpack(), other.unpack()))
    }

    /// The number moved into the range from `low` to `high`.
    pub fn clamp(self, low: Double, high: Double) -> (r: Double)
        ensures
            r@ == clamped(Format::Double, self@, low@, high@),
    {
        Self::pack(number::clamp(Format::Double, self.unpack(), low.unpack(), high.unpack()))
    }

    /// The lesser of two; a number where one of them is not.
    pub fn min(self, other: Double) -> (r: Double)
        ensures
            r@ == lesser_of(Format::Double, self@, other@),
    {
        Self::pack(number::lesser(Format::Double, self.unpack(), other.unpack()))
    }

    /// The nearest number in 32 bits.
    pub fn narrow(self) -> (r: Single)
        ensures
            r@ == converted(Format::Double, Format::Single, self@),
    {
        Single::pack(number::convert(Format::Double, Format::Single, self.unpack()))
    }

    /// The whole part, kept within 32 bits.
    pub fn truncate(self) -> (r: u32)
        ensures
            r == truncated(Format::Double, self@),
    {
        number::truncate(Format::Double, self.unpack())
    }
}

} // verus!
