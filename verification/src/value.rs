//! What floating-point numbers are and what arithmetic on them gives.
//!
//! A number is a `Value`: not a number, an infinity, or a finite value that is
//! named by its sign and its magnitude (see `rounding`). Every operation is the
//! exact result, rounded once to the nearest value of the format.

use vstd::arithmetic::power2::pow2;
use vstd::prelude::*;

use crate::rounding::{half_even, nearest, units};

verus! {

/// The two formats: 32 and 64 bits wide.
#[derive(Clone, Copy, PartialEq, Eq, Structural, Debug)]
pub enum Format {
    Single,
    Double,
}

impl Format {
    /// The number of significant bits.
    pub open spec fn precision(self) -> nat {
        match self {
            Format::Single => 24,
            Format::Double => 53,
        }
    }

    /// `2^scale` units make one.
    pub open spec fn scale(self) -> nat {
        match self {
            Format::Single => 149,
            Format::Double => 1074,
        }
    }

    /// The first magnitude that stands for no finite value.
    pub open spec fn overflow(self) -> nat {
        match self {
            Format::Single => 0x7f80_0000,
            Format::Double => 0x7ff0_0000_0000_0000,
        }
    }

    /// One, in units.
    pub open spec fn one(self) -> nat {
        pow2(self.scale())
    }
}

/// A floating-point number.
pub enum Value {
    /// Not a number.
    Nan,
    /// An infinity.
    Infinite { neg: bool },
    /// A finite value; zero has both signs.
    Finite { neg: bool, mag: nat },
}

/// The number of units in the absolute value of a finite `v`.
pub open spec fn size(f: Format, v: Value) -> nat {
    match v {
        Value::Finite { mag, .. } => units(f.precision(), mag),
        _ => 0,
    }
}

/// A finite `v` in units, with its sign.
pub open spec fn exact(f: Format, v: Value) -> int {
    match v {
        Value::Finite { neg: true, .. } => -(size(f, v) as int),
        _ => size(f, v) as int,
    }
}

/// `num / den` units, rounded to the format; too large a result is infinite.
pub open spec fn rounded(f: Format, neg: bool, num: nat, den: nat) -> Value {
    let mag = nearest(f.precision(), num, den);
    if mag >= f.overflow() {
        Value::Infinite { neg }
    } else {
        Value::Finite { neg, mag }
    }
}

/// The number `num / den`, as a decimal constant stands for it.
pub open spec fn fraction(f: Format, num: nat, den: nat) -> Value {
    rounded(f, false, num * f.one(), den)
}

/// The whole number `n`.
pub open spec fn whole(f: Format, n: nat) -> Value {
    rounded(f, false, n * f.one(), 1)
}

/// `-v`.
pub open spec fn negated(v: Value) -> Value {
    match v {
        Value::Nan => Value::Nan,
        Value::Infinite { neg } => Value::Infinite { neg: !neg },
        Value::Finite { neg, mag } => Value::Finite { neg: !neg, mag },
    }
}

/// The absolute value of an integer.
pub open spec fn magnitude_of(n: int) -> nat {
    if n < 0 {
        (-n) as nat
    } else {
        n as nat
    }
}

/// `a + b`. An exact zero has a sign only where both summands have it.
pub open spec fn sum(f: Format, a: Value, b: Value) -> Value {
    match (a, b) {
        (Value::Nan, _) => Value::Nan,
        (_, Value::Nan) => Value::Nan,
        (Value::Infinite { neg: x }, Value::Infinite { neg: y }) => if x == y {
            a
        } else {
            Value::Nan
        },
        (Value::Infinite { .. }, _) => a,
        (_, Value::Infinite { .. }) => b,
        (Value::Finite { neg: x, .. }, Value::Finite { neg: y, .. }) => {
            let s = exact(f, a) + exact(f, b);
            if s == 0 {
                Value::Finite { neg: x && y, mag: 0 }
            } else {
                rounded(f, s < 0, magnitude_of(s), 1)
            }
        },
    }
}

/// `a - b`.
pub open spec fn difference(f: Format, a: Value, b: Value) -> Value {
    sum(f, a, negated(b))
}

/// `a * b`.
pub open spec fn product(f: Format, a: Value, b: Value) -> Value {
    match (a, b) {
        (Value::Nan, _) => Value::Nan,
        (_, Value::Nan) => Value::Nan,
        (Value::Infinite { neg: x }, Value::Infinite { neg: y }) => Value::Infinite { neg: x != y },
        (Value::Infinite { neg: x }, Value::Finite { neg: y, mag }) => if mag == 0 {
            Value::Nan
        } else {
            Value::Infinite { neg: x != y }
        },
        (Value::Finite { neg: x, mag }, Value::Infinite { neg: y }) => if mag == 0 {
            Value::Nan
        } else {
            Value::Infinite { neg: x != y }
        },
        (Value::Finite { neg: x, .. }, Value::Finite { neg: y, .. }) => rounded(
            f,
            x != y,
            size(f, a) * size(f, b),
            f.one(),
        ),
    }
}

/// `a / b`.
pub open spec fn quotient(f: Format, a: Value, b: Value) -> Value {
    match (a, b) {
        (Value::Nan, _) => Value::Nan,
        (_, Value::Nan) => Value::Nan,
        (Value::Infinite { .. }, Value::Infinite { .. }) => Value::Nan,
        (Value::Infinite { neg: x }, Value::Finite { neg: y, .. }) => Value::Infinite {
            neg: x != y,
        },
        (Value::Finite { neg: x, .. }, Value::Infinite { neg: y }) => Value::Finite {
            neg: x != y,
            mag: 0,
        },
        (Value::Finite { neg: x, mag: m }, Value::Finite { neg: y, mag: n }) => if n == 0 {
            if m == 0 {
                Value::Nan
            } else {
                Value::Infinite { neg: x != y }
            }
        } else {
            rounded(f, x != y, size(f, a) * f.one(), size(f, b))
        },
    }
}

/// `a < b`; false where either is not a number.
pub open spec fn less(f: Format, a: Value, b: Value) -> bool {
    match (a, b) {
        (Value::Nan, _) => false,
        (_, Value::Nan) => false,
        (Value::Infinite { neg: x }, Value::Infinite { neg: y }) => x && !y,
        (Value::Infinite { neg }, Value::Finite { .. }) => neg,
        (Value::Finite { .. }, Value::Infinite { neg }) => !neg,
        (Value::Finite { .. }, Value::Finite { .. }) => exact(f, a) < exact(f, b),
    }
}

/// `a >= b`; false where either is not a number.
pub open spec fn at_least(f: Format, a: Value, b: Value) -> bool {
    a !is Nan && b !is Nan && !less(f, a, b)
}

/// The greater of two; of two equals the first, and the other where one is not
/// a number.
pub open spec fn greater_of(f: Format, a: Value, b: Value) -> Value {
    if a is Nan || less(f, a, b) {
        b
    } else {
        a
    }
}

/// The lesser of two; of two equals the first, and the other where one is not
/// a number.
pub open spec fn lesser_of(f: Format, a: Value, b: Value) -> Value {
    if a is Nan || less(f, b, a) {
        b
    } else {
        a
    }
}

/// `v` moved into the range from `low` to `high`.
pub open spec fn clamped(f: Format, v: Value, low: Value, high: Value) -> Value {
    if less(f, v, low) {
        low
    } else if less(f, high, v) {
        high
    } else {
        v
    }
}

/// A number of the format `from` in the format `to`.
pub open spec fn converted(from: Format, to: Format, v: Value) -> Value {
    match v {
        Value::Finite { neg, .. } => rounded(to, neg, size(from, v) * to.one(), from.one()),
        _ => v,
    }
}

/// The whole part as a number of 32 bits: what is below 0 becomes 0, what is too
/// large the greatest such number, and what is not a number 0.
pub open spec fn truncated(f: Format, v: Value) -> u32 {
    match v {
        Value::Nan => 0,
        Value::Infinite { neg } => if neg {
            0
        } else {
            u32::MAX
        },
        Value::Finite { neg, .. } => {
            let n = size(f, v) / f.one();
            if neg {
                0
            } else if n > u32::MAX {
                u32::MAX
            } else {
                n as u32
            }
        },
    }
}

/// A finite `v` in tenths (`base` 10) or ones (`base` 1), to the nearest.
pub open spec fn scaled_half_even(f: Format, v: Value, base: nat) -> nat {
    half_even(size(f, v) * base, f.one())
}

} // verus!
