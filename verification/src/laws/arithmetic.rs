//! What arithmetic gives: of all numbers of the format the one nearest to the exact
//! result.

use vstd::arithmetic::power2::{lemma2_to64, lemma_pow2_pos, lemma_pow2_unfold, pow2};
use vstd::prelude::*;

use crate::accuracy::{distance, lemma_nothing_is_nearer};
use crate::order::{is_value, lemma_rounding_respects};
use crate::rounding::{lemma_parts, lemma_units_form, nearest, units};
use crate::value::{
    clamped, converted, difference, exact, fraction, greater_of, less, lesser_of, negated, product,
    quotient, rounded, size, sum, whole, Format, Value,
};

verus! {

/// Magnitudes count in units up to `2^p`, and from `2^(p - 1)` on every
/// `2^(p - 1)` further ones double the value.
pub proof fn law_magnitudes_double(p: nat, mag: nat)
    requires
        p >= 1,
    ensures
        mag <= pow2(p) ==> units(p, mag) == mag,
        mag >= pow2((p - 1) as nat) ==> units(p, mag + pow2((p - 1) as nat)) == 2 * units(p, mag),
{
    let h = pow2((p - 1) as nat);
    lemma_pow2_pos((p - 1) as nat);
    lemma_pow2_unfold(p);
    lemma2_to64();
    if mag == pow2(p) {
        lemma_units_form(p, 0, mag);
        assert(0 * h == 0 && mag * 1 == mag) by (nonlinear_arith);
    }
    if mag >= h {
        lemma_parts(p, mag);
        let (k, m) = (crate::rounding::exponent(p, mag), crate::rounding::significand(p, mag));
        assert(m >= h);
        lemma_units_form(p, k + 1, m);
        lemma_pow2_unfold(k + 1);
        let g = pow2(k);
        assert((k + 1) * h + m == mag + h && m * (2 * g) == 2 * (m * g)) by (nonlinear_arith)
            requires
                mag == k * h + m,
        ;
    }
}

/// No value of the format is nearer to a fraction than its rounding; and a
/// fraction that rounds to an infinity is beyond every finite value.
proof fn lemma_rounded_is_nearest(f: Format, neg: bool, num: nat, den: nat, other: Value)
    requires
        den > 0,
        other is Finite,
        is_value(f, other),
    ensures
        ({
            let r = rounded(f, neg, num, den);
            let x = if neg {
                -(num as int)
            } else {
                num as int
            };
            &&& r is Finite ==> distance(exact(f, r) * den, x) <= distance(exact(f, other) * den, x)
            &&& r is Infinite ==> size(f, other) * den < num && r == (Value::Infinite { neg })
            &&& r !is Nan
        }),
{
    let p = f.precision();
    let v = units(p, nearest(p, num, den));
    let u = size(f, other);
    lemma_nothing_is_nearer(p, num, den, other->mag);
    lemma_rounding_respects(f, num, den, other->mag);
    assert((-(v as int)) * den == -(v * den) && v * den >= 0) by (nonlinear_arith);
    assert((-(u as int)) * den == -(u * den) && u * den >= 0) by (nonlinear_arith);
    assert(den * u == u * den) by (nonlinear_arith);
    lemma_nothing_is_nearer(p, num, den, 0);
    lemma_pow2_pos(p);
    assert(0 * den == 0) by (nonlinear_arith);
}

/// A sum is the number nearest to the exact sum; infinite only beyond every finite
/// number.
pub proof fn law_sum_is_nearest(f: Format, a: Value, b: Value, other: Value)
    requires
        a is Finite,
        b is Finite,
        other is Finite,
        is_value(f, other),
    ensures
        ({
            let s = exact(f, a) + exact(f, b);
            let r = sum(f, a, b);
            &&& r !is Nan
            &&& r is Finite ==> distance(exact(f, r), s) <= distance(exact(f, other), s)
            &&& r is Infinite ==> size(f, other) < distance(s, 0)
            &&& r == sum(f, b, a)
        }),
{
    let s = exact(f, a) + exact(f, b);
    lemma_pow2_pos(f.precision());
    if s != 0 {
        lemma_rounded_is_nearest(f, s < 0, distance(s, 0) as nat, 1, other);
    }
}

/// A difference is the number nearest to the exact difference.
pub proof fn law_difference_is_nearest(f: Format, a: Value, b: Value, other: Value)
    requires
        a is Finite,
        b is Finite,
        other is Finite,
        is_value(f, other),
    ensures
        ({
            let s = exact(f, a) - exact(f, b);
            let r = difference(f, a, b);
            &&& r !is Nan
            &&& r is Finite ==> distance(exact(f, r), s) <= distance(exact(f, other), s)
            &&& r is Infinite ==> size(f, other) < distance(s, 0)
        }),
{
    lemma_pow2_pos(f.precision());
    law_sum_is_nearest(f, a, negated(b), other);
}

/// A product is the number nearest to the exact product.
pub proof fn law_product_is_nearest(f: Format, a: Value, b: Value, other: Value)
    requires
        a is Finite,
        b is Finite,
        other is Finite,
        is_value(f, other),
    ensures
        ({
            let s = exact(f, a) * exact(f, b);
            let r = product(f, a, b);
            &&& r !is Nan
            &&& r is Finite ==> distance(exact(f, r) * f.one(), s) <= distance(
                exact(f, other) * f.one(),
                s,
            )
            &&& r is Infinite ==> size(f, other) * f.one() < distance(s, 0)
            &&& r == product(f, b, a)
        }),
{
    let (n, m) = (size(f, a), size(f, b));
    lemma_pow2_pos(f.scale());
    lemma_rounded_is_nearest(f, a->Finite_neg != b->Finite_neg, n * m, f.one(), other);
    assert(n * m == m * n && (-(n as int)) * m == -(n * m) && n * (-(m as int)) == -(n * m) && (-(
    n as int)) * (-(m as int)) == n * m && n * m >= 0) by (nonlinear_arith);
}

/// A quotient is the number nearest to the exact quotient.
pub proof fn law_quotient_is_nearest(f: Format, a: Value, b: Value, other: Value)
    requires
        a is Finite,
        b is Finite,
        exact(f, b) > 0,
        other is Finite,
        is_value(f, other),
    ensures
        ({
            let (n, m) = (exact(f, a) * f.one(), exact(f, b));
            let r = quotient(f, a, b);
            &&& r !is Nan
            &&& r is Finite ==> distance(exact(f, r) * m, n) <= distance(exact(f, other) * m, n)
            &&& r is Infinite ==> size(f, other) * m < distance(n, 0)
        }),
{
    let (n, m) = (size(f, a), size(f, b));
    lemma_pow2_pos(f.precision());
    lemma_rounded_is_nearest(f, a->Finite_neg, n * f.one(), m, other);
    let one = f.one();
    assert((-(n as int)) * one == -(n * one) && n * one >= 0) by (nonlinear_arith);
}

/// A conversion gives the number of the other format nearest to the given one.
pub proof fn law_conversion_is_nearest(from: Format, to: Format, v: Value, other: Value)
    requires
        v is Finite,
        other is Finite,
        is_value(to, other),
    ensures
        ({
            let n = exact(from, v) * to.one();
            let r = converted(from, to, v);
            &&& r !is Nan
            &&& r is Finite ==> distance(exact(to, r) * from.one(), n) <= distance(
                exact(to, other) * from.one(),
                n,
            )
            &&& r is Infinite ==> size(to, other) * from.one() < distance(n, 0)
        }),
{
    let n = size(from, v);
    let one = to.one();
    lemma_pow2_pos(from.scale());
    lemma_rounded_is_nearest(to, v->Finite_neg, n * one, from.one(), other);
    assert((-(n as int)) * one == -(n * one) && n * one >= 0) by (nonlinear_arith);
}

/// A constant is the number nearest to the fraction that it is written as.
pub proof fn law_constant_is_nearest(f: Format, num: nat, den: nat, other: Value)
    requires
        den > 0,
        other is Finite,
        is_value(f, other),
    ensures
        ({
            let n = num * f.one() as int;
            let r = fraction(f, num, den);
            &&& r !is Nan
            &&& r is Finite ==> distance(exact(f, r) * den, n) <= distance(exact(f, other) * den, n)
            &&& r is Infinite ==> size(f, other) * den < n
            &&& whole(f, num) == fraction(f, num, 1)
        }),
{
    lemma_rounded_is_nearest(f, false, num * f.one(), den, other);
}

/// The greater and the lesser of two are those two, in this order; one that is not
/// a number leaves the other.
pub proof fn law_greater_and_lesser(f: Format, a: Value, b: Value)
    ensures
        ({
            let (high, low) = (greater_of(f, a, b), lesser_of(f, a, b));
            &&& high == a || high == b
            &&& low == a || low == b
            &&& a !is Nan && b !is Nan ==> !less(f, high, a) && !less(f, high, b) && !less(
                f,
                a,
                low,
            ) && !less(f, b, low)
            &&& a is Nan ==> high == b && low == b
            &&& b is Nan && a !is Nan ==> high == a && low == a
        }),
{
}

/// Order is that of the exact values, with the infinities at the ends; what is not
/// a number has no place in it.
pub proof fn law_order_is_exact(f: Format, a: Value, b: Value)
    ensures
        a is Finite && b is Finite ==> (less(f, a, b) <==> exact(f, a) < exact(f, b)),
        a is Finite ==> less(f, a, Value::Infinite { neg: false }) && less(
            f,
            Value::Infinite { neg: true },
            a,
        ),
        a is Nan || b is Nan ==> !less(f, a, b),
        !(less(f, a, b) && less(f, b, a)),
{
}

/// A number is moved only where it is outside of the range, and then to its end.
pub proof fn law_clamping_keeps_the_range(f: Format, v: Value, low: Value, high: Value)
    requires
        low is Finite,
        high is Finite,
        exact(f, low) <= exact(f, high),
    ensures
        ({
            let c = clamped(f, v, low, high);
            &&& !less(f, v, low) && !less(f, high, v) ==> c == v
            &&& less(f, v, low) ==> c == low
            &&& less(f, high, v) ==> c == high
        }),
{
}

} // verus!
