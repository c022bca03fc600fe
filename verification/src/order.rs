//! How floating-point arithmetic keeps the order of numbers.

use vstd::arithmetic::power2::{
    lemma2_to64, lemma2_to64_rest, lemma_pow2_adds, lemma_pow2_pos, lemma_pow2_unfold, pow2,
};
use vstd::prelude::*;

use crate::rounding::{
    lemma_nearest_exact, lemma_nearest_monotone, lemma_units_form, lemma_units_monotone, nearest,
    units,
};
use crate::value::{
    clamped, exact, less, magnitude_of, product, quotient, rounded, size, sum, whole, Format, Value,
};

verus! {

/// Whether a finite value is one of the format's.
pub open spec fn is_value(f: Format, v: Value) -> bool {
    v matches Value::Finite { mag, .. } ==> mag < f.overflow()
}

/// A number that is at least zero, with either sign of zero.
pub open spec fn is_nonnegative(f: Format, v: Value) -> bool {
    match v {
        Value::Nan => false,
        Value::Infinite { neg } => !neg,
        Value::Finite { .. } => exact(f, v) >= 0,
    }
}

/// The value of an exact result of `s` units.
pub open spec fn settled(f: Format, s: int) -> Value {
    rounded(f, s < 0, magnitude_of(s), 1)
}

/// Magnitudes are in the order of their values.
pub proof fn lemma_magnitude_order(f: Format, a: nat, b: nat)
    ensures
        a < b <==> units(f.precision(), a) < units(f.precision(), b),
        a <= b <==> units(f.precision(), a) <= units(f.precision(), b),
{
    if a < b {
        lemma_units_monotone(f.precision(), a, b);
    }
    if b < a {
        lemma_units_monotone(f.precision(), b, a);
    }
}

/// The first magnitude is zero.
pub proof fn lemma_zero_units(f: Format)
    ensures
        units(f.precision(), 0) == 0,
{
    lemma_pow2_pos(f.precision());
}

/// Rounding up to a value of the format does not go beyond it, nor does rounding
/// down.
pub proof fn lemma_rounding_respects(f: Format, num: nat, den: nat, mag: nat)
    requires
        den > 0,
    ensures
        num <= den * units(f.precision(), mag) ==> nearest(f.precision(), num, den) <= mag,
        num >= den * units(f.precision(), mag) ==> nearest(f.precision(), num, den) >= mag,
{
    let p = f.precision();
    let v = units(p, mag);
    lemma_nearest_exact(p, den * v, den, mag);
    if num <= den * v {
        assert(num * den <= (den * v) * den) by (nonlinear_arith)
            requires
                num <= den * v,
        ;
        lemma_nearest_monotone(p, num, den, den * v, den);
    }
    if num >= den * v {
        assert((den * v) * den <= num * den) by (nonlinear_arith)
            requires
                num >= den * v,
        ;
        lemma_nearest_monotone(p, den * v, den, num, den);
    }
}

/// Rounding keeps the order of exact results.
pub proof fn lemma_settled_monotone(f: Format, s: int, t: int)
    requires
        s <= t,
    ensures
        !less(f, settled(f, t), settled(f, s)),
{
    let p = f.precision();
    let a = nearest(p, magnitude_of(s), 1);
    let b = nearest(p, magnitude_of(t), 1);
    lemma_zero_units(f);
    if s >= 0 {
        lemma_nearest_monotone(p, magnitude_of(s), 1, magnitude_of(t), 1);
        lemma_magnitude_order(f, a, b);
    } else if t < 0 {
        lemma_nearest_monotone(p, magnitude_of(t), 1, magnitude_of(s), 1);
        lemma_magnitude_order(f, b, a);
    }
}

/// A value of the format is its own rounding, but for the sign of zero.
pub proof fn lemma_settled_exact(f: Format, v: Value)
    requires
        v is Finite,
        is_value(f, v),
    ensures
        settled(f, exact(f, v)) is Finite,
        exact(f, settled(f, exact(f, v))) == exact(f, v),
{
    lemma_nearest_exact(f.precision(), size(f, v), 1, v->mag);
    lemma_zero_units(f);
}

/// A finite sum is the rounding of the exact sum, but for the sign of zero.
pub proof fn lemma_sum_settled(f: Format, a: Value, b: Value, c: Value)
    requires
        a is Finite,
        b is Finite,
    ensures
        less(f, sum(f, a, b), c) == less(f, settled(f, exact(f, a) + exact(f, b)), c),
        less(f, c, sum(f, a, b)) == less(f, c, settled(f, exact(f, a) + exact(f, b))),
        sum(f, a, b) !is Nan,
{
    lemma_zero_units(f);
    lemma_nearest_exact(f.precision(), 0, 1, 0);
}

/// Adding what is not negative does not lead below.
pub proof fn lemma_sum_not_below(f: Format, a: Value, b: Value)
    requires
        is_value(f, a),
        is_nonnegative(f, b),
    ensures
        !less(f, sum(f, a, b), a),
{
    if a is Finite && b is Finite {
        lemma_sum_settled(f, a, b, a);
        lemma_settled_exact(f, a);
        lemma_settled_monotone(f, exact(f, a), exact(f, a) + exact(f, b));
    }
}

/// Adding more does not lead below.
pub proof fn lemma_sum_monotone(f: Format, a: Value, b: Value, c: Value)
    requires
        a is Finite,
        b is Finite,
        c is Finite,
        !less(f, c, b),
    ensures
        !less(f, sum(f, a, c), sum(f, a, b)),
{
    lemma_sum_settled(f, a, b, sum(f, a, c));
    lemma_sum_settled(f, a, c, settled(f, exact(f, a) + exact(f, b)));
    lemma_settled_monotone(f, exact(f, a) + exact(f, b), exact(f, a) + exact(f, c));
}

/// A factor from zero to one leads from a finite number towards zero.
pub proof fn lemma_product_shrinks(f: Format, a: Value, b: Value)
    requires
        a is Finite,
        b is Finite,
        is_value(f, b),
        is_nonnegative(f, a),
        is_nonnegative(f, b),
        size(f, a) <= f.one(),
    ensures
        product(f, a, b) is Finite,
        is_nonnegative(f, product(f, a, b)),
        size(f, product(f, a, b)) <= size(f, b),
        product(f, b, a) == product(f, a, b),
{
    let p = f.precision();
    let (n, m) = (size(f, a), size(f, b));
    let one = f.one();
    lemma_pow2_pos(f.scale());
    lemma_zero_units(f);
    assert(n * m <= one * m) by (nonlinear_arith)
        requires
            n <= one,
    ;
    assert(n * m == m * n) by (nonlinear_arith);
    lemma_rounding_respects(f, n * m, one, b->mag);
    let mag = nearest(p, n * m, one);
    lemma_magnitude_order(f, mag, b->mag);
    lemma_factor_of_zero(f, a, b);
}

/// Only zero has a sign among what is not negative, and a product with it is
/// zero.
proof fn lemma_factor_of_zero(f: Format, a: Value, b: Value)
    requires
        a is Finite,
        b is Finite,
        is_nonnegative(f, a),
        is_nonnegative(f, b),
    ensures
        a->Finite_neg || b->Finite_neg ==> nearest(
            f.precision(),
            size(f, a) * size(f, b),
            f.one(),
        ) == 0,
{
    lemma_zero_units(f);
    lemma_pow2_pos(f.scale());
    let (n, m) = (size(f, a), size(f, b));
    if a->Finite_neg || b->Finite_neg {
        assert(n == 0 || m == 0);
        assert(n * m == 0) by (nonlinear_arith)
            requires
                n == 0 || m == 0,
        ;
        assert(f.one() * 0 == 0) by (nonlinear_arith);
        lemma_nearest_exact(f.precision(), 0, f.one(), 0);
    }
}

/// A number over one that is not less is at most one.
pub proof fn lemma_quotient_at_most_one(f: Format, a: Value, b: Value)
    requires
        a is Finite,
        b is Finite,
        is_nonnegative(f, a),
        !b->Finite_neg,
        0 < size(f, b),
        size(f, a) <= size(f, b),
    ensures
        quotient(f, a, b) is Finite,
        is_nonnegative(f, quotient(f, a, b)),
        size(f, quotient(f, a, b)) <= f.one(),
{
    let p = f.precision();
    let (n, m) = (size(f, a), size(f, b));
    let one = f.one();
    lemma_zero_units(f);
    lemma_whole_exact(f, 1);
    lemma_pow2_pos(f.scale());
    let top = whole(f, 1)->mag;
    assert(n * one <= m * one) by (nonlinear_arith)
        requires
            n <= m,
    ;
    assert(1 * one == one);
    lemma_rounding_respects(f, n * one, m, top);
    let mag = nearest(p, n * one, m);
    lemma_magnitude_order(f, mag, top);
    if a->Finite_neg {
        assert(0 * one == 0 && m * 0 == 0) by (nonlinear_arith);
        lemma_nearest_exact(p, 0, m, 0);
    }
}

/// A significand with all its bits: doubles `n` until it takes `p` bits.
pub proof fn lemma_normalize(p: nat, n: nat) -> (t: nat)
    requires
        p >= 1,
        1 <= n < pow2(p),
    ensures
        pow2((p - 1) as nat) <= n * pow2(t) < pow2(p),
        t < p,
    decreases pow2(p) - n,
{
    lemma2_to64();
    lemma_pow2_unfold(p);
    if n >= pow2((p - 1) as nat) {
        assert(n * pow2(0) == n);
        0
    } else {
        let t = lemma_normalize(p, 2 * n);
        lemma_pow2_unfold(t + 1);
        let g = pow2(t);
        assert((2 * n) * g == n * (2 * g)) by (nonlinear_arith);
        if t + 1 >= p {
            lemma_doubling_bound(p, n, t + 1);
        }
        t + 1
    }
}

proof fn lemma_doubling_bound(p: nat, n: nat, t: nat)
    requires
        p >= 1,
        n >= 1,
        n * pow2(t) < pow2(p),
    ensures
        t < p,
{
    if t >= p {
        if t > p {
            vstd::arithmetic::power2::lemma_pow2_strictly_increases(p, t);
        }
        lemma_pow2_pos(t);
        assert(n * pow2(t) >= pow2(t)) by (nonlinear_arith)
            requires
                n >= 1,
        ;
    }
}

/// Numbers below `2^24`, times a power of two that leaves room for their bits,
/// are values of both formats.
pub proof fn lemma_scaled_exact(f: Format, n: nat, e: nat) -> (mag: nat)
    requires
        n < 0x100_0000,
        f.precision() <= e <= f.scale(),
    ensures
        units(f.precision(), mag) == n * pow2(e),
        mag < f.overflow(),
{
    let p = f.precision();
    lemma2_to64();
    lemma2_to64_rest();
    lemma_zero_units(f);
    if n == 0 {
        assert(0 * pow2(e) == 0) by (nonlinear_arith);
        0
    } else {
        let t = lemma_normalize(p, n);
        let k = (e - t) as nat;
        let m = n * pow2(t);
        let h = pow2((p - 1) as nat);
        lemma_units_form(p, k, m);
        lemma_pow2_adds(t, k);
        assert(m * pow2(k) == n * pow2(e)) by (nonlinear_arith)
            requires
                m == n * pow2(t),
                pow2(e) == pow2(t) * pow2(k),
        ;
        assert(k * h <= f.scale() * h) by (nonlinear_arith)
            requires
                k <= f.scale(),
        ;
        k * h + m
    }
}

/// Whole numbers below `2^24` are values of both formats.
pub proof fn lemma_whole_exact(f: Format, n: nat)
    requires
        n < 0x100_0000,
    ensures
        whole(f, n) is Finite,
        is_value(f, whole(f, n)),
        !whole(f, n)->Finite_neg,
        size(f, whole(f, n)) == n * f.one(),
        exact(f, whole(f, n)) == n * f.one(),
{
    let mag = lemma_scaled_exact(f, n, f.scale());
    lemma_nearest_exact(f.precision(), n * f.one(), 1, mag);
}

/// The constants are in their order.
pub proof fn lemma_wholes_ordered(f: Format, a: nat, b: nat)
    requires
        a <= b < 0x100_0000,
    ensures
        !less(f, whole(f, b), whole(f, a)),
        a < b ==> less(f, whole(f, a), whole(f, b)),
{
    lemma_whole_exact(f, a);
    lemma_whole_exact(f, b);
    let one = f.one();
    lemma_pow2_pos(f.scale());
    assert(a * one <= b * one && (a < b ==> a * one < b * one)) by (nonlinear_arith)
        requires
            a <= b,
            one > 0,
    ;
}

/// What was moved into the range from zero to `n` is a value from zero to `n`.
pub proof fn lemma_clamped_to_whole(f: Format, v: Value, n: nat)
    requires
        v !is Nan,
        is_value(f, v),
        n < 0x100_0000,
    ensures
        ({
            let c = clamped(f, v, whole(f, 0), whole(f, n));
            &&& c is Finite
            &&& is_value(f, c)
            &&& is_nonnegative(f, c)
            &&& size(f, c) <= n * f.one()
        }),
{
    lemma_whole_exact(f, 0);
    lemma_whole_exact(f, n);
    lemma_wholes_ordered(f, 0, n);
    assert(0 * f.one() == 0) by (nonlinear_arith);
}

/// Whole numbers of 64 bits are finite, and only zero becomes zero.
pub proof fn lemma_whole_finite(f: Format, n: u64)
    ensures
        whole(f, n as nat) is Finite,
        is_value(f, whole(f, n as nat)),
        !whole(f, n as nat)->Finite_neg,
        n > 0 ==> size(f, whole(f, n as nat)) > 0,
{
    let p = f.precision();
    let one = f.one();
    let h = pow2((p - 1) as nat);
    lemma2_to64();
    lemma2_to64_rest();
    lemma_pow2_pos(f.scale());
    lemma_pow2_pos((p - 1) as nat);
    lemma_zero_units(f);
    // 2^64 is a value of both formats.
    let k = (f.scale() + 65 - p) as nat;
    lemma_units_form(p, k, h);
    lemma_pow2_adds((p - 1) as nat, k);
    lemma_pow2_adds(64, f.scale());
    assert(h * pow2(k) == pow2(64) * one);
    let top = k * h + h;
    assert(top < f.overflow());
    assert(n as nat * one <= 1 * units(p, top)) by (nonlinear_arith)
        requires
            n <= pow2(64),
            units(p, top) == pow2(64) * one,
    ;
    lemma_rounding_respects(f, n as nat * one, 1, top);
    if n > 0 {
        lemma_whole_exact(f, 1);
        assert(1 * one * 1 <= n as nat * one * 1) by (nonlinear_arith)
            requires
                n >= 1,
        ;
        lemma_nearest_monotone(p, 1 * one, 1, n as nat * one, 1);
        lemma_magnitude_order(f, whole(f, 1)->mag, whole(f, n as nat)->mag);
    }
}

} // verus!
