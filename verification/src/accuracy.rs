//! How far rounding may lead away from the exact result.

use vstd::arithmetic::power2::{
    lemma2_to64, lemma2_to64_rest, lemma_pow2_adds, lemma_pow2_pos, lemma_pow2_strictly_increases,
    lemma_pow2_unfold, pow2,
};
use vstd::prelude::*;

use crate::number::lemma_exponents_ordered;
use crate::order::{
    is_value, lemma_normalize, lemma_rounding_respects, lemma_whole_exact, lemma_whole_finite,
};
use crate::rounding::{
    exponent, lemma_nearest_exact, lemma_nearest_exists, lemma_nearest_monotone, lemma_parts,
    lemma_units_form, lemma_units_monotone, nearest, significand, units,
};
use crate::value::{converted, exact, product, quotient, size, sum, whole, Format, Value};

verus! {

/// How far apart two numbers are.
pub open spec fn distance(a: int, b: int) -> int {
    if a <= b {
        b - a
    } else {
        a - b
    }
}

/// A rounded result is off by at most one part in this many.
pub open spec fn accuracy(f: Format) -> nat {
    match f {
        Format::Single => 0xff_ffff,
        Format::Double => 0x1f_ffff_ffff_ffff,
    }
}

/// What the accuracy is made from.
pub proof fn lemma_accuracy(f: Format)
    ensures
        accuracy(f) + 1 == pow2(f.precision()),
        pow2(f.precision()) == 2 * pow2((f.precision() - 1) as nat),
        f.one() > 0,
{
    lemma2_to64();
    lemma2_to64_rest();
    lemma_pow2_unfold(f.precision());
    lemma_pow2_pos(f.scale());
}

/// No magnitude is nearer to `num / den` than the nearest one.
pub proof fn lemma_nothing_is_nearer(p: nat, num: nat, den: nat, other: nat)
    requires
        p >= 1,
        den > 0,
    ensures
        distance((units(p, nearest(p, num, den)) * den) as int, num as int) <= distance(
            (units(p, other) * den) as int,
            num as int,
        ),
{
    let mag = nearest(p, num, den);
    lemma_nearest_exists(p, num, den);
    let (v, u) = (units(p, mag), units(p, other));
    if other > mag {
        let w = units(p, mag + 1);
        if other > mag + 1 {
            lemma_units_monotone(p, mag + 1, other);
        }
        lemma_units_monotone(p, mag, mag + 1);
        assert(2 * num <= v * den + u * den) by (nonlinear_arith)
            requires
                2 * num <= den * (v + w),
                w <= u,
                den > 0,
        ;
        assert(v * den <= u * den) by (nonlinear_arith)
            requires
                v <= u,
        ;
    } else if other < mag {
        let w = units(p, (mag - 1) as nat);
        if other < mag - 1 {
            lemma_units_monotone(p, other, (mag - 1) as nat);
        }
        lemma_units_monotone(p, (mag - 1) as nat, mag);
        assert(u * den + v * den <= 2 * num) by (nonlinear_arith)
            requires
                den * (w + v) <= 2 * num,
                u <= w,
                den > 0,
        ;
        assert(u * den <= v * den) by (nonlinear_arith)
            requires
                u <= v,
        ;
    }
}

/// The nearest magnitude is off by at most one part in `2^p - 1`, or by a unit.
pub proof fn lemma_nearest_close(f: Format, num: nat, den: nat)
    requires
        den > 0,
    ensures
        accuracy(f) * distance(
            (units(f.precision(), nearest(f.precision(), num, den)) * den) as int,
            num as int,
        ) <= num + accuracy(f) * den,
{
    let p = f.precision();
    let e = accuracy(f);
    let mag = nearest(p, num, den);
    let v = units(p, mag);
    lemma_accuracy(f);
    lemma_nearest_exists(p, num, den);
    lemma_parts(p, mag);
    let (k, m) = (exponent(p, mag), significand(p, mag));
    lemma_units_form(p, k, m + 1);
    let g = pow2(k);
    lemma_pow2_pos(k);
    assert((m + 1) * g == m * g + g) by (nonlinear_arith);
    let above = units(p, mag + 1);
    assert(above == v + g);
    assert(2 * num <= 2 * (v * den) + den * g) by (nonlinear_arith)
        requires
            2 * num <= den * (v + above),
            above == v + g,
    ;
    if mag > 0 {
        lemma_gap_below(p, mag);
        let below = units(p, (mag - 1) as nat);
        assert(2 * (v * den) <= 2 * num + den * g) by (nonlinear_arith)
            requires
                den * (below + v) <= 2 * num,
                v - below <= g,
                den > 0,
        ;
    } else {
        lemma_pow2_pos(p);
        assert(v * den == 0) by (nonlinear_arith)
            requires
                v == 0,
        ;
        assert(den * g >= 0) by (nonlinear_arith);
    }
    let d = distance((v * den) as int, num as int);
    assert(2 * d <= den * g);
    if k == 0 {
        lemma2_to64();
        assert(den * g == den) by (nonlinear_arith)
            requires
                g == 1,
        ;
        assert(e * d <= e * den) by (nonlinear_arith)
            requires
                2 * d <= den,
                den > 0,
        ;
    } else {
        let h = pow2((p - 1) as nat);
        // num >= v * den - den * g / 2 >= den * g * (h - 1/2)
        assert((2 * h - 1) * (den * g) <= 2 * num) by (nonlinear_arith)
            requires
                2 * (v * den) <= 2 * num + den * g,
                v == m * g,
                m >= h,
                den > 0,
                g > 0,
        ;
        assert(e * d <= num) by (nonlinear_arith)
            requires
                2 * d <= den * g,
                e == 2 * h - 1,
                (2 * h - 1) * (den * g) <= 2 * num,
                h >= 1,
        ;
        assert(e * den >= 0) by (nonlinear_arith);
    }
}

/// The gap below a magnitude is no wider than the one above.
pub proof fn lemma_gap_below(p: nat, mag: nat)
    requires
        p >= 1,
        mag > 0,
    ensures
        units(p, mag) - units(p, (mag - 1) as nat) <= pow2(exponent(p, mag)),
{
    lemma_parts(p, mag);
    let prior = (mag - 1) as nat;
    lemma_parts(p, prior);
    let (k, j, l) = (exponent(p, mag), exponent(p, prior), significand(p, prior));
    lemma_units_form(p, j, l + 1);
    lemma_exponents_ordered(p, prior, mag);
    let g = pow2(j);
    assert((l + 1) * g == l * g + g) by (nonlinear_arith);
    if j < k {
        lemma_pow2_strictly_increases(j, k);
    }
}

/// A whole number of units is off by at most one part in `2^p - 1`.
pub proof fn lemma_whole_units_close(f: Format, num: nat)
    ensures
        accuracy(f) * distance(
            units(f.precision(), nearest(f.precision(), num, 1)) as int,
            num as int,
        ) <= num,
{
    let p = f.precision();
    let e = accuracy(f);
    lemma_accuracy(f);
    if num < pow2(p) {
        lemma_nearest_exact(p, num, 1, num);
        assert(e * 0 == 0) by (nonlinear_arith);
    } else {
        let mag = nearest(p, num, 1);
        let v = units(p, mag);
        lemma_rounding_respects(f, num, 1, (pow2(p) - 1) as nat);
        lemma_nearest_exists(p, num, 1);
        lemma_parts(p, mag);
        let (k, m) = (exponent(p, mag), significand(p, mag));
        lemma_units_form(p, k, m + 1);
        let g = pow2(k);
        lemma_pow2_pos(k);
        assert((m + 1) * g == m * g + g) by (nonlinear_arith);
        lemma_gap_below(p, mag);
        let d = distance(v as int, num as int);
        assert(2 * d <= g);
        let h = pow2((p - 1) as nat);
        if k == 0 {
            lemma2_to64();
            assert(d == 0);
            assert(e * d == 0) by (nonlinear_arith)
                requires
                    d == 0,
            ;
        } else {
            assert((2 * h - 1) * g <= 2 * num) by (nonlinear_arith)
                requires
                    2 * v <= 2 * num + g,
                    v == m * g,
                    m >= h,
                    g > 0,
            ;
            assert(e * d <= num) by (nonlinear_arith)
                requires
                    2 * d <= g,
                    e == 2 * h - 1,
                    (2 * h - 1) * g <= 2 * num,
                    h >= 1,
            ;
        }
    }
}

/// A finite sum is off by at most one part in `2^p - 1`.
pub proof fn lemma_sum_close(f: Format, a: Value, b: Value)
    requires
        a is Finite,
        b is Finite,
        sum(f, a, b) is Finite,
    ensures
        accuracy(f) * distance(exact(f, sum(f, a, b)), exact(f, a) + exact(f, b)) <= distance(
            exact(f, a) + exact(f, b),
            0,
        ),
{
    let s = exact(f, a) + exact(f, b);
    lemma_pow2_pos(f.precision());
    if s == 0 {
        assert(accuracy(f) * 0 == 0) by (nonlinear_arith);
    } else {
        lemma_whole_units_close(f, distance(s, 0) as nat);
    }
}

/// A finite product is off by at most one part in `2^p - 1`, or by a unit.
pub proof fn lemma_product_close(f: Format, a: Value, b: Value)
    requires
        a is Finite,
        b is Finite,
        exact(f, a) >= 0,
        exact(f, b) >= 0,
        product(f, a, b) is Finite,
    ensures
        accuracy(f) * distance(exact(f, product(f, a, b)) * f.one(), exact(f, a) * exact(f, b))
            <= exact(f, a) * exact(f, b) + accuracy(f) * f.one(),
        exact(f, product(f, a, b)) >= 0,
{
    lemma_accuracy(f);
    lemma_nearest_close(f, size(f, a) * size(f, b), f.one());
    lemma_pow2_pos(f.precision());
    let (n, m) = (size(f, a), size(f, b));
    assert(n * m >= 0) by (nonlinear_arith);
    if a->Finite_neg || b->Finite_neg {
        assert(n * m == 0) by (nonlinear_arith)
            requires
                n == 0 || m == 0,
        ;
        assert(f.one() * 0 == 0) by (nonlinear_arith);
        lemma_nearest_exact(f.precision(), 0, f.one(), 0);
    }
}

/// A finite quotient is off by at most one part in `2^p - 1`, or by a unit.
pub proof fn lemma_quotient_close(f: Format, a: Value, b: Value)
    requires
        a is Finite,
        b is Finite,
        exact(f, a) >= 0,
        exact(f, b) > 0,
        quotient(f, a, b) is Finite,
    ensures
        accuracy(f) * distance(
            exact(f, quotient(f, a, b)) * exact(f, b),
            exact(f, a) * f.one(),
        ) <= exact(f, a) * f.one() + accuracy(f) * exact(f, b),
        exact(f, quotient(f, a, b)) >= 0,
{
    lemma_accuracy(f);
    lemma_pow2_pos(f.precision());
    let (n, m) = (size(f, a), size(f, b));
    lemma_nearest_close(f, n * f.one(), m);
    if a->Finite_neg {
        assert(0 * f.one() == 0 && m * 0 == 0) by (nonlinear_arith);
        lemma_nearest_exact(f.precision(), 0, m, 0);
    }
}

/// A number of 32 bits has the same value in 64 bits.
pub proof fn lemma_widened_exact(v: Value)
    requires
        v is Finite,
        is_value(Format::Single, v),
    ensures
        converted(Format::Single, Format::Double, v) is Finite,
        is_value(Format::Double, converted(Format::Single, Format::Double, v)),
        exact(Format::Double, converted(Format::Single, Format::Double, v)) * Format::Single.one()
            == exact(Format::Single, v) * Format::Double.one(),
        exact(Format::Double, converted(Format::Single, Format::Double, v)) == exact(
            Format::Single,
            v,
        ) * pow2(925),
{
    let (s, f) = (Format::Single, Format::Double);
    let n = size(s, v);
    lemma2_to64();
    lemma2_to64_rest();
    lemma_pow2_pos(149);
    lemma_pow2_pos(925);
    lemma_pow2_adds(149, 925);
    let g = pow2(925);
    let (small, one) = (s.one(), f.one());
    let mag = lemma_scaled_magnitude(v->mag);
    assert(n * one == small * (n * g)) by (nonlinear_arith)
        requires
            one == small * g,
    ;
    lemma_nearest_exact(53, n * one, small, mag);
    let w = n * g;
    assert(w * small == n * one) by (nonlinear_arith)
        requires
            w == n * g,
            one == small * g,
    ;
    assert((-(n as int)) * one == -(n * one)) by (nonlinear_arith);
    assert((-(w as int)) * small == -(w * small)) by (nonlinear_arith);
    assert((-(n as int)) * g == -(n * g)) by (nonlinear_arith);
}

/// The magnitude in 64 bits of one of 32 bits.
proof fn lemma_scaled_magnitude(mag: nat) -> (wide: nat)
    requires
        mag < Format::Single.overflow(),
    ensures
        wide < Format::Double.overflow(),
        units(53, wide) == units(24, mag) * pow2(925),
{
    lemma2_to64();
    lemma2_to64_rest();
    lemma_parts(24, mag);
    lemma_pow2_pos(53);
    let (k, m) = (exponent(24, mag), significand(24, mag));
    assert(k <= 254);
    let u = units(24, mag);
    if m == 0 {
        assert(m * pow2(k) == 0 && u * pow2(925) == 0) by (nonlinear_arith)
            requires
                m == 0,
                u == m * pow2(k),
        ;
        0
    } else {
        let t = lemma_normalize(53, m);
        let e = (k + 925 - t) as nat;
        let n = m * pow2(t);
        lemma_units_form(53, e, n);
        lemma_pow2_adds(k, 925);
        lemma_pow2_adds(t, e);
        let (a, b, c) = (pow2(k), pow2(925), pow2(t));
        let d = pow2(e);
        assert(n * d == u * b) by (nonlinear_arith)
            requires
                n == m * c,
                u == m * a,
                a * b == c * d,
        ;
        e * pow2(52) + n
    }
}

/// The quotient of two whole numbers in single precision is off by at most seven
/// parts in `2^25`, or by a few units.
pub proof fn lemma_ratio_close(n: u64, d: u64)
    requires
        d > 0,
    ensures
        ({
            let f = Format::Single;
            let q = quotient(f, whole(f, n as nat), whole(f, d as nat));
            &&& q is Finite
            &&& !q->Finite_neg
            &&& is_value(f, q)
            &&& 0x200_0000 * distance(exact(f, q) * d, n * f.one()) <= 7 * (n * f.one())
                + 0x1000_0000 * d
        }),
{
    let f = Format::Single;
    let one = f.one();
    let (a, b) = (whole(f, n as nat), whole(f, d as nat));
    let q = quotient(f, a, b);
    lemma_accuracy(f);
    lemma_pow2_pos(f.precision());
    lemma_whole_finite(f, n);
    lemma_whole_finite(f, d);
    lemma_whole_units_close(f, n as nat * one);
    lemma_whole_units_close(f, d as nat * one);
    assert(b->mag != 0);
    lemma_ratio_finite(n, d);
    lemma_quotient_close(f, a, b);
    let (na, nb, v) = (exact(f, a), exact(f, b), exact(f, q));
    let (x, y, z, w) = (v * d * one, v * nb, na * one, n * one * one);
    let t = d * one;
    // b is near d, the quotient is near a / b, and a is near n.
    assert(0xff_ffff * distance(y, x) <= x) by (nonlinear_arith)
        requires
            0xff_ffff * distance(nb, t) <= t,
            t == d * one,
            x == v * d * one,
            y == v * nb,
            v >= 0,
    ;
    assert(0xff_ffff * distance(z, w) <= w) by (nonlinear_arith)
        requires
            0xff_ffff * distance(na, n * one) <= n * one,
            z == na * one,
            w == n * one * one,
            one > 0,
    ;
    assert(0xff_ffff * distance(y, z) <= z + 0xff_ffff * nb);
    assert(nb <= 2 * t);
    assert(x >= 0 && y >= 0 && z >= 0 && w >= 0 && t > 0) by (nonlinear_arith)
        requires
            x == v * d * one,
            y == v * nb,
            z == na * one,
            w == n * one * one,
            t == d * one,
            v >= 0,
            nb >= 0,
            na >= 0,
            one > 0,
            d > 0,
    ;
    assert(0x200_0000 * distance(x, w) <= 7 * w + 0x1000_0000 * t);
    let (p, r) = (v * d, n * one);
    assert(0x200_0000 * distance(p, r) <= 7 * r + 0x1000_0000 * d) by (nonlinear_arith)
        requires
            0x200_0000 * distance(p * one, r * one) <= 7 * (r * one) + 0x1000_0000 * (d * one),
            one > 0,
    ;
}

/// A quotient of whole numbers of 64 bits is finite.
proof fn lemma_ratio_finite(n: u64, d: u64)
    requires
        d > 0,
    ensures
        ({
            let f = Format::Single;
            let q = quotient(f, whole(f, n as nat), whole(f, d as nat));
            q is Finite && !q->Finite_neg && is_value(f, q)
        }),
{
    let f = Format::Single;
    let one = f.one();
    let (a, b) = (whole(f, n as nat), whole(f, d as nat));
    lemma_whole_finite(f, n);
    lemma_whole_finite(f, d);
    lemma_whole_exact(f, 1);
    lemma_pow2_pos(f.scale());
    lemma_pow2_pos(f.precision());
    // The divisor is at least one.
    assert(1 * one * 1 <= d as nat * one * 1) by (nonlinear_arith)
        requires
            d >= 1,
    ;
    lemma_nearest_monotone(24, 1 * one, 1, d as nat * one, 1);
    if whole(f, 1)->mag < b->mag {
        lemma_units_monotone(24, whole(f, 1)->mag, b->mag);
    }
    let (na, nb) = (size(f, a), size(f, b));
    assert(1 * one == one);
    assert(na * one <= nb * na) by (nonlinear_arith)
        requires
            one <= nb,
    ;
    lemma_rounding_respects(f, na * one, nb, a->mag);
}

} // verus!
