//! Rounding to nearest, ties to even, as binary floating point does it.
//!
//! A format with `p` significant bits has finitely many non-negative finite
//! values. Listed in increasing order they are numbered 0, 1, 2, ...; the number
//! of a value is its *magnitude*, and it is also the bit pattern that stores
//! the value. All values are whole multiples of the smallest positive one, the
//! *unit* of the format, so `units(p, mag)` is a natural number.

use vstd::arithmetic::div_mod::*;
use vstd::arithmetic::mul::*;
use vstd::arithmetic::power2::*;
use vstd::prelude::*;

verus! {

/// The value of the magnitude `mag`, in units of a format with `p` bits.
///
/// Below `2^p` neighbouring values are one unit apart; from there on the gap
/// doubles every `2^(p - 1)` magnitudes.
pub open spec fn units(p: nat, mag: nat) -> nat {
    if mag < pow2(p) {
        mag
    } else {
        (mag % pow2((p - 1) as nat) + pow2((p - 1) as nat)) * pow2(
            (mag / pow2((p - 1) as nat) - 1) as nat,
        )
    }
}

/// Whether `mag` is the magnitude nearest to `num / den` units. Halfway between
/// two neighbours the even one is the nearest.
pub open spec fn is_nearest(p: nat, num: nat, den: nat, mag: nat) -> bool {
    &&& 2 * num <= den * (units(p, mag) + units(p, mag + 1))
    &&& 2 * num == den * (units(p, mag) + units(p, mag + 1)) ==> mag % 2 == 0
    &&& mag > 0 ==> den * (units(p, (mag - 1) as nat) + units(p, mag)) <= 2 * num
    &&& mag > 0 && den * (units(p, (mag - 1) as nat) + units(p, mag)) == 2 * num ==> mag % 2 == 0
}

/// The magnitude nearest to `num / den` units.
pub open spec fn nearest(p: nat, num: nat, den: nat) -> nat {
    choose|mag: nat| is_nearest(p, num, den, mag)
}

/// The whole number nearest to `num / den`, the even one of two.
pub open spec fn half_even(num: nat, den: nat) -> nat {
    let whole = num / den;
    let rest = num % den;
    if 2 * rest > den || (2 * rest == den && whole % 2 == 1) {
        whole + 1
    } else {
        whole
    }
}

/// The magnitude with the significand `m` and the exponent `k`.
pub proof fn lemma_units_form(p: nat, k: nat, m: nat)
    requires
        p >= 1,
        m <= pow2(p),
        k == 0 || pow2((p - 1) as nat) <= m,
    ensures
        units(p, k * pow2((p - 1) as nat) + m) == m * pow2(k),
{
    let h = pow2((p - 1) as nat);
    lemma_pow2_pos((p - 1) as nat);
    lemma_pow2_unfold(p);
    assert(pow2(p) == 2 * h);
    lemma2_to64();
    let mag = k * h + m;
    if k == 0 {
        assert(mag == m) by (nonlinear_arith)
            requires
                mag == k * h + m,
                k == 0,
        ;
        if m == pow2(p) {
            assert(mag % h == 0 && mag / h == 2) by (nonlinear_arith)
                requires
                    mag == 2 * h,
                    h > 0,
            ;
            assert((0 + h) * pow2(1) == m);
        }
        assert(m * pow2(0) == m);
    } else {
        assert(mag >= 2 * h) by (nonlinear_arith)
            requires
                mag == k * h + m,
                k >= 1,
                m >= h,
        ;
        if m < pow2(p) {
            let r = (m - h) as nat;
            assert(mag == (k + 1) * h + r) by (nonlinear_arith)
                requires
                    mag == k * h + m,
                    r == m - h,
            ;
            lemma_fundamental_div_mod_converse(mag as int, h as int, (k + 1) as int, r as int);
            assert(mag / h == k + 1 && mag % h == r);
        } else {
            assert(mag == (k + 2) * h + 0) by (nonlinear_arith)
                requires
                    mag == k * h + m,
                    m == 2 * h,
            ;
            lemma_fundamental_div_mod_converse(mag as int, h as int, (k + 2) as int, 0);
            assert(mag / h == k + 2 && mag % h == 0);
            lemma_pow2_unfold((k + 1) as nat);
            assert(h * (2 * pow2(k)) == m * pow2(k)) by (nonlinear_arith)
                requires
                    m == 2 * h,
            ;
        }
    }
}

/// The exponent of a magnitude: how often the gap between neighbours doubled.
pub open spec fn exponent(p: nat, mag: nat) -> nat {
    if mag < pow2(p) {
        0
    } else {
        (mag / pow2((p - 1) as nat) - 1) as nat
    }
}

/// The significand of a magnitude: its value in gaps between neighbours.
pub open spec fn significand(p: nat, mag: nat) -> nat {
    if mag < pow2(p) {
        mag
    } else {
        mag % pow2((p - 1) as nat) + pow2((p - 1) as nat)
    }
}

/// A magnitude is put together from its exponent and its significand.
pub proof fn lemma_parts(p: nat, mag: nat)
    requires
        p >= 1,
    ensures
        significand(p, mag) < pow2(p),
        exponent(p, mag) == 0 || pow2((p - 1) as nat) <= significand(p, mag),
        mag == exponent(p, mag) * pow2((p - 1) as nat) + significand(p, mag),
        units(p, mag) == significand(p, mag) * pow2(exponent(p, mag)),
{
    let h = pow2((p - 1) as nat);
    lemma_pow2_pos((p - 1) as nat);
    lemma_pow2_unfold(p);
    let k = exponent(p, mag);
    let m = significand(p, mag);
    if mag < pow2(p) {
        lemma2_to64();
        assert(m * pow2(0) == m);
    } else {
        lemma_fundamental_div_mod(mag as int, h as int);
        assert(mag / h >= 2) by (nonlinear_arith)
            requires
                mag >= 2 * h,
                h > 0,
        ;
        let q = mag / h;
        assert(k * h + m == mag) by (nonlinear_arith)
            requires
                k == q - 1,
                m == mag % h + h,
                mag == h * q + mag % h,
        ;
        lemma_mod_bound(mag as int, h as int);
    }
}

/// The next magnitude has a greater value.
pub proof fn lemma_units_step(p: nat, mag: nat)
    requires
        p >= 1,
    ensures
        units(p, mag) < units(p, mag + 1),
{
    lemma_parts(p, mag);
    let k = exponent(p, mag);
    let m = significand(p, mag);
    lemma_units_form(p, k, m + 1);
    lemma_pow2_pos(k);
    assert((m + 1) * pow2(k) > m * pow2(k)) by (nonlinear_arith)
        requires
            pow2(k) > 0,
    ;
}

/// Magnitudes are numbered in the order of their values.
pub proof fn lemma_units_monotone(p: nat, a: nat, b: nat)
    requires
        p >= 1,
        a < b,
    ensures
        units(p, a) < units(p, b),
    decreases b - a,
{
    lemma_units_step(p, (b - 1) as nat);
    if a + 1 < b {
        lemma_units_monotone(p, a, (b - 1) as nat);
    }
}

/// There is at most one nearest magnitude.
pub proof fn lemma_nearest_unique(p: nat, num: nat, den: nat, a: nat, b: nat)
    requires
        p >= 1,
        den > 0,
        is_nearest(p, num, den, a),
        is_nearest(p, num, den, b),
    ensures
        a == b,
{
    lemma_nearest_not_below(p, num, den, a, b);
    lemma_nearest_not_below(p, num, den, b, a);
}

proof fn lemma_nearest_not_below(p: nat, num: nat, den: nat, a: nat, b: nat)
    requires
        p >= 1,
        den > 0,
        is_nearest(p, num, den, a),
        is_nearest(p, num, den, b),
    ensures
        a >= b,
{
    if a < b {
        lemma_units_step(p, a);
        lemma_units_step(p, (b - 1) as nat);
        let low = units(p, a) + units(p, a + 1);
        let high = units(p, (b - 1) as nat) + units(p, b);
        if a + 1 < b {
            lemma_units_monotone(p, a + 1, b);
            if a + 1 < b - 1 {
                lemma_units_monotone(p, a + 1, (b - 1) as nat);
            }
            assert(den * low < den * high) by (nonlinear_arith)
                requires
                    low < high,
                    den > 0,
            ;
        }
    }
}

/// A magnitude that is nearest is the one that `nearest` picks.
pub proof fn lemma_nearest_is(p: nat, num: nat, den: nat, mag: nat)
    requires
        p >= 1,
        den > 0,
        is_nearest(p, num, den, mag),
    ensures
        nearest(p, num, den) == mag,
{
    lemma_nearest_unique(p, num, den, nearest(p, num, den), mag);
}

/// What is a value of the format already is not moved by rounding.
pub proof fn lemma_nearest_exact(p: nat, num: nat, den: nat, mag: nat)
    requires
        p >= 1,
        den > 0,
        num == den * units(p, mag),
    ensures
        is_nearest(p, num, den, mag),
        nearest(p, num, den) == mag,
{
    let v = units(p, mag);
    lemma_units_step(p, mag);
    let above = units(p, mag + 1);
    assert(2 * (den * v) < den * (v + above)) by (nonlinear_arith)
        requires
            v < above,
            den > 0,
    ;
    if mag > 0 {
        lemma_units_step(p, (mag - 1) as nat);
        let below = units(p, (mag - 1) as nat);
        assert(den * (below + v) < 2 * (den * v)) by (nonlinear_arith)
            requires
                below < v,
                den > 0,
        ;
    }
    lemma_nearest_is(p, num, den, mag);
}

/// A magnitude is at most its value.
proof fn lemma_units_at_least(p: nat, mag: nat)
    requires
        p >= 1,
    ensures
        units(p, mag) >= mag,
    decreases mag,
{
    lemma_pow2_pos(p);
    if mag > 0 {
        lemma_units_at_least(p, (mag - 1) as nat);
        lemma_units_step(p, (mag - 1) as nat);
    }
}

/// The greatest magnitude up to `bound` whose value is at most `num / den`.
proof fn lemma_floor_exists(p: nat, num: nat, den: nat, bound: nat) -> (mag: nat)
    requires
        p >= 1,
        den > 0,
        num < den * units(p, bound),
    ensures
        den * units(p, mag) <= num < den * units(p, mag + 1),
    decreases bound,
{
    lemma_pow2_pos(p);
    if bound == 0 {
        assert(den * 0 == 0) by (nonlinear_arith);
        0
    } else {
        let below = (bound - 1) as nat;
        if num < den * units(p, below) {
            lemma_floor_exists(p, num, den, below)
        } else {
            below
        }
    }
}

/// Every ratio has a nearest magnitude, so `nearest` is one.
pub proof fn lemma_nearest_exists(p: nat, num: nat, den: nat)
    requires
        p >= 1,
        den > 0,
    ensures
        is_nearest(p, num, den, nearest(p, num, den)),
{
    lemma_units_at_least(p, num + 1);
    let top = units(p, num + 1);
    assert(num < den * top) by (nonlinear_arith)
        requires
            den >= 1,
            top > num,
    ;
    let mag = lemma_floor_exists(p, num, den, num + 1);
    let v = units(p, mag);
    let w = units(p, mag + 1);
    lemma_units_step(p, mag);
    let middle = den * (v + w);
    assert(middle == den * v + den * w) by (nonlinear_arith)
        requires
            middle == den * (v + w),
    ;
    if 2 * num < middle || (2 * num == middle && mag % 2 == 0) {
        if mag > 0 {
            lemma_units_step(p, (mag - 1) as nat);
            let u = units(p, (mag - 1) as nat);
            assert(den * (u + v) < 2 * (den * v)) by (nonlinear_arith)
                requires
                    u < v,
                    den > 0,
            ;
        }
        assert(is_nearest(p, num, den, mag));
    } else {
        lemma_units_step(p, mag + 1);
        let x = units(p, mag + 2);
        assert(2 * (den * w) < den * (w + x)) by (nonlinear_arith)
            requires
                w < x,
                den > 0,
        ;
        assert(is_nearest(p, num, den, mag + 1));
    }
}

/// Rounding keeps the order of what is rounded.
pub proof fn lemma_nearest_monotone(p: nat, n1: nat, d1: nat, n2: nat, d2: nat)
    requires
        p >= 1,
        d1 > 0,
        d2 > 0,
        n1 * d2 <= n2 * d1,
    ensures
        nearest(p, n1, d1) <= nearest(p, n2, d2),
{
    lemma_nearest_exists(p, n1, d1);
    lemma_nearest_exists(p, n2, d2);
    let a = nearest(p, n1, d1);
    let b = nearest(p, n2, d2);
    if a > b {
        let low = units(p, b) + units(p, b + 1);
        let high = units(p, (a - 1) as nat) + units(p, a);
        lemma_units_step(p, b);
        lemma_units_step(p, (a - 1) as nat);
        if a > b + 1 {
            lemma_units_monotone(p, b + 1, a);
            lemma_units_monotone(p, b, (a - 1) as nat);
        }
        assert(low <= high);
        assert(low < high || a == b + 1);
        // d1 * high <= 2 * n1, 2 * n2 <= d2 * low and n1 * d2 <= n2 * d1
        assert(d1 * high * d2 <= d2 * low * d1) by (nonlinear_arith)
            requires
                d1 * high <= 2 * n1,
                2 * n2 <= d2 * low,
                n1 * d2 <= n2 * d1,
        ;
        assert(high <= low) by (nonlinear_arith)
            requires
                d1 * high * d2 <= d2 * low * d1,
                d1 > 0,
                d2 > 0,
        ;
        assert(d1 * high == 2 * n1 && 2 * n2 == d2 * low) by (nonlinear_arith)
            requires
                high == low,
                d1 * high <= 2 * n1,
                2 * n2 <= d2 * low,
                n1 * d2 <= n2 * d1,
                d1 > 0,
                d2 > 0,
        ;
    }
}

} // verus!
