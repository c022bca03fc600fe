//! The decimal logarithm, and what it means that a number is near it.
//!
//! The logarithm itself is taken outside of this crate. What it is can be said
//! without it: `l` is at most the logarithm of `x` where `10^l` is at most `x`, and
//! the same holds of powers of both, so that whole exponents are enough.

use vstd::arithmetic::power::{
    lemma_pow_adds, lemma_pow_distributes, lemma_pow_increases_converse, lemma_pow_multiplies,
    lemma_pow_positive, pow,
};
use vstd::arithmetic::power2::{lemma2_to64, lemma_pow2_adds, lemma_pow2_pos, pow2};
use vstd::prelude::*;

use crate::value::{exact, Format, Value};

verus! {

/// How far off a logarithm may be: `2^-16`, in units of single precision.
pub open spec fn tolerance() -> nat {
    pow2(133)
}

/// Whether `log` is the decimal logarithm of `argument`, both in single
/// precision, off by at most the tolerance: with `x` and `l` for what the two
/// stand for and `t` for the tolerance, `10^(l - t) <= x <= 10^(l + t)`. All is
/// raised to the power of the units in one, which leaves whole exponents.
pub open spec fn is_decimal_logarithm(argument: Value, log: Value) -> bool {
    let one = Format::Single.one();
    let x = exact(Format::Single, argument);
    let l = exact(Format::Single, log);
    let t = tolerance();
    &&& argument is Finite
    &&& log is Finite
    &&& l + t >= 0
    &&& pow(x, one) <= pow(10, (l + t) as nat) * pow(one as int, one)
    &&& l - t >= 0 ==> pow(10, (l - t) as nat) * pow(one as int, one) <= pow(x, one)
}

/// A greater base has greater powers.
proof fn lemma_base_grows(a: int, b: int, e: nat)
    requires
        0 <= a <= b,
    ensures
        0 <= pow(a, e) <= pow(b, e),
    decreases e,
{
    reveal(pow);
    if e > 0 {
        lemma_base_grows(a, b, (e - 1) as nat);
        let (p, q) = (pow(a, (e - 1) as nat), pow(b, (e - 1) as nat));
        assert(0 <= a * p <= b * q) by (nonlinear_arith)
            requires
                0 <= a <= b,
                0 <= p <= q,
        ;
    }
}

/// Of two powers of ten with a common factor the lesser has the lesser exponent.
proof fn lemma_exponents(a: nat, b: nat, w: int)
    requires
        w > 0,
        pow(10, a) * w <= pow(10, b) * w,
    ensures
        a <= b,
{
    let (p, q) = (pow(10, a), pow(10, b));
    assert(p <= q) by (nonlinear_arith)
        requires
            w > 0,
            p * w <= q * w,
    ;
    lemma_pow_increases_converse(10, a, b);
}

/// The logarithm of a number ten times as large is one more, up to the
/// tolerances of both.
pub proof fn lemma_tenfold(argument: Value, log: Value, tenfold: Value, other: Value)
    requires
        is_decimal_logarithm(argument, log),
        is_decimal_logarithm(tenfold, other),
        exact(Format::Single, argument) >= Format::Single.one(),
        exact(Format::Single, tenfold) == 10 * exact(Format::Single, argument),
    ensures
        ({
            let one = Format::Single.one();
            let (l, m) = (exact(Format::Single, log), exact(Format::Single, other));
            let t = tolerance();
            &&& -2 * t <= m - l - one <= 2 * t
            &&& exact(Format::Single, argument) == one ==> -t <= m - one <= t
        }),
{
    let one = Format::Single.one();
    let x = exact(Format::Single, argument);
    let (l, m) = (exact(Format::Single, log), exact(Format::Single, other));
    let t = tolerance();
    lemma_pow2_pos(149);
    lemma_pow2_pos(133);
    let w = pow(one as int, one);
    let p = pow(x, one);
    let ten = pow(10, one);
    lemma_pow_positive(one as int, one);
    lemma_pow_positive(10, one);
    lemma_pow_distributes(10, x, one);
    lemma_base_grows(one as int, x, one);
    // The upper end.
    if m - t >= 0 {
        let u = pow(10, (l + t) as nat);
        lemma_pow_adds(10, one, (l + t) as nat);
        assert(ten * p <= (ten * u) * w) by (nonlinear_arith)
            requires
                p <= u * w,
                ten > 0,
        ;
        lemma_exponents((m - t) as nat, one + (l + t) as nat, w);
        if x == one {
            lemma_exponents((m - t) as nat, one, w);
        }
    }
    // The lower end.
    assert(ten * w <= ten * p) by (nonlinear_arith)
        requires
            w <= p,
            ten > 0,
    ;
    lemma_exponents(one, (m + t) as nat, w);
    if l - t >= 0 {
        let u = pow(10, (l - t) as nat);
        lemma_pow_adds(10, one, (l - t) as nat);
        assert((ten * u) * w <= ten * p) by (nonlinear_arith)
            requires
                u * w <= p,
                ten > 0,
        ;
        lemma_exponents(one + (l - t) as nat, (m + t) as nat, w);
    }
}

/// The logarithm of a number from two on is above two sevenths, up to the
/// tolerance.
pub proof fn lemma_logarithm_of_two(argument: Value, log: Value)
    requires
        is_decimal_logarithm(argument, log),
        exact(Format::Single, argument) >= 2 * Format::Single.one(),
    ensures
        2 * Format::Single.one() <= 7 * (exact(Format::Single, log) + tolerance()),
{
    let one = Format::Single.one();
    let x = exact(Format::Single, argument);
    let e = (exact(Format::Single, log) + tolerance()) as nat;
    lemma_pow2_pos(149);
    let w = pow(one as int, one);
    lemma_pow_positive(one as int, one);
    lemma_base_grows(2 * one as int, x, one);
    lemma_pow_distributes(2, one as int, one);
    let (two, u) = (pow(2, one), pow(10, e));
    assert(two <= u) by (nonlinear_arith)
        requires
            two * w <= u * w,
            w > 0,
    ;
    // 10^(2 one) == 100^one <= 128^one == (2^one)^7 <= (10^e)^7 == 10^(7 e)
    lemma_pow_positive(2, one);
    lemma_base_grows(two, u, 7);
    lemma_pow_multiplies(10, e, 7);
    lemma_pow_multiplies(2, one, 7);
    lemma_pow_multiplies(2, 7, one);
    lemma_pow_multiplies(10, 2, one);
    assert(pow(10, 2) == 100 && pow(2, 7) == 128) by {
        reveal_with_fuel(pow, 8);
    }
    assert(one * 7 == 7 * one);
    lemma_base_grows(100, 128, one);
    assert(pow(10, 2 * one) <= pow(10, e * 7));
    lemma_pow_increases_converse(10, 2 * one, e * 7);
}

/// The logarithm of a number up to ten million is at most seven, up to the
/// tolerance.
pub proof fn lemma_logarithm_of_ten_million(argument: Value, log: Value)
    requires
        is_decimal_logarithm(argument, log),
        0 <= exact(Format::Single, argument) <= 10_000_000 * Format::Single.one(),
    ensures
        exact(Format::Single, log) - tolerance() <= 7 * Format::Single.one(),
{
    let one = Format::Single.one();
    let x = exact(Format::Single, argument);
    let e = exact(Format::Single, log) - tolerance();
    lemma_pow2_pos(149);
    let w = pow(one as int, one);
    lemma_pow_positive(one as int, one);
    lemma_base_grows(x, 10_000_000 * one as int, one);
    lemma_pow_distributes(10_000_000, one as int, one);
    lemma_pow_multiplies(10, 7, one);
    assert(pow(10, 7) == 10_000_000) by {
        reveal_with_fuel(pow, 8);
    }
    if e >= 0 {
        lemma_exponents(e as nat, 7 * one, w);
    }
}

/// The logarithm of a number from ten million on is at least seven, up to the
/// tolerance.
pub proof fn lemma_logarithm_from_ten_million(argument: Value, log: Value)
    requires
        is_decimal_logarithm(argument, log),
        exact(Format::Single, argument) >= 10_000_000 * Format::Single.one(),
    ensures
        7 * Format::Single.one() <= exact(Format::Single, log) + tolerance(),
{
    let one = Format::Single.one();
    let x = exact(Format::Single, argument);
    let e = (exact(Format::Single, log) + tolerance()) as nat;
    lemma_pow2_pos(149);
    let w = pow(one as int, one);
    lemma_pow_positive(one as int, one);
    lemma_base_grows(10_000_000 * one as int, x, one);
    lemma_pow_distributes(10_000_000, one as int, one);
    lemma_pow_multiplies(10, 7, one);
    assert(pow(10, 7) == 10_000_000) by {
        reveal_with_fuel(pow, 8);
    }
    lemma_exponents(7 * one, e, w);
}

/// The tolerance is one part of `2^16` of one.
pub proof fn lemma_tolerance()
    ensures
        tolerance() > 0,
        Format::Single.one() == 0x1_0000 * tolerance(),
{
    lemma2_to64();
    lemma_pow2_pos(133);
    lemma_pow2_adds(133, 16);
}

} // verus!
