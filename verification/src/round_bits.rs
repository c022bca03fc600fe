//! The executable side of rounding: scaled integers to magnitudes.

use vstd::arithmetic::div_mod::*;
use vstd::arithmetic::mul::*;
use vstd::arithmetic::power2::*;
use vstd::prelude::*;

use crate::rounding::{is_nearest, lemma_nearest_exact, lemma_units_form, lemma_units_step, units};

verus! {

/// `2^e` for `e >= 0`, else 1.
pub open spec fn scale_up(e: int) -> nat {
    if e > 0 {
        pow2(e as nat)
    } else {
        1
    }
}

/// `2^-e` for `e < 0`, else 1.
pub open spec fn scale_down(e: int) -> nat {
    if e < 0 {
        pow2((-e) as nat)
    } else {
        1
    }
}

/// Whether `num / den` is `s * 2^e`, or lies strictly between that and the next
/// multiple of `2^e`, where `sticky` says that something was cut off.
pub open spec fn brackets(num: nat, den: nat, s: nat, e: int, sticky: bool) -> bool {
    let low = s * scale_up(e) * den;
    let high = (s + 1) * scale_up(e) * den;
    let x = num * scale_down(e);
    &&& den > 0
    &&& if sticky {
        low < x < high
    } else {
        low == x
    }
}

/// `2^j`.
pub fn power_of_two(j: u32) -> (r: u128)
    requires
        j < 128,
    ensures
        r == pow2(j as nat),
{
    proof {
        lemma2_to64();
    }
    let mut r: u128 = 1;
    let mut i: u32 = 0;
    while i < j
        invariant
            i <= j < 128,
            r == pow2(i as nat),
        decreases j - i,
    {
        proof {
            lemma_pow2_unfold((i + 1) as nat);
            lemma_pow2_bound(i as nat + 1);
        }
        r = r * 2;
        i = i + 1;
    }
    r
}

/// Powers of two that a machine word of twice 64 bits holds.
pub proof fn lemma_pow2_bound(j: nat)
    requires
        j < 128,
    ensures
        pow2(j) <= 0x8000_0000_0000_0000_0000_0000_0000_0000,
{
    lemma2_to64();
    lemma2_to64_rest();
    lemma_pow2_adds(64, 63);
    assert(pow2(127) == 0x1_0000_0000_0000_0000 * 0x8000_0000_0000_0000);
    if j < 127 {
        lemma_pow2_strictly_increases(j, 127);
    }
}

/// The number of bits that `s` takes: the least `l` with `s < 2^l`.
pub fn bit_length(s: u128) -> (l: u32)
    requires
        s < pow2(126),
    ensures
        l <= 126,
        s < pow2(l as nat),
        l > 0 ==> pow2((l - 1) as nat) <= s,
{
    proof {
        lemma2_to64();
    }
    let mut l: u32 = 0;
    let mut bound: u128 = 1;
    while bound <= s
        invariant
            l <= 126,
            bound == pow2(l as nat),
            s < pow2(126),
            l > 0 ==> pow2((l - 1) as nat) <= s,
        decreases 126 - l,
    {
        proof {
            if l == 126 {
                assert(false);
            }
            lemma_pow2_unfold((l + 1) as nat);
            lemma_pow2_bound((l + 1) as nat);
        }
        bound = bound * 2;
        l = l + 1;
    }
    l
}

/// `2^k * down == up * 2^j` where `j == k - e`.
pub proof fn lemma_scales(k: nat, e: int, j: nat)
    requires
        j == k - e,
    ensures
        pow2(k) * scale_down(e) == scale_up(e) * pow2(j),
{
    if e > 0 {
        lemma_pow2_adds(e as nat, j);
    } else if e < 0 {
        lemma_pow2_adds(k, (-e) as nat);
    }
}

/// The lower neighbour is nearest below the middle.
proof fn lemma_round_down(p: nat, num: nat, den: nat, k: nat, m: nat)
    requires
        p >= 2,
        den > 0,
        m < pow2(p),
        k == 0 || pow2((p - 1) as nat) <= m,
        den * (m * pow2(k)) <= num,
        2 * num <= den * ((2 * m + 1) * pow2(k)),
        2 * num == den * ((2 * m + 1) * pow2(k)) ==> m % 2 == 0,
    ensures
        is_nearest(p, num, den, k * pow2((p - 1) as nat) + m),
{
    let h = pow2((p - 1) as nat);
    let mag = k * h + m;
    let g = pow2(k);
    lemma_units_form(p, k, m);
    lemma_units_form(p, k, m + 1);
    lemma_parity(p, k, m);
    assert(m * g + (m + 1) * g == (2 * m + 1) * g) by (nonlinear_arith);
    if mag > 0 {
        lemma_units_step(p, (mag - 1) as nat);
        let below = units(p, (mag - 1) as nat);
        assert(den * (below + m * g) < 2 * num) by (nonlinear_arith)
            requires
                below < m * g,
                den > 0,
                den * (m * g) <= num,
        ;
    }
}

/// The upper neighbour is nearest above the middle.
proof fn lemma_round_up(p: nat, num: nat, den: nat, k: nat, m: nat)
    requires
        p >= 2,
        den > 0,
        m < pow2(p),
        k == 0 || pow2((p - 1) as nat) <= m,
        num <= den * ((m + 1) * pow2(k)),
        den * ((2 * m + 1) * pow2(k)) <= 2 * num,
        2 * num == den * ((2 * m + 1) * pow2(k)) ==> m % 2 == 1,
    ensures
        is_nearest(p, num, den, k * pow2((p - 1) as nat) + m + 1),
{
    let h = pow2((p - 1) as nat);
    let mag = k * h + m + 1;
    let g = pow2(k);
    lemma_units_form(p, k, m);
    lemma_units_form(p, k, m + 1);
    lemma_parity(p, k, m + 1);
    assert(m * g + (m + 1) * g == (2 * m + 1) * g) by (nonlinear_arith);
    lemma_units_step(p, mag);
    let v = units(p, mag);
    let above = units(p, mag + 1);
    assert(2 * num < den * (v + above)) by (nonlinear_arith)
        requires
            v < above,
            den > 0,
            num <= den * v,
    ;
}

proof fn lemma_parity(p: nat, k: nat, m: nat)
    requires
        p >= 2,
    ensures
        (k * pow2((p - 1) as nat) + m) % 2 == m % 2,
{
    lemma_pow2_unfold((p - 1) as nat);
    let g = pow2((p - 2) as nat);
    assert(k * (2 * g) + m == 2 * (k * g) + m) by (nonlinear_arith);
}

/// Divides by `2^j` to the nearest whole number, the even one of two; `sticky`
/// says that the dividend is a little more than `s`.
pub fn divide_half_even(s: u128, j: u32, sticky: bool) -> (r: (u128, bool))
    requires
        1 <= j < 128,
    ensures
        r.0 == s as nat / pow2(j as nat),
        r.1 == ({
            let rest = s as nat % pow2(j as nat);
            ||| 2 * rest > pow2(j as nat)
            ||| 2 * rest == pow2(j as nat) && (sticky || r.0 % 2 == 1)
        }),
{
    let d = power_of_two(j);
    let half = power_of_two(j - 1);
    proof {
        lemma_pow2_unfold(j as nat);
        lemma_pow2_pos(j as nat);
    }
    let q: u128 = s / d;
    let rest: u128 = s % d;
    (q, rest > half || (rest == half && (sticky || q % 2 == 1)))
}

/// The magnitude nearest to `s * 2^e` units, or to what lies between that and
/// the next multiple of `2^e`.
#[verifier::rlimit(40)]
pub fn round_scaled(p: u32, s: u128, e: i32, sticky: bool) -> (mag: u64)
    requires
        2 <= p <= 53,
        s < pow2(126),
        -4000 <= e <= 3950,
        sticky ==> s >= pow2(p as nat),
    ensures
        forall|num: nat, den: nat| #[trigger]
            brackets(num, den, s as nat, e as int, sticky) ==> is_nearest(
                p as nat,
                num,
                den,
                mag as nat,
            ),
{
    if s == 0 {
        assert forall|num: nat, den: nat| #[trigger]
            brackets(num, den, s as nat, e as int, sticky) implies is_nearest(
            p as nat,
            num,
            den,
            0,
        ) by {
            lemma_pow2_pos(p as nat);
            lemma_scale_pos(e as int);
            let down = scale_down(e as int);
            assert(0 * scale_up(e as int) * den == 0) by (nonlinear_arith);
            assert(num == 0) by (nonlinear_arith)
                requires
                    num * down == 0,
                    down > 0,
            ;
            assert(units(p as nat, 0) == 0);
            assert(den * 0 == 0) by (nonlinear_arith);
            lemma_nearest_exact(p as nat, num, den, 0);
        }
        return 0;
    }
    let l = bit_length(s);
    let ghost pn = p as nat;
    let ghost h = pow2((p - 1) as nat);
    proof {
        lemma_pow2_pos(pn);
        lemma_pow2_pos((p - 1) as nat);
        lemma_pow2_unfold(pn);
        lemma2_to64();
        lemma2_to64_rest();
        if p < 53 {
            lemma_pow2_strictly_increases(pn, 53);
        }
    }
    let wide: i32 = l as i32 + e - p as i32;
    let k: i32 = if wide > 0 {
        wide
    } else {
        0
    };
    let j: i32 = k - e;
    let ghost kn = k as nat;
    let top: u64 = power_of_two(p - 1) as u64;
    assert(k * top <= 4080 * 0x10_0000_0000_0000) by (nonlinear_arith)
        requires
            0 <= k <= 4080,
            0 <= top <= 0x10_0000_0000_0000,
    ;
    if j <= 0 {
        assert(!sticky) by {
            if sticky {
                assert(l > p) by {
                    if l <= p {
                        if l < p {
                            lemma_pow2_strictly_increases(l as nat, pn);
                        }
                    }
                }
            }
        }
        let lift: u32 = (-j) as u32;
        proof {
            lemma_lift(pn, s as nat, l as nat, e as int, kn, lift as nat);
        }
        let factor = power_of_two(lift);
        assert(s * factor < pow2(pn));
        let m: u64 = (s * factor) as u64;
        let mag: u64 = k as u64 * top + m;
        assert forall|num: nat, den: nat| #[trigger]
            brackets(num, den, s as nat, e as int, sticky) implies is_nearest(
            pn,
            num,
            den,
            mag as nat,
        ) by {
            lemma_units_form(pn, kn, m as nat);
            lemma_exact_scale(num, den, s as nat, e as int, kn, lift as nat);
            lemma_nearest_exact(pn, num, den, mag as nat);
        }
        mag
    } else if j > 127 {
        let mag: u64 = 0;
        assert(k == 0);
        assert forall|num: nat, den: nat| #[trigger]
            brackets(num, den, s as nat, e as int, sticky) implies is_nearest(
            pn,
            num,
            den,
            mag as nat,
        ) by {
            let jn = j as nat;
            lemma_pow2_strictly_increases(126, (jn - 1) as nat);
            lemma_pow2_unfold(jn);
            lemma_small_div(s as nat, pow2(jn));
            lemma_cut(num, den, s as nat, e as int, sticky, 0, jn, 0, s as nat);
            assert(0 * pow2(0) == 0);
            assert(den * 0 == 0);
            lemma_round_down(pn, num, den, 0, 0);
        }
        mag
    } else {
        let (q, up) = divide_half_even(s, j as u32, sticky);
        let ghost jn = j as nat;
        let ghost rest = s as nat % pow2(jn);
        proof {
            lemma_quotient_bound(pn, s as nat, l as nat, e as int, kn, jn);
            lemma_pow2_pos(jn);
            lemma_fundamental_div_mod(s as int, pow2(jn) as int);
            lemma_mod_bound(s as int, pow2(jn) as int);
        }
        let base: u64 = k as u64 * top + q as u64;
        let mag: u64 = if up {
            base + 1
        } else {
            base
        };
        assert forall|num: nat, den: nat| #[trigger]
            brackets(num, den, s as nat, e as int, sticky) implies is_nearest(
            pn,
            num,
            den,
            mag as nat,
        ) by {
            lemma_cut(num, den, s as nat, e as int, sticky, kn, jn, q as nat, rest);
            if up {
                lemma_round_up(pn, num, den, kn, q as nat);
            } else {
                lemma_round_down(pn, num, den, kn, q as nat);
            }
        }
        mag
    }
}

proof fn lemma_small_div(s: nat, d: nat)
    requires
        s < d,
    ensures
        s / d == 0,
        s % d == s,
{
    lemma_fundamental_div_mod_converse(s as int, d as int, 0, s as int);
}

/// Where no bit is cut off, the significand still fits its bits.
proof fn lemma_lift(p: nat, s: nat, l: nat, e: int, k: nat, lift: nat)
    requires
        2 <= p <= 53,
        0 < s < pow2(l),
        l > 0 && pow2((l - 1) as nat) <= s,
        k == if l + e - p > 0 {
            l + e - p
        } else {
            0
        },
        lift == e - k,
        l <= 126,
    ensures
        lift < 128,
        s * pow2(lift) < pow2(p),
        k == 0 || pow2((p - 1) as nat) <= s * pow2(lift),
{
    lemma_pow2_pos(lift);
    lemma_pow2_pos(p);
    assert(l + lift <= p);
    lemma_pow2_adds(l, lift);
    assert(s * pow2(lift) < pow2(l) * pow2(lift)) by (nonlinear_arith)
        requires
            s < pow2(l),
            pow2(lift) > 0,
    ;
    if l + lift < p {
        lemma_pow2_strictly_increases(l + lift, p);
    }
    if k > 0 {
        assert(l + lift == p);
        lemma_pow2_adds((l - 1) as nat, lift);
        assert(pow2((l - 1) as nat) * pow2(lift) <= s * pow2(lift)) by (nonlinear_arith)
            requires
                pow2((l - 1) as nat) <= s,
        ;
    }
}

/// Where bits are cut off, the rest fits and keeps its leading bit.
proof fn lemma_quotient_bound(p: nat, s: nat, l: nat, e: int, k: nat, j: nat)
    requires
        2 <= p <= 53,
        0 < s < pow2(l),
        l > 0 && pow2((l - 1) as nat) <= s,
        k == if l + e - p > 0 {
            l + e - p
        } else {
            0
        },
        j == k - e,
    ensures
        s / pow2(j) < pow2(p),
        k == 0 || pow2((p - 1) as nat) <= s / pow2(j),
{
    let d = pow2(j);
    lemma_pow2_pos(j);
    lemma_pow2_adds(p, j);
    if l < p + j {
        lemma_pow2_strictly_increases(l, p + j);
    }
    assert(s / d < pow2(p)) by (nonlinear_arith)
        requires
            s < pow2(p) * d,
            d > 0,
    ;
    if k > 0 {
        lemma_pow2_adds((p - 1) as nat, j);
        let t = pow2((p - 1) as nat);
        assert(t <= s / d) by (nonlinear_arith)
            requires
                t * d <= s,
                d > 0,
        ;
    }
}

proof fn lemma_scale_pos(e: int)
    ensures
        scale_up(e) > 0,
        scale_down(e) > 0,
{
    if e > 0 {
        lemma_pow2_pos(e as nat);
    } else if e < 0 {
        lemma_pow2_pos((-e) as nat);
    }
}

proof fn lemma_exact_scale(num: nat, den: nat, s: nat, e: int, k: nat, lift: nat)
    requires
        brackets(num, den, s, e, false),
        lift == e - k,
    ensures
        num == den * ((s * pow2(lift)) * pow2(k)),
{
    lemma_pow2_adds(lift, k);
    lemma2_to64();
    let up = scale_up(e);
    assert(up == pow2(lift) * pow2(k));
    assert(s * (pow2(lift) * pow2(k)) * den == den * ((s * pow2(lift)) * pow2(k)))
        by (nonlinear_arith);
}

/// How the cut off bits place `num / den` between two neighbours.
proof fn lemma_cut(
    num: nat,
    den: nat,
    s: nat,
    e: int,
    sticky: bool,
    k: nat,
    j: nat,
    q: nat,
    rest: nat,
)
    requires
        brackets(num, den, s, e, sticky),
        j >= 1,
        j == k - e,
        s == pow2(j) * q + rest,
        rest < pow2(j),
    ensures
        den * (q * pow2(k)) <= num <= den * ((q + 1) * pow2(k)),
        ({
            let mid = den * ((2 * q + 1) * pow2(k));
            if 2 * rest > pow2(j) || (2 * rest == pow2(j) && (sticky || q % 2 == 1)) {
                mid <= 2 * num && (mid == 2 * num ==> q % 2 == 1)
            } else {
                2 * num <= mid && (mid == 2 * num ==> q % 2 == 0)
            }
        }),
{
    let up = scale_up(e);
    let down = scale_down(e);
    let w = up * den;
    let g = pow2(k);
    let d = pow2(j);
    let half = pow2((j - 1) as nat);
    let n = num * down;
    lemma_scales(k, e, j);
    lemma_scale_pos(e);
    lemma_pow2_unfold(j);
    assert(w > 0) by (nonlinear_arith)
        requires
            w == up * den,
            up > 0,
            den > 0,
    ;
    assert(s * up * den == s * w && (s + 1) * up * den == (s + 1) * w) by (nonlinear_arith)
        requires
            w == up * den,
    ;
    lemma_regroup(den, q, g, down, up, d, w);
    lemma_regroup(den, q + 1, g, down, up, d, w);
    lemma_regroup(den, 2 * q + 1, g, down, up, d, w);
    let mid = den * ((2 * q + 1) * g);
    assert((s + 1) * w == s * w + w) by (nonlinear_arith);
    assert(q * d * w <= s * w) by (nonlinear_arith)
        requires
            s == d * q + rest,
    ;
    assert((s + 1) * w <= (q + 1) * d * w) by (nonlinear_arith)
        requires
            s + 1 <= d * q + d,
    ;
    lemma_cancel(den * (q * g), num, down);
    lemma_cancel(num, den * ((q + 1) * g), down);
    assert((2 * q + 1) * d * w == 2 * ((q * d + half) * w)) by (nonlinear_arith)
        requires
            d == 2 * half,
    ;
    let c = q * d + half;
    assert(s == q * d + rest) by (nonlinear_arith)
        requires
            s == d * q + rest,
    ;
    assert(2 * num * down == 2 * n) by (nonlinear_arith)
        requires
            n == num * down,
    ;
    if rest > half {
        assert(s * w >= (c + 1) * w) by (nonlinear_arith)
            requires
                s >= c + 1,
        ;
        assert((c + 1) * w == c * w + w) by (nonlinear_arith);
        lemma_cancel(mid, 2 * num, down);
    } else if rest == half {
        lemma_cancel(mid, 2 * num, down);
        if !sticky {
            lemma_cancel(2 * num, mid, down);
        }
    } else {
        assert((s + 1) * w <= c * w) by (nonlinear_arith)
            requires
                s + 1 <= c,
        ;
        lemma_cancel(2 * num, mid, down);
    }
}

proof fn lemma_regroup(den: nat, c: nat, g: nat, down: nat, up: nat, d: nat, w: nat)
    requires
        g * down == up * d,
        w == up * den,
    ensures
        den * (c * g) * down == c * d * w,
{
    assert(den * (c * g) * down == den * c * (g * down)) by (nonlinear_arith);
    assert(den * c * (up * d) == c * d * (up * den)) by (nonlinear_arith);
}

proof fn lemma_cancel(a: nat, b: nat, f: nat)
    requires
        f > 0,
        a * f <= b * f,
    ensures
        a <= b,
        a == b ==> a * f == b * f,
{
    assert(a <= b) by (nonlinear_arith)
        requires
            f > 0,
            a * f <= b * f,
    ;
}

} // verus!
