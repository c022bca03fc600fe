//! Arithmetic on floating-point numbers, carried out on integers.

use vstd::arithmetic::div_mod::{lemma_fundamental_div_mod, lemma_mod_bound};
use vstd::arithmetic::power2::{
    lemma2_to64, lemma2_to64_rest, lemma_pow2_adds, lemma_pow2_pos, lemma_pow2_strictly_increases,
    lemma_pow2_unfold, pow2,
};
use vstd::prelude::*;

use crate::round_bits::{
    bit_length, brackets, divide_half_even, lemma_pow2_bound, lemma_scales, power_of_two,
    round_scaled, scale_down, scale_up,
};
use crate::rounding::{
    exponent, half_even, lemma_nearest_exact, lemma_nearest_is, lemma_parts, lemma_units_monotone,
    nearest, significand, units,
};
use crate::value::{
    clamped, converted, difference, fraction, greater_of, less, lesser_of, negated, product,
    quotient, rounded, scaled_half_even, size, sum, truncated, whole, Format, Value,
};

verus! {

/// A number with its sign and magnitude taken apart.
#[derive(Clone, Copy, PartialEq, Eq, Structural, Debug)]
pub enum Number {
    Nan,
    Infinite { neg: bool },
    Finite { neg: bool, mag: u64 },
}

impl Number {
    /// The number itself.
    pub open spec fn view(&self) -> Value {
        match *self {
            Number::Nan => Value::Nan,
            Number::Infinite { neg } => Value::Infinite { neg },
            Number::Finite { neg, mag } => Value::Finite { neg, mag: mag as nat },
        }
    }

    /// Whether the magnitude is one of the format's.
    pub open spec fn fits(&self, f: Format) -> bool {
        match *self {
            Number::Finite { mag, .. } => mag < f.overflow(),
            _ => true,
        }
    }
}

impl Format {
    fn significant_bits(self) -> (p: u32)
        ensures
            p == self.precision(),
    {
        match self {
            Format::Single => 24,
            Format::Double => 53,
        }
    }

    fn unit_exponent(self) -> (s: i32)
        ensures
            s == self.scale(),
    {
        match self {
            Format::Single => 149,
            Format::Double => 1074,
        }
    }

    fn overflow_magnitude(self) -> (m: u64)
        ensures
            m == self.overflow(),
    {
        match self {
            Format::Single => 0x7f80_0000,
            Format::Double => 0x7ff0_0000_0000_0000,
        }
    }
}

/// The significand and the exponent of a magnitude.
fn parts(f: Format, mag: u64) -> (r: (u64, i32))
    requires
        mag < f.overflow(),
    ensures
        r.0 == significand(f.precision(), mag as nat),
        r.1 == exponent(f.precision(), mag as nat),
        r.0 < pow2(f.precision()),
        r.0 < 0x20_0000_0000_0000,
        0 <= r.1 <= 2045,
        r.1 > 0 ==> r.0 >= pow2((f.precision() - 1) as nat),
        units(f.precision(), mag as nat) == r.0 * pow2(r.1 as nat),
        r.0 == 0 <==> mag == 0,
{
    proof {
        lemma2_to64();
        lemma2_to64_rest();
        lemma_parts(f.precision(), mag as nat);
    }
    let top: u64 = match f {
        Format::Single => 0x80_0000,
        Format::Double => 0x10_0000_0000_0000,
    };
    assert(top == pow2((f.precision() - 1) as nat));
    if mag < 2 * top {
        (mag, 0)
    } else {
        let k: u64 = mag / top - 1;
        (mag % top + top, k as i32)
    }
}

/// Rounds `s * 2^e` units, or a little more, to a number.
fn finish(f: Format, neg: bool, s: u128, e: i32, sticky: bool) -> (r: Number)
    requires
        s < pow2(126),
        -4000 <= e <= 3950,
        sticky ==> s >= pow2(f.precision()),
    ensures
        r.fits(f),
        forall|num: nat, den: nat| #[trigger]
            brackets(num, den, s as nat, e as int, sticky) ==> r@ == rounded(f, neg, num, den),
{
    let mag = round_scaled(f.significant_bits(), s, e, sticky);
    assert forall|num: nat, den: nat| #[trigger]
        brackets(num, den, s as nat, e as int, sticky) implies nearest(f.precision(), num, den)
        == mag by {
        lemma_nearest_is(f.precision(), num, den, mag as nat);
    }
    if mag >= f.overflow_magnitude() {
        Number::Infinite { neg }
    } else {
        Number::Finite { neg, mag }
    }
}

/// The number with the other sign.
pub fn negate(a: Number) -> (r: Number)
    ensures
        r@ == negated(a@),
        forall|f: Format| a.fits(f) ==> r.fits(f),
{
    match a {
        Number::Nan => Number::Nan,
        Number::Infinite { neg } => Number::Infinite { neg: !neg },
        Number::Finite { neg, mag } => Number::Finite { neg: !neg, mag },
    }
}

/// The product of two numbers.
pub fn multiply(f: Format, a: Number, b: Number) -> (r: Number)
    requires
        a.fits(f),
        b.fits(f),
    ensures
        r.fits(f),
        r@ == product(f, a@, b@),
{
    match (a, b) {
        (Number::Nan, _) => Number::Nan,
        (_, Number::Nan) => Number::Nan,
        (Number::Infinite { neg: x }, Number::Infinite { neg: y }) => Number::Infinite {
            neg: x != y,
        },
        (Number::Infinite { neg: x }, Number::Finite { neg: y, mag }) => if mag == 0 {
            Number::Nan
        } else {
            Number::Infinite { neg: x != y }
        },
        (Number::Finite { neg: x, mag }, Number::Infinite { neg: y }) => if mag == 0 {
            Number::Nan
        } else {
            Number::Infinite { neg: x != y }
        },
        (Number::Finite { neg: x, mag: m }, Number::Finite { neg: y, mag: n }) => {
            let (ma, ka) = parts(f, m);
            let (mb, kb) = parts(f, n);
            proof {
                lemma_product_scale(f, ma as nat, ka as nat, mb as nat, kb as nat);
            }
            finish(f, x != y, ma as u128 * mb as u128, ka + kb - f.unit_exponent(), false)
        },
    }
}

proof fn lemma_product_scale(f: Format, ma: nat, ka: nat, mb: nat, kb: nat)
    requires
        ma < 0x20_0000_0000_0000,
        mb < 0x20_0000_0000_0000,
    ensures
        ma * mb < pow2(126),
        ma * mb <= u128::MAX,
        brackets(
            (ma * pow2(ka)) * (mb * pow2(kb)),
            f.one(),
            ma * mb,
            ka + kb - f.scale(),
            false,
        ),
{
    let e = ka + kb - f.scale();
    assert(ma * mb < 0x20_0000_0000_0000 * 0x20_0000_0000_0000) by (nonlinear_arith)
        requires
            ma < 0x20_0000_0000_0000,
            mb < 0x20_0000_0000_0000,
    ;
    lemma2_to64();
    lemma2_to64_rest();
    lemma_pow2_adds(63, 63);
    lemma_pow2_pos(f.scale());
    lemma_scales(ka + kb, e, f.scale());
    lemma_pow2_adds(ka, kb);
    let up = scale_up(e);
    let down = scale_down(e);
    let g = pow2(ka) * pow2(kb);
    let one = f.one();
    assert(ma * mb * up * one == ma * mb * (up * one)) by (nonlinear_arith);
    assert((ma * pow2(ka)) * (mb * pow2(kb)) * down == ma * mb * (g * down)) by (nonlinear_arith)
        requires
            g == pow2(ka) * pow2(kb),
    ;
}

/// Rounds `(m / d) * 2^e` units to a number.
fn divide_scaled(f: Format, neg: bool, m: u64, d: u64, e: i32) -> (r: Number)
    requires
        d > 0,
        -3000 <= e <= 3900,
    ensures
        r.fits(f),
        forall|num: nat, den: nat| #[trigger]
            splits(num, den, m as nat, d as nat, e as int) ==> r@ == rounded(f, neg, num, den),
{
    proof {
        lemma2_to64();
        lemma2_to64_rest();
        lemma_pow2_strictly_increases(64, 126);
    }
    let l = bit_length(m as u128);
    proof {
        if l > 64 {
            if l > 65 {
                lemma_pow2_strictly_increases(64, (l - 1) as nat);
            }
        }
    }
    let t: u32 = 120 - l;
    let factor = power_of_two(t);
    proof {
        lemma_pow2_pos(t as nat);
        lemma_pow2_adds(l as nat, t as nat);
        lemma_pow2_bound(120);
        assert(m * factor < pow2(120)) by (nonlinear_arith)
            requires
                m < pow2(l as nat),
                factor == pow2(t as nat),
                factor > 0,
                pow2(l as nat) * pow2(t as nat) == pow2(120),
        ;
        lemma_pow2_strictly_increases(120, 126);
    }
    let dividend: u128 = m as u128 * factor;
    let s: u128 = dividend / d as u128;
    let rest: u128 = dividend % d as u128;
    let sticky = rest != 0;
    proof {
        lemma_fundamental_div_mod(dividend as int, d as int);
        lemma_mod_bound(dividend as int, d as int);
        assert(s <= dividend) by (nonlinear_arith)
            requires
                dividend == d * s + rest,
                d >= 1,
                rest >= 0,
        ;
        if sticky {
            if l == 0 {
                assert(m == 0);
                assert(dividend == 0) by (nonlinear_arith)
                    requires
                        dividend == m * factor,
                        m == 0,
                ;
                assert(s == 0 && rest == 0) by (nonlinear_arith)
                    requires
                        0 == d * s + rest,
                        d >= 1,
                        s >= 0,
                        rest >= 0,
                ;
            }
            lemma_pow2_adds((l - 1) as nat, t as nat);
            assert(dividend >= pow2(119)) by (nonlinear_arith)
                requires
                    pow2((l - 1) as nat) <= m,
                    dividend == m * factor,
                    factor == pow2(t as nat),
                    pow2((l - 1) as nat) * pow2(t as nat) == pow2(119),
            ;
            lemma_pow2_adds(64, 55);
            assert(s >= pow2(55)) by (nonlinear_arith)
                requires
                    dividend == d * s + rest,
                    rest < d,
                    0 < d <= 0x1_0000_0000_0000_0000,
                    dividend >= 0x1_0000_0000_0000_0000 * pow2(55),
            ;
            lemma_pow2_strictly_increases(f.precision(), 55);
        }
        assert forall|num: nat, den: nat| #[trigger]
            splits(num, den, m as nat, d as nat, e as int) implies brackets(
            num,
            den,
            s as nat,
            e - t,
            sticky,
        ) by {
            lemma_division_scale(
                num,
                den,
                m as nat,
                d as nat,
                e as int,
                t as nat,
                s as nat,
                rest as nat,
            );
        }
    }
    finish(f, neg, s, e - t as i32, sticky)
}

/// Whether `num / den` is `(m / d) * 2^e`.
spec fn splits(num: nat, den: nat, m: nat, d: nat, e: int) -> bool {
    &&& den > 0
    &&& num * scale_down(e) * d == m * scale_up(e) * den
}

proof fn lemma_division_scale(
    num: nat,
    den: nat,
    m: nat,
    d: nat,
    e: int,
    t: nat,
    s: nat,
    rest: nat,
)
    requires
        d > 0,
        splits(num, den, m, d, e),
        m * pow2(t) == d * s + rest,
        rest < d,
    ensures
        brackets(num, den, s, e - t, rest != 0),
{
    let up0 = scale_up(e);
    let down0 = scale_down(e);
    let up = scale_up(e - t);
    let down = scale_down(e - t);
    let g = pow2(t);
    lemma_pow2_pos(t);
    lemma_shift_scales(e, t);
    assert(up0 * down == up * down0 * g);
    lemma_scale_positive(e);
    lemma_scale_positive(e - t);
    // num * down0 * d == m * up0 * den, and up0 * down == up * down0 * g
    assert(num * down * d * down0 == (num * down0 * d) * down) by (nonlinear_arith);
    assert((m * up0 * den) * down == m * den * (up0 * down)) by (nonlinear_arith);
    assert(m * den * (up * down0 * g) == (m * g) * (up * den) * down0) by (nonlinear_arith);
    let x = num * down;
    let w = up * den;
    assert(w > 0) by (nonlinear_arith)
        requires
            w == up * den,
            up > 0,
            den > 0,
    ;
    assert(x * d == (d * s + rest) * w) by (nonlinear_arith)
        requires
            x * d * down0 == (d * s + rest) * w * down0,
            down0 > 0,
    ;
    assert(s * up * den == s * w && (s + 1) * up * den == (s + 1) * w) by (nonlinear_arith)
        requires
            w == up * den,
    ;
    if rest == 0 {
        assert(x == s * w) by (nonlinear_arith)
            requires
                x * d == (d * s + 0) * w,
                d > 0,
        ;
    } else {
        assert(s * w < x) by (nonlinear_arith)
            requires
                x * d == (d * s + rest) * w,
                d > 0,
                rest > 0,
                w > 0,
        ;
        assert(x < (s + 1) * w) by (nonlinear_arith)
            requires
                x * d == (d * s + rest) * w,
                rest < d,
                d > 0,
                w > 0,
        ;
    }
}

proof fn lemma_scale_positive(e: int)
    ensures
        scale_up(e) > 0,
        scale_down(e) > 0,
{
    if e > 0 {
        lemma_pow2_pos(e as nat);
    } else if e < 0 {
        lemma_pow2_pos((-e) as nat);
    }
}

/// Lowering an exponent by `t`.
proof fn lemma_shift_scales(e: int, t: nat)
    ensures
        scale_up(e) * scale_down(e - t) == scale_up(e - t) * scale_down(e) * pow2(t),
{
    lemma2_to64();
    let (a, b, c, d, g) = (
        scale_up(e),
        scale_down(e - t),
        scale_up(e - t),
        scale_down(e),
        pow2(t),
    );
    if e > 0 {
        if e - t > 0 {
            lemma_pow2_adds((e - t) as nat, t);
        } else {
            lemma_pow2_adds(e as nat, (t - e) as nat);
        }
    } else {
        lemma_pow2_adds((-e) as nat, t);
    }
    assert(a * b == c * d * g) by (nonlinear_arith)
        requires
            (b == 1 && d == 1 && a == c * g) || (c == 1 && d == 1 && a * b == g) || (a == 1 && c
                == 1 && b == d * g),
    ;
}

/// The quotient of two numbers.
pub fn divide(f: Format, a: Number, b: Number) -> (r: Number)
    requires
        a.fits(f),
        b.fits(f),
    ensures
        r.fits(f),
        r@ == quotient(f, a@, b@),
{
    match (a, b) {
        (Number::Nan, _) => Number::Nan,
        (_, Number::Nan) => Number::Nan,
        (Number::Infinite { .. }, Number::Infinite { .. }) => Number::Nan,
        (Number::Infinite { neg: x }, Number::Finite { neg: y, .. }) => Number::Infinite {
            neg: x != y,
        },
        (Number::Finite { neg: x, .. }, Number::Infinite { neg: y }) => Number::Finite {
            neg: x != y,
            mag: 0,
        },
        (Number::Finite { neg: x, mag: m }, Number::Finite { neg: y, mag: n }) => if n == 0 {
            if m == 0 {
                Number::Nan
            } else {
                Number::Infinite { neg: x != y }
            }
        } else {
            let (ma, ka) = parts(f, m);
            let (mb, kb) = parts(f, n);
            proof {
                lemma_quotient_scale(f, ma as nat, ka as nat, mb as nat, kb as nat);
            }
            divide_scaled(f, x != y, ma, mb, ka - kb + f.unit_exponent())
        },
    }
}

proof fn lemma_quotient_scale(f: Format, ma: nat, ka: nat, mb: nat, kb: nat)
    requires
        mb > 0,
    ensures
        splits((ma * pow2(ka)) * f.one(), mb * pow2(kb), ma, mb, ka - kb + f.scale()),
{
    let e = ka - kb + f.scale();
    let up = scale_up(e);
    let down = scale_down(e);
    let one = f.one();
    lemma_pow2_pos(kb);
    lemma_scales(ka + f.scale(), e, kb);
    lemma_pow2_adds(ka, f.scale());
    assert(mb * pow2(kb) > 0) by (nonlinear_arith)
        requires
            mb > 0,
            pow2(kb) > 0,
    ;
    assert((ma * pow2(ka)) * one * down * mb == ma * mb * (pow2(ka) * one * down))
        by (nonlinear_arith);
    assert(ma * up * (mb * pow2(kb)) == ma * mb * (up * pow2(kb))) by (nonlinear_arith);
}

/// The number `num / den`.
pub fn from_fraction(f: Format, num: u64, den: u64) -> (r: Number)
    requires
        den > 0,
    ensures
        r.fits(f),
        r@ == fraction(f, num as nat, den as nat),
{
    proof {
        let one = f.one();
        let n = num as nat;
        let d = den as nat;
        assert(n * one * 1 * d == n * one * d) by (nonlinear_arith);
        assert(splits(n * one, d, n, d, f.scale() as int));
    }
    divide_scaled(f, false, num, den, f.unit_exponent())
}

/// The number `n`.
pub fn from_whole(f: Format, n: u64) -> (r: Number)
    ensures
        r.fits(f),
        r@ == whole(f, n as nat),
{
    proof {
        lemma2_to64();
        lemma_pow2_strictly_increases(64, 126);
        assert(brackets(n as nat * f.one(), 1, n as nat, f.scale() as int, false));
    }
    finish(f, false, n as u128, f.unit_exponent(), false)
}

/// The sum of two numbers.
pub fn plus(f: Format, a: Number, b: Number) -> (r: Number)
    requires
        a.fits(f),
        b.fits(f),
    ensures
        r.fits(f),
        r@ == sum(f, a@, b@),
{
    match (a, b) {
        (Number::Nan, _) => Number::Nan,
        (_, Number::Nan) => Number::Nan,
        (Number::Infinite { neg: x }, Number::Infinite { neg: y }) => if x == y {
            a
        } else {
            Number::Nan
        },
        (Number::Infinite { .. }, _) => a,
        (_, Number::Infinite { .. }) => b,
        (Number::Finite { neg: x, mag: m }, Number::Finite { neg: y, mag: n }) => {
            if m >= n {
                add_finite(f, x, m, y, n)
            } else {
                add_finite(f, y, n, x, m)
            }
        },
    }
}

/// The difference of two numbers.
pub fn minus(f: Format, a: Number, b: Number) -> (r: Number)
    requires
        a.fits(f),
        b.fits(f),
    ensures
        r.fits(f),
        r@ == difference(f, a@, b@),
{
    plus(f, a, negate(b))
}

/// The sum of two finite numbers, the one with the greater magnitude first.
fn add_finite(f: Format, x: bool, m: u64, y: bool, n: u64) -> (r: Number)
    requires
        n <= m < f.overflow(),
    ensures
        r.fits(f),
        r@ == sum(
            f,
            Value::Finite { neg: x, mag: m as nat },
            Value::Finite { neg: y, mag: n as nat },
        ),
{
    let ghost a = Value::Finite { neg: x, mag: m as nat };
    let ghost b = Value::Finite { neg: y, mag: n as nat };
    let (ma, ka) = parts(f, m);
    let (mb, kb) = parts(f, n);
    proof {
        if n < m {
            lemma_units_monotone(f.precision(), n as nat, m as nat);
        }
        lemma_exponents_ordered(f.precision(), n as nat, m as nat);
    }
    if m == n && x != y {
        return Number::Finite { neg: false, mag: 0 };
    }
    if n == 0 {
        proof {
            assert(size(f, b) == 0) by (nonlinear_arith)
                requires
                    size(f, b) == mb * pow2(kb as nat),
                    mb == 0,
            ;
            lemma_nearest_exact(f.precision(), size(f, a), 1, m as nat);
        }
        if m == 0 {
            return Number::Finite { neg: x && y, mag: 0 };
        }
        proof {
            lemma_units_monotone(f.precision(), 0, m as nat);
        }
        return Number::Finite { neg: x, mag: m };
    }
    proof {
        lemma_units_monotone(f.precision(), 0, n as nat);
    }
    if ka - kb <= 70 {
        add_near(f, x, x == y, (ma, ka), (mb, kb))
    } else {
        add_far(f, x, x == y, (ma, ka), (mb, kb))
    }
}

/// Adds or takes away a part whose exponent is close.
fn add_near(f: Format, neg: bool, same: bool, a: (u64, i32), b: (u64, i32)) -> (r: Number)
    requires
        a.0 < 0x20_0000_0000_0000,
        b.0 < 0x20_0000_0000_0000,
        0 <= b.1 <= a.1 <= b.1 + 70,
        a.1 <= 2045,
        b.0 * pow2(b.1 as nat) <= a.0 * pow2(a.1 as nat),
    ensures
        r.fits(f),
        r@ == rounded(f, neg, combined(same, a, b), 1),
{
    let (ma, ka) = a;
    let (mb, kb) = b;
    let factor = power_of_two((ka - kb) as u32);
    proof {
        lemma_aligned(ma as nat, ka as nat, mb as nat, kb as nat);
    }
    let high: u128 = ma as u128 * factor;
    let s: u128 = if same {
        high + mb as u128
    } else {
        high - mb as u128
    };
    proof {
        let g = pow2(kb as nat);
        lemma_whole_bracket(s as nat, kb as nat);
        if same {
            assert((high + mb) * g == high * g + mb * g) by (nonlinear_arith);
        } else {
            assert((high - mb) * g == high * g - mb * g) by (nonlinear_arith);
        }
    }
    finish(f, neg, s, kb, false)
}

/// Adds or takes away a part whose exponent is far below.
fn add_far(f: Format, neg: bool, same: bool, a: (u64, i32), b: (u64, i32)) -> (r: Number)
    requires
        pow2((f.precision() - 1) as nat) <= a.0 < 0x20_0000_0000_0000,
        0 < b.0 < 0x20_0000_0000_0000,
        0 <= b.1,
        b.1 + 70 < a.1 <= 2045,
    ensures
        r.fits(f),
        r@ == rounded(f, neg, combined(same, a, b), 1),
{
    let (ma, ka) = a;
    let (mb, kb) = b;
    let high: u128 = ma as u128 * 0x1_0000;
    proof {
        lemma2_to64();
        lemma2_to64_rest();
        lemma_pow2_unfold(f.precision());
        lemma_far(ma as nat, ka as nat, mb as nat, kb as nat, same);
    }
    let s: u128 = if same {
        high
    } else {
        high - 1
    };
    finish(f, neg, s, ka - 16, true)
}

/// The sum or the difference of two parts, in units.
spec fn combined(same: bool, a: (u64, i32), b: (u64, i32)) -> nat {
    if same {
        a.0 as nat * pow2(a.1 as nat) + b.0 as nat * pow2(b.1 as nat)
    } else {
        (a.0 * pow2(a.1 as nat) - b.0 * pow2(b.1 as nat)) as nat
    }
}

/// A greater magnitude has no lesser exponent.
pub proof fn lemma_exponents_ordered(p: nat, n: nat, m: nat)
    requires
        p >= 1,
        n <= m,
    ensures
        exponent(p, n) <= exponent(p, m),
{
    let h = pow2((p - 1) as nat);
    lemma_pow2_pos((p - 1) as nat);
    lemma_pow2_unfold(p);
    if n >= pow2(p) {
        assert(n / h <= m / h && n / h >= 2) by (nonlinear_arith)
            requires
                2 * h <= n <= m,
                h > 0,
        ;
    }
}

proof fn lemma_whole_bracket(s: nat, k: nat)
    ensures
        brackets(s * pow2(k), 1, s, k as int, false),
{
    lemma2_to64();
    assert(s * scale_up(k as int) * 1 == s * pow2(k));
}

/// Two significands brought to the lesser exponent.
proof fn lemma_aligned(ma: nat, ka: nat, mb: nat, kb: nat)
    requires
        ma < 0x20_0000_0000_0000,
        mb < 0x20_0000_0000_0000,
        kb <= ka <= kb + 70,
        mb * pow2(kb) <= ma * pow2(ka),
    ensures
        ma * pow2((ka - kb) as nat) + mb < pow2(126),
        ma * pow2((ka - kb) as nat) + mb <= u128::MAX,
        mb <= ma * pow2((ka - kb) as nat),
        ma * pow2((ka - kb) as nat) * pow2(kb) == ma * pow2(ka),
{
    let d = (ka - kb) as nat;
    let g = pow2(d);
    let u = pow2(kb);
    lemma_pow2_pos(kb);
    lemma_pow2_pos(d);
    lemma_pow2_adds(d, kb);
    assert(ma * g * u == ma * (g * u)) by (nonlinear_arith);
    let high = ma * g;
    assert(mb <= high) by (nonlinear_arith)
        requires
            mb * u <= high * u,
            u > 0,
    ;
    lemma2_to64();
    lemma2_to64_rest();
    if d < 70 {
        lemma_pow2_strictly_increases(d, 70);
    }
    lemma_pow2_adds(53, 70);
    assert(high <= 0x20_0000_0000_0000 * pow2(70)) by (nonlinear_arith)
        requires
            high == ma * g,
            ma <= 0x20_0000_0000_0000,
            0 <= g <= pow2(70),
    ;
    lemma_pow2_strictly_increases(123, 125);
    lemma_pow2_unfold(126);
    lemma_pow2_strictly_increases(53, 125);
    lemma_pow2_bound(126);
}

/// A summand that is far below the other only leaves a trace.
proof fn lemma_far(ma: nat, ka: nat, mb: nat, kb: nat, same: bool)
    requires
        0 < ma < 0x20_0000_0000_0000,
        0 < mb < 0x20_0000_0000_0000,
        kb + 70 < ka,
    ensures
        ma * 0x1_0000 < pow2(126),
        same ==> brackets(
            ma * pow2(ka) + mb * pow2(kb),
            1,
            ma * 0x1_0000,
            ka - 16,
            true,
        ),
        !same ==> mb * pow2(kb) < ma * pow2(ka) && brackets(
            (ma * pow2(ka) - mb * pow2(kb)) as nat,
            1,
            (ma * 0x1_0000 - 1) as nat,
            ka - 16,
            true,
        ),
{
    let k = (ka - 16) as nat;
    let g = pow2(k);
    let low = mb * pow2(kb);
    lemma2_to64();
    lemma2_to64_rest();
    lemma_pow2_adds(63, 63);
    lemma_pow2_adds(16, k);
    lemma_pow2_pos(kb);
    lemma_pow2_adds(53, kb);
    lemma_pow2_strictly_increases(53 + kb, k);
    assert(0 < low < g) by (nonlinear_arith)
        requires
            low == mb * pow2(kb),
            0 < mb < 0x20_0000_0000_0000,
            pow2(kb) > 0,
            0x20_0000_0000_0000 * pow2(kb) < g,
    ;
    let s = ma * 0x1_0000;
    assert(ma * pow2(ka) == s * g) by (nonlinear_arith)
        requires
            pow2(ka) == 0x1_0000 * g,
            s == ma * 0x1_0000,
    ;
    assert((s + 1) * g == s * g + g) by (nonlinear_arith);
    assert((s - 1) * g == s * g - g) by (nonlinear_arith);
    assert(s * g >= g) by (nonlinear_arith)
        requires
            s >= 1,
    ;
    assert(scale_up(ka - 16) == g && scale_down(ka - 16) == 1);
    if same {
        let num = ma * pow2(ka) + low;
        assert(num * 1 == num);
        assert(s * g * 1 == s * g && (s + 1) * g * 1 == (s + 1) * g);
    } else {
        let num = (ma * pow2(ka) - low) as nat;
        let t = (s - 1) as nat;
        assert(num * 1 == num);
        assert(t * g * 1 == t * g && (t + 1) * g * 1 == (t + 1) * g);
        assert((t + 1) * g == s * g);
    }
}

/// A number in another format.
pub fn convert(from: Format, to: Format, a: Number) -> (r: Number)
    requires
        a.fits(from),
    ensures
        r.fits(to),
        r@ == converted(from, to, a@),
{
    match a {
        Number::Nan => Number::Nan,
        Number::Infinite { neg } => Number::Infinite { neg },
        Number::Finite { neg, mag } => {
            let (m, k) = parts(from, mag);
            proof {
                lemma2_to64();
                lemma2_to64_rest();
                lemma_pow2_strictly_increases(53, 126);
                lemma_converted_scale(from, to, m as nat, k as nat);
            }
            finish(to, neg, m as u128, k + to.unit_exponent() - from.unit_exponent(), false)
        },
    }
}

proof fn lemma_converted_scale(from: Format, to: Format, m: nat, k: nat)
    ensures
        brackets(
            (m * pow2(k)) * to.one(),
            from.one(),
            m,
            k + to.scale() - from.scale(),
            false,
        ),
{
    let e = k + to.scale() - from.scale();
    let up = scale_up(e);
    let down = scale_down(e);
    lemma_pow2_pos(from.scale());
    lemma_scales(k + to.scale(), e, from.scale());
    lemma_pow2_adds(k, to.scale());
    assert(m * up * from.one() == m * (up * from.one())) by (nonlinear_arith);
    assert((m * pow2(k)) * to.one() * down == m * (pow2(k) * to.one() * down))
        by (nonlinear_arith);
}

/// The whole part of a number.
pub fn truncate(f: Format, a: Number) -> (r: u32)
    requires
        a.fits(f),
    ensures
        r == truncated(f, a@),
{
    match a {
        Number::Nan => 0,
        Number::Infinite { neg } => if neg {
            0
        } else {
            u32::MAX
        },
        Number::Finite { neg, mag } => {
            if neg {
                return 0;
            }
            let (m, k) = parts(f, mag);
            let scale = f.unit_exponent();
            proof {
                lemma2_to64();
                lemma2_to64_rest();
                lemma_pow2_pos(f.scale());
            }
            if k >= scale {
                let lift: u32 = (k - scale) as u32;
                proof {
                    lemma_whole_part(m as nat, k as nat, f.scale());
                }
                if lift >= 32 {
                    proof {
                        if lift > 32 {
                            lemma_pow2_strictly_increases(32, lift as nat);
                        }
                        assert(m * pow2(lift as nat) > u32::MAX) by (nonlinear_arith)
                            requires
                                m >= 1,
                                pow2(lift as nat) >= 0x1_0000_0000,
                        ;
                    }
                    u32::MAX
                } else {
                    proof {
                        lemma_pow2_strictly_increases(lift as nat, 32);
                        assert(m * pow2(lift as nat) <= 0x20_0000_0000_0000 * 0x1_0000_0000)
                            by (nonlinear_arith)
                            requires
                                0 <= m <= 0x20_0000_0000_0000,
                                0 <= pow2(lift as nat) <= 0x1_0000_0000,
                        ;
                    }
                    saturate(m as u128 * power_of_two(lift))
                }
            } else {
                let cut: u32 = (scale - k) as u32;
                proof {
                    lemma_fraction_part(m as nat, k as nat, f.scale());
                }
                if cut >= 64 {
                    proof {
                        if cut > 64 {
                            lemma_pow2_strictly_increases(64, cut as nat);
                        }
                        lemma_quotient_zero(m as nat, pow2(cut as nat));
                    }
                    0
                } else {
                    saturate(m as u128 / power_of_two(cut))
                }
            }
        },
    }
}

fn saturate(n: u128) -> (r: u32)
    ensures
        n > u32::MAX ==> r == u32::MAX,
        n <= u32::MAX ==> r == n,
{
    if n > 0xffff_ffff {
        u32::MAX
    } else {
        n as u32
    }
}

proof fn lemma_quotient_zero(n: nat, d: nat)
    requires
        n < d,
    ensures
        n / d == 0,
        n % d == n,
{
    vstd::arithmetic::div_mod::lemma_fundamental_div_mod_converse(
        n as int,
        d as int,
        0,
        n as int,
    );
}

proof fn lemma_whole_part(m: nat, k: nat, scale: nat)
    requires
        k >= scale,
    ensures
        (m * pow2(k)) / pow2(scale) == m * pow2((k - scale) as nat),
        (m * pow2(k)) % pow2(scale) == 0,
{
    let d = (k - scale) as nat;
    lemma_pow2_adds(d, scale);
    lemma_pow2_pos(scale);
    assert(m * pow2(k) == (m * pow2(d)) * pow2(scale) + 0) by (nonlinear_arith)
        requires
            pow2(k) == pow2(d) * pow2(scale),
    ;
    vstd::arithmetic::div_mod::lemma_fundamental_div_mod_converse(
        (m * pow2(k)) as int,
        pow2(scale) as int,
        (m * pow2(d)) as int,
        0,
    );
}

proof fn lemma_fraction_part(m: nat, k: nat, scale: nat)
    requires
        k <= scale,
    ensures
        (m * pow2(k)) / pow2(scale) == m / pow2((scale - k) as nat),
        (m * pow2(k)) % pow2(scale) == (m % pow2((scale - k) as nat)) * pow2(k),
{
    let c = pow2((scale - k) as nat);
    let g = pow2(k);
    lemma_pow2_adds((scale - k) as nat, k);
    lemma_pow2_pos(k);
    lemma_pow2_pos((scale - k) as nat);
    let q = m / c;
    let r = m % c;
    lemma_fundamental_div_mod(m as int, c as int);
    lemma_mod_bound(m as int, c as int);
    assert(m * g == q * (c * g) + r * g) by (nonlinear_arith)
        requires
            m == c * q + r,
    ;
    assert(0 <= r * g < c * g) by (nonlinear_arith)
        requires
            0 <= r < c,
            g > 0,
    ;
    vstd::arithmetic::div_mod::lemma_fundamental_div_mod_converse(
        (m * g) as int,
        (c * g) as int,
        q as int,
        (r * g) as int,
    );
}

/// Whether `a` is less than `b`.
pub fn is_less(f: Format, a: Number, b: Number) -> (r: bool)
    requires
        a.fits(f),
        b.fits(f),
    ensures
        r == less(f, a@, b@),
{
    match (a, b) {
        (Number::Nan, _) => false,
        (_, Number::Nan) => false,
        (Number::Infinite { neg: x }, Number::Infinite { neg: y }) => x && !y,
        (Number::Infinite { neg }, Number::Finite { .. }) => neg,
        (Number::Finite { .. }, Number::Infinite { neg }) => !neg,
        (Number::Finite { neg: x, mag: m }, Number::Finite { neg: y, mag: n }) => {
            proof {
                let p = f.precision();
                lemma_pow2_pos(p);
                if m < n {
                    lemma_units_monotone(p, m as nat, n as nat);
                }
                if n < m {
                    lemma_units_monotone(p, n as nat, m as nat);
                }
                if m > 0 {
                    lemma_units_monotone(p, 0, m as nat);
                }
                if n > 0 {
                    lemma_units_monotone(p, 0, n as nat);
                }
            }
            if x {
                if y {
                    n < m
                } else {
                    m > 0 || n > 0
                }
            } else {
                !y && m < n
            }
        },
    }
}

/// The greater of two numbers.
pub fn greater(f: Format, a: Number, b: Number) -> (r: Number)
    requires
        a.fits(f),
        b.fits(f),
    ensures
        r.fits(f),
        r@ == greater_of(f, a@, b@),
{
    if matches!(a, Number::Nan) || is_less(f, a, b) {
        b
    } else {
        a
    }
}

/// The lesser of two numbers.
pub fn lesser(f: Format, a: Number, b: Number) -> (r: Number)
    requires
        a.fits(f),
        b.fits(f),
    ensures
        r.fits(f),
        r@ == lesser_of(f, a@, b@),
{
    if matches!(a, Number::Nan) || is_less(f, b, a) {
        b
    } else {
        a
    }
}

/// A number moved into a range.
pub fn clamp(f: Format, a: Number, low: Number, high: Number) -> (r: Number)
    requires
        a.fits(f),
        low.fits(f),
        high.fits(f),
    ensures
        r.fits(f),
        r@ == clamped(f, a@, low@, high@),
{
    if is_less(f, a, low) {
        low
    } else if is_less(f, high, a) {
        high
    } else {
        a
    }
}

/// A finite number of 32 bits, counted in `base`-ths to the nearest: the whole
/// part of the count over `base`, and the rest.
pub fn count_parts(mag: u64, base: u64) -> (r: (u128, u64))
    requires
        mag < Format::Single.overflow(),
        base == 1 || base == 10,
    ensures
        r.0 == scaled_half_even(
            Format::Single,
            Value::Finite { neg: false, mag: mag as nat },
            base as nat,
        ) / base as nat,
        r.1 == scaled_half_even(
            Format::Single,
            Value::Finite { neg: false, mag: mag as nat },
            base as nat,
        ) % base as nat,
{
    let (m, k) = parts(Format::Single, mag);
    let ghost scale = Format::Single.scale();
    let ghost v = Value::Finite { neg: false, mag: mag as nat };
    let ghost bn = base as nat;
    proof {
        lemma2_to64();
        lemma2_to64_rest();
        lemma_pow2_pos(scale);
        lemma_single_exponent(mag as nat);
        let g = pow2(k as nat);
        assert((m * g) * bn == (m * bn) * g) by (nonlinear_arith);
        assert(m * bn < 0x1000_0000) by (nonlinear_arith)
            requires
                0 <= m < 0x100_0000,
                0 <= bn <= 10,
        ;
    }
    if k >= 149 {
        proof {
            let d = (k - 149) as nat;
            let g = pow2(d);
            lemma_whole_part((m * base) as nat, k as nat, scale);
            if d < 104 {
                lemma_pow2_strictly_increases(d, 104);
            }
            lemma_pow2_adds(24, 104);
            lemma_pow2_adds(64, 64);
            assert(m * g <= u128::MAX) by (nonlinear_arith)
                requires
                    0 <= m < 0x100_0000,
                    0 <= g <= pow2(104),
                    0x100_0000 * pow2(104) == 0x1_0000_0000_0000_0000 * 0x1_0000_0000_0000_0000,
            ;
            assert((m * bn) * g == (m * g) * bn + 0) by (nonlinear_arith);
            vstd::arithmetic::div_mod::lemma_fundamental_div_mod_converse(
                ((m * bn) * g) as int,
                bn as int,
                m * g,
                0,
            );
        }
        (m as u128 * power_of_two((k - 149) as u32), 0)
    } else {
        let cut: u32 = (149 - k) as u32;
        let n: u64 = m * base;
        proof {
            lemma_half_even_cut(n as nat, k as nat, scale);
        }
        let count: u128 = if cut >= 64 {
            proof {
                if cut > 64 {
                    lemma_pow2_strictly_increases(64, cut as nat);
                }
                lemma_quotient_zero(n as nat, pow2(cut as nat));
            }
            0
        } else {
            let (q, up) = divide_half_even(n as u128, cut, false);
            proof {
                lemma_pow2_pos(cut as nat);
                assert(q <= n) by (nonlinear_arith)
                    requires
                        q == n as nat / pow2(cut as nat),
                        pow2(cut as nat) > 0,
                ;
            }
            if up {
                q + 1
            } else {
                q
            }
        };
        (count / base as u128, (count % base as u128) as u64)
    }
}

/// The exponents of numbers of 32 bits.
proof fn lemma_single_exponent(mag: nat)
    requires
        mag < Format::Single.overflow(),
    ensures
        exponent(24, mag) <= 253,
        significand(24, mag) < 0x100_0000,
{
    lemma2_to64();
    lemma_parts(24, mag);
}

/// Rounding does not mind a common factor.
pub proof fn lemma_half_even_cut(n: nat, k: nat, scale: nat)
    requires
        k <= scale,
    ensures
        half_even(n * pow2(k), pow2(scale)) == half_even(n, pow2((scale - k) as nat)),
{
    let c = pow2((scale - k) as nat);
    let g = pow2(k);
    let r = n % c;
    lemma_fraction_part(n, k, scale);
    lemma_pow2_adds((scale - k) as nat, k);
    lemma_pow2_pos(k);
    assert((2 * r > c) == (2 * (r * g) > c * g)) by (nonlinear_arith)
        requires
            g > 0,
    ;
    assert((2 * r == c) == (2 * (r * g) == c * g)) by (nonlinear_arith)
        requires
            g > 0,
    ;
}

} // verus!
