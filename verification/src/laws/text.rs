//! What the texts say of the numbers that they stand for.

use vstd::arithmetic::power2::lemma_pow2_pos;
use vstd::prelude::*;

use crate::accuracy::{distance, lemma_accuracy, lemma_ratio_close};
use crate::laws::traffic::lemma_one_is_large;
use crate::rounding::half_even;
use crate::text::{
    decimal, digit, gibibytes_text, no_places, one_place, padded, rate_text, ratio_text, special,
};
use crate::value::{exact, quotient, scaled_half_even, size, whole, Format, Value};

verus! {

/// The number that decimal digits stand for.
pub open spec fn read(text: Seq<char>) -> nat
    decreases text.len(),
{
    if text.len() == 0 {
        0
    } else {
        10 * read(text.drop_last()) + (text.last() as nat - '0' as nat) as nat
    }
}

/// Whole numbers are written in digits, without a zero in front, and read back as
/// themselves.
pub proof fn law_decimal_reads_back(n: nat, i: int)
    requires
        0 <= i < decimal(n).len(),
    ensures
        read(decimal(n)) == n,
        '0' <= decimal(n)[i] <= '9',
        decimal(n)[0] == '0' ==> n == 0 && decimal(n).len() == 1,
    decreases n,
{
    let d = (n % 10) as nat;
    if n < 10 {
        assert(decimal(n).drop_last() =~= Seq::<char>::empty());
        reveal_with_fuel(read, 2);
    } else {
        let before = decimal(n / 10);
        assert(decimal(n).drop_last() =~= before);
        lemma_has_digits(n / 10);
        law_decimal_reads_back(n / 10, if i < before.len() {
            i
        } else {
            0
        });
        law_decimal_reads_back(n / 10, 0);
        assert(decimal(n)[0] == before[0]);
    }
}

/// A number has at least one digit.
proof fn lemma_has_digits(n: nat)
    ensures
        decimal(n).len() > 0,
{
}

/// A number of tenths, with a point before the last digit.
pub open spec fn tenths_text(t: nat) -> Seq<char> {
    decimal(t / 10) + seq!['.', ('0' as nat + t % 10) as char]
}

/// The text with one place shows the nearest tenth, the even one of two, and a
/// minus where the sign is set.
pub proof fn law_one_place_is_the_nearest_tenth(v: Value) -> (t: nat)
    requires
        v is Finite,
    ensures
        one_place(v) == (if v->Finite_neg {
            seq!['-']
        } else {
            Seq::<char>::empty()
        }) + tenths_text(t),
        2 * distance(10 * exact(Format::Single, v), if v->Finite_neg {
            -(t * Format::Single.one())
        } else {
            t * Format::Single.one() as int
        }) <= Format::Single.one(),
        2 * distance(10 * size(Format::Single, v) as int, (t * Format::Single.one()) as int)
            == Format::Single.one() ==> t % 2 == 0,
{
    let f = Format::Single;
    let t = scaled_half_even(f, v, 10);
    let n = size(f, v);
    lemma_pow2_pos(f.scale());
    lemma_nearest_whole(n * 10, f.one());
    assert(one_place(v) =~= (if v->Finite_neg {
        seq!['-']
    } else {
        Seq::<char>::empty()
    }) + tenths_text(t));
    t
}

/// The text without places shows the nearest whole number, the even one of two.
pub proof fn law_no_places_is_the_nearest_number(v: Value) -> (t: nat)
    requires
        v is Finite,
    ensures
        no_places(v) == (if v->Finite_neg {
            seq!['-']
        } else {
            Seq::<char>::empty()
        }) + decimal(t),
        2 * distance(exact(Format::Single, v), if v->Finite_neg {
            -(t * Format::Single.one())
        } else {
            t * Format::Single.one() as int
        }) <= Format::Single.one(),
        2 * distance(size(Format::Single, v) as int, (t * Format::Single.one()) as int)
            == Format::Single.one() ==> t % 2 == 0,
{
    let f = Format::Single;
    let t = scaled_half_even(f, v, 1);
    lemma_pow2_pos(f.scale());
    lemma_nearest_whole(size(f, v) * 1, f.one());
    assert(no_places(v) =~= (if v->Finite_neg {
        seq!['-']
    } else {
        Seq::<char>::empty()
    }) + decimal(t));
    t
}

/// The whole number nearest to a fraction is off by at most a half, and even
/// where it is off by that.
proof fn lemma_nearest_whole(num: nat, den: nat)
    requires
        den > 0,
    ensures
        2 * distance(num as int, (half_even(num, den) * den) as int) <= den,
        2 * distance(num as int, (half_even(num, den) * den) as int) == den ==> half_even(num, den)
            % 2 == 0,
{
    let (q, r) = (num / den, num % den);
    vstd::arithmetic::div_mod::lemma_fundamental_div_mod(num as int, den as int);
    vstd::arithmetic::div_mod::lemma_mod_bound(num as int, den as int);
    assert(q * den == den * q && (q + 1) * den == den * q + den) by (nonlinear_arith);
}

/// What is no finite number is named as such, and no finite number is.
pub proof fn law_special_texts(neg: bool)
    ensures
        one_place(Value::Nan) == "NaN"@,
        no_places(Value::Nan) == "NaN"@,
        one_place(Value::Infinite { neg }) == if neg {
            "-inf"@
        } else {
            "inf"@
        },
        no_places(Value::Infinite { neg }) == if neg {
            "-inf"@
        } else {
            "inf"@
        },
{
    reveal_strlit("NaN");
    reveal_strlit("inf");
    reveal_strlit("-inf");
    assert(special(Value::Nan) =~= "NaN"@);
    assert(special(Value::Infinite { neg: true }) =~= "-inf"@);
    assert(special(Value::Infinite { neg: false }) =~= "inf"@);
}

/// Padding puts spaces before a text until it is wide enough, and changes nothing
/// else.
pub proof fn law_padding_only_adds_spaces(text: Seq<char>, width: nat, i: int)
    ensures
        padded(text, width).len() == if text.len() < width {
            width
        } else {
            text.len()
        },
        padded(text, width).skip(padded(text, width).len() - text.len()) == text,
        0 <= i < padded(text, width).len() - text.len() ==> padded(text, width)[i] == ' ',
{
    assert(padded(text, width).skip(padded(text, width).len() - text.len()) =~= text);
}

/// Whether a text shows `n / d` with one place: to the nearest tenth, up to one
/// part in `2^17` for the rounding of single precision.
pub open spec fn shows_ratio(text: Seq<char>, n: u64, d: u64) -> bool {
    exists|t: nat|
        text == #[trigger] tenths_text(t) && 0x2_0000 * (2 * distance(10 * n, (t * d) as int) - d)
            <= n
}

/// A ratio is shown to the nearest tenth.
pub proof fn law_ratio_is_shown(n: u64, d: u64)
    requires
        0 < d <= 1_000_000,
    ensures
        shows_ratio(ratio_text(n, d), n, d),
{
    let f = Format::Single;
    let one = f.one();
    let q = quotient(f, whole(f, n as nat), whole(f, d as nat));
    lemma_accuracy(f);
    lemma_ratio_close(n, d);
    lemma_one_is_large();
    let t = law_one_place_is_the_nearest_tenth(q);
    let v = exact(f, q);
    assert(one_place(q) =~= tenths_text(t));
    if n == 0 {
        lemma_ratio_of_zero(d);
        assert(t * one == 0) by {
            assert(2 * distance(0, (t * one) as int) <= one);
            assert(t == 0) by (nonlinear_arith)
                requires
                    2 * (t * one) <= one,
                    one > 0,
            ;
            assert(0 * one == 0) by (nonlinear_arith);
        }
        assert(t == 0) by (nonlinear_arith)
            requires
                t * one == 0,
                one > 0,
        ;
        assert(t * d == 0) by (nonlinear_arith)
            requires
                t == 0,
        ;
    } else {
        let (x, y) = (10 * n * one, t * d * one);
        let z = 10 * v * d;
        // z is near x, and t is near 10 * v
        let (a, b) = (v * d, n * one);
        assert(z == 10 * a && x == 10 * b) by (nonlinear_arith)
            requires
                z == 10 * v * d,
                a == v * d,
                x == 10 * n * one,
                b == n * one,
        ;
        let (c, e) = (10 * v, (t * one) as int);
        assert(2 * distance(z, y) <= d * one) by (nonlinear_arith)
            requires
                2 * distance(c, e) <= one,
                c == 10 * v,
                e == t * one,
                z == 10 * v * d,
                y == t * d * one,
                d > 0,
        ;
        let u = d * one;
        assert(0x200_0000 * distance(x, z) <= 70 * b + 0xa000_0000 * d);
        assert(0x1_0000_0000 * d <= b) by (nonlinear_arith)
            requires
                b == n * one,
                n >= 1,
                one >= 0x1000_0000_0000_0000,
                d <= 1_000_000,
        ;
        assert(0x2_0000 * (2 * distance(x, y) - u) <= b);
        let (k, l) = (10 * n, t * d);
        assert(0x2_0000 * (2 * distance(k, l) - d) <= n) by (nonlinear_arith)
            requires
                0x2_0000 * (2 * distance(k * one, l * one) - d * one) <= n * one,
                one > 0,
        ;
    }
}

/// Nothing over something is zero.
proof fn lemma_ratio_of_zero(d: u64)
    requires
        d > 0,
    ensures
        exact(
            Format::Single,
            quotient(Format::Single, whole(Format::Single, 0), whole(Format::Single, d as nat)),
        ) == 0,
{
    let f = Format::Single;
    lemma_pow2_pos(24);
    crate::order::lemma_whole_exact(f, 0);
    crate::order::lemma_whole_finite(f, d);
    let m = size(f, whole(f, d as nat));
    assert(0 * f.one() == 0 && m * 0 == 0) by (nonlinear_arith);
    crate::rounding::lemma_nearest_exact(24, 0, m, 0);
}

/// Whether a text says a rate: in bytes below a thousand, in kilobytes below a
/// million, else in megabytes.
pub open spec fn says_rate(text: Seq<char>, bytes_per_sec: u64) -> bool {
    exists|number: Seq<char>, unit: Seq<char>|
        text == #[trigger] (number + unit) && if bytes_per_sec < 1_000 {
            number == decimal(bytes_per_sec as nat) && unit == " B/s"@
        } else if bytes_per_sec < 1_000_000 {
            shows_ratio(number, bytes_per_sec, 1_000) && unit == " KB/s"@
        } else {
            shows_ratio(number, bytes_per_sec, 1_000_000) && unit == " MB/s"@
        }
}

/// Rates are said in their unit, to the nearest tenth.
pub proof fn law_rates_are_said(bytes_per_sec: u64)
    ensures
        says_rate(rate_text(bytes_per_sec), bytes_per_sec),
{
    if bytes_per_sec < 1_000 {
        assert(rate_text(bytes_per_sec) == decimal(bytes_per_sec as nat) + " B/s"@);
    } else if bytes_per_sec < 1_000_000 {
        law_ratio_is_shown(bytes_per_sec, 1_000);
        assert(rate_text(bytes_per_sec) == ratio_text(bytes_per_sec, 1_000) + " KB/s"@);
    } else {
        law_ratio_is_shown(bytes_per_sec, 1_000_000);
        assert(rate_text(bytes_per_sec) == ratio_text(bytes_per_sec, 1_000_000) + " MB/s"@);
    }
}

/// Memory is said in gibibytes of 1024 mebibytes, to the nearest tenth.
pub proof fn law_gibibytes_are_said(mebibytes: u64)
    ensures
        shows_ratio(gibibytes_text(mebibytes), mebibytes, 1024),
{
    law_ratio_is_shown(mebibytes, 1024);
}

} // verus!
