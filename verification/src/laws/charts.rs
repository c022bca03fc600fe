//! How the charts in the menu bar show a frame.

use vstd::arithmetic::power2::{
    lemma2_to64_rest, lemma_pow2_adds, lemma_pow2_pos, lemma_pow2_strictly_increases, pow2,
};
use vstd::prelude::*;

use crate::accuracy::{
    distance, lemma_product_close, lemma_quotient_close, lemma_sum_close, lemma_widened_exact,
};
use crate::draw::{activity_sparklines, bar_width, cpu_bar, thousandths, widened, DrawView};
use crate::geometry::{cpu_item, larger, minus, num, over, plus, tenths, times, RectView};
use crate::laws::layout::{
    extent, lemma_downwards, lemma_finite_sum, law_constants_in_tenths, lemma_view_parts,
};
use crate::order::{is_value, lemma_rounding_respects, lemma_whole_exact, lemma_wholes_ordered};
use crate::rounding::{lemma_nearest_exact, lemma_units_monotone, units};
use crate::telemetry::TelemetryFrame;
use crate::value::{clamped, exact, less, negated, size, whole, Format, Value};

verus! {

/// A number of 32 bits in its units, kept within zero to `top`.
pub open spec fn limited(v: Value, top: nat) -> int {
    let most = top * Format::Single.one() as int;
    let x = exact(Format::Single, v);
    match v {
        Value::Nan => 0,
        Value::Infinite { neg } => if neg {
            0
        } else {
            most
        },
        Value::Finite { .. } => if x < 0 {
            0
        } else if x > most {
            most
        } else {
            x
        },
    }
}

/// One has many units in both formats.
pub proof fn lemma_ones()
    ensures
        Format::Single.one() > 0,
        Format::Double.one() >= 0x100_0000_0000_0000_0000_0000_0000_0000,
        pow2(925) > 0,
        Format::Double.one() == Format::Single.one() * pow2(925),
{
    lemma_power_120();
    lemma_pow2_strictly_increases(120, 1074);
    lemma_pow2_pos(149);
    lemma_pow2_pos(925);
    lemma_pow2_adds(149, 925);
}

/// A power of two.
pub proof fn lemma_power_120()
    ensures
        pow2(120) == 0x100_0000_0000_0000_0000_0000_0000_0000,
{
    lemma2_to64_rest();
    lemma_pow2_adds(60, 60);
}

/// Keeping a number within a range and widening it lead to the same, whichever
/// comes first.
pub proof fn lemma_limited(v: Value, n: nat)
    requires
        v !is Nan,
        is_value(Format::Single, v),
        0 < n < 1000,
    ensures
        ({
            let (s, f) = (Format::Single, Format::Double);
            let a = clamped(f, widened(v), num(0), num(n));
            let b = widened(clamped(s, v, whole(s, 0), whole(s, n)));
            &&& a is Finite && is_value(f, a)
            &&& b is Finite && is_value(f, b)
            &&& exact(f, a) * s.one() == limited(v, n) * f.one()
            &&& exact(f, b) * s.one() == limited(v, n) * f.one()
            &&& 0 <= exact(f, a) <= n * f.one()
            &&& 0 <= exact(f, b) <= n * f.one()
            &&& exact(f, a) == limited(v, n) * pow2(925)
        }),
{
    let (s, f) = (Format::Single, Format::Double);
    let (small, one) = (s.one(), f.one());
    let g = pow2(925);
    lemma_ones();
    lemma_whole_exact(s, 0);
    lemma_whole_exact(s, n);
    lemma_whole_exact(f, 0);
    lemma_whole_exact(f, n);
    lemma_wholes_ordered(s, 0, n);
    lemma_wholes_ordered(f, 0, n);
    assert(0 * small == 0 && 0 * one == 0 && (n * one) * small == (n * small) * one && 0 <= n * one
        && n * one == (n * small) * g) by (nonlinear_arith)
        requires
            one == small * g,
    ;
    lemma_widened_exact(whole(s, 0));
    lemma_widened_exact(whole(s, n));
    assert(0 * g == 0) by (nonlinear_arith);
    if v is Finite {
        lemma_widened_exact(v);
        let x = exact(s, v);
        let (w, m) = (x * g, n * small);
        assert((x < 0 <==> w < 0) && (x > m <==> w > m * g) && (0 <= x ==> 0 <= w)) by (
        nonlinear_arith)
            requires
                w == x * g,
                g > 0,
        ;
        assert(w * small == x * one) by (nonlinear_arith)
            requires
                w == x * g,
                one == small * g,
        ;
    }
}

/// A multiple of a number, rounded.
pub proof fn lemma_multiple(n: nat, b: Value)
    requires
        n < 1000,
        b is Finite,
        exact(Format::Double, b) >= 0,
        times(num(n), b) is Finite,
    ensures
        0x1f_ffff_ffff_ffff * distance(
            exact(Format::Double, times(num(n), b)),
            n * exact(Format::Double, b),
        ) <= n * exact(Format::Double, b) + 0x1f_ffff_ffff_ffff,
        exact(Format::Double, times(num(n), b)) >= 0,
{
    let f = Format::Double;
    let one = f.one();
    lemma_ones();
    lemma_whole_exact(f, n);
    assert(n * one >= 0) by (nonlinear_arith);
    lemma_product_close(f, num(n), b);
    let (u, y) = (exact(f, times(num(n), b)), exact(f, b));
    assert(0x1f_ffff_ffff_ffff * distance(u, n * y) <= n * y + 0x1f_ffff_ffff_ffff)
        by (nonlinear_arith)
        requires
            0x1f_ffff_ffff_ffff * distance(u * one, (n * one) * y) <= (n * one) * y
                + 0x1f_ffff_ffff_ffff * one,
            one > 0,
    ;
}

/// A part of a number, rounded.
pub proof fn lemma_part(a: Value, n: nat)
    requires
        0 < n < 1000,
        a is Finite,
        is_value(Format::Double, a),
        exact(Format::Double, a) >= 0,
    ensures
        over(a, num(n)) is Finite,
        is_value(Format::Double, over(a, num(n))),
        exact(Format::Double, over(a, num(n))) >= 0,
        0x1f_ffff_ffff_ffff * distance(
            n * exact(Format::Double, over(a, num(n))),
            exact(Format::Double, a),
        ) <= exact(Format::Double, a) + 0x1f_ffff_ffff_ffff * n,
{
    let f = Format::Double;
    let one = f.one();
    lemma_ones();
    lemma_whole_exact(f, n);
    lemma_pow2_pos(53);
    assert(n * one > 0) by (nonlinear_arith)
        requires
            n > 0,
            one > 0,
    ;
    let m = size(f, a);
    assert(m * one <= (n * one) * m) by (nonlinear_arith)
        requires
            n >= 1,
            one > 0,
    ;
    lemma_rounding_respects(f, m * one, n * one, a->mag);
    lemma_quotient_close(f, a, num(n));
    let (q, x) = (exact(f, over(a, num(n))), exact(f, a));
    assert(0x1f_ffff_ffff_ffff * distance(n * q, x) <= x + 0x1f_ffff_ffff_ffff * n)
        by (nonlinear_arith)
        requires
            0x1f_ffff_ffff_ffff * distance(q * (n * one), x * one) <= x * one
                + 0x1f_ffff_ffff_ffff * (n * one),
            one > 0,
    ;
}

/// The height of a bar for a height `h` and a percentage `c`.
proof fn lemma_bar_height(h: Value, c: Value)
    requires
        h is Finite,
        c is Finite,
        0 <= exact(Format::Double, c) <= 100 * Format::Double.one(),
        larger(over(times(h, c), num(100)), num(1)) is Finite,
    ensures
        ({
            let f = Format::Double;
            let one = f.one();
            let r = exact(f, larger(over(times(h, c), num(100)), num(1)));
            let target = exact(f, h) * exact(f, c);
            &&& r >= one
            &&& target <= one * (100 * one) ==> r == one
            &&& target >= one * (100 * one) ==> 0x1_0000_0000_0000 * distance(
                r * (100 * one),
                target,
            ) <= target
        }),
{
    let f = Format::Double;
    let one = f.one();
    lemma_ones();
    lemma_pow2_pos(53);
    lemma_whole_exact(f, 1);
    lemma_whole_exact(f, 100);
    assert(1 * one == one) by (nonlinear_arith);
    let (x, y) = (exact(f, h), exact(f, c));
    let (n, m) = (size(f, h), size(f, c));
    let p = times(h, c);
    let q = over(p, num(100));
    let target = x * y;
    if x < 0 || y == 0 {
        assert(target <= 0) by (nonlinear_arith)
            requires
                target == x * y,
                x <= 0 || y == 0,
                y >= 0,
        ;
        assert(one * (100 * one) > 0) by (nonlinear_arith)
            requires
                one > 0,
        ;
        if y == 0 {
            assert(n * m == 0 && one * 0 == 0) by (nonlinear_arith)
                requires
                    m == 0,
            ;
            lemma_nearest_exact(53, 0, one, 0);
            assert(0 * one == 0 && (100 * one) * 0 == 0) by (nonlinear_arith);
            lemma_nearest_exact(53, 0, 100 * one, 0);
        }
    } else {
        assert(n * m == target && m * n == n * m);
        assert(units(53, 0) == 0);
        if n == 0 {
            assert(n * m == 0 && one * 0 == 0) by (nonlinear_arith)
                requires
                    n == 0,
            ;
            lemma_nearest_exact(53, 0, one, 0);
        }
        assert(p is Finite && is_value(f, p));
        lemma_product_close(f, h, c);
        lemma_rounding_respects(f, n * m, one, num(100)->mag);
        assert(!c->Finite_neg || m == 0);
        lemma_part_of_product(p);
        let (v, w) = (exact(f, p), exact(f, q));
        assert(one * (100 * one) == (100 * one) * one) by (nonlinear_arith);
        let k = size(f, p);
        if target <= one * (100 * one) {
            if p->mag < num(100)->mag {
                lemma_units_monotone(53, p->mag, num(100)->mag);
            }
            assert(k * one <= (100 * one) * one) by (nonlinear_arith)
                requires
                    k <= 100 * one,
            ;
            lemma_rounding_respects(f, k * one, 100 * one, num(1)->mag);
            if q->mag < num(1)->mag {
                lemma_units_monotone(53, q->mag, num(1)->mag);
            }
        }
        if target >= one * (100 * one) {
            if num(100)->mag < p->mag {
                lemma_units_monotone(53, num(100)->mag, p->mag);
            }
            assert((100 * one) * one <= k * one) by (nonlinear_arith)
                requires
                    100 * one <= k,
            ;
            lemma_rounding_respects(f, k * one, 100 * one, num(1)->mag);
            if num(1)->mag < q->mag {
                lemma_units_monotone(53, num(1)->mag, q->mag);
            }
            lemma_quotient_close(f, p, num(100));
            let (a, b) = (w * (100 * one), v * one);
            assert(0x100_0000_0000_0000_0000_0000_0000_0000 * (100 * one) <= one * (100 * one))
                by (nonlinear_arith)
                requires
                    one >= 0x100_0000_0000_0000_0000_0000_0000_0000,
            ;
            assert(0x1_0000_0000_0000 * distance(a, target) <= target);
        }
    }
}

/// A hundredth of a finite number is finite.
proof fn lemma_part_of_product(p: Value)
    requires
        p is Finite,
        is_value(Format::Double, p),
    ensures
        over(p, num(100)) is Finite,
{
    let f = Format::Double;
    let one = f.one();
    lemma_ones();
    lemma_whole_exact(f, 100);
    lemma_pow2_pos(53);
    assert(units(53, 0) == 0);
    let m = size(f, p);
    assert(m * one <= (100 * one) * m) by (nonlinear_arith)
        requires
            one > 0,
    ;
    lemma_rounding_respects(f, m * one, 100 * one, p->mag);
}

/// Eight bars and seven gaps of 1.2 points fill a width, but no bar is narrower than
/// a point: in eightieths of a point, ten times the width less 84, but at least 80.
pub open spec fn bar_eightieths(width: Value) -> int {
    let one = Format::Double.one();
    let rest = 10 * exact(Format::Double, width) - 84 * one;
    if rest < 80 * one {
        80 * one as int
    } else {
        rest
    }
}

/// Seven gaps of 1.2 points.
proof fn lemma_gaps()
    ensures
        ({
            let f = Format::Double;
            let gaps = times(tenths(12), minus(num(8), num(1)));
            &&& gaps is Finite
            &&& is_value(f, gaps)
            &&& 0x1000_0000_0000 * distance(10 * exact(f, gaps), 84 * f.one() as int) <= 100
                * f.one()
        }),
{
    let f = Format::Double;
    let one = f.one();
    lemma_ones();
    lemma_pow2_pos(53);
    lemma_whole_exact(f, 1);
    lemma_whole_exact(f, 7);
    lemma_whole_exact(f, 8);
    lemma_whole_exact(f, 14);
    law_constants_in_tenths(12);
    let a = tenths(12);
    let seven = minus(num(8), num(1));
    lemma_nearest_exact(53, 7 * one, 1, num(7)->mag);
    assert(1 * one == one && 8 * one - one == 7 * one);
    assert(seven == num(7));
    let x = exact(f, a);
    assert(0 <= x <= 2 * one);
    assert(size(f, a) * (7 * one) <= one * (14 * one)) by (nonlinear_arith)
        requires
            size(f, a) <= 2 * one,
    ;
    lemma_rounding_respects(f, size(f, a) * (7 * one), one, num(14)->mag);
    let gaps = times(a, seven);
    assert(gaps is Finite && !gaps->Finite_neg);
    lemma_product_close(f, a, seven);
    let y = exact(f, gaps);
    assert(0x1f_ffff_ffff_ffff * distance(y, 7 * x) <= 7 * x + 0x1f_ffff_ffff_ffff)
        by (nonlinear_arith)
        requires
            0x1f_ffff_ffff_ffff * distance(y * one, x * (7 * one)) <= x * (7 * one)
                + 0x1f_ffff_ffff_ffff * one,
            one > 0,
    ;
}

/// The width of a bar.
proof fn lemma_bar_width(bounds: RectView)
    requires
        bounds.width is Finite,
        is_value(Format::Double, bounds.width),
        bar_width(bounds) is Finite,
    ensures
        0x100_0000_0000 * distance(
            80 * exact(Format::Double, bar_width(bounds)),
            bar_eightieths(bounds.width),
        ) <= 10 * extent(bounds.width),
        exact(Format::Double, bar_width(bounds)) >= Format::Double.one(),
{
    let f = Format::Double;
    let one = f.one();
    lemma_ones();
    lemma_pow2_pos(53);
    assert(units(53, 0) == 0);
    lemma_gaps();
    lemma_whole_exact(f, 1);
    lemma_whole_exact(f, 8);
    assert(1 * one == one) by (nonlinear_arith);
    let gaps = times(tenths(12), minus(num(8), num(1)));
    let rest = minus(bounds.width, gaps);
    let q = over(rest, num(8));
    let (w, y) = (exact(f, bounds.width), exact(f, gaps));
    let t = 10 * w - 84 * one;
    assert(exact(f, negated(gaps)) == -y);
    if rest is Finite {
        lemma_sum_close(f, bounds.width, negated(gaps));
        let z = exact(f, rest);
        let e = extent(bounds.width);
        assert(0x200_0000_0000 * distance(10 * z, t) <= e);
        if z >= 0 {
            lemma_part(rest, 8);
            let v = exact(f, q);
            assert(0x1f_ffff_ffff_ffff * distance(8 * v, z) <= z + 0x1f_ffff_ffff_ffff * 8);
            assert(0x200_0000_0000 * distance(80 * v, 10 * z) <= e);
            assert(0x100_0000_0000 * distance(80 * v, t) <= 10 * e);
        } else {
            // Less than nothing is left: the bar has its least width.
            assert(rest->Finite_neg);
            assert(exact(f, bar_width(bounds)) == one);
            lemma_little_left(w, z, t, e, one as int);
        }
    } else {
        lemma_downwards(bounds.width, gaps);
    }
}

/// Where nothing is left less than a bar of a point is.
proof fn lemma_little_left(w: int, z: int, t: int, e: int, one: int)
    requires
        z < 0,
        one > 0,
        t == 10 * w - 84 * one,
        e == distance(w, 0) + 200 * one,
        0x200_0000_0000 * distance(10 * z, t) <= e,
    ensures
        t < 80 * one,
{
}

/// A bar shows a load: it stands on the lower edge of its place, as wide as an eighth
/// of what the gaps leave, one width and 1.2 points after the bar before, and as
/// high as the load in percent of the place. A bar is at least a point wide and
/// high, and a load that is not a number counts as none.
pub proof fn law_bar_shows_its_load(bounds: RectView, i: nat, load: Value)
    requires
        i < 8,
        bounds.x is Finite,
        bounds.width is Finite,
        is_value(Format::Double, bounds.width),
        bounds.height is Finite,
        is_value(Format::Single, load),
        cpu_bar(bounds, i, load)->Fill_rect.x is Finite,
        cpu_bar(bounds, i, load)->Fill_rect.width is Finite,
        cpu_bar(bounds, i, load)->Fill_rect.height is Finite,
    ensures
        ({
            let f = Format::Double;
            let (small, one) = (Format::Single.one(), f.one());
            let target = exact(f, bounds.height) * limited(load, 100);
            cpu_bar(bounds, i, load) matches DrawView::Fill { rect, radius, color } && {
                &&& color == thousandths(350, 880, 1000, 850)
                &&& radius == tenths(9)
                &&& rect.y == bounds.y
                &&& exact(f, rect.width) >= one
                &&& 0x100_0000_0000 * distance(
                    80 * exact(f, rect.width),
                    bar_eightieths(bounds.width),
                ) <= 10 * extent(bounds.width)
                &&& 0x100_0000_0000 * distance(
                    10 * exact(f, rect.x),
                    10 * exact(f, bounds.x) + i * (10 * exact(f, rect.width) + 12 * one),
                ) <= 10 * (extent(bounds.x) + exact(f, rect.width))
                &&& exact(f, rect.height) >= one
                &&& load is Nan ==> exact(f, rect.height) == one
                &&& target <= 100 * small * one ==> exact(f, rect.height) == one
                &&& target >= 100 * small * one && load !is Nan ==> 0x1_0000_0000_0000 * distance(
                    100 * small * exact(f, rect.height),
                    target,
                ) <= target
            }
        }),
{
    let (s, f) = (Format::Single, Format::Double);
    let (small, one) = (s.one(), f.one());
    lemma_ones();
    lemma_whole_exact(f, 1);
    assert(1 * one == one) by (nonlinear_arith);
    lemma_bar_width(bounds);
    lemma_bar_place(bounds, i);
    let rect = cpu_bar(bounds, i, load)->Fill_rect;
    if load !is Nan {
        lemma_limited(load, 100);
        let c = widened(clamped(s, load, whole(s, 0), whole(s, 100)));
        lemma_bar_height(bounds.height, c);
        let (h, y, l) = (exact(f, bounds.height), exact(f, c), limited(load, 100));
        lemma_change_units(h, y, l, exact(f, rect.height), small, one);
    }
}

/// Where a bar stands.
proof fn lemma_bar_place(bounds: RectView, i: nat)
    requires
        i < 8,
        bounds.x is Finite,
        bar_width(bounds) is Finite,
        exact(Format::Double, bar_width(bounds)) >= Format::Double.one(),
        plus(bounds.x, times(num(i), plus(bar_width(bounds), tenths(12)))) is Finite,
    ensures
        0x100_0000_0000 * distance(
            10 * exact(
                Format::Double,
                plus(bounds.x, times(num(i), plus(bar_width(bounds), tenths(12)))),
            ),
            10 * exact(Format::Double, bounds.x) + i * (10 * exact(
                Format::Double,
                bar_width(bounds),
            ) + 12 * Format::Double.one()),
        ) <= 10 * (extent(bounds.x) + exact(Format::Double, bar_width(bounds))),
{
    let f = Format::Double;
    let one = f.one();
    lemma_ones();
    law_constants_in_tenths(12);
    let (wide, a) = (bar_width(bounds), tenths(12));
    let p = plus(wide, a);
    let u = times(num(i), p);
    let x = plus(bounds.x, u);
    lemma_finite_sum(bounds.x, u);
    lemma_whole_exact(f, i);
    assert(p is Finite);
    lemma_sum_close(f, wide, a);
    let (w, e) = (exact(f, wide), exact(f, p));
    let step = 10 * w + 12 * one;
    let b = w + 2 * one;
    assert(0x800_0000_0000 * distance(10 * e, step) <= b);
    assert(0 <= e <= 2 * b);
    lemma_multiple(i, p);
    let (v, m) = (exact(f, u), i * e);
    let goal = i * step;
    assert(0x800_0000_0000 * distance(10 * m, goal) <= 8 * b) by (nonlinear_arith)
        requires
            0x800_0000_0000 * distance(10 * e, step) <= b,
            m == i * e,
            goal == i * step,
            0 <= i < 8,
            b > 0,
    ;
    assert(0 <= m <= 16 * b) by (nonlinear_arith)
        requires
            m == i * e,
            0 <= e <= 2 * b,
            0 <= i < 8,
    ;
    lemma_sum_close(f, bounds.x, u);
    assert(0x1f_ffff_ffff_ffff * distance(v, m) <= m + 0x1f_ffff_ffff_ffff);
    assert(distance(10 * v, 10 * m) == 10 * distance(v, m));
    assert(0x400_0000_0000 * distance(10 * v, goal) <= 5 * b);
    let (c, t) = (exact(f, x), exact(f, bounds.x));
    assert(0x1f_ffff_ffff_ffff * distance(c, t + v) <= distance(t, 0) + v);
    assert(distance(10 * c, 10 * t + 10 * v) == 10 * distance(c, t + v));
    assert(v <= 32 * b);
    assert(0x400_0000_0000 * distance(10 * c, 10 * t + 10 * v) <= distance(t, 0) + b);
}

/// The processor's bars show the eight newest loads, the newest at the right.
pub proof fn law_bars_of_the_view(bounds: RectView, frame: TelemetryFrame, i: int)
    requires
        0 <= i < 8,
    ensures
        ({
            let ops = activity_sparklines(bounds, frame);
            let item = cpu_item(bounds);
            &&& ops.len() == 21
            &&& frame.cpu_history@.len() == 60
            &&& ops[5 + i] == cpu_bar(item, i as nat, frame.cpu_history@[52 + i]@)
            &&& exact(Format::Double, item.width) == 25 * Format::Double.one()
            &&& bar_eightieths(item.width) == 166 * Format::Double.one()
        }),
{
    let item = cpu_item(bounds);
    lemma_ones();
    lemma_whole_exact(Format::Double, 25);
    lemma_view_parts(bounds, frame);
    let ops = activity_sparklines(bounds, frame);
    assert(ops[5 + i] == ops.subrange(5, 13)[i]);
}

/// The height in terms of the load itself.
proof fn lemma_change_units(h: int, y: int, l: int, r: int, small: nat, one: nat)
    requires
        small > 0,
        one > 0,
        y * small == l * one,
        h * y <= one * (100 * one) ==> r == one,
        h * y >= one * (100 * one) ==> 0x1_0000_0000_0000 * distance(r * (100 * one), h * y) <= h
            * y,
    ensures
        h * l <= 100 * small * one ==> r == one,
        h * l >= 100 * small * one ==> 0x1_0000_0000_0000 * distance(100 * small * r, h * l) <= h
            * l,
{
    let (t, u) = (h * y, h * l);
    let (k, m) = (one * (100 * one), 100 * small * one);
    assert(t * small == u * one) by (nonlinear_arith)
        requires
            t == h * y,
            u == h * l,
            y * small == l * one,
    ;
    assert(k * small == m * one) by (nonlinear_arith)
        requires
            k == one * (100 * one),
            m == 100 * small * one,
    ;
    assert((u <= m ==> t <= k) && (u >= m ==> t >= k)) by (nonlinear_arith)
        requires
            t * small == u * one,
            k * small == m * one,
            small > 0,
            one > 0,
    ;
    let (a, b) = (r * (100 * one), 100 * small * r);
    assert(a * small == b * one) by (nonlinear_arith)
        requires
            a == r * (100 * one),
            b == 100 * small * r,
    ;
    if u >= m {
        assert(0x1_0000_0000_0000 * distance(b, u) <= u) by (nonlinear_arith)
            requires
                0x1_0000_0000_0000 * distance(a, t) <= t,
                a * small == b * one,
                t * small == u * one,
                small > 0,
                one > 0,
        ;
    }
}

} // verus!
