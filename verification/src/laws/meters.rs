//! How the meters and the line in the menu bar show a frame.

use vstd::arithmetic::power2::{lemma_pow2_pos, lemma_pow2_strictly_increases, pow2};
use vstd::prelude::*;

use crate::accuracy::{distance, lemma_product_close, lemma_sum_close, lemma_widened_exact};
use crate::draw::{
    activity_sparklines, level_meter, memory_share, spark_point, temperature_gauge, thousandths,
    widened, ColorView, DrawView,
};
use crate::geometry::{
    larger, memory_item, minus, network_item, num, over, plus, temperature_item, tenths, times,
    RectView,
};
use crate::gpu::hundredth;
use crate::laws::charts::{lemma_limited, lemma_multiple, lemma_ones, lemma_part, limited};
use crate::laws::layout::{
    extent, lemma_distances, lemma_finite_sum, lemma_rounded_near, lemma_view_parts, near,
};
use crate::laws::panel::{fills, lemma_fills};
use crate::laws::traffic::law_share_of_the_memory;
use crate::laws::{law_full_memory_is_one, law_memory_share_is_a_ratio};
use crate::order::{is_value, lemma_product_shrinks, lemma_whole_exact};
use crate::rounding::{lemma_nearest_exact, units};
use crate::telemetry::TelemetryFrame;
use crate::value::{clamped, exact, fraction, lesser_of, negated, size, whole, Format, Value};

verus! {

/// The filled part of a meter of a width for a level from zero to one.
proof fn lemma_filled(width: Value, level: Value)
    requires
        width is Finite,
        is_value(Format::Double, width),
        exact(Format::Double, width) >= 0,
        level is Finite,
        is_value(Format::Single, level),
        0 <= exact(Format::Single, level) <= Format::Single.one(),
    ensures
        ({
            let (s, f) = (Format::Single, Format::Double);
            let small = s.one();
            let filled = times(width, widened(level));
            let (w, l, r) = (exact(f, width), exact(s, level), exact(f, filled));
            &&& filled is Finite
            &&& 0 <= r <= w
            &&& l == 0 ==> r == 0
            &&& l == small ==> r == w
            &&& 0x1f_ffff_ffff_ffff * distance(r * small, w * l) <= w * l + 0x1f_ffff_ffff_ffff
                * small
        }),
{
    let (s, f) = (Format::Single, Format::Double);
    let (small, one) = (s.one(), f.one());
    let g = pow2(925);
    lemma_ones();
    lemma_pow2_pos(53);
    lemma_pow2_pos(24);
    lemma_widened_exact(level);
    let v = widened(level);
    let filled = times(width, v);
    let (w, l, y) = (exact(f, width), exact(s, level), exact(f, v));
    assert(0 <= y <= one) by (nonlinear_arith)
        requires
            y == l * g,
            0 <= l <= small,
            one == small * g,
    ;
    lemma_product_shrinks(f, v, width);
    lemma_product_close(f, width, v);
    let r = exact(f, filled);
    assert(r >= 0 && r <= w);
    let (a, b) = (w * y, w * l);
    assert(a * small == b * one) by (nonlinear_arith)
        requires
            a == w * y,
            b == w * l,
            y * small == l * one,
    ;
    assert(0x1f_ffff_ffff_ffff * distance(r * small, b) <= b + 0x1f_ffff_ffff_ffff * small)
        by (nonlinear_arith)
        requires
            0x1f_ffff_ffff_ffff * distance(r * one, a) <= a + 0x1f_ffff_ffff_ffff * one,
            a * small == b * one,
            small > 0,
            one > 0,
    ;
    let (n, m) = (size(f, width), size(f, v));
    if l == 0 {
        assert(y == 0) by (nonlinear_arith)
            requires
                y == l * g,
                l == 0,
        ;
        assert(n * m == 0 && one * 0 == 0) by (nonlinear_arith)
            requires
                m == 0,
        ;
        lemma_nearest_exact(53, 0, one, 0);
    }
    if l == small {
        assert(y == one);
        assert(n * m == one * n) by (nonlinear_arith)
            requires
                m == one,
        ;
        lemma_nearest_exact(53, n * m, one, width->mag);
    }
}

/// A meter: its ground and its edge take the whole place, and it is filled from the
/// left up to its ratio, kept within zero to one.
pub proof fn law_meter_shows_its_ratio(bounds: RectView, ratio: Value, fill: ColorView)
    requires
        bounds.width is Finite,
        is_value(Format::Double, bounds.width),
        exact(Format::Double, bounds.width) >= 0,
        ratio !is Nan,
        is_value(Format::Single, ratio),
    ensures
        ({
            let f = Format::Double;
            let small = Format::Single.one();
            let ops = level_meter(bounds, ratio, fill);
            let (w, l) = (exact(f, bounds.width), limited(ratio, 1));
            &&& ops.len() == 3
            &&& ops[0] matches DrawView::Fill { rect, color, radius } && rect == bounds && color
                == thousandths(120, 140, 160, 950) && radius == tenths(14)
            &&& ops[2] matches DrawView::Stroke { rect, color, radius, line_width } && rect
                == bounds && color == thousandths(370, 400, 440, 620) && radius == tenths(14)
                && line_width == tenths(5)
            &&& ops[1] matches DrawView::Fill { rect, color, radius } && {
                &&& color == fill
                &&& radius == tenths(14)
                &&& rect.x == bounds.x && rect.y == bounds.y && rect.height == bounds.height
                &&& rect.width is Finite
                &&& 0 <= exact(f, rect.width) <= w
                &&& l == 0 ==> exact(f, rect.width) == 0
                &&& l == small ==> exact(f, rect.width) == w
                &&& 0x1f_ffff_ffff_ffff * distance(exact(f, rect.width) * small, w * l) <= w * l
                    + 0x1f_ffff_ffff_ffff * small
            }
        }),
{
    let s = Format::Single;
    lemma_ones();
    lemma_whole_exact(s, 0);
    lemma_whole_exact(s, 1);
    assert(0 * s.one() == 0 && 1 * s.one() == s.one()) by (nonlinear_arith);
    lemma_filled(bounds.width, clamped(s, ratio, whole(s, 0), whole(s, 1)));
}

/// The memory's meter: its ground and its edge take its whole place, and it is
/// filled from the left up to the share of the memory in use.
pub proof fn law_memory_meter_of_the_view(bounds: RectView, frame: TelemetryFrame)
    ensures
        ({
            let f = Format::Double;
            let one = f.one();
            let ops = activity_sparklines(bounds, frame);
            let item = memory_item(bounds);
            let (used, total) = (frame.mem_used_mb, frame.mem_total_mb);
            &&& ops[13] matches DrawView::Fill { rect, color, radius } && rect == item && color
                == thousandths(120, 140, 160, 950) && radius == tenths(14)
            &&& ops[15] matches DrawView::Stroke { rect, color, radius, line_width } && rect == item
                && color == thousandths(370, 400, 440, 620) && radius == tenths(14) && line_width
                == tenths(5)
            &&& ops[14] matches DrawView::Fill { rect, color, radius } && {
                &&& color == thousandths(450, 630, 1000, 920)
                &&& radius == tenths(14)
                &&& rect.x == item.x && rect.y == item.y && rect.height == item.height
                &&& rect.width is Finite
                &&& total == 0 ==> exact(f, rect.width) == 0
                &&& used >= total > 0 ==> exact(f, rect.width) == 18 * one
                &&& used <= total && total > 0 ==> 0x20_0000 * distance(
                    exact(f, rect.width) * total,
                    18 * one * used,
                ) <= 18 * one * total
            }
        }),
{
    let (s, f) = (Format::Single, Format::Double);
    let (small, one) = (s.one(), f.one());
    let item = memory_item(bounds);
    let (used, total) = (frame.mem_used_mb, frame.mem_total_mb);
    let share = memory_share(used, total);
    lemma_ones();
    lemma_view_parts(bounds, frame);
    let ops = activity_sparklines(bounds, frame);
    assert(ops[13] == ops.subrange(13, 16)[0]);
    assert(ops[14] == ops.subrange(13, 16)[1]);
    assert(ops[15] == ops.subrange(13, 16)[2]);
    law_memory_share_is_a_ratio(used, total);
    lemma_whole_exact(s, 0);
    lemma_whole_exact(s, 1);
    lemma_whole_exact(f, 18);
    assert(0 * small == 0 && 1 * small == small) by (nonlinear_arith);
    assert(clamped(s, share, whole(s, 0), whole(s, 1)) == share);
    assert(is_value(s, share)) by {
        lemma_share_is_value(used, total);
    }
    lemma_filled(num(18), share);
    let (l, r) = (exact(s, share), exact(f, times(num(18), widened(share))));
    if total > 0 && used >= total {
        law_full_memory_is_one(used, total);
    }
    if total > 0 && used <= total {
        law_share_of_the_memory(used, total);
        let w = 18 * one as int;
        let t = total as int;
        let (x, y, z) = (r * small * t, w * l * t, w * used * small);
        let u = w * small * t;
        assert(0x1f_ffff_ffff_ffff * distance(x, y) <= u + 0x1f_ffff_ffff_ffff * (small * t))
            by (nonlinear_arith)
            requires
                0x1f_ffff_ffff_ffff * distance(r * small, w * l) <= w * l + 0x1f_ffff_ffff_ffff
                    * small,
                l <= small,
                x == r * small * t,
                y == w * l * t,
                u == w * small * t,
                w > 0,
                t > 0,
        ;
        assert(0x40_0000 * distance(y, z) <= u) by (nonlinear_arith)
            requires
                0x40_0000 * distance(l * t, used * small) <= t * small,
                y == w * l * t,
                z == w * used * small,
                u == w * small * t,
                w > 0,
        ;
        let v = small * t;
        assert(0x1_0000_0000 * v <= u) by (nonlinear_arith)
            requires
                u == w * small * t,
                v == small * t,
                w >= 0x1_0000_0000,
                v >= 0,
        ;
        assert(v >= 0) by (nonlinear_arith)
            requires
                v == small * t,
                small > 0,
                t > 0,
        ;
        assert(0x20_0000 * distance(x, z) <= u);
        let (a, b, c) = (r * t, w * used, w * t);
        assert(a * small == x && b * small == z && c * small == u) by (nonlinear_arith)
            requires
                a == r * t,
                b == w * used,
                c == w * t,
                x == r * small * t,
                z == w * used * small,
                u == w * small * t,
        ;
        assert(0x20_0000 * distance(a, b) <= c) by (nonlinear_arith)
            requires
                0x20_0000 * distance(a * small, b * small) <= c * small,
                small > 0,
        ;
    }
}

/// The share of the memory is a value of the format.
proof fn lemma_share_is_value(used: u64, total: u64)
    ensures
        is_value(Format::Single, memory_share(used, total)),
{
    let s = Format::Single;
    lemma_whole_exact(s, 0);
    lemma_whole_exact(s, 1);
    if total > 0 {
        crate::accuracy::lemma_ratio_close(used, total);
    }
}

/// A gauge: a bulb at the left, as high as its place but at most eight points, and a
/// meter three points to the right of it. Both are red from 80 degrees on, amber
/// from 60, else green, and the meter is filled to the temperature out of 100
/// degrees.
pub open spec fn is_gauge(ops: Seq<DrawView>, item: RectView, temperature: Value) -> bool {
    let (s, f) = (Format::Single, Format::Double);
    let (small, one) = (s.one(), f.one());
    let degrees = exact(s, temperature);
    let fill = if degrees >= 80 * small {
        thousandths(1000, 280, 220, 950)
    } else if degrees >= 60 * small {
        thousandths(1000, 680, 200, 950)
    } else {
        thousandths(710, 930, 350, 950)
    };
    let stem = ops[1]->Fill_rect;
    let (w, r) = (exact(f, stem.width), exact(f, ops[2]->Fill_rect.width));
    let h = exact(f, item.height);
    let bulb = ops[0]->Fill_rect.width;
    &&& ops.len() == 4
    &&& ops[0] matches DrawView::Fill { rect, color, radius } && {
        &&& color == fill
        &&& rect.x == item.x && rect.y == item.y && rect.width == rect.height
        &&& exact(f, rect.width) == if h < 8 * one {
            h
        } else {
            8 * one as int
        }
        &&& h >= 0 ==> radius is Finite && 0x1f_ffff_ffff_ffff * distance(
            2 * exact(f, radius),
            exact(f, rect.width),
        ) <= exact(f, rect.width) + 0x3f_ffff_ffff_fffe
    }
    &&& ops[1] is Fill && ops[1]->Fill_color == thousandths(120, 140, 160, 950)
    &&& ops[3] matches DrawView::Stroke { rect, color, line_width, .. } && rect == stem && color
        == thousandths(370, 400, 440, 620) && line_width == tenths(5)
    &&& stem.width is Finite ==> near(
        stem.width,
        exact(f, item.width) - exact(f, bulb) - 3 * one,
        2 * (extent(item.width) + extent(item.height)),
    )
    &&& stem.x is Finite ==> near(
        stem.x,
        exact(f, item.x) + exact(f, bulb) + 3 * one,
        2 * (extent(item.x) + extent(item.height)),
    )
    &&& stem.y is Finite ==> near(stem.y, exact(f, item.y) + 2 * one, extent(item.y))
    &&& stem.height is Finite ==> near(stem.height, h - 4 * one, extent(item.height))
    &&& ops[2] matches DrawView::Fill { rect, color, .. } && {
        &&& color == fill
        &&& rect.x == stem.x && rect.y == stem.y && rect.height == stem.height
        &&& stem.width is Finite && w >= 0 ==> {
            &&& rect.width is Finite
            &&& degrees <= 0 ==> r == 0
            &&& degrees >= 100 * small ==> r == w
            &&& 0 <= degrees <= 100 * small ==> 0x40_0000 * distance(100 * small * r, w * degrees)
                <= w * degrees + 0x1_0000_0000 * (w + small)
        }
    }
}

/// The gauge of any place shows the temperature.
pub proof fn law_gauge_shows_the_temperature(item: RectView, temperature: Value)
    requires
        temperature is Finite,
        is_value(Format::Single, temperature),
        item.height is Finite,
        is_value(Format::Double, item.height),
        item.width is Finite,
    ensures
        is_gauge(temperature_gauge(item, temperature), item, temperature),
{
    let (s, f) = (Format::Single, Format::Double);
    let (small, one) = (s.one(), f.one());
    lemma_ones();
    lemma_whole_exact(s, 60);
    lemma_whole_exact(s, 80);
    lemma_whole_exact(s, 0);
    lemma_whole_exact(s, 1);
    lemma_whole_exact(f, 8);
    assert(0 * small == 0 && 1 * small == small) by (nonlinear_arith);
    let bulb = lesser_of(f, item.height, num(8));
    if exact(f, item.height) >= 0 {
        lemma_part(bulb, 2);
    }
    lemma_stem_place(item, bulb);
    let width = minus(minus(item.width, bulb), num(3));
    let ops = temperature_gauge(item, temperature);
    assert(ops.len() == 4);
    assert(ops[1]->Fill_rect.width == width);
    let level = clamped(s, hundredth(temperature), whole(s, 0), whole(s, 1));
    lemma_fills(temperature);
    lemma_level_is_ratio(temperature);
    assert(clamped(s, level, whole(s, 0), whole(s, 1)) == level);
    assert(ops[2]->Fill_rect.width == times(width, widened(level)));
    if width is Finite && exact(f, width) >= 0 {
        assert(is_value(f, width)) by {
            lemma_sum_is_value(minus(item.width, bulb), negated(num(3)));
        }
        lemma_filled(width, level);
        lemma_gauge_filled(width, level, temperature);
    }
}

/// A finite sum is a value of its format.
proof fn lemma_sum_is_value(a: Value, b: Value)
    requires
        plus(a, b) is Finite,
    ensures
        is_value(Format::Double, plus(a, b)),
{
}

/// How far the meter is filled in terms of the temperature itself.
proof fn lemma_gauge_filled(width: Value, level: Value, temperature: Value)
    requires
        fills(level, temperature),
        temperature is Finite,
        exact(Format::Double, width) >= 0,
        ({
            let (s, f) = (Format::Single, Format::Double);
            let (w, l) = (exact(f, width), exact(s, level));
            0x1f_ffff_ffff_ffff * distance(exact(f, times(width, widened(level))) * s.one(), w * l)
                <= w * l + 0x1f_ffff_ffff_ffff * s.one()
        }),
        0 <= exact(Format::Single, level),
    ensures
        ({
            let (s, f) = (Format::Single, Format::Double);
            let small = s.one();
            let (w, d) = (exact(f, width), exact(s, temperature));
            let r = exact(f, times(width, widened(level)));
            0 <= d <= 100 * small ==> 0x40_0000 * distance(100 * small * r, w * d) <= w * d
                + 0x1_0000_0000 * (w + small)
        }),
{
    let (s, f) = (Format::Single, Format::Double);
    let small = s.one();
    lemma_ones();
    let (w, l) = (exact(f, width), exact(s, level));
    let r = exact(f, times(width, widened(level)));
    let d = exact(s, temperature);
    if 0 <= d <= 100 * small {
        let (x, y, z) = (100 * small * r, 100 * (w * l), w * d);
        assert(x == 100 * (r * small)) by (nonlinear_arith)
            requires
                x == 100 * small * r,
        ;
        assert(0xff_ffff * distance(y, z) <= z + 0x6400_0000 * w) by (nonlinear_arith)
            requires
                0xff_ffff * distance(100 * l, d) <= d + 0x6400_0000,
                y == 100 * (w * l),
                z == w * d,
                w >= 0,
        ;
        assert(z >= 0) by (nonlinear_arith)
            requires
                z == w * d,
                w >= 0,
                d >= 0,
        ;
        assert(0x40_0000 * distance(x, z) <= z + 0x1_0000_0000 * (w + small));
    }
}

/// The last four steps of the view are the gauge of the frame's temperature, at the
/// last item. Its meter always has a width: 21 points less the bulb and three more.
pub proof fn law_gauge_of_the_view(bounds: RectView, frame: TelemetryFrame)
    requires
        frame.temp_celsius@ is Finite,
        temperature_item(bounds).height is Finite,
        is_value(Format::Double, temperature_item(bounds).height),
    ensures
        ({
            let f = Format::Double;
            let ops = activity_sparklines(bounds, frame);
            let stem = ops[18]->Fill_rect;
            &&& ops.len() == 21
            &&& is_gauge(ops.skip(17), temperature_item(bounds), frame.temp_celsius@)
            &&& exact(f, temperature_item(bounds).width) == 21 * f.one()
            &&& stem.width is Finite ==> exact(f, stem.width) >= 0
        }),
{
    let f = Format::Double;
    let item = temperature_item(bounds);
    lemma_view_parts(bounds, frame);
    let ops = activity_sparklines(bounds, frame);
    assert(ops.skip(17) =~= ops.subrange(17, 21));
    assert(ops[18] == ops.subrange(17, 21)[1]);
    lemma_whole_exact(f, 21);
    law_gauge_shows_the_temperature(item, frame.temp_celsius@);
    let bulb = lesser_of(f, item.height, num(8));
    if minus(minus(num(21), bulb), num(3)) is Finite {
        lemma_stem(item.height, bulb);
    }
}

/// A temperature that is no finite number is shown green, unless it is infinitely
/// high.
pub proof fn law_gauge_of_no_number(item: RectView, neg: bool)
    ensures
        temperature_gauge(item, Value::Nan)[0]->Fill_color == thousandths(710, 930, 350, 950),
        temperature_gauge(item, Value::Infinite { neg })[0]->Fill_color == if neg {
            thousandths(710, 930, 350, 950)
        } else {
            thousandths(1000, 280, 220, 950)
        },
        temperature_gauge(item, Value::Infinite { neg })[2]->Fill_color == temperature_gauge(
            item,
            Value::Infinite { neg },
        )[0]->Fill_color,
{
    lemma_whole_exact(Format::Single, 60);
    lemma_whole_exact(Format::Single, 80);
}

/// The level of the meter is from zero to one.
proof fn lemma_level_is_ratio(v: Value)
    requires
        v is Finite,
        is_value(Format::Single, v),
    ensures
        ({
            let s = Format::Single;
            let level = clamped(s, hundredth(v), whole(s, 0), whole(s, 1));
            &&& level is Finite
            &&& is_value(s, level)
            &&& 0 <= exact(s, level) <= s.one()
            &&& !crate::value::less(s, level, whole(s, 0))
            &&& !crate::value::less(s, whole(s, 1), level)
        }),
{
    let s = Format::Single;
    let one = s.one();
    lemma_ones();
    lemma_pow2_pos(24);
    assert(units(24, 0) == 0);
    lemma_whole_exact(s, 0);
    lemma_whole_exact(s, 1);
    lemma_whole_exact(s, 100);
    assert(0 * one == 0 && 1 * one == one) by (nonlinear_arith);
    let n = size(s, v);
    assert(n * one <= (100 * one) * n) by (nonlinear_arith)
        requires
            one > 0,
    ;
    crate::order::lemma_rounding_respects(s, n * one, 100 * one, v->mag);
}

/// The width of the meter beside a bulb.
proof fn lemma_stem(height: Value, bulb: Value)
    requires
        height is Finite,
        is_value(Format::Double, height),
        bulb == lesser_of(Format::Double, height, num(8)),
        minus(minus(num(21), bulb), num(3)) is Finite,
    ensures
        ({
            let f = Format::Double;
            let width = minus(minus(num(21), bulb), num(3));
            &&& near(width, 18 * f.one() - exact(f, bulb), 2 * extent(height))
            &&& exact(f, width) >= 0
            &&& is_value(f, width)
        }),
{
    let f = Format::Double;
    let one = f.one();
    lemma_ones();
    lemma_whole_exact(f, 3);
    lemma_whole_exact(f, 8);
    lemma_whole_exact(f, 21);
    let first = minus(num(21), bulb);
    let width = minus(first, num(3));
    lemma_finite_sum(first, negated(num(3)));
    lemma_finite_sum(num(21), negated(bulb));
    lemma_sum_close(f, num(21), negated(bulb));
    lemma_sum_close(f, first, negated(num(3)));
    let (b, x, y) = (exact(f, bulb), exact(f, first), exact(f, width));
    let e = extent(height);
    assert(exact(f, negated(bulb)) == -b && exact(f, negated(num(3))) == -3 * one);
    assert(distance(b, 0) <= distance(exact(f, height), 0) + 8 * one);
    lemma_rounded_near(x, 21 * one - b, 21 * one - b, 0, e);
    lemma_distances(x, -3 * one, 21 * one - b, -3 * one);
    lemma_rounded_near(y, x - 3 * one, 18 * one - b, e, e);
    assert(b <= 8 * one);
    lemma_wide_enough(y, b, one as int, e, exact(f, height));
}

/// Where the meter beside a bulb lies.
proof fn lemma_stem_place(item: RectView, bulb: Value)
    requires
        item.height is Finite,
        bulb == lesser_of(Format::Double, item.height, num(8)),
    ensures
        ({
            let f = Format::Double;
            let one = f.one();
            let x = plus(plus(item.x, bulb), num(3));
            let y = plus(item.y, num(2));
            let h = minus(item.height, num(4));
            let w = minus(minus(item.width, bulb), num(3));
            &&& w is Finite ==> near(
                w,
                exact(f, item.width) - exact(f, bulb) - 3 * one,
                2 * (extent(item.width) + extent(item.height)),
            )
            &&& x is Finite ==> near(
                x,
                exact(f, item.x) + exact(f, bulb) + 3 * one,
                2 * (extent(item.x) + extent(item.height)),
            )
            &&& y is Finite ==> near(y, exact(f, item.y) + 2 * one, extent(item.y))
            &&& h is Finite ==> near(h, exact(f, item.height) - 4 * one, extent(item.height))
        }),
{
    let f = Format::Double;
    let one = f.one();
    lemma_ones();
    lemma_whole_exact(f, 2);
    lemma_whole_exact(f, 3);
    lemma_whole_exact(f, 4);
    lemma_whole_exact(f, 8);
    let first = plus(item.x, bulb);
    let x = plus(first, num(3));
    let e = extent(item.x) + extent(item.height);
    if x is Finite {
        lemma_finite_sum(first, num(3));
        lemma_finite_sum(item.x, bulb);
        lemma_sum_close(f, item.x, bulb);
        lemma_sum_close(f, first, num(3));
        let (a, b) = (exact(f, item.x), exact(f, bulb));
        lemma_rounded_near(exact(f, first), a + b, a + b, 0, e);
        lemma_distances(exact(f, first), 3 * one as int, a + b, 3 * one as int);
        lemma_rounded_near(exact(f, x), exact(f, first) + 3 * one, a + b + 3 * one, e, e);
    }
    let narrow = minus(item.width, bulb);
    let w = minus(narrow, num(3));
    let d = extent(item.width) + extent(item.height);
    if w is Finite {
        lemma_finite_sum(narrow, negated(num(3)));
        lemma_finite_sum(item.width, negated(bulb));
        lemma_sum_close(f, item.width, negated(bulb));
        lemma_sum_close(f, narrow, negated(num(3)));
        let (a, b) = (exact(f, item.width), exact(f, bulb));
        assert(exact(f, negated(bulb)) == -b && exact(f, negated(num(3))) == -3 * one);
        lemma_rounded_near(exact(f, narrow), a - b, a - b, 0, d);
        lemma_distances(exact(f, narrow), -3 * one, a - b, -3 * one);
        lemma_rounded_near(exact(f, w), exact(f, narrow) - 3 * one, a - b - 3 * one, d, d);
    }
    let y = plus(item.y, num(2));
    if y is Finite {
        lemma_finite_sum(item.y, num(2));
        lemma_sum_close(f, item.y, num(2));
        let a = exact(f, item.y) + 2 * one;
        lemma_rounded_near(exact(f, y), a, a, 0, extent(item.y));
    }
    let h = minus(item.height, num(4));
    if h is Finite {
        lemma_sum_close(f, item.height, negated(num(4)));
        let a = exact(f, item.height) - 4 * one;
        assert(exact(f, negated(num(4))) == -4 * one);
        lemma_rounded_near(exact(f, h), a, a, 0, extent(item.height));
    }
}

/// The meter has a width.
proof fn lemma_wide_enough(y: int, b: int, one: int, e: int, h: int)
    requires
        one > 0,
        b <= 8 * one,
        b == h || (b == 8 * one && h >= 8 * one),
        e == distance(h, 0) + 200 * one,
        0x8000_0000_0000 * distance(y, 18 * one - b) <= 2 * e,
        b == 8 * one ==> 0x1_0000 * distance(y, 18 * one - b) <= one,
    ensures
        y >= 0,
{
}

/// The network's line has a point for each of the 60 activities, the oldest at the
/// left edge of its place and the newest at the right one, evenly spaced, each as
/// high as its activity in percent of the place; a place less than a point high
/// counts as a point.
pub proof fn law_line_of_the_view(bounds: RectView, frame: TelemetryFrame, i: int)
    requires
        0 <= i < 60,
        network_item(bounds).height is Finite,
        is_value(Format::Double, network_item(bounds).height),
        frame.net_activity_history@[i]@ !is Nan,
        activity_sparklines(bounds, frame)[16]->points[i].x is Finite,
        activity_sparklines(bounds, frame)[16]->points[i].y is Finite,
    ensures
        ({
            let (s, f) = (Format::Single, Format::Double);
            let (small, one) = (s.one(), f.one());
            let item = network_item(bounds);
            let target = limited(frame.net_activity_history@[i]@, 100) * at_least_a_point(
                item.height,
            );
            activity_sparklines(bounds, frame)[16] matches DrawView::Line {
                points,
                color,
                line_width,
            } && {
                &&& points.len() == 60
                &&& color == thousandths(140, 910, 630, 960)
                &&& line_width == fraction(f, 105, 100)
                &&& 0x1000_0000_0000 * distance(
                    59 * exact(f, points[i].x),
                    59 * exact(f, item.x) + 43 * i * one,
                ) <= 59 * (distance(exact(f, item.x), 0) + 4300 * one)
                &&& 0x1000_0000_0000 * distance(
                    100 * small * (exact(f, points[i].y) - exact(f, item.y)),
                    target,
                ) <= target + 100 * small * distance(exact(f, item.y), 0)
            }
        }),
{
    let f = Format::Double;
    let item = network_item(bounds);
    let value = frame.net_activity_history@[i]@;
    lemma_view_parts(bounds, frame);
    assert(frame.net_activity_history@.len() == 60);
    assert(activity_sparklines(bounds, frame)[16]->points[i] == spark_point(
        item,
        i as nat,
        value,
    ));
    lemma_ones();
    lemma_whole_exact(f, 43);
    let one = f.one();
    assert(i * (43 * one) == 43 * i * one) by (nonlinear_arith);
    law_point_of_a_line(item, i as nat, value);
}

/// A point of a line: as far to the right as its number out of 59 steps of the
/// width, and as high as its value in percent of the height; a width or a height
/// below a point counts as one.
pub proof fn law_point_of_a_line(bounds: RectView, i: nat, value: Value)
    requires
        i < 60,
        bounds.width is Finite,
        is_value(Format::Double, bounds.width),
        bounds.height is Finite,
        is_value(Format::Double, bounds.height),
        value !is Nan,
        is_value(Format::Single, value),
        spark_point(bounds, i, value).x is Finite,
        spark_point(bounds, i, value).y is Finite,
    ensures
        ({
            let f = Format::Double;
            let (small, one) = (Format::Single.one(), f.one());
            let point = spark_point(bounds, i, value);
            let width = at_least_a_point(bounds.width);
            let target = limited(value, 100) * at_least_a_point(bounds.height);
            &&& 0x1000_0000_0000 * distance(
                59 * exact(f, point.x),
                59 * exact(f, bounds.x) + i * width,
            ) <= 59 * (distance(exact(f, bounds.x), 0) + 100 * width)
            &&& 0x1000_0000_0000 * distance(
                100 * small * (exact(f, point.y) - exact(f, bounds.y)),
                target,
            ) <= target + 100 * small * distance(exact(f, bounds.y), 0)
        }),
{
    lemma_point_across(bounds, i);
    lemma_point_upwards(bounds, value);
}

/// A length in units, but at least a point.
pub open spec fn at_least_a_point(v: Value) -> int {
    if exact(Format::Double, v) < Format::Double.one() {
        Format::Double.one() as int
    } else {
        exact(Format::Double, v)
    }
}

/// How far to the right a point of the line lies.
proof fn lemma_point_across(item: RectView, i: nat)
    requires
        i < 60,
        item.width is Finite,
        is_value(Format::Double, item.width),
        plus(item.x, times(num(i), over(larger(item.width, num(1)), num(59)))) is Finite,
    ensures
        0x1000_0000_0000 * distance(
            59 * exact(
                Format::Double,
                plus(item.x, times(num(i), over(larger(item.width, num(1)), num(59)))),
            ),
            59 * exact(Format::Double, item.x) + i * at_least_a_point(item.width),
        ) <= 59 * (distance(exact(Format::Double, item.x), 0) + 100 * at_least_a_point(item.width)),
{
    let f = Format::Double;
    let one = f.one();
    lemma_ones();
    lemma_whole_exact(f, 1);
    lemma_whole_exact(f, i);
    assert(1 * one == one) by (nonlinear_arith);
    let width = larger(item.width, num(1));
    let w = at_least_a_point(item.width);
    assert(exact(f, width) == w);
    lemma_part(width, 59);
    let step = over(width, num(59));
    let u = times(num(i), step);
    let x = plus(item.x, u);
    lemma_finite_sum(item.x, u);
    lemma_multiple(i, step);
    lemma_sum_close(f, item.x, u);
    let (e, v) = (exact(f, step), exact(f, u));
    let goal = i * w;
    let m = i * e;
    assert(0x10_0000_0000_0000 * distance(59 * e, w) <= w);
    assert(0x10_0000_0000_0000 * distance(59 * m, goal) <= 60 * w) by (nonlinear_arith)
        requires
            0x10_0000_0000_0000 * distance(59 * e, w) <= w,
            m == i * e,
            goal == i * w,
            0 <= i < 60,
            w > 0,
    ;
    assert(0 <= m <= 60 * w) by (nonlinear_arith)
        requires
            m == i * e,
            0 <= e <= w,
            0 <= i < 60,
    ;
    assert(0x1f_ffff_ffff_ffff * distance(v, m) <= m + 0x1f_ffff_ffff_ffff);
    assert(distance(59 * v, 59 * m) == 59 * distance(v, m));
    assert(0x4_0000_0000_0000 * distance(59 * v, 59 * m) <= 1000 * w);
    assert(0x4_0000_0000_0000 * distance(59 * m, goal) <= 1000 * w);
    assert(0x4_0000_0000_0000 * distance(59 * v, goal) <= 2000 * w);
    let (b, t) = (exact(f, x), exact(f, item.x));
    assert(0x1f_ffff_ffff_ffff * distance(b, t + v) <= distance(t, 0) + v);
    assert(distance(59 * b, 59 * t + 59 * v) == 59 * distance(b, t + v));
    assert(v <= 100 * w);
}

/// How far up a point of the line lies.
proof fn lemma_point_upwards(item: RectView, value: Value)
    requires
        item.height is Finite,
        is_value(Format::Double, item.height),
        value !is Nan,
        is_value(Format::Single, value),
        spark_point(item, 0, value).y is Finite,
    ensures
        ({
            let (s, f) = (Format::Single, Format::Double);
            let (small, one) = (s.one(), f.one());
            let target = limited(value, 100) * at_least_a_point(item.height);
            0x1000_0000_0000 * distance(
                100 * small * (exact(f, spark_point(item, 0, value).y) - exact(f, item.y)),
                target,
            ) <= target + 100 * small * distance(exact(f, item.y), 0)
        }),
{
    let (s, f) = (Format::Single, Format::Double);
    let (small, one) = (s.one(), f.one());
    lemma_ones();
    lemma_whole_exact(f, 1);
    assert(1 * one == one) by (nonlinear_arith);
    let height = larger(item.height, num(1));
    let h = exact(f, height);
    lemma_limited(value, 100);
    let c = clamped(f, widened(value), num(0), num(100));
    lemma_part(c, 100);
    let share = over(c, num(100));
    let rise = times(share, height);
    let y = plus(item.y, rise);
    lemma_finite_sum(item.y, rise);
    lemma_sum_close(f, item.y, rise);
    let g = pow2(925);
    let part = limited(value, 100);
    assert(part * g == 0 || part * g >= g) by (nonlinear_arith)
        requires
            part >= 0,
            g > 0,
    ;
    lemma_rise(c, height);
    let (a, r) = (exact(f, item.y), exact(f, rise));
    let (k, l) = (exact(f, c), limited(value, 100));
    let target = l * h;
    let d = exact(f, y) - a;
    // Off by the last sum, and by what the rise is off.
    assert(0x4_0000_0000_0000 * distance(100 * small * r, target) <= target) by {
        let (p, q) = (r * (100 * one), k * h);
        assert(p * small == (100 * small * r) * one && q * small == target * one)
            by (nonlinear_arith)
            requires
                p == r * (100 * one),
                q == k * h,
                target == l * h,
                k * small == l * one,
        ;
        let z = 100 * small * r;
        assert(0x4_0000_0000_0000 * distance(z, target) <= target) by (nonlinear_arith)
            requires
                0x4_0000_0000_0000 * distance(p, q) <= q,
                p * small == z * one,
                q * small == target * one,
                small > 0,
                one > 0,
        ;
    }
    let b = distance(a, 0);
    assert(0x1f_ffff_ffff_ffff * distance(d, r) <= b + r);
    let (x, z) = (100 * small * d, 100 * small * r);
    let w = 100 * small * b;
    assert(0x1f_ffff_ffff_ffff * distance(x, z) <= w + z) by (nonlinear_arith)
        requires
            0x1f_ffff_ffff_ffff * distance(d, r) <= b + r,
            x == 100 * small * d,
            z == 100 * small * r,
            w == 100 * small * b,
            small > 0,
    ;
    assert(w >= 0) by (nonlinear_arith)
        requires
            w == 100 * small * b,
            small > 0,
            b >= 0,
    ;
}

/// A height times a percentage.
proof fn lemma_rise(c: Value, height: Value)
    requires
        c is Finite,
        is_value(Format::Double, c),
        0 <= exact(Format::Double, c) <= 100 * Format::Double.one(),
        exact(Format::Double, c) == 0 || exact(Format::Double, c) >= pow2(925),
        height is Finite,
        exact(Format::Double, height) >= Format::Double.one(),
        times(over(c, num(100)), height) is Finite,
    ensures
        ({
            let f = Format::Double;
            let one = f.one();
            let r = exact(f, times(over(c, num(100)), height));
            let target = exact(f, c) * exact(f, height);
            r >= 0 && 0x4_0000_0000_0000 * distance(r * (100 * one), target) <= target
        }),
{
    let f = Format::Double;
    let one = f.one();
    lemma_ones();
    lemma_pow2_pos(53);
    lemma_part(c, 100);
    let share = over(c, num(100));
    let rise = times(share, height);
    lemma_product_close(f, share, height);
    let (k, e, h, r) = (exact(f, c), exact(f, share), exact(f, height), exact(f, rise));
    let target = k * h;
    let (x, y) = (r * (100 * one), 100 * (e * h));
    assert(x == 100 * (r * one)) by (nonlinear_arith)
        requires
            x == r * (100 * one),
    ;
    assert(0x1f_ffff_ffff_ffff * distance(y, target) <= target + 0x1f_ffff_ffff_ffff * (100 * h))
        by (nonlinear_arith)
        requires
            0x1f_ffff_ffff_ffff * distance(100 * e, k) <= k + 0x1f_ffff_ffff_ffff * 100,
            y == 100 * (e * h),
            target == k * h,
            h > 0,
    ;
    if k == 0 {
        lemma_rise_of_nothing(c, height);
        assert(target == 0 && x == 0) by (nonlinear_arith)
            requires
                target == k * h,
                k == 0,
                x == r * (100 * one),
                r == 0,
        ;
    } else {
        lemma_pow2_strictly_increases(120, 925);
        crate::laws::charts::lemma_power_120();
        assert(0x100_0000_0000_0000_0000_0000_0000_0000 * h <= target) by (nonlinear_arith)
            requires
                target == k * h,
                k >= 0x100_0000_0000_0000_0000_0000_0000_0000,
                h > 0,
        ;
        assert(0x4_0000_0000_0000 * distance(x, target) <= target);
    }
}

/// No percentage leads to no height.
proof fn lemma_rise_of_nothing(c: Value, height: Value)
    requires
        c is Finite,
        is_value(Format::Double, c),
        exact(Format::Double, c) == 0,
        height is Finite,
    ensures
        exact(Format::Double, times(over(c, num(100)), height)) == 0,
{
    let f = Format::Double;
    let one = f.one();
    lemma_ones();
    lemma_pow2_pos(53);
    assert(units(53, 0) == 0);
    lemma_whole_exact(f, 100);
    assert(0 * one == 0 && (100 * one) * 0 == 0 && one * 0 == 0) by (nonlinear_arith);
    lemma_nearest_exact(53, 0, 100 * one, 0);
    lemma_nearest_exact(53, 0, one, 0);
    let n = size(f, height);
    assert(0 * n == 0) by (nonlinear_arith);
}

} // verus!
