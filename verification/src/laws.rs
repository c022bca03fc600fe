//! What holds of the monitor as a whole.
//!
//! The laws in the modules below say what is shown in terms of what was measured,
//! in exact numbers: [`arithmetic`] and [`text`] of single operations and texts,
//! [`traffic`] of the measurements, [`layout`], [`charts`] and [`meters`] of the
//! drawing in the menu bar, [`panel`] of the popover, [`views`] of the two views.

pub mod arithmetic;
pub mod charts;
pub mod layout;
pub mod meters;
pub mod panel;
pub mod text;
pub mod traffic;
pub mod views;

use vstd::arithmetic::div_mod::{lemma_fundamental_div_mod, lemma_mod_bound};
use vstd::arithmetic::power2::{
    lemma2_to64, lemma2_to64_rest, lemma_pow2_adds, lemma_pow2_pos, lemma_pow2_strictly_increases,
    pow2,
};
use vstd::prelude::*;

use crate::accuracy::lemma_gap_below;
use crate::draw::{
    divider_after, level_meter, memory_share, spark_point, widened, ColorView, DrawView,
};
use crate::geometry::{
    cpu_item, larger, memory_item, network_item, next_edge, num, over, plus, temperature_item,
    tenths, times, RectView,
};
use crate::float::Single;
use crate::gpu::{
    configuration_for, needs_resize, render_steps, resized, row, Rgb, PointerEvent, RenderStep,
    SurfaceConfiguration,
};
use crate::order::{
    is_nonnegative, is_value, lemma_clamped_to_whole, lemma_product_shrinks,
    lemma_quotient_at_most_one, lemma_rounding_respects, lemma_sum_monotone, lemma_sum_not_below,
    lemma_scaled_exact, lemma_whole_exact, lemma_whole_finite, lemma_wholes_ordered,
};
use crate::logarithm::{
    is_decimal_logarithm, lemma_logarithm_from_ten_million, lemma_logarithm_of_ten_million,
    lemma_logarithm_of_two, lemma_tenfold, lemma_tolerance,
};
use crate::number::{lemma_exponents_ordered, lemma_half_even_cut};
use crate::rounding::{
    exponent, half_even, lemma_nearest_exact, lemma_nearest_exists, lemma_nearest_monotone,
    lemma_parts, lemma_units_form, lemma_units_monotone, lemma_units_step, nearest, significand,
    units,
};
use crate::telemetry::{
    activity_argument, activity_percent, advanced, highest_finite, hottest, TelemetryFrame,
    TelemetryPipe,
};
use crate::text::{decimal, digit, gibibytes_text, ratio_text, sign};
use crate::ui::{metric_of, AetherCanvasView, RenderRequest, TooltipMetric};
use crate::value::{
    at_least, clamped, exact, less, product, quotient, rounded, scaled_half_even, size, truncated,
    whole, Format, Value,
};

verus! {

/// A number from zero to `n`.
pub open spec fn is_between(f: Format, v: Value, n: nat) -> bool {
    &&& v is Finite
    &&& is_nonnegative(f, v)
    &&& size(f, v) <= n * f.one()
}

/// Once a frame was pushed it is the newest one, which is what a read gives
/// until the next push; the frames before it are kept in their order.
pub proof fn law_pushed_frame_is_newest(
    before: TelemetryPipe,
    after: TelemetryPipe,
    frame: TelemetryFrame,
)
    requires
        after.frames() == before.frames().push(frame),
    ensures
        after.frames().last() == frame,
        after.frames().drop_last() == before.frames(),
{
    assert(after.frames().drop_last() =~= before.frames());
}

/// A history after measurements, one after the other.
pub open spec fn after_all(history: Seq<Single>, values: Seq<Single>) -> Seq<Single>
    decreases values.len(),
{
    if values.len() == 0 {
        history
    } else {
        advanced(after_all(history, values.drop_last()), values.last())
    }
}

/// A history always holds 60 values: the newest ones, in the order in which they
/// were measured.
pub proof fn law_history_holds_the_newest(history: Seq<Single>, values: Seq<Single>)
    requires
        history.len() == 60,
    ensures
        after_all(history, values).len() == 60,
        after_all(history, values) == (history + values).skip(values.len() as int),
        values.len() > 0 ==> after_all(history, values).last() == values.last(),
    decreases values.len(),
{
    let all = (history + values).skip(values.len() as int);
    if values.len() == 0 {
        assert(all =~= history);
    } else {
        let fewer = values.drop_last();
        law_history_holds_the_newest(history, fewer);
        assert(after_all(history, values) =~= all);
    }
}

/// The share of the memory in use is a number from zero to one, whatever the
/// system reports.
pub proof fn law_memory_share_is_a_ratio(used_mb: u64, total_mb: u64)
    ensures
        is_between(Format::Single, memory_share(used_mb, total_mb), 1),
{
    let f = Format::Single;
    lemma_whole_exact(f, 0);
    assert(0 * f.one() == 0) by (nonlinear_arith);
    if total_mb != 0 {
        lemma_whole_finite(f, used_mb);
        lemma_whole_finite(f, total_mb);
        let (a, b) = (whole(f, used_mb as nat), whole(f, total_mb as nat));
        lemma_pow2_pos(f.precision());
        assert(b->mag != 0);
        lemma_clamped_to_whole(f, quotient(f, a, b), 1);
    }
}

/// Where all of the memory or more is in use the share is one.
pub proof fn law_full_memory_is_one(used_mb: u64, total_mb: u64)
    requires
        0 < total_mb <= used_mb,
    ensures
        exact(Format::Single, memory_share(used_mb, total_mb)) == Format::Single.one(),
{
    let f = Format::Single;
    let p = f.precision();
    let one = f.one();
    law_memory_share_is_a_ratio(used_mb, total_mb);
    lemma_whole_finite(f, used_mb);
    lemma_whole_finite(f, total_mb);
    lemma_whole_exact(f, 1);
    lemma_whole_exact(f, 0);
    lemma_wholes_ordered(f, 0, 1);
    let (a, b) = (whole(f, used_mb as nat), whole(f, total_mb as nat));
    let (n, m) = (size(f, a), size(f, b));
    assert(total_mb as nat * one * 1 <= used_mb as nat * one * 1) by (nonlinear_arith)
        requires
            total_mb <= used_mb,
    ;
    lemma_nearest_monotone(p, total_mb as nat * one, 1, used_mb as nat * one, 1);
    if b->mag < a->mag {
        lemma_units_monotone(p, b->mag, a->mag);
    }
    assert(n >= m);
    assert(n * one >= m * one) by (nonlinear_arith)
        requires
            n >= m,
    ;
    lemma_pow2_pos(f.precision());
    assert(b->mag != 0);
    let top = whole(f, 1)->mag;
    assert(1 * one == one);
    assert(units(p, top) == one);
    lemma_rounding_respects(f, n * one, m, top);
    let q = nearest(p, n * one, m);
    if top < q {
        lemma_units_monotone(p, top, q);
    }
}

/// The activity of the network is a number from 0 to 100, and 0 without traffic;
/// only a logarithm that is not a number leads to none.
pub proof fn law_activity_is_a_percentage(bytes_per_sec: u64, log: Value)
    requires
        is_value(Format::Single, log),
        bytes_per_sec == 0 || log !is Nan,
    ensures
        is_between(Format::Single, activity_percent(bytes_per_sec, log), 100),
        bytes_per_sec == 0 ==> exact(Format::Single, activity_percent(bytes_per_sec, log)) == 0,
{
    let f = Format::Single;
    let one = f.one();
    lemma_whole_exact(f, 0);
    assert(0 * one == 0) by (nonlinear_arith);
    if bytes_per_sec != 0 {
        lemma_whole_exact(f, 7);
        lemma_whole_exact(f, 100);
        lemma_pow2_pos(f.precision());
        lemma_pow2_pos(f.scale());
        assert(7 * one > 0 && 100 * one > 0);
        let v = product(f, quotient(f, log, whole(f, 7)), whole(f, 100));
        lemma_clamped_to_whole(f, v, 100);
    } else {
        assert(100 * one >= 0);
    }
}

/// A greater logarithm never means less activity.
pub proof fn law_activity_grows(bytes: u64, log: Value, more_bytes: u64, greater_log: Value)
    requires
        bytes > 0,
        more_bytes > 0,
        log is Finite,
        greater_log is Finite,
        is_value(Format::Single, log),
        is_value(Format::Single, greater_log),
        is_nonnegative(Format::Single, log),
        !less(Format::Single, greater_log, log),
    ensures
        !less(
            Format::Single,
            activity_percent(more_bytes, greater_log),
            activity_percent(bytes, log),
        ),
{
    let f = Format::Single;
    lemma_whole_exact(f, 0);
    lemma_whole_exact(f, 100);
    lemma_wholes_ordered(f, 0, 100);
    let a = product(f, quotient(f, log, whole(f, 7)), whole(f, 100));
    let b = product(f, quotient(f, greater_log, whole(f, 7)), whole(f, 100));
    lemma_scaled_up(f, log, greater_log);
    assert(!less(f, b, a));
}

/// The scale is logarithmic: with traffic, and a logarithm from 0 to 7, the
/// activity is a hundred sevenths of the logarithm, off by at most `2^-17`.
pub proof fn law_activity_follows_the_logarithm(bytes_per_sec: u64, log: Value)
    requires
        bytes_per_sec > 0,
        log is Finite,
        0 <= exact(Format::Single, log) <= 7 * Format::Single.one(),
    ensures
        activity_percent(bytes_per_sec, log) is Finite,
        ({
            let shown = exact(Format::Single, activity_percent(bytes_per_sec, log));
            let wanted = exact(Format::Single, log);
            let one = Format::Single.one();
            -7 * one <= 0x2_0000 * (7 * shown - 100 * wanted) <= 7 * one
        }),
{
    let f = Format::Single;
    let one = f.one();
    lemma_pow2_pos(f.scale());
    lemma_pow2_pos(f.precision());
    lemma_whole_exact(f, 0);
    lemma_whole_exact(f, 7);
    lemma_whole_exact(f, 100);
    assert(0 * one == 0) by (nonlinear_arith);
    let n = size(f, log);
    let q = nearest(f.precision(), n * one, 7 * one);
    lemma_seventh_error(n);
    let x = units(f.precision(), q);
    let r = nearest(f.precision(), x * (100 * one), one);
    lemma_hundredfold_error(x);
    let y = units(f.precision(), r);
    let (g, h) = (pow2(125), pow2(132));
    lemma2_to64();
    lemma_pow2_adds(125, 7);
    lemma_pow2_adds(132, 17);
    assert(h == 128 * g && one == 0x2_0000 * h);
    let v = product(f, quotient(f, log, whole(f, 7)), whole(f, 100));
    assert(quotient(f, log, whole(f, 7)) == (Value::Finite { neg: log->Finite_neg, mag: q }));
    assert(v == (Value::Finite { neg: log->Finite_neg, mag: r }));
}

/// Equal steps of the logarithm are equal steps of the activity: from 0 to 7 a
/// step of the one is a hundred sevenths of it on the other, off by at most
/// `2^-16`.
pub proof fn law_equal_steps_of_activity(bytes: u64, log: Value, other_bytes: u64, other: Value)
    requires
        bytes > 0,
        other_bytes > 0,
        log is Finite,
        other is Finite,
        0 <= exact(Format::Single, log) <= 7 * Format::Single.one(),
        0 <= exact(Format::Single, other) <= 7 * Format::Single.one(),
    ensures
        ({
            let step = exact(Format::Single, activity_percent(other_bytes, other)) - exact(
                Format::Single,
                activity_percent(bytes, log),
            );
            let wanted = exact(Format::Single, other) - exact(Format::Single, log);
            let one = Format::Single.one();
            -7 * one <= 0x1_0000 * (7 * step - 100 * wanted) <= 7 * one
        }),
{
    law_activity_follows_the_logarithm(bytes, log);
    law_activity_follows_the_logarithm(other_bytes, other);
}

/// Each tenfold increase of one more than the bytes adds the same step, a seventh
/// of the scale: 100/7, off by at most a thousandth. The number whose logarithm is
/// taken is then exactly ten times as large.
pub proof fn law_tenfold_traffic_adds_a_seventh(n: u64, log: Value, other: Value)
    requires
        n <= 999_999,
        is_decimal_logarithm(activity_argument(n), log),
        is_decimal_logarithm(activity_argument((10 * n + 9) as u64), other),
        is_value(Format::Single, log),
        is_value(Format::Single, other),
    ensures
        exact(Format::Single, activity_argument((10 * n + 9) as u64)) == 10 * exact(
            Format::Single,
            activity_argument(n),
        ),
        ({
            let step = exact(Format::Single, activity_percent((10 * n + 9) as u64, other)) - exact(
                Format::Single,
                activity_percent(n, log),
            );
            let one = Format::Single.one();
            -7 * one <= 1000 * (7 * step - 100 * one) <= 7 * one
        }),
{
    let f = Format::Single;
    let one = f.one();
    let m = (10 * n + 9) as u64;
    lemma_pow2_pos(f.scale());
    lemma_tolerance();
    lemma_plus_one_exact(n);
    lemma_plus_one_exact(m);
    let (x, y) = (activity_argument(n), activity_argument(m));
    assert((10 * n + 10) * one == 10 * ((n + 1) * one)) by (nonlinear_arith);
    assert(one <= (n + 1) * one) by (nonlinear_arith)
        requires
            n >= 0,
            one > 0,
    ;
    assert(10 * ((n + 1) * one) <= 10_000_000 * one) by (nonlinear_arith)
        requires
            n <= 999_999,
            one > 0,
    ;
    lemma_tenfold(x, log, y, other);
    lemma_logarithm_of_two(y, other);
    lemma_logarithm_of_ten_million(y, other);
    lemma_activity_up_to_the_top(m, other);
    if n > 0 {
        assert(2 * one <= (n + 1) * one) by (nonlinear_arith)
            requires
                n >= 1,
                one > 0,
        ;
        lemma_logarithm_of_two(x, log);
        lemma_activity_up_to_the_top(n, log);
    } else {
        lemma_whole_exact(f, 0);
        assert(0 * one == 0) by (nonlinear_arith);
        assert((0 + 1) * one == one) by (nonlinear_arith);
    }
}

/// A logarithm of seven or more fills the scale: whatever the spike, the activity
/// is exactly 100.
pub proof fn law_spikes_reach_the_top(bytes_per_sec: u64, log: Value)
    requires
        bytes_per_sec > 0,
        is_value(Format::Single, log),
        at_least(Format::Single, log, whole(Format::Single, 7)),
    ensures
        activity_percent(bytes_per_sec, log) is Finite,
        exact(Format::Single, activity_percent(bytes_per_sec, log)) == 100 * Format::Single.one(),
{
    let f = Format::Single;
    let p = f.precision();
    let one = f.one();
    lemma_pow2_pos(f.scale());
    lemma_pow2_pos(p);
    lemma_whole_exact(f, 0);
    lemma_whole_exact(f, 1);
    lemma_whole_exact(f, 7);
    lemma_whole_exact(f, 100);
    assert(0 * one == 0) by (nonlinear_arith);
    let (unit, top) = (whole(f, 1)->mag, whole(f, 100)->mag);
    assert(1 * one == one);
    if log is Finite {
        let n = size(f, log);
        let q = nearest(p, n * one, 7 * one);
        assert((7 * one) * one <= n * one) by (nonlinear_arith)
            requires
                7 * one <= n,
        ;
        lemma_rounding_respects(f, n * one, 7 * one, unit);
        lemma_sevenths_finite(f, n, log->mag);
        if unit < q {
            lemma_units_monotone(p, unit, q);
        }
        let x = units(p, q);
        assert(one * (100 * one) <= x * (100 * one)) by (nonlinear_arith)
            requires
                one <= x,
        ;
        lemma_rounding_respects(f, x * (100 * one), one, top);
        let r = nearest(p, x * (100 * one), one);
        if top < r {
            lemma_units_monotone(p, top, r);
        }
    }
}

/// Low traffic remains visible: from a logarithm of 0.3 on the activity is above 4
/// percent.
pub proof fn law_low_traffic_is_visible(bytes_per_sec: u64, log: Value)
    requires
        bytes_per_sec > 0,
        is_value(Format::Single, log),
        log == (Value::Infinite { neg: false }) || (log is Finite && 10 * exact(
            Format::Single,
            log,
        ) >= 3 * Format::Single.one()),
    ensures
        less(Format::Single, whole(Format::Single, 4), activity_percent(bytes_per_sec, log)),
{
    let f = Format::Single;
    lemma_pow2_pos(f.scale());
    lemma_whole_exact(f, 4);
    lemma_whole_exact(f, 7);
    if log is Finite {
        lemma_activity_up_to_the_top(bytes_per_sec, log);
    } else {
        law_spikes_reach_the_top(bytes_per_sec, log);
    }
}

/// Already a single byte is visible: with traffic and its logarithm the activity
/// is above 4 percent.
pub proof fn law_single_byte_is_visible(bytes_per_sec: u64, log: Value)
    requires
        bytes_per_sec > 0,
        is_value(Format::Single, log),
        is_decimal_logarithm(activity_argument(bytes_per_sec), log),
    ensures
        less(Format::Single, whole(Format::Single, 4), activity_percent(bytes_per_sec, log)),
{
    let f = Format::Single;
    lemma_pow2_pos(f.scale());
    lemma_tolerance();
    lemma_whole_exact(f, 4);
    lemma_argument_at_least(bytes_per_sec, 2);
    lemma_logarithm_of_two(activity_argument(bytes_per_sec), log);
    lemma_activity_up_to_the_top(bytes_per_sec, log);
}

/// Ten million bytes fill the scale: one less, or more, gives an activity of 100,
/// short of it by at most `2^-12`.
pub proof fn law_ten_million_bytes_fill_the_scale(bytes_per_sec: u64, log: Value)
    requires
        bytes_per_sec >= 9_999_999,
        is_value(Format::Single, log),
        is_decimal_logarithm(activity_argument(bytes_per_sec), log),
    ensures
        ({
            let short = 100 * Format::Single.one() - exact(
                Format::Single,
                activity_percent(bytes_per_sec, log),
            );
            0 <= 0x1000 * short <= Format::Single.one()
        }),
{
    let f = Format::Single;
    lemma_pow2_pos(f.scale());
    lemma_tolerance();
    lemma_argument_at_least(bytes_per_sec, 10_000_000);
    lemma_logarithm_from_ten_million(activity_argument(bytes_per_sec), log);
    lemma_activity_up_to_the_top(bytes_per_sec, log);
    law_activity_is_a_percentage(bytes_per_sec, log);
}

/// The activity is a hundred sevenths of the logarithm up to seven, and that of
/// seven from there on, off by at most `2^-17`.
proof fn lemma_activity_up_to_the_top(bytes_per_sec: u64, log: Value)
    requires
        bytes_per_sec > 0,
        log is Finite,
        is_value(Format::Single, log),
        0 <= exact(Format::Single, log),
    ensures
        activity_percent(bytes_per_sec, log) is Finite,
        ({
            let shown = exact(Format::Single, activity_percent(bytes_per_sec, log));
            let one = Format::Single.one();
            let l = exact(Format::Single, log);
            let wanted = if l <= 7 * one {
                l
            } else {
                7 * one as int
            };
            -7 * one <= 0x2_0000 * (7 * shown - 100 * wanted) <= 7 * one
        }),
{
    let f = Format::Single;
    if exact(f, log) <= 7 * f.one() {
        law_activity_follows_the_logarithm(bytes_per_sec, log);
    } else {
        lemma_pow2_pos(f.scale());
        lemma_whole_exact(f, 7);
        law_spikes_reach_the_top(bytes_per_sec, log);
    }
}

/// One more than the bytes is not rounded below a number that it reaches.
proof fn lemma_argument_at_least(bytes: u64, c: nat)
    requires
        0 < c < 0x100_0000,
        bytes + 1 >= c,
        activity_argument(bytes) is Finite,
    ensures
        exact(Format::Single, activity_argument(bytes)) >= c * Format::Single.one(),
{
    let f = Format::Single;
    let p = f.precision();
    let one = f.one();
    let n = bytes as nat;
    let d = (c - 1) as nat;
    lemma_pow2_pos(f.scale());
    lemma_whole_finite(f, bytes);
    lemma_whole_exact(f, 1);
    lemma_whole_exact(f, c);
    lemma_whole_exact(f, d);
    let a = whole(f, n);
    assert(1 * (d * one) <= n * one) by (nonlinear_arith)
        requires
            d <= n,
    ;
    lemma_rounding_respects(f, n * one, 1, whole(f, d)->mag);
    if whole(f, d)->mag < a->mag {
        lemma_units_monotone(p, whole(f, d)->mag, a->mag);
    }
    assert(d * one + 1 * one == c * one) by (nonlinear_arith)
        requires
            d + 1 == c,
    ;
    assert(c * one > 0) by (nonlinear_arith)
        requires
            c > 0,
            one > 0,
    ;
    let s = (size(f, a) + one) as nat;
    assert(1 * one == one);
    assert(exact(f, a) + exact(f, whole(f, 1)) == s);
    assert(activity_argument(bytes) == rounded(f, false, s, 1));
    lemma_rounding_respects(f, s, 1, whole(f, c)->mag);
    let mag = nearest(p, s, 1);
    if whole(f, c)->mag < mag {
        lemma_units_monotone(p, whole(f, c)->mag, mag);
    }
}

/// Below `2^24` one more than the bytes is exact.
pub proof fn lemma_plus_one_exact(bytes: u64)
    requires
        bytes < 0xff_ffff,
    ensures
        exact(Format::Single, activity_argument(bytes)) == (bytes + 1) * Format::Single.one(),
{
    let f = Format::Single;
    let one = f.one();
    let n = bytes as nat;
    lemma_pow2_pos(f.scale());
    lemma_whole_exact(f, n);
    lemma_whole_exact(f, 1);
    lemma_whole_exact(f, n + 1);
    assert(n * one + 1 * one == (n + 1) * one) by (nonlinear_arith);
    assert((n + 1) * one > 0) by (nonlinear_arith)
        requires
            one > 0,
    ;
    assert(n * one >= 0) by (nonlinear_arith);
    assert(activity_argument(bytes) == whole(f, n + 1));
}

/// Rounding up to the magnitude `top` moves by at most half of the gap below it.
proof fn lemma_rounding_error(num: nat, den: nat, top: nat, gap: nat)
    requires
        den > 0,
        top > 0,
        gap == pow2(exponent(24, (top - 1) as nat)),
        num <= den * units(24, top),
    ensures
        nearest(24, num, den) <= top,
        2 * num <= 2 * (den * units(24, nearest(24, num, den))) + den * gap,
        2 * (den * units(24, nearest(24, num, den))) <= 2 * num + den * gap,
{
    let f = Format::Single;
    let mag = nearest(24, num, den);
    let v = units(24, mag);
    lemma_nearest_exists(24, num, den);
    lemma_rounding_respects(f, num, den, top);
    lemma_pow2_pos(exponent(24, (top - 1) as nat));
    assert(den * gap >= 0) by (nonlinear_arith);
    if mag < top {
        let above = units(24, mag + 1);
        lemma_gap_above(mag, (top - 1) as nat);
        assert(2 * num <= 2 * (den * v) + den * gap) by (nonlinear_arith)
            requires
                2 * num <= den * (v + above),
                above - v <= gap,
                den > 0,
        ;
    }
    if mag > 0 {
        let below = units(24, (mag - 1) as nat);
        lemma_gap_above((mag - 1) as nat, (top - 1) as nat);
        assert(2 * (den * v) <= 2 * num + den * gap) by (nonlinear_arith)
            requires
                den * (below + v) <= 2 * num,
                v - below <= gap,
                den > 0,
        ;
    } else {
        lemma_pow2_pos(24);
        assert(v == 0);
        assert(den * v == 0) by (nonlinear_arith)
            requires
                v == 0,
        ;
    }
}

/// The gap above a magnitude is no wider than that of a greater one.
proof fn lemma_gap_above(mag: nat, greater: nat)
    requires
        mag <= greater,
    ensures
        units(24, mag + 1) - units(24, mag) <= pow2(exponent(24, greater)),
{
    lemma_parts(24, mag);
    let (k, m) = (exponent(24, mag), significand(24, mag));
    lemma_units_form(24, k, m + 1);
    let g = pow2(k);
    assert((m + 1) * g == m * g + g) by (nonlinear_arith);
    if mag < greater {
        lemma_exponents_ordered(24, mag, greater);
        if k < exponent(24, greater) {
            lemma_pow2_strictly_increases(k, exponent(24, greater));
        }
    }
}

/// A seventh of a number up to seven is off by at most `2^-25`.
proof fn lemma_seventh_error(n: nat)
    requires
        n <= 7 * pow2(149),
    ensures
        ({
            let one = pow2(149);
            let q = nearest(24, n * one, 7 * one);
            &&& q < Format::Single.overflow()
            &&& units(24, q) <= one
            &&& 2 * n <= 14 * units(24, q) + 7 * pow2(125)
            &&& 14 * units(24, q) <= 2 * n + 7 * pow2(125)
        }),
{
    let one = pow2(149);
    let g = pow2(125);
    let top: nat = 0x3f80_0000;
    lemma2_to64();
    lemma2_to64_rest();
    lemma_pow2_pos(149);
    lemma_units_form(24, 126, 0x80_0000);
    lemma_pow2_adds(23, 126);
    assert(units(24, top) == one);
    assert(exponent(24, (top - 1) as nat) == 125);
    assert(n * one <= (7 * one) * one) by (nonlinear_arith)
        requires
            n <= 7 * one,
    ;
    lemma_rounding_error(n * one, 7 * one, top, g);
    let q = nearest(24, n * one, 7 * one);
    let x = units(24, q);
    if q < top {
        lemma_units_monotone(24, q, top);
    }
    assert(2 * n <= 14 * x + 7 * g) by (nonlinear_arith)
        requires
            2 * (n * one) <= 2 * ((7 * one) * x) + (7 * one) * g,
            one > 0,
    ;
    assert(14 * x <= 2 * n + 7 * g) by (nonlinear_arith)
        requires
            2 * ((7 * one) * x) <= 2 * (n * one) + (7 * one) * g,
            one > 0,
    ;
}

/// A hundred times a number up to one is off by at most `2^-18`.
proof fn lemma_hundredfold_error(x: nat)
    requires
        x <= pow2(149),
    ensures
        ({
            let one = pow2(149);
            let r = nearest(24, x * (100 * one), one);
            &&& r < Format::Single.overflow()
            &&& units(24, r) <= 100 * one
            &&& 200 * x <= 2 * units(24, r) + pow2(132)
            &&& 2 * units(24, r) <= 200 * x + pow2(132)
        }),
{
    let one = pow2(149);
    let h = pow2(132);
    let top: nat = 0x42c8_0000;
    lemma2_to64();
    lemma2_to64_rest();
    lemma_pow2_pos(149);
    lemma_units_form(24, 132, 0xc8_0000);
    lemma_pow2_adds(17, 132);
    assert(units(24, top) == 100 * one);
    assert(exponent(24, (top - 1) as nat) == 132);
    assert(x * (100 * one) <= one * (100 * one)) by (nonlinear_arith)
        requires
            x <= one,
    ;
    lemma_rounding_error(x * (100 * one), one, top, h);
    let r = nearest(24, x * (100 * one), one);
    let y = units(24, r);
    if r < top {
        lemma_units_monotone(24, r, top);
    }
    assert(200 * x <= 2 * y + h) by (nonlinear_arith)
        requires
            2 * (x * (100 * one)) <= 2 * (one * y) + one * h,
            one > 0,
    ;
    assert(2 * y <= 200 * x + h) by (nonlinear_arith)
        requires
            2 * (one * y) <= 2 * (x * (100 * one)) + one * h,
            one > 0,
    ;
}

/// Dividing by seven and multiplying by a hundred keep the order.
proof fn lemma_scaled_up(f: Format, a: Value, b: Value)
    requires
        a is Finite,
        b is Finite,
        is_value(f, a),
        is_value(f, b),
        is_nonnegative(f, a),
        !less(f, b, a),
    ensures
        ({
            let x = product(f, quotient(f, a, whole(f, 7)), whole(f, 100));
            let y = product(f, quotient(f, b, whole(f, 7)), whole(f, 100));
            !less(f, y, x) && x !is Nan && y !is Nan
        }),
{
    let p = f.precision();
    let one = f.one();
    lemma_pow2_pos(p);
    lemma_pow2_pos(f.scale());
    lemma_whole_exact(f, 7);
    lemma_whole_exact(f, 100);
    let (seven, hundred) = (whole(f, 7), whole(f, 100));
    let (m7, m100) = (size(f, seven), size(f, hundred));
    assert(m7 > 0 && m100 > 0);
    let (n, m) = (size(f, a), size(f, b));
    assert(n <= m);
    assert(n * one * m7 <= m * one * m7) by (nonlinear_arith)
        requires
            n <= m,
    ;
    lemma_nearest_monotone(p, n * one, m7, m * one, m7);
    let (u, v) = (nearest(p, n * one, m7), nearest(p, m * one, m7));
    lemma_sevenths_finite(f, n, a->mag);
    lemma_sevenths_finite(f, m, b->mag);
    if u < v {
        lemma_units_monotone(p, u, v);
    }
    let (x, y) = (units(p, u), units(p, v));
    assert(x * m100 * one <= y * m100 * one) by (nonlinear_arith)
        requires
            x <= y,
    ;
    lemma_nearest_monotone(p, x * m100, one, y * m100, one);
    let (s, t) = (nearest(p, x * m100, one), nearest(p, y * m100, one));
    if s < t {
        lemma_units_monotone(p, s, t);
    }
    if a->Finite_neg {
        assert(n == 0);
        assert(0 * one == 0 && m7 * 0 == 0 && 0 * m100 == 0 && one * 0 == 0) by (nonlinear_arith);
        lemma_nearest_exact(p, 0, m7, 0);
        lemma_nearest_exact(p, 0, one, 0);
    }
    if b->Finite_neg {
        assert(m == 0);
        assert(0 * one == 0 && m7 * 0 == 0 && 0 * m100 == 0 && one * 0 == 0) by (nonlinear_arith);
        lemma_nearest_exact(p, 0, m7, 0);
        lemma_nearest_exact(p, 0, one, 0);
    }
}

/// A seventh of a finite number is finite.
proof fn lemma_sevenths_finite(f: Format, n: nat, mag: nat)
    requires
        mag < f.overflow(),
        n == units(f.precision(), mag),
    ensures
        nearest(f.precision(), n * f.one(), size(f, whole(f, 7))) <= mag,
{
    let one = f.one();
    lemma_whole_exact(f, 7);
    lemma_pow2_pos(f.scale());
    let m7 = size(f, whole(f, 7));
    assert(n * one <= m7 * n) by (nonlinear_arith)
        requires
            m7 == 7 * one,
    ;
    lemma_rounding_respects(f, n * one, m7, mag);
}

/// No finite temperature that a component reports is above the one shown.
pub proof fn law_no_component_is_hotter(temperatures: Seq<Single>, i: int)
    requires
        0 <= i < temperatures.len(),
        temperatures[i]@ is Finite,
    ensures
        hottest(temperatures) is Finite,
        !less(Format::Single, hottest(temperatures), temperatures[i]@),
{
    lemma_highest_finite(temperatures, i);
}

/// The temperature shown is a finite one that a component reports, also where all
/// are below zero.
pub proof fn law_temperature_is_reported(temperatures: Seq<Single>, i: int) -> (hottest_at: int)
    requires
        0 <= i < temperatures.len(),
        temperatures[i]@ is Finite,
    ensures
        0 <= hottest_at < temperatures.len(),
        temperatures[hottest_at]@ is Finite,
        hottest(temperatures) == temperatures[hottest_at]@,
{
    lemma_highest_finite(temperatures, i);
    choose|j: int|
        0 <= j < temperatures.len() && highest_finite(temperatures) == Some(
            (#[trigger] temperatures[j])@,
        )
}

/// The temperature shown is zero where no component reports a finite one.
pub proof fn law_no_temperature_is_zero(temperatures: Seq<Single>)
    requires
        forall|i: int| 0 <= i < temperatures.len() ==> (#[trigger] temperatures[i])@ !is Finite,
    ensures
        hottest(temperatures) == whole(Format::Single, 0),
        exact(Format::Single, hottest(temperatures)) == 0,
{
    lemma_none_finite(temperatures);
    lemma_whole_exact(Format::Single, 0);
    assert(0 * Format::Single.one() == 0) by (nonlinear_arith);
}

/// Without a finite temperature there is no highest one.
proof fn lemma_none_finite(temperatures: Seq<Single>)
    requires
        forall|i: int| 0 <= i < temperatures.len() ==> (#[trigger] temperatures[i])@ !is Finite,
    ensures
        highest_finite(temperatures) is None,
    decreases temperatures.len(),
{
    if temperatures.len() > 0 {
        let before = temperatures.drop_last();
        assert forall|i: int| 0 <= i < before.len() implies (#[trigger] before[i])@ !is Finite by {
            assert(before[i] == temperatures[i]);
        }
        lemma_none_finite(before);
    }
}

/// With a finite temperature at `i` the highest one is reported, finite and not
/// below it.
proof fn lemma_highest_finite(temperatures: Seq<Single>, i: int)
    requires
        0 <= i < temperatures.len(),
        temperatures[i]@ is Finite,
    ensures
        highest_finite(temperatures) matches Some(h) && h is Finite && !less(
            Format::Single,
            h,
            temperatures[i]@,
        ),
        exists|j: int|
            0 <= j < temperatures.len() && highest_finite(temperatures) == Some(
                (#[trigger] temperatures[j])@,
            ),
    decreases temperatures.len(),
{
    let before = temperatures.drop_last();
    let last = temperatures.len() - 1;
    let k = if i < last {
        i
    } else if exists|k: int| 0 <= k < before.len() && (#[trigger] before[k])@ is Finite {
        choose|k: int| 0 <= k < before.len() && (#[trigger] before[k])@ is Finite
    } else {
        -1
    };
    if k >= 0 {
        lemma_highest_finite(before, k);
        let j = choose|j: int|
            0 <= j < before.len() && highest_finite(before) == Some((#[trigger] before[j])@);
        assert(temperatures[j] == before[j]);
    } else {
        lemma_none_finite(before);
    }
    assert(temperatures[last] == temperatures.last());
}

/// The number in a tooltip's user data leads back to its item.
pub proof fn law_tooltip_data_round_trip(metric: TooltipMetric)
    ensures
        metric_of(metric.tag()) == metric,
{
}

/// A surface is never set up with an empty size.
pub proof fn law_surface_is_never_empty<F>(
    format: F,
    config: SurfaceConfiguration<F>,
    width: u32,
    height: u32,
)
    requires
        config.width > 0,
        config.height > 0,
    ensures
        configuration_for(format, width, height).width > 0,
        configuration_for(format, width, height).height > 0,
        resized(config, width, height).width > 0,
        resized(config, width, height).height > 0,
{
}

/// A surface is set up anew only for a size that differs, and only once for it.
pub proof fn law_resize_settles<F>(config: SurfaceConfiguration<F>, width: u32, height: u32)
    ensures
        !needs_resize(config, width, height) ==> resized(config, width, height) == config,
        !needs_resize(resized(config, width, height), width, height),
        resized(resized(config, width, height), width, height) == resized(config, width, height),
{
}

/// No event is lost: those that arrive before there is an engine wait for it, in
/// their order, and all of them are handed to the first frame that it renders.
pub proof fn law_events_wait_for_the_engine<F>(
    start: AetherCanvasView<F>,
    early: AetherCanvasView<F>,
    late: AetherCanvasView<F>,
    done: AetherCanvasView<F>,
    events: Seq<PointerEvent>,
    bounds: RectView,
    refused: Option<RenderRequest>,
    request: Option<RenderRequest>,
)
    requires
        start.ivars.gpu_engine is None,
        start.renders(events, bounds, early, refused),
        late.ivars.pending_events == early.ivars.pending_events,
        late.ivars.gpu_engine is Some,
        late.renders(late.ivars.pending_events@, bounds, done, request),
    ensures
        refused is None,
        request matches Some(r) && r.input.events@ == events,
        done.ivars.pending_events@.len() == 0,
{
}

/// No event is lost, doubled or moved: what one step of rendering hands on and
/// what it keeps are together the events that there were.
pub proof fn law_events_are_kept<F>(
    before: AetherCanvasView<F>,
    after: AetherCanvasView<F>,
    events: Seq<PointerEvent>,
    bounds: RectView,
    request: Option<RenderRequest>,
)
    requires
        before.renders(events, bounds, after, request),
    ensures
        (match request {
            Some(r) => r.input.events@,
            None => Seq::empty(),
        }) + after.ivars.pending_events@ == events,
{
    match request {
        Some(r) => {
            assert(r.input.events@ + after.ivars.pending_events@ =~= events);
        },
        None => {
            assert(Seq::<PointerEvent>::empty() + after.ivars.pending_events@ =~= events);
        },
    }
}

/// Whatever comes of rendering a frame, the engine is kept with its set-up and the
/// events that were handed over are not put back.
pub proof fn law_rendering_keeps_the_engine<F>(
    before: AetherCanvasView<F>,
    after: AetherCanvasView<F>,
    events: Seq<PointerEvent>,
    bounds: RectView,
    request: Option<RenderRequest>,
)
    requires
        before.ivars.gpu_engine is Some,
        before.renders(events, bounds, after, request),
    ensures
        request is Some,
        after.ivars.gpu_engine matches Some(engine) && engine.configuration() == resized(
            before.ivars.gpu_engine->0.configuration(),
            truncated(Format::Double, bounds.width),
            truncated(Format::Double, bounds.height),
        ),
        after.ivars.pending_events@.len() == 0,
{
}

/// Every changed texture is uploaded before the frame is drawn, no texture is
/// given up before that, and showing the surface is the last step.
pub proof fn law_textures_live_while_drawn(changed: usize, unused: usize, i: int)
    requires
        changed + unused < usize::MAX,
        0 <= i < render_steps(changed as nat, unused as nat).len(),
    ensures
        ({
            let steps = render_steps(changed as nat, unused as nat);
            let draw = changed + 2;
            &&& steps.len() == changed + unused + 6
            &&& steps[draw] == RenderStep::DrawPass
            &&& steps[i] is UpdateTexture <==> 1 <= i < draw - 1
            &&& steps[i] matches RenderStep::UpdateTexture(t) ==> t == i - 1
            &&& steps[i] is FreeTexture <==> draw < i <= draw + unused
            &&& steps[i] matches RenderStep::FreeTexture(t) ==> t == i - draw - 1
            &&& steps[i] == RenderStep::Present <==> i == steps.len() - 1
        }),
{
}

/// The level of a row's bar is a number from zero to one, unless the ratio is not
/// a number.
pub proof fn law_row_level_is_a_ratio(
    label: Seq<char>,
    value: Seq<char>,
    ratio: Value,
    accent: Rgb,
)
    requires
        is_value(Format::Single, ratio),
        ratio !is Nan,
    ensures
        is_between(Format::Single, row(label, value, ratio, accent).level, 1),
{
    lemma_clamped_to_whole(Format::Single, ratio, 1);
}

/// No item begins to the left of where its neighbour ends.
pub proof fn law_items_do_not_overlap(bounds: RectView)
    requires
        is_value(Format::Double, bounds.x),
    ensures
        !less(
            Format::Double,
            memory_item(bounds).x,
            plus(cpu_item(bounds).x, cpu_item(bounds).width),
        ),
        !less(
            Format::Double,
            network_item(bounds).x,
            plus(memory_item(bounds).x, memory_item(bounds).width),
        ),
        !less(
            Format::Double,
            temperature_item(bounds).x,
            plus(network_item(bounds).x, network_item(bounds).width),
        ),
{
    let f = Format::Double;
    lemma_whole_exact(f, 1);
    lemma_whole_exact(f, 5);
    lemma_whole_exact(f, 7);
    lemma_whole_exact(f, 18);
    lemma_whole_exact(f, 25);
    lemma_whole_exact(f, 43);
    let (cpu, memory, network) = (cpu_item(bounds), memory_item(bounds), network_item(bounds));
    lemma_sum_not_below(f, plus(cpu.x, cpu.width), num(7));
    lemma_sum_not_below(f, plus(memory.x, memory.width), num(7));
    lemma_sum_not_below(f, plus(network.x, network.width), num(7));
}

/// The divider after an item stands between the item's right edge and the left
/// edge of the next one.
pub proof fn law_divider_stands_between(left: RectView, panel: RectView)
    requires
        plus(left.x, left.width) is Finite,
        is_value(Format::Double, plus(left.x, left.width)),
    ensures
        divider_after(left, panel) matches DrawView::Line { points, .. } && points.len() == 2
            && points[0].x == points[1].x && at_least(
            Format::Double,
            points[0].x,
            plus(left.x, left.width),
        ) && at_least(Format::Double, next_edge(left), points[0].x),
{
    let f = Format::Double;
    let edge = plus(left.x, left.width);
    lemma_whole_exact(f, 7);
    lemma_pow2_pos(f.scale());
    let one = f.one();
    assert(35 * one <= 10 * (7 * one));
    lemma_rounding_respects(f, 35 * one, 10, num(7)->mag);
    let (short, long) = (tenths(35), num(7));
    assert(short is Finite && short->mag <= long->mag);
    if short->mag < long->mag {
        lemma_units_monotone(f.precision(), short->mag, long->mag);
    }
    lemma_sum_not_below(f, edge, short);
    lemma_sum_monotone(f, edge, short, long);
}

/// A sparkline stays between the lower and the upper edge of its bounds, also
/// where a value is below 0 or above 100; a height below one counts as one.
pub proof fn law_sparkline_stays_in_bounds(bounds: RectView, i: nat, value: Value)
    requires
        bounds.y is Finite,
        bounds.height is Finite,
        is_value(Format::Double, bounds.y),
        is_value(Format::Double, bounds.height),
        is_value(Format::Single, value),
        value !is Nan,
    ensures
        at_least(Format::Double, spark_point(bounds, i, value).y, bounds.y),
        at_least(
            Format::Double,
            plus(bounds.y, larger(bounds.height, num(1))),
            spark_point(bounds, i, value).y,
        ),
{
    let f = Format::Double;
    lemma_whole_exact(f, 0);
    lemma_whole_exact(f, 1);
    lemma_whole_exact(f, 100);
    lemma_pow2_pos(f.scale());
    assert(0 * f.one() == 0) by (nonlinear_arith);
    let height = larger(bounds.height, num(1));
    let percent = clamped(f, widened(value), num(0), num(100));
    lemma_clamped_to_whole(f, widened(value), 100);
    assert(1 * f.one() > 0 && 100 * f.one() > 0);
    lemma_quotient_at_most_one(f, percent, num(100));
    let share = over(percent, num(100));
    assert(exact(f, height) > 0);
    assert(is_nonnegative(f, height));
    lemma_product_shrinks(f, share, height);
    let rise = times(share, height);
    lemma_sum_not_below(f, bounds.y, rise);
    lemma_sum_monotone(f, bounds.y, rise, height);
}

/// The filled part of a meter is not wider than the meter.
pub proof fn law_meter_is_not_overfilled(
    bounds: RectView,
    ratio: Value,
    fill: ColorView,
)
    requires
        bounds.width is Finite,
        is_value(Format::Double, bounds.width),
        is_nonnegative(Format::Double, bounds.width),
        is_value(Format::Single, ratio),
        ratio !is Nan,
    ensures
        level_meter(bounds, ratio, fill)[1] matches DrawView::Fill { rect, .. } && at_least(
            Format::Double,
            bounds.width,
            rect.width,
        ) && is_nonnegative(Format::Double, rect.width),
{
    let s = Format::Single;
    let f = Format::Double;
    lemma_clamped_to_whole(s, ratio, 1);
    let level = clamped(s, ratio, whole(s, 0), whole(s, 1));
    lemma_widened_ratio(level);
    lemma_product_shrinks(f, widened(level), bounds.width);
}

/// A ratio stays a ratio in the wider format.
proof fn lemma_widened_ratio(v: Value)
    requires
        v is Finite,
        is_nonnegative(Format::Single, v),
        size(Format::Single, v) <= Format::Single.one(),
    ensures
        widened(v) is Finite,
        is_nonnegative(Format::Double, widened(v)),
        size(Format::Double, widened(v)) <= Format::Double.one(),
{
    let s = Format::Single;
    let f = Format::Double;
    let (n, one, small) = (size(s, v), f.one(), s.one());
    lemma_pow2_pos(s.scale());
    lemma_pow2_pos(f.precision());
    lemma_whole_exact(f, 1);
    assert(1 * one == one);
    let top = whole(f, 1)->mag;
    assert(n * one <= small * one) by (nonlinear_arith)
        requires
            n <= small,
    ;
    lemma_rounding_respects(f, n * one, small, top);
    let mag = nearest(f.precision(), n * one, small);
    if mag < top {
        lemma_units_monotone(f.precision(), mag, top);
    }
    if v->Finite_neg {
        assert(0 * one == 0 && small * 0 == 0) by (nonlinear_arith);
        lemma_nearest_exact(f.precision(), 0, small, 0);
    }
}

/// The tenths that the text of `n / d` shows.
pub open spec fn shown_tenths(n: u64, d: u64) -> nat {
    scaled_half_even(
        Format::Single,
        quotient(
            Format::Single,
            whole(Format::Single, n as nat),
            whole(Format::Single, d as nat),
        ),
        10,
    )
}

/// Memory in gibibytes is shown to the nearest tenth, the even one of two: up to
/// sixteen tebibytes the arithmetic loses nothing.
pub proof fn law_gibibytes_are_exact(mebibytes: u64)
    requires
        mebibytes < 0x100_0000,
    ensures
        shown_tenths(mebibytes, 1024) == half_even(10 * mebibytes as nat, 1024),
        gibibytes_text(mebibytes) == decimal(shown_tenths(mebibytes, 1024) / 10) + seq!['.']
            + seq![digit(shown_tenths(mebibytes, 1024) % 10)],
{
    let f = Format::Single;
    let p = f.precision();
    let n = mebibytes as nat;
    let one = f.one();
    lemma_whole_exact(f, n);
    lemma_whole_exact(f, 1024);
    lemma_pow2_pos(f.precision());
    lemma_pow2_pos(f.scale());
    lemma2_to64();
    let mag = lemma_scaled_exact(f, n, 139);
    lemma_pow2_adds(139, 10);
    let g = pow2(139);
    assert(n * one * one == (1024 * one) * (n * g)) by (nonlinear_arith)
        requires
            one == g * 1024,
    ;
    assert(1024 * one > 0);
    lemma_nearest_exact(p, n * one * one, 1024 * one, mag);
    assert(n * g * 10 == (10 * n) * g) by (nonlinear_arith);
    lemma_half_even_cut(10 * n, 139, 149);
    assert(sign(false) + decimal(shown_tenths(mebibytes, 1024) / 10) =~= decimal(
        shown_tenths(mebibytes, 1024) / 10,
    ));
}

/// Rates are shown to the nearest tenth of their unit, as long as every byte
/// counts in single precision: rounding twice does not show. `unit` is the
/// number of bytes in a kilobyte or a megabyte.
pub proof fn law_rate_is_to_the_nearest_tenth(bytes_per_sec: u64, unit: u64)
    requires
        unit == 1_000 || unit == 1_000_000,
        unit <= bytes_per_sec < 0xff_ffff,
    ensures
        2 * bytes_per_sec <= (unit / 10) * (2 * shown_tenths(bytes_per_sec, unit) + 1),
        (unit / 10) * (2 * shown_tenths(bytes_per_sec, unit) - 1) <= 2 * bytes_per_sec,
        ratio_text(bytes_per_sec, unit) == decimal(shown_tenths(bytes_per_sec, unit) / 10)
            + seq!['.'] + seq![digit(shown_tenths(bytes_per_sec, unit) % 10)],
{
    let f = Format::Single;
    let p = f.precision();
    let n = bytes_per_sec as nat;
    let d = unit as nat;
    let one = f.one();
    lemma_whole_exact(f, n);
    lemma_whole_exact(f, d);
    lemma_pow2_pos(p);
    lemma_pow2_pos(f.scale());
    let num = n * one * one;
    let den = d * one;
    assert(den > 0) by (nonlinear_arith)
        requires
            den == d * one,
            d > 0,
            one > 0,
    ;
    let mag = nearest(p, num, den);
    lemma_quotient_error(f, n, d, mag);
    let v = units(p, mag);
    let t = shown_tenths(bytes_per_sec, unit);
    lemma_half_even_error(v * 10, one);
    let s = d / 10;
    assert(d == 10 * s);
    // |v * d - n * one| < one and |10 * v - t * one| <= one / 2
    assert(2 * n * one < (2 * s * t + s + 2) * one) by (nonlinear_arith)
        requires
            n * one < v * d + one,
            2 * (v * 10) <= (2 * t + 1) * one,
            d == 10 * s,
    ;
    assert((2 * s * t - s - 2) * one < 2 * n * one) by (nonlinear_arith)
        requires
            v * d < n * one + one,
            (2 * t - 1) * one <= 2 * (v * 10),
            d == 10 * s,
    ;
    assert(2 * n < 2 * s * t + s + 2) by (nonlinear_arith)
        requires
            2 * n * one < (2 * s * t + s + 2) * one,
            one > 0,
    ;
    assert(2 * s * t - s - 2 < 2 * n) by (nonlinear_arith)
        requires
            (2 * s * t - s - 2) * one < 2 * n * one,
            one > 0,
    ;
    let c = s * t;
    assert(2 * s * t == 2 * c) by (nonlinear_arith)
        requires
            c == s * t,
    ;
    assert(s * (2 * t + 1) == 2 * c + s && s * (2 * t - 1) == 2 * c - s) by (nonlinear_arith)
        requires
            c == s * t,
    ;
    assert(s % 2 == 0);
    assert(sign(false) + decimal(t / 10) =~= decimal(t / 10));
}

/// Rounding to a whole number moves by at most a half.
pub proof fn lemma_half_even_error(num: nat, den: nat)
    requires
        den > 0,
    ensures
        (2 * half_even(num, den) - 1) * den <= 2 * num <= (2 * half_even(num, den) + 1) * den,
{
    let (q, r) = (num / den, num % den);
    lemma_fundamental_div_mod(num as int, den as int);
    lemma_mod_bound(num as int, den as int);
    assert((2 * q - 1) * den <= 2 * (den * q + r)) by (nonlinear_arith)
        requires
            r >= 0,
            den > 0,
    ;
    if half_even(num, den) == q {
        assert(2 * (den * q + r) <= (2 * q + 1) * den) by (nonlinear_arith)
            requires
                2 * r <= den,
        ;
    } else {
        assert((2 * (q + 1) - 1) * den <= 2 * (den * q + r)) by (nonlinear_arith)
            requires
                2 * r >= den,
        ;
        assert(2 * (den * q + r) <= (2 * (q + 1) + 1) * den) by (nonlinear_arith)
            requires
                r < den,
        ;
    }
}

/// A quotient of numbers below `2^24` is off by less than one over the divisor.
proof fn lemma_quotient_error(f: Format, n: nat, d: nat, mag: nat)
    requires
        f == Format::Single,
        0 < d <= n < 0xff_ffff,
        mag == nearest(f.precision(), n * f.one() * f.one(), d * f.one()),
    ensures
        units(f.precision(), mag) * d < n * f.one() + f.one(),
        n * f.one() < units(f.precision(), mag) * d + f.one(),
        mag < f.overflow(),
{
    let p = f.precision();
    let one = f.one();
    let den = d * one;
    let num = n * one * one;
    lemma2_to64();
    lemma2_to64_rest();
    lemma_pow2_pos(f.scale());
    assert(den > 0) by (nonlinear_arith)
        requires
            den == d * one,
            d > 0,
            one > 0,
    ;
    lemma_nearest_exists(p, num, den);
    let v = units(p, mag);
    let above = units(p, mag + 1);
    // The quotient is from one to n.
    lemma_whole_exact(f, 1);
    lemma_whole_exact(f, n);
    let (low, high) = (whole(f, 1)->mag, whole(f, n)->mag);
    assert(1 * one == one);
    assert(den * one <= num) by (nonlinear_arith)
        requires
            den == d * one,
            num == n * one * one,
            d <= n,
    ;
    lemma_rounding_respects(f, num, den, low);
    assert(num <= den * (n * one)) by (nonlinear_arith)
        requires
            den == d * one,
            num == n * one * one,
            d >= 1,
    ;
    lemma_rounding_respects(f, num, den, high);
    // So its significand has all its bits.
    lemma_parts(p, mag);
    let (k, m) = (exponent(p, mag), significand(p, mag));
    assert(k > 0) by {
        if low < mag {
            lemma_units_monotone(p, low, mag);
        }
        lemma_pow2_strictly_increases(24, 149);
        assert(v >= pow2(149));
        if k == 0 {
            assert(m * pow2(0) == m);
        }
    }
    lemma_units_form(p, k, m + 1);
    let g = pow2(k);
    lemma_pow2_pos(k);
    assert((m + 1) * g == m * g + g) by (nonlinear_arith);
    assert(0x80_0000 * g <= v) by (nonlinear_arith)
        requires
            v == m * g,
            m >= 0x80_0000,
    ;
    lemma_units_step(p, (mag - 1) as nat);
    let below = units(p, (mag - 1) as nat);
    lemma_gap_below(p, mag);
    assert(v - below <= g);
    // 2 * |v * den - num| <= den * g
    assert(2 * num <= 2 * (den * v) + den * g) by (nonlinear_arith)
        requires
            2 * num <= den * (v + above),
            above == v + g,
    ;
    assert(2 * (den * v) <= 2 * num + den * g) by (nonlinear_arith)
        requires
            den * (below + v) <= 2 * num,
            v - below <= g,
            den > 0,
    ;
    lemma_divide_out(n, d, one, v, g);
}

/// Divides a common factor out of two bounds.
proof fn lemma_divide_out(n: nat, d: nat, one: nat, v: nat, g: nat)
    requires
        one > 0,
        0 < d <= n < 0xff_ffff,
        0x80_0000 * g <= v,
        2 * (n * one * one) <= 2 * (d * one * v) + d * one * g,
        2 * (d * one * v) <= 2 * (n * one * one) + d * one * g,
    ensures
        v * d < n * one + one,
        n * one < v * d + one,
{
    let (x, y) = (v * d, n * one);
    let h = d * g;
    assert(2 * y <= 2 * x + h) by (nonlinear_arith)
        requires
            2 * (n * one * one) <= 2 * (d * one * v) + d * one * g,
            x == v * d,
            y == n * one,
            h == d * g,
            one > 0,
    ;
    assert(2 * x <= 2 * y + h) by (nonlinear_arith)
        requires
            2 * (d * one * v) <= 2 * (n * one * one) + d * one * g,
            x == v * d,
            y == n * one,
            h == d * g,
            one > 0,
    ;
    assert(0x80_0000 * h <= x) by (nonlinear_arith)
        requires
            0x80_0000 * g <= v,
            x == v * d,
            h == d * g,
    ;
    assert(y < 0xff_ffff * one) by (nonlinear_arith)
        requires
            y == n * one,
            n < 0xff_ffff,
            one > 0,
    ;
}

} // verus!
