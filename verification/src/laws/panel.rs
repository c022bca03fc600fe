//! What the popover's panel shows of a frame.

use vstd::arithmetic::power2::lemma_pow2_pos;
use vstd::prelude::*;

use crate::accuracy::{distance, lemma_accuracy, lemma_quotient_close, lemma_sum_close};
use crate::draw::memory_share;
use crate::gpu::{bar_room, hundredth, monitor_panel, row, Rgb};
use crate::laws::charts::limited;
use crate::laws::text::{
    law_gibibytes_are_said, law_one_place_is_the_nearest_tenth, law_rates_are_said,
    law_special_texts, says_rate, shows_ratio, tenths_text,
};
use crate::laws::traffic::law_share_of_the_memory;
use crate::laws::{law_full_memory_is_one, law_memory_share_is_a_ratio};
use crate::order::{
    is_value, lemma_quotient_at_most_one, lemma_rounding_respects, lemma_whole_exact,
    lemma_wholes_ordered,
};
use crate::rounding::{lemma_nearest_exact, lemma_nearest_monotone, lemma_units_monotone, nearest};
use crate::telemetry::TelemetryFrame;
use crate::text::{gibibytes_text, padded, rate_text};
use crate::value::{clamped, difference, exact, negated, size, whole, Format, Value};

verus! {

/// Whether a bar is filled to `v` percent: not at all up to zero, wholly from a
/// hundred on, and in between to a hundredth of `v`, up to the rounding of single
/// precision.
pub open spec fn fills(level: Value, v: Value) -> bool {
    let one = Format::Single.one();
    let (l, c) = (exact(Format::Single, level), exact(Format::Single, v));
    &&& level is Finite
    &&& match v {
        Value::Nan => false,
        Value::Infinite { neg } => l == if neg {
            0
        } else {
            one as int
        },
        Value::Finite { .. } => {
            &&& c <= 0 ==> l == 0
            &&& c >= 100 * one ==> l == one
            &&& 0 <= c <= 100 * one ==> 0xff_ffff * distance(100 * l, c) <= c + 0x6400_0000
        },
    }
}

/// A hundredth, kept within zero to one, fills a bar to its percentage.
pub proof fn lemma_fills(v: Value)
    requires
        v !is Nan,
        is_value(Format::Single, v),
    ensures
        fills(
            clamped(
                Format::Single,
                hundredth(v),
                whole(Format::Single, 0),
                whole(Format::Single, 1),
            ),
            v,
        ),
{
    let f = Format::Single;
    let one = f.one();
    lemma_accuracy(f);
    lemma_pow2_pos(24);
    lemma_whole_exact(f, 0);
    lemma_whole_exact(f, 1);
    lemma_whole_exact(f, 100);
    lemma_wholes_ordered(f, 0, 1);
    assert(0 * one == 0 && 1 * one == one) by (nonlinear_arith);
    if v is Finite {
        let h = whole(f, 100);
        let q = hundredth(v);
        let n = size(f, v);
        assert(n * one <= (100 * one) * n) by (nonlinear_arith);
        lemma_rounding_respects(f, n * one, 100 * one, v->mag);
        assert(q is Finite);
        if exact(f, v) >= 0 {
            lemma_quotient_close(f, v, h);
            let (x, c) = (exact(f, q), exact(f, v));
            assert(0xff_ffff * distance(100 * x, c) <= c + 0x6400_0000) by (nonlinear_arith)
                requires
                    0xff_ffff * distance(x * (100 * one), c * one) <= c * one + 0xff_ffff * (100
                        * one),
                    one > 0,
            ;
            if n <= 100 * one {
                lemma_quotient_at_most_one(f, v, h);
            }
            if n >= 100 * one {
                let unit = whole(f, 1)->mag;
                assert((100 * one) * one <= n * one) by (nonlinear_arith)
                    requires
                        100 * one <= n,
                ;
                lemma_rounding_respects(f, n * one, 100 * one, unit);
                if unit < q->mag {
                    lemma_units_monotone(24, unit, q->mag);
                }
            }
            if n == 0 {
                assert(0 * one == 0 && (100 * one) * 0 == 0) by (nonlinear_arith);
                lemma_nearest_exact(24, 0, 100 * one, 0);
            }
        }
    }
}

/// Bars keep the order of what they show, and a difference of a point can be
/// seen.
pub proof fn law_bars_keep_the_order(
    v: Value,
    w: Value,
    label: Seq<char>,
    text: Seq<char>,
    accent: Rgb,
)
    requires
        v is Finite,
        w is Finite,
        is_value(Format::Single, v),
        is_value(Format::Single, w),
        exact(Format::Single, v) <= exact(Format::Single, w),
    ensures
        ({
            let low = exact(Format::Single, row(label, text, hundredth(v), accent).level);
            let high = exact(Format::Single, row(label, text, hundredth(w), accent).level);
            let one = Format::Single.one();
            &&& low <= high
            &&& 0 <= exact(Format::Single, v) && exact(Format::Single, w) <= 100 * one && exact(
                Format::Single,
                v,
            ) + one <= exact(Format::Single, w) ==> low < high
        }),
{
    let f = Format::Single;
    let one = f.one();
    lemma_fills(v);
    lemma_fills(w);
    lemma_accuracy(f);
    lemma_pow2_pos(24);
    lemma_whole_exact(f, 0);
    lemma_whole_exact(f, 1);
    lemma_whole_exact(f, 100);
    lemma_wholes_ordered(f, 0, 1);
    crate::laws::traffic::lemma_one_is_large();
    assert(0 * one == 0 && 1 * one == one) by (nonlinear_arith);
    if exact(f, v) > 0 {
        let (n, m) = (size(f, v), size(f, w));
        assert(n * one * (100 * one) <= m * one * (100 * one)) by (nonlinear_arith)
            requires
                n <= m,
        ;
        lemma_nearest_monotone(24, n * one, 100 * one, m * one, 100 * one);
        let (a, b) = (nearest(24, n * one, 100 * one), nearest(24, m * one, 100 * one));
        if a < b {
            lemma_units_monotone(24, a, b);
        }
        assert(n * one <= (100 * one) * n && m * one <= (100 * one) * m) by (nonlinear_arith);
        lemma_rounding_respects(f, n * one, 100 * one, v->mag);
        lemma_rounding_respects(f, m * one, 100 * one, w->mag);
    }
}

/// The processor's row says the load to the nearest tenth with a percent sign,
/// and its bar is filled to the load.
pub proof fn law_cpu_row(frame: TelemetryFrame) -> (t: nat)
    requires
        frame.cpu_total@ is Finite,
    ensures
        ({
            let row = monitor_panel(frame).rows[0];
            let load = frame.cpu_total@;
            let one = Format::Single.one();
            &&& row.label.text == "CPU"@
            &&& row.value.text == padded(
                (if load->Finite_neg {
                    seq!['-']
                } else {
                    Seq::<char>::empty()
                }) + tenths_text(t),
                4,
            ) + "%"@
            &&& 2 * distance(10 * size(Format::Single, load) as int, (t * one) as int) <= one
            &&& fills(row.level, load)
        }),
{
    let t = law_one_place_is_the_nearest_tenth(frame.cpu_total@);
    lemma_fills(frame.cpu_total@);
    t
}

/// The memory's row says what is in use and what there is in gibibytes, each to
/// the nearest tenth and neither depending on the other, and its bar is filled to
/// their ratio.
pub proof fn law_memory_row(frame: TelemetryFrame)
    ensures
        ({
            let row = monitor_panel(frame).rows[1];
            let (used, total) = (frame.mem_used_mb, frame.mem_total_mb);
            let (a, b) = (gibibytes_text(used), gibibytes_text(total));
            let one = Format::Single.one();
            let level = exact(Format::Single, row.level);
            &&& row.label.text == "Memory"@
            &&& row.value.text == a + " / "@ + b + " GB"@
            &&& shows_ratio(a, used, 1024)
            &&& shows_ratio(b, total, 1024)
            &&& row.level is Finite
            &&& total == 0 ==> level == 0
            &&& used >= total > 0 ==> level == one
            &&& used <= total && total > 0 ==> 0x40_0000 * distance(level * total, used * one)
                <= total * one
        }),
{
    let f = Format::Single;
    let (used, total) = (frame.mem_used_mb, frame.mem_total_mb);
    law_gibibytes_are_said(used);
    law_gibibytes_are_said(total);
    law_memory_share_is_a_ratio(used, total);
    lemma_accuracy(f);
    lemma_whole_exact(f, 0);
    lemma_whole_exact(f, 1);
    assert(0 * f.one() == 0 && 1 * f.one() == f.one()) by (nonlinear_arith);
    if total > 0 {
        if used >= total {
            law_full_memory_is_one(used, total);
        }
        if used <= total {
            law_share_of_the_memory(used, total);
        }
    }
    let share = memory_share(used, total);
    assert(clamped(f, share, whole(f, 0), whole(f, 1)) == share);
}

/// The network's row says both rates, what comes in first and neither depending
/// on the other, and its bar is filled to the newest activity.
pub proof fn law_network_row(frame: TelemetryFrame)
    requires
        frame.net_activity_history@[59]@ !is Nan,
    ensures
        ({
            let row = monitor_panel(frame).rows[2];
            let (a, b) = (rate_text(frame.net_in_bytes_sec), rate_text(frame.net_out_bytes_sec));
            &&& row.label.text == "Network"@
            &&& row.value.text == a + " in  "@ + b + " out"@
            &&& says_rate(a, frame.net_in_bytes_sec)
            &&& says_rate(b, frame.net_out_bytes_sec)
            &&& fills(row.level, frame.net_activity_history@[59]@)
        }),
{
    law_rates_are_said(frame.net_in_bytes_sec);
    law_rates_are_said(frame.net_out_bytes_sec);
    lemma_fills(frame.net_activity_history@[59]@);
    assert(frame.net_activity_history@.len() == 60);
}

/// The temperature's row says the temperature to the nearest tenth, its bar is
/// filled to it out of 100 degrees, and its color is red from 80 degrees on,
/// amber from 60, else green.
pub proof fn law_thermal_row(frame: TelemetryFrame) -> (t: nat)
    requires
        frame.temp_celsius@ is Finite,
    ensures
        ({
            let row = monitor_panel(frame).rows[3];
            let temperature = frame.temp_celsius@;
            let one = Format::Single.one();
            let degrees = exact(Format::Single, temperature);
            &&& row.label.text == "Thermal"@
            &&& row.value.text == padded(
                (if temperature->Finite_neg {
                    seq!['-']
                } else {
                    Seq::<char>::empty()
                }) + tenths_text(t),
                4,
            ) + " C"@
            &&& 2 * distance(10 * size(Format::Single, temperature) as int, (t * one) as int)
                <= one
            &&& fills(row.level, temperature)
            &&& degrees >= 80 * one ==> row.accent == (Rgb { red: 255, green: 72, blue: 56 })
            &&& 60 * one <= degrees < 80 * one ==> row.accent == (Rgb {
                red: 255,
                green: 174,
                blue: 54,
            })
            &&& degrees < 60 * one ==> row.accent == (Rgb { red: 181, green: 238, blue: 90 })
        }),
{
    let f = Format::Single;
    let t = law_one_place_is_the_nearest_tenth(frame.temp_celsius@);
    lemma_fills(frame.temp_celsius@);
    lemma_whole_exact(f, 60);
    lemma_whole_exact(f, 80);
    t
}

/// There are four rows. All that does not show a number is the same for every
/// frame: the looks, the caption, the title, the labels, the cells, and the colors
/// of all bars but the temperature's.
pub proof fn law_looks_do_not_depend_on_the_frame(
    frame: TelemetryFrame,
    other: TelemetryFrame,
    i: int,
)
    requires
        0 <= i < 4,
    ensures
        ({
            let (a, b) = (monitor_panel(frame), monitor_panel(other));
            &&& a.rows.len() == 4
            &&& a.style == b.style
            &&& a.caption == b.caption
            &&& a.title == b.title
            &&& a.rows[i].cells == b.rows[i].cells
            &&& a.rows[i].style == b.rows[i].style
            &&& a.rows[i].style == a.rows[0].style
            &&& a.rows[i].label == b.rows[i].label
            &&& a.rows[i].value.size == b.rows[0].value.size
            &&& a.rows[i].value.color == b.rows[0].value.color
            &&& i < 3 ==> a.rows[i].accent == b.rows[i].accent
        }),
{
}

/// Each row depends on what it shows alone.
pub proof fn law_rows_depend_on_their_values(frame: TelemetryFrame, other: TelemetryFrame)
    ensures
        ({
            let (a, b) = (monitor_panel(frame).rows, monitor_panel(other).rows);
            &&& frame.cpu_total == other.cpu_total ==> a[0] == b[0]
            &&& frame.mem_used_mb == other.mem_used_mb && frame.mem_total_mb == other.mem_total_mb
                ==> a[1] == b[1]
            &&& frame.net_in_bytes_sec == other.net_in_bytes_sec && frame.net_out_bytes_sec
                == other.net_out_bytes_sec && frame.net_activity_history@[59]
                == other.net_activity_history@[59] ==> a[2] == b[2]
            &&& frame.temp_celsius == other.temp_celsius ==> a[3] == b[3]
        }),
{
    assert(frame.net_activity_history@.len() == 60 && other.net_activity_history@.len() == 60);
}

/// Loads and temperatures that are no finite numbers are named as such; where there
/// is no number the bar has no level, and the color is green unless the temperature
/// is infinitely high.
pub proof fn law_rows_of_no_number(frame: TelemetryFrame)
    ensures
        ({
            let rows = monitor_panel(frame).rows;
            let (load, temperature) = (frame.cpu_total@, frame.temp_celsius@);
            &&& load is Nan ==> rows[0].value.text == padded("NaN"@, 4) + "%"@ && rows[0].level
                is Nan
            &&& temperature is Nan ==> rows[3].value.text == padded("NaN"@, 4) + " C"@
                && rows[3].level is Nan && rows[3].accent == (Rgb {
                red: 181,
                green: 238,
                blue: 90,
            })
            &&& load matches Value::Infinite { neg } ==> fills(rows[0].level, load)
                && rows[0].value.text == padded(
                if neg {
                    "-inf"@
                } else {
                    "inf"@
                },
                4,
            ) + "%"@
            &&& temperature matches Value::Infinite { neg } ==> fills(rows[3].level, temperature)
                && rows[3].value.text == padded(
                if neg {
                    "-inf"@
                } else {
                    "inf"@
                },
                4,
            ) + " C"@ && rows[3].accent == if neg {
                Rgb { red: 181, green: 238, blue: 90 }
            } else {
                Rgb { red: 255, green: 72, blue: 56 }
            }
            &&& frame.net_activity_history@[59]@ is Nan ==> rows[2].level is Nan
        }),
{
    let f = Format::Single;
    law_special_texts(true);
    law_special_texts(false);
    lemma_whole_exact(f, 60);
    lemma_whole_exact(f, 80);
    if frame.cpu_total@ !is Nan {
        lemma_fills(frame.cpu_total@);
    }
    if frame.temp_celsius@ !is Nan {
        lemma_fills(frame.temp_celsius@);
    }
    assert(frame.net_activity_history@.len() == 60);
}

/// A bar takes two points less than there is room, but at least sixty.
pub proof fn law_bar_takes_its_room(available: Value)
    requires
        is_value(Format::Single, available),
    ensures
        ({
            let f = Format::Single;
            let one = f.one();
            let (room, width) = (exact(f, available), exact(f, bar_room(available)));
            &&& available is Nan ==> bar_room(available) is Finite && width == 60 * one
            &&& available is Finite && room <= 62 * one ==> bar_room(available) is Finite && width
                == 60 * one
            &&& available is Finite && room >= 62 * one ==> bar_room(available) is Finite
                && 0xff_ffff * distance(width, room - 2 * one) <= room - 2 * one
        }),
{
    let f = Format::Single;
    let one = f.one();
    lemma_accuracy(f);
    lemma_pow2_pos(24);
    lemma_whole_exact(f, 2);
    lemma_whole_exact(f, 60);
    if available is Finite {
        let d = difference(f, available, whole(f, 2));
        let s = exact(f, available) - 2 * one;
        assert(exact(f, negated(whole(f, 2))) == -2 * one);
        let top = whole(f, 60)->mag;
        if s > 0 {
            lemma_rounding_respects(f, s as nat, 1, available->mag);
            lemma_rounding_respects(f, s as nat, 1, top);
            lemma_sum_close(f, available, negated(whole(f, 2)));
            if d->mag < top {
                lemma_units_monotone(24, d->mag, top);
            }
            if top < d->mag {
                lemma_units_monotone(24, top, d->mag);
            }
        }
    }
}

/// A row keeps its label, its value and its color, and its level is its ratio, kept
/// within zero to one.
pub proof fn law_row_keeps_what_it_shows(
    label: Seq<char>,
    value: Seq<char>,
    ratio: Value,
    accent: Rgb,
)
    ensures
        ({
            let r = row(label, value, ratio, accent);
            &&& r.label.text == label
            &&& r.value.text == value
            &&& r.accent == accent
            &&& ratio !is Nan ==> r.level is Finite && exact(Format::Single, r.level) == limited(
                ratio,
                1,
            )
            &&& ratio is Nan ==> r.level is Nan
        }),
{
    let f = Format::Single;
    lemma_accuracy(f);
    lemma_whole_exact(f, 0);
    lemma_whole_exact(f, 1);
    assert(0 * f.one() == 0 && 1 * f.one() == f.one()) by (nonlinear_arith);
}

} // verus!
