//! What the two views tell and do.

use vstd::arithmetic::power2::lemma_pow2_pos;
use vstd::prelude::*;

use crate::accuracy::{
    distance, lemma_accuracy, lemma_nearest_close, lemma_product_close, lemma_ratio_close,
    lemma_sum_close,
};
use crate::draw::memory_share;
use crate::geometry::{
    cpu_item, memory_item, minus, network_item, temperature_item, PointView, RectView,
};
use crate::gpu::{
    configuration_for, monitor_panel, needs_resize, render_steps, resized, GpuInitError,
    PointerEvent, RenderStep, SurfaceConfiguration,
};
use crate::laws::text::{
    law_no_places_is_the_nearest_number, law_one_place_is_the_nearest_tenth, law_rates_are_said,
    says_rate, tenths_text,
};
use crate::laws::traffic::{law_share_of_the_memory, lemma_one_is_large};
use crate::laws::{law_full_memory_is_one, law_memory_share_is_a_ratio};
use crate::order::{lemma_rounding_respects, lemma_whole_exact};
use crate::rounding::{lemma_nearest_exact, nearest, units};
use crate::telemetry::TelemetryFrame;
use crate::text::{decimal, no_places, rate_text};
use crate::ui::{
    flipped, is_pointer_event, metric_of, redraws, render_failure, tooltip, tooltip_places,
    AetherCanvasView, Redraw, RenderRequest, TooltipMetric,
};
use crate::value::{converted, exact, negated, product, size, truncated, whole, Format, Value};

verus! {

/// The processor's tooltip says the load to the nearest tenth.
pub proof fn law_cpu_tooltip(frame: TelemetryFrame) -> (t: nat)
    requires
        frame.cpu_total@ is Finite,
    ensures
        tooltip(TooltipMetric::Cpu, frame) == "CPU "@ + (if frame.cpu_total@->Finite_neg {
            seq!['-']
        } else {
            Seq::<char>::empty()
        }) + tenths_text(t) + "%"@,
        2 * distance(
            10 * size(Format::Single, frame.cpu_total@) as int,
            (t * Format::Single.one()) as int,
        ) <= Format::Single.one(),
{
    let t = law_one_place_is_the_nearest_tenth(frame.cpu_total@);
    assert(tooltip(TooltipMetric::Cpu, frame) =~= "CPU "@ + (if frame.cpu_total@->Finite_neg {
        seq!['-']
    } else {
        Seq::<char>::empty()
    }) + tenths_text(t) + "%"@);
    t
}

/// The temperature's tooltip says the temperature to the nearest tenth.
pub proof fn law_temperature_tooltip(frame: TelemetryFrame) -> (t: nat)
    requires
        frame.temp_celsius@ is Finite,
    ensures
        tooltip(TooltipMetric::Temperature, frame) == "Temperature "@ + (
        if frame.temp_celsius@->Finite_neg {
            seq!['-']
        } else {
            Seq::<char>::empty()
        }) + tenths_text(t) + " C"@,
        2 * distance(
            10 * size(Format::Single, frame.temp_celsius@) as int,
            (t * Format::Single.one()) as int,
        ) <= Format::Single.one(),
{
    let t = law_one_place_is_the_nearest_tenth(frame.temp_celsius@);
    assert(tooltip(TooltipMetric::Temperature, frame) =~= "Temperature "@ + (
    if frame.temp_celsius@->Finite_neg {
        seq!['-']
    } else {
        Seq::<char>::empty()
    }) + tenths_text(t) + " C"@);
    t
}

/// The network's tooltip says what comes in and then what goes out, neither
/// depending on the other.
pub proof fn law_network_tooltip(frame: TelemetryFrame)
    ensures
        ({
            let text = tooltip(TooltipMetric::Network, frame);
            let (a, b) = (rate_text(frame.net_in_bytes_sec), rate_text(frame.net_out_bytes_sec));
            let middle = 11 + a.len() as int;
            &&& text.len() == middle + 6 + b.len()
            &&& text.take(11) == "Network in "@
            &&& text.subrange(11, middle) == a
            &&& text.subrange(middle, middle + 6) == "  out "@
            &&& text.skip(middle + 6) == b
            &&& says_rate(a, frame.net_in_bytes_sec)
            &&& says_rate(b, frame.net_out_bytes_sec)
        }),
{
    reveal_strlit("Network in ");
    reveal_strlit("  out ");
    law_rates_are_said(frame.net_in_bytes_sec);
    law_rates_are_said(frame.net_out_bytes_sec);
    let text = tooltip(TooltipMetric::Network, frame);
    let (a, b) = (rate_text(frame.net_in_bytes_sec), rate_text(frame.net_out_bytes_sec));
    let middle = 11 + a.len() as int;
    assert(text.take(11) =~= "Network in "@);
    assert(text.subrange(11, middle) =~= a);
    assert(text.subrange(middle, middle + 6) =~= "  out "@);
    assert(text.skip(middle + 6) =~= b);
}

/// The memory's tooltip says both amounts in mebibytes and the whole percentage
/// nearest to their ratio, up to the rounding of single precision.
pub proof fn law_memory_tooltip(frame: TelemetryFrame) -> (t: nat)
    ensures
        tooltip(TooltipMetric::Memory, frame) == "Memory "@ + decimal(frame.mem_used_mb as nat)
            + " MB / "@ + decimal(frame.mem_total_mb as nat) + " MB ("@ + decimal(t) + "%)"@,
        frame.mem_total_mb == 0 ==> t == 0,
        frame.mem_used_mb >= frame.mem_total_mb > 0 ==> t == 100,
        frame.mem_used_mb <= frame.mem_total_mb ==> 0x2000 * (2 * distance(
            t * frame.mem_total_mb,
            100 * frame.mem_used_mb,
        ) - frame.mem_total_mb) <= frame.mem_total_mb,
{
    let f = Format::Single;
    let one = f.one();
    let (used, total) = (frame.mem_used_mb, frame.mem_total_mb);
    let share = memory_share(used, total);
    let v = product(f, share, whole(f, 100));
    lemma_accuracy(f);
    lemma_pow2_pos(24);
    lemma_one_is_large();
    lemma_whole_exact(f, 0);
    lemma_whole_exact(f, 1);
    lemma_whole_exact(f, 100);
    assert(0 * one == 0 && 1 * one == one) by (nonlinear_arith);
    law_memory_share_is_a_ratio(used, total);
    if total > 0 {
        lemma_ratio_close(used, total);
    }
    let s = exact(f, share);
    assert(!share->Finite_neg);
    // The percentage is at most a hundred.
    let top = whole(f, 100)->mag;
    assert(size(f, share) * (100 * one) <= one * (100 * one)) by (nonlinear_arith)
        requires
            size(f, share) <= one,
    ;
    lemma_rounding_respects(f, size(f, share) * (100 * one), one, top);
    assert(v is Finite && !v->Finite_neg);
    lemma_product_close(f, share, whole(f, 100));
    let t = law_no_places_is_the_nearest_number(v);
    let p = exact(f, v);
    assert(no_places(v) =~= decimal(t));
    assert(tooltip(TooltipMetric::Memory, frame) =~= "Memory "@ + decimal(used as nat) + " MB / "@
        + decimal(total as nat) + " MB ("@ + decimal(t) + "%)"@);
    if s == 0 {
        assert(0 * (100 * one) == 0 && one * 0 == 0) by (nonlinear_arith);
        lemma_nearest_exact(24, 0, one, 0);
        assert(t == 0) by (nonlinear_arith)
            requires
                2 * (t * one) <= one,
                one > 0,
        ;
    }
    if used >= total && total > 0 {
        law_full_memory_is_one(used, total);
        lemma_nearest_exact(24, one * (100 * one), one, top);
        assert(p == 100 * one);
        lemma_near_multiple(t, 100, one);
    }
    if used <= total && total > 0 {
        law_share_of_the_memory(used, total);
        assert(0xff_ffff * distance(p, 100 * s) <= 100 * s + 0xff_ffff) by (nonlinear_arith)
            requires
                0xff_ffff * distance(p * one, s * (100 * one)) <= s * (100 * one) + 0xff_ffff
                    * one,
                one > 0,
        ;
        let e = (t * one) as int;
        let (x, y, z, w) = (t * total * one, p * total, 100 * s * total, 100 * used * one);
        let u = total * one;
        assert(2 * distance(x, y) <= u) by (nonlinear_arith)
            requires
                2 * distance(e, p) <= one,
                e == t * one,
                x == t * total * one,
                y == p * total,
                u == total * one,
                total > 0,
        ;
        assert(0xff_ffff * distance(y, z) <= 100 * u + 0xff_ffff * total) by (nonlinear_arith)
            requires
                0xff_ffff * distance(p, 100 * s) <= 100 * s + 0xff_ffff,
                s <= one,
                y == p * total,
                z == 100 * s * total,
                u == total * one,
                total > 0,
        ;
        let (k, l) = (s * total, used * one);
        assert(z == 100 * k && w == 100 * l) by (nonlinear_arith)
            requires
                z == 100 * s * total,
                k == s * total,
                w == 100 * used * one,
                l == used * one,
        ;
        assert(0x40_0000 * distance(k, l) <= u);
        assert(0x1_0000_0000_0000 * total <= u) by (nonlinear_arith)
            requires
                u == total * one,
                one >= 0x1000_0000_0000_0000,
        ;
        assert(0x2000 * (2 * distance(x, w) - u) <= u);
        let (a, b) = (t * total, 100 * used);
        assert(0x2000 * (2 * distance(a, b) - total) <= total) by (nonlinear_arith)
            requires
                0x2000 * (2 * distance(a * one, b * one) - total * one) <= total * one,
                one > 0,
        ;
    }
    t
}

/// A whole number that is within a half of another one is that one.
proof fn lemma_near_multiple(t: nat, n: nat, one: nat)
    requires
        one > 0,
        2 * distance((n * one) as int, (t * one) as int) <= one,
    ensures
        t == n,
{
    assert(t == n) by (nonlinear_arith)
        requires
            one > 0,
            -(one as int) <= 2 * (n * one) - 2 * (t * one) <= one,
    ;
}

/// Each tooltip depends on what it tells alone.
pub proof fn law_tooltips_depend_on_their_values(frame: TelemetryFrame, other: TelemetryFrame)
    ensures
        frame.cpu_total == other.cpu_total ==> tooltip(TooltipMetric::Cpu, frame) == tooltip(
            TooltipMetric::Cpu,
            other,
        ),
        frame.mem_used_mb == other.mem_used_mb && frame.mem_total_mb == other.mem_total_mb
            ==> tooltip(TooltipMetric::Memory, frame) == tooltip(TooltipMetric::Memory, other),
        frame.net_in_bytes_sec == other.net_in_bytes_sec && frame.net_out_bytes_sec
            == other.net_out_bytes_sec ==> tooltip(TooltipMetric::Network, frame) == tooltip(
            TooltipMetric::Network,
            other,
        ),
        frame.temp_celsius == other.temp_celsius ==> tooltip(TooltipMetric::Temperature, frame)
            == tooltip(TooltipMetric::Temperature, other),
{
}

/// A tooltip lies over each item, and its user data leads to that item; data of no
/// item means the processor.
pub proof fn law_tooltips_lie_over_their_items(bounds: RectView, data: usize)
    ensures
        ({
            let places = tooltip_places(bounds);
            &&& places.len() == 4
            &&& places[0].0 == cpu_item(bounds) && metric_of(places[0].1) == TooltipMetric::Cpu
            &&& places[1].0 == memory_item(bounds) && metric_of(places[1].1)
                == TooltipMetric::Memory
            &&& places[2].0 == network_item(bounds) && metric_of(places[2].1)
                == TooltipMetric::Network
            &&& places[3].0 == temperature_item(bounds) && metric_of(places[3].1)
                == TooltipMetric::Temperature
            &&& data != places[1].1 && data != places[2].1 && data != places[3].1 ==> metric_of(
                data,
            ) == TooltipMetric::Cpu
            &&& places[0].1 != 0
        }),
{
}

/// The whole points of a length: as many as fit, none below zero, and no more than
/// 32 bits hold.
pub proof fn law_whole_points_fit(v: Value)
    requires
        v is Finite,
    ensures
        ({
            let n = truncated(Format::Double, v);
            let one = Format::Double.one();
            let x = exact(Format::Double, v);
            &&& x <= 0 ==> n == 0
            &&& x >= 0 ==> n * one <= x
            &&& 0 <= x < 0x1_0000_0000 * one ==> x < (n + 1) * one
            &&& x >= 0x1_0000_0000 * one ==> n == u32::MAX
        }),
{
    let f = Format::Double;
    let one = f.one();
    let m = size(f, v);
    lemma_pow2_pos(f.scale());
    vstd::arithmetic::div_mod::lemma_fundamental_div_mod(m as int, one as int);
    vstd::arithmetic::div_mod::lemma_mod_bound(m as int, one as int);
    let q = m / one;
    let n = truncated(f, v);
    assert(one * q == q * one && (q + 1) * one == q * one + one) by (nonlinear_arith);
    if q > u32::MAX {
        assert(0x1_0000_0000 * one <= q * one) by (nonlinear_arith)
            requires
                q >= 0x1_0000_0000,
        ;
    }
    if m >= 0x1_0000_0000 * one {
        assert(q >= 0x1_0000_0000) by (nonlinear_arith)
            requires
                0x1_0000_0000 * one < (q + 1) * one,
                one > 0,
        ;
    }
    if m == 0 {
        assert(q == 0) by (nonlinear_arith)
            requires
                q * one <= 0,
                one > 0,
                q >= 0,
        ;
    }
    if v->Finite_neg {
        assert(n == 0);
    } else if n as nat != q {
        assert(n * one <= q * one) by (nonlinear_arith)
            requires
                n <= q,
        ;
    }
    assert(0 * one == 0) by (nonlinear_arith);
}

/// Pointer events keep where and how the button was used: the distance from the
/// left edge, that from the upper edge, and whether it was pressed, up to the
/// rounding of single precision.
pub proof fn law_pointer_events_keep_their_place(
    event: PointerEvent,
    point: PointView,
    bounds: RectView,
    pressed: bool,
)
    requires
        is_pointer_event(event, point, bounds, pressed),
        point.x is Finite,
        point.y is Finite,
        bounds.height is Finite,
        event.x@ is Finite,
        event.y@ is Finite,
    ensures
        ({
            let (s, f) = (Format::Single, Format::Double);
            let (x, y) = (exact(s, event.x@) * f.one(), exact(s, event.y@) * f.one());
            let left = exact(f, point.x) * s.one();
            let top = (exact(f, bounds.height) - exact(f, point.y)) * s.one();
            &&& 0x40_0000 * distance(x, left) <= distance(left, 0) + 0x80_0000 * f.one()
            &&& 0x40_0000 * distance(y, top) <= distance(top, 0) + 0x80_0000 * f.one()
            &&& event.pressed == pressed
        }),
{
    let (s, f) = (Format::Single, Format::Double);
    lemma_accuracy(s);
    lemma_accuracy(f);
    let v = minus(bounds.height, point.y);
    assert(v is Finite);
    lemma_narrowed_close(point.x);
    lemma_narrowed_close(v);
    lemma_sum_close(f, bounds.height, negated(point.y));
    let (small, one) = (s.one(), f.one());
    let (a, b) = (exact(f, v), exact(f, bounds.height) - exact(f, point.y));
    let (c, d) = (a * small, b * small);
    let e = distance(b, 0);
    assert(0x1f_ffff_ffff_ffff * distance(c, d) <= distance(d, 0)) by (nonlinear_arith)
        requires
            0x1f_ffff_ffff_ffff * distance(a, b) <= distance(b, 0),
            c == a * small,
            d == b * small,
            small > 0,
    ;
}

/// A point is counted from the top: its distance from the left edge stays, that from
/// the lower edge becomes that from the upper one.
pub proof fn law_points_are_counted_from_the_top(point: PointView, bounds: RectView)
    requires
        point.y is Finite,
        bounds.height is Finite,
        flipped(point, bounds).y is Finite,
    ensures
        ({
            let f = Format::Double;
            let top = exact(f, bounds.height) - exact(f, point.y);
            &&& flipped(point, bounds).x == point.x
            &&& 0x1f_ffff_ffff_ffff * distance(exact(f, flipped(point, bounds).y), top) <= distance(
                top,
                0,
            )
        }),
{
    lemma_sum_close(Format::Double, bounds.height, negated(point.y));
}

/// What a number of 64 bits is in 32 bits.
proof fn lemma_narrowed_close(v: Value)
    requires
        v is Finite,
        converted(Format::Double, Format::Single, v) is Finite,
    ensures
        ({
            let (s, f) = (Format::Single, Format::Double);
            let x = exact(s, converted(f, s, v)) * f.one();
            let y = exact(f, v) * s.one();
            0xff_ffff * distance(x, y) <= distance(y, 0) + 0xff_ffff * f.one()
        }),
{
    let (s, f) = (Format::Single, Format::Double);
    lemma_accuracy(f);
    let n = size(f, v);
    lemma_nearest_close(s, n * s.one(), f.one());
    let m = units(24, nearest(24, n * s.one(), f.one()));
    let (small, one) = (s.one(), f.one());
    assert((-(n as int)) * small == -(n * small) && (-(m as int)) * one == -(m * one) && n * small
        >= 0) by (nonlinear_arith);
}

/// After a frame was handed over exactly the views that exist are drawn again, the
/// one in the menu bar first.
pub proof fn law_existing_views_are_redrawn(menu_view: usize, canvas_view: usize)
    ensures
        ({
            let all = redraws(menu_view, canvas_view);
            &&& menu_view == 0 && canvas_view == 0 ==> all.len() == 0
            &&& menu_view != 0 ==> all[0] == Redraw::MenuBar(menu_view)
            &&& canvas_view != 0 ==> all.len() > 0 && all.last() == Redraw::Canvas(canvas_view)
            &&& all.len() == (if menu_view != 0 {
                1int
            } else {
                0
            }) + (if canvas_view != 0 {
                1int
            } else {
                0
            })
        }),
{
}

/// The canvas renders the frame that it is given, in the size of its bounds: the
/// surface follows them unless they are empty, and is set up anew only where its
/// size changes. The panel is that of the frame and all events are handed over.
pub proof fn law_canvas_shows_the_frame<F>(
    before: AetherCanvasView<F>,
    frame: TelemetryFrame,
    events: Seq<PointerEvent>,
    bounds: RectView,
    after: AetherCanvasView<F>,
    request: Option<RenderRequest>,
)
    requires
        before.shows(frame, events, bounds, after, request),
    ensures
        before.ivars.gpu_engine is None ==> request is None && after.ivars.pending_events@
            == events && after.ivars.gpu_engine is None,
        after.ivars.telemetry == before.ivars.telemetry,
        before.ivars.gpu_engine is Some ==> ({
            let (width, height) = (
                truncated(Format::Double, bounds.width),
                truncated(Format::Double, bounds.height),
            );
            let old_config = before.ivars.gpu_engine->0.configuration();
            let config = after.ivars.gpu_engine->0.configuration();
            let r = request->0;
            let one = Format::Single.one();
            &&& request is Some
            &&& after.ivars.gpu_engine is Some
            &&& width == 0 || height == 0 ==> config == old_config && !r.reconfigure
            &&& width != 0 && height != 0 ==> config.width == width && config.height == height && (
            r.reconfigure <==> old_config.width != width || old_config.height != height)
            &&& config.format == old_config.format
            &&& config.width < 0x100_0000 ==> exact(Format::Single, r.input.screen_width@)
                == config.width * one
            &&& config.height < 0x100_0000 ==> exact(Format::Single, r.input.screen_height@)
                == config.height * one
            &&& r.input.panel@ == monitor_panel(frame)
            &&& r.input.events@ == events
            &&& after.ivars.pending_events@.len() == 0
        }),
{
    if before.ivars.gpu_engine is Some {
        let config = after.ivars.gpu_engine->0.configuration();
        if config.width < 0x100_0000 {
            lemma_whole_exact(Format::Single, config.width as nat);
        }
        if config.height < 0x100_0000 {
            lemma_whole_exact(Format::Single, config.height as nat);
        }
    }
}

/// A surface takes over every size that is not empty, keeps all else, and is set
/// up anew exactly where its size changes.
pub proof fn law_resize_takes_the_size_over<F>(
    config: SurfaceConfiguration<F>,
    width: u32,
    height: u32,
)
    ensures
        ({
            let after = resized(config, width, height);
            &&& width > 0 && height > 0 ==> after.width == width && after.height == height
            &&& width == 0 || height == 0 ==> after == config
            &&& after.format == config.format
            &&& after.fifo == config.fifo
            &&& after.desired_maximum_frame_latency == config.desired_maximum_frame_latency
            &&& after.post_multiplied_alpha == config.post_multiplied_alpha
            &&& needs_resize(config, width, height) <==> after.width != config.width || after.height
                != config.height
        }),
{
}

/// A new surface has the size that was asked for, at least one in each direction,
/// and the given format; all else is the same for every surface.
pub proof fn law_new_surface_has_its_size<F>(
    format: F,
    width: u32,
    height: u32,
    other: F,
    other_width: u32,
    other_height: u32,
)
    ensures
        ({
            let config = configuration_for(format, width, height);
            let another = configuration_for(other, other_width, other_height);
            &&& config.format == format
            &&& width > 0 ==> config.width == width
            &&& height > 0 ==> config.height == height
            &&& width == 0 ==> config.width == 1
            &&& height == 0 ==> config.height == 1
            &&& config.fifo && config.post_multiplied_alpha
            &&& config.desired_maximum_frame_latency == another.desired_maximum_frame_latency == 2
        }),
{
}

/// A frame is shown in this order: shapes become triangles, every changed texture
/// is uploaded once, the vertices are uploaded, the frame is drawn, every unused
/// texture is given up once, both groups of commands are submitted, those of
/// uploading first, and the surface is shown.
pub proof fn law_steps_of_a_frame(changed: usize, unused: usize, i: int, j: int)
    requires
        changed + unused < usize::MAX,
        0 <= i < changed,
        0 <= j < unused,
    ensures
        ({
            let steps = render_steps(changed as nat, unused as nat);
            &&& steps.len() == changed + unused + 6
            &&& steps[0] == RenderStep::Tessellate
            &&& steps[1 + i] == RenderStep::UpdateTexture(i as usize)
            &&& steps[1 + changed] == RenderStep::UpdateBuffers
            &&& steps[2 + changed] == RenderStep::DrawPass
            &&& steps[3 + changed + j] == RenderStep::FreeTexture(j as usize)
            &&& steps[3 + changed + unused] == RenderStep::SubmitBuffers
            &&& steps[4 + changed + unused] == RenderStep::SubmitPass
            &&& steps[5 + changed + unused] == RenderStep::Present
        }),
{
}

/// Without textures the other steps are the same.
pub proof fn law_steps_without_textures(count: usize)
    requires
        count < usize::MAX,
    ensures
        render_steps(0, count as nat).take(3) == seq![
            RenderStep::Tessellate,
            RenderStep::UpdateBuffers,
            RenderStep::DrawPass,
        ],
        render_steps(count as nat, 0).skip(count + 1) == seq![
            RenderStep::UpdateBuffers,
            RenderStep::DrawPass,
            RenderStep::SubmitBuffers,
            RenderStep::SubmitPass,
            RenderStep::Present,
        ],
        render_steps(count as nat, 0).len() == count + 6,
        render_steps(0, count as nat).len() == count + 6,
{
    assert(render_steps(0, count as nat).take(3) =~= seq![
        RenderStep::Tessellate,
        RenderStep::UpdateBuffers,
        RenderStep::DrawPass,
    ]);
    assert(render_steps(count as nat, 0).skip(count + 1) =~= seq![
        RenderStep::UpdateBuffers,
        RenderStep::DrawPass,
        RenderStep::SubmitBuffers,
        RenderStep::SubmitPass,
        RenderStep::Present,
    ]);
}

/// Messages end in the error that they report, behind words that are the same for
/// every error of their kind; the kinds can be told apart.
pub proof fn law_messages_name_their_error(error: String, other: String)
    ensures
        ({
            let surface = GpuInitError::SurfaceCreation(error).text();
            let device = GpuInitError::DeviceRequest(error).text();
            let render = render_failure(error@);
            &&& surface == "failed to bind Metal surface: "@ + error@
            &&& device == "Metal device request failed: "@ + error@
            &&& render == "AetherCanvasView render failed: "@ + error@
            &&& GpuInitError::NoAdapter.text() == "no Metal adapter found"@
            &&& surface != GpuInitError::DeviceRequest(other).text()
            &&& surface == GpuInitError::SurfaceCreation(other).text() ==> error@ == other@
            &&& device == GpuInitError::DeviceRequest(other).text() ==> error@ == other@
        }),
{
    reveal_strlit("failed to bind Metal surface: ");
    reveal_strlit("Metal device request failed: ");
    let surface = GpuInitError::SurfaceCreation(error).text();
    let device = GpuInitError::DeviceRequest(error).text();
    assert(surface[0] == 'f');
    assert(GpuInitError::DeviceRequest(other).text()[0] == 'M');
    assert(surface.skip(30) =~= error@);
    assert(GpuInitError::SurfaceCreation(other).text().skip(30) =~= other@);
    assert(device.skip(29) =~= error@);
    assert(GpuInitError::DeviceRequest(other).text().skip(29) =~= other@);
}

} // verus!
