//! What the menu bar view draws, as a list of strokes and fills.

use vstd::prelude::*;

use crate::float::{Double, Single};
use crate::geometry::{
    cpu_item, in_tenths, larger, memory_item, menu_bar_item_rects, minus, network_item, num, number,
    over, panel_of, plus, temperature_item, tenths, times, MenuBarItemRects, Point, PointView, Rect,
    RectView,
};
use crate::telemetry::TelemetryFrame;
use crate::value::{
    at_least, clamped, converted, fraction, lesser_of, quotient, whole, Format, Value,
};

verus! {

/// A color with components from zero to one.
#[derive(Clone, Copy, Debug)]
pub struct Color {
    pub red: Double,
    pub green: Double,
    pub blue: Double,
    pub alpha: Double,
}

/// What a `Color` stands for.
pub struct ColorView {
    pub red: Value,
    pub green: Value,
    pub blue: Value,
    pub alpha: Value,
}

/// The color with the given components in thousandths.
pub open spec fn thousandths(red: nat, green: nat, blue: nat, alpha: nat) -> ColorView {
    ColorView {
        red: fraction(Format::Double, red, 1000),
        green: fraction(Format::Double, green, 1000),
        blue: fraction(Format::Double, blue, 1000),
        alpha: fraction(Format::Double, alpha, 1000),
    }
}

impl Color {
    pub open spec fn view(&self) -> ColorView {
        ColorView {
            red: self.red@,
            green: self.green@,
            blue: self.blue@,
            alpha: self.alpha@,
        }
    }

    /// The color with the given components in thousandths.
    pub fn from_thousandths(red: u64, green: u64, blue: u64, alpha: u64) -> (c: Color)
        ensures
            c@ == thousandths(red as nat, green as nat, blue as nat, alpha as nat),
    {
        Color {
            red: Double::from_fraction(red, 1000),
            green: Double::from_fraction(green, 1000),
            blue: Double::from_fraction(blue, 1000),
            alpha: Double::from_fraction(alpha, 1000),
        }
    }
}

/// One step of a drawing.
#[derive(Debug)]
pub enum DrawOp {
    /// Fill a rectangle with round corners.
    Fill { rect: Rect, radius: Double, color: Color },
    /// Draw along the edge of a rectangle with round corners.
    Stroke { rect: Rect, radius: Double, color: Color, line_width: Double },
    /// Draw a line from point to point.
    Line { points: Vec<Point>, color: Color, line_width: Double },
}

/// What a `DrawOp` stands for.
pub enum DrawView {
    Fill { rect: RectView, radius: Value, color: ColorView },
    Stroke { rect: RectView, radius: Value, color: ColorView, line_width: Value },
    Line { points: Seq<PointView>, color: ColorView, line_width: Value },
}

/// What points stand for.
pub open spec fn path(points: Seq<Point>) -> Seq<PointView> {
    points.map_values(|p: Point| p@)
}

impl DrawOp {
    pub open spec fn view(&self) -> DrawView {
        match *self {
            DrawOp::Fill { rect, radius, color } => DrawView::Fill {
                rect: rect@,
                radius: radius@,
                color: color@,
            },
            DrawOp::Stroke { rect, radius, color, line_width } => DrawView::Stroke {
                rect: rect@,
                radius: radius@,
                color: color@,
                line_width: line_width@,
            },
            DrawOp::Line { points, color, line_width } => DrawView::Line {
                points: path(points@),
                color: color@,
                line_width: line_width@,
            },
        }
    }
}

/// What a list of steps stands for.
pub open spec fn drawing(ops: Seq<DrawOp>) -> Seq<DrawView> {
    ops.map_values(|op: DrawOp| op@)
}

/// Appends one step.
fn put(ops: &mut Vec<DrawOp>, op: DrawOp)
    ensures
        drawing(final(ops)@) == drawing(old(ops)@).push(op@),
{
    let ghost before = ops@;
    ops.push(op);
    assert(drawing(ops@) =~= drawing(before).push(op@));
}

/// Fills a rectangle with round corners.
pub fn fill_rounded_rect(rect: Rect, radius: Double, color: Color) -> (op: DrawOp)
    ensures
        op@ == (DrawView::Fill { rect: rect@, radius: radius@, color: color@ }),
{
    DrawOp::Fill { rect, radius, color }
}

/// Draws along the edge of a rectangle with round corners.
pub fn stroke_rounded_rect(rect: Rect, radius: Double, color: Color, line_width: Double) -> (op:
    DrawOp)
    ensures
        op@ == (DrawView::Stroke {
            rect: rect@,
            radius: radius@,
            color: color@,
            line_width: line_width@,
        }),
{
    DrawOp::Stroke { rect, radius, color, line_width }
}

/// A line between two items, three points inside the panel below and above.
pub open spec fn divider(x: Value, panel: RectView) -> DrawView {
    DrawView::Line {
        points: seq![
            PointView { x, y: plus(panel.y, num(3)) },
            PointView { x, y: minus(plus(panel.y, panel.height), num(3)) },
        ],
        color: thousandths(340, 370, 400, 550),
        line_width: tenths(6),
    }
}

/// Draws a divider.
pub fn draw_divider(x: Double, panel: Rect) -> (op: DrawOp)
    ensures
        op@ == divider(x@, panel@),
{
    let three = number(3);
    let mut points: Vec<Point> = Vec::new();
    points.push(Point::new(x, panel.origin.y.plus(three)));
    points.push(Point::new(x, panel.origin.y.plus(panel.size.height).minus(three)));
    proof {
        let d = divider(x@, panel@);
        assert(path(points@) =~= d->points);
    }
    DrawOp::Line {
        points,
        color: Color::from_thousandths(340, 370, 400, 550),
        line_width: in_tenths(6),
    }
}

/// A value of 32 bits as one of 64.
pub open spec fn widened(v: Value) -> Value {
    converted(Format::Single, Format::Double, v)
}

/// The point of a sparkline for the value at `i` of 60: from the left edge to the
/// right one, at the height of the value in percent.
pub open spec fn spark_point(bounds: RectView, i: nat, value: Value) -> PointView {
    let width = larger(bounds.width, num(1));
    let height = larger(bounds.height, num(1));
    let percent = clamped(Format::Double, widened(value), num(0), num(100));
    PointView {
        x: plus(bounds.x, times(num(i), over(width, num(59)))),
        y: plus(bounds.y, times(over(percent, num(100)), height)),
    }
}

/// A line through the points of a history.
pub open spec fn sparkline(
    bounds: RectView,
    values: Seq<Single>,
    color: ColorView,
    line_width: Value,
) -> DrawView {
    DrawView::Line {
        points: Seq::new(values.len(), |i: int| spark_point(bounds, i as nat, values[i]@)),
        color,
        line_width,
    }
}

/// Draws a history as a line.
pub fn draw_sparkline(
    bounds: Rect,
    values: &[Single; 60],
    color: Color,
    line_width: Double,
) -> (op: DrawOp)
    ensures
        op@ == sparkline(bounds@, values@, color@, line_width@),
{
    let (zero, one, hundred) = (number(0), number(1), number(100));
    let width = bounds.size.width.max(one);
    let height = bounds.size.height.max(one);
    let step = width.over(number(59));
    let mut points: Vec<Point> = Vec::new();
    let mut i: usize = 0;
    while i < 60
        invariant
            i <= 60,
            points.len() == i,
            zero@ == num(0),
            hundred@ == num(100),
            height@ == larger(bounds@.height, num(1)),
            step@ == over(larger(bounds@.width, num(1)), num(59)),
            forall|j: int|
                0 <= j < i ==> (#[trigger] points@[j])@ == spark_point(
                    bounds@,
                    j as nat,
                    values@[j]@,
                ),
        decreases 60 - i,
    {
        let x = bounds.origin.x.plus(number(i as u64).times(step));
        let percent = values[i].widen().clamp(zero, hundred);
        let y = bounds.origin.y.plus(percent.over(hundred).times(height));
        points.push(Point::new(x, y));
        i = i + 1;
    }
    proof {
        let line = sparkline(bounds@, values@, color@, line_width@);
        assert(path(points@) =~= line->points);
    }
    DrawOp::Line { points, color, line_width }
}

/// The width of a processor bar: eight bars and the gaps between them fill the
/// bounds, but no bar is narrower than a point.
pub open spec fn bar_width(bounds: RectView) -> Value {
    larger(
        over(minus(bounds.width, times(tenths(12), minus(num(8), num(1)))), num(8)),
        num(1),
    )
}

/// The bar at `i` of eight, as high as the load in percent, but at least a point.
pub open spec fn cpu_bar(bounds: RectView, i: nat, load: Value) -> DrawView {
    let percent = clamped(
        Format::Single,
        load,
        whole(Format::Single, 0),
        whole(Format::Single, 100),
    );
    DrawView::Fill {
        rect: RectView {
            x: plus(bounds.x, times(num(i), plus(bar_width(bounds), tenths(12)))),
            y: bounds.y,
            width: bar_width(bounds),
            height: larger(over(times(bounds.height, widened(percent)), num(100)), num(1)),
        },
        radius: tenths(9),
        color: thousandths(350, 880, 1000, 850),
    }
}

/// One bar for each of the eight newest loads.
pub open spec fn cpu_bars(bounds: RectView, values: Seq<Single>) -> Seq<DrawView> {
    Seq::new(8, |i: int| cpu_bar(bounds, i as nat, values[values.len() - 8 + i]@))
}

/// Draws the bars of the newest loads.
pub fn draw_cpu_bars(bounds: Rect, values: &[Single; 60], ops: &mut Vec<DrawOp>)
    ensures
        drawing(final(ops)@) == drawing(old(ops)@) + cpu_bars(bounds@, values@),
{
    let gap = in_tenths(12);
    let eight = number(8);
    let one = number(1);
    let width = bounds.size.width.minus(gap.times(eight.minus(one))).over(eight).max(one);
    let (low, high) = (Single::from_whole(0), Single::from_whole(100));
    let ghost before = drawing(ops@);
    let ghost bars = cpu_bars(bounds@, values@);
    let mut i: usize = 0;
    while i < 8
        invariant
            i <= 8,
            bars == cpu_bars(bounds@, values@),
            drawing(ops@) == before + bars.take(i as int),
            gap@ == tenths(12),
            one@ == num(1),
            width@ == bar_width(bounds@),
            low@ == whole(Format::Single, 0),
            high@ == whole(Format::Single, 100),
        decreases 8 - i,
    {
        let percent = values[52 + i].clamp(low, high);
        let height = bounds.size.height.times(percent.widen()).over(number(100)).max(one);
        let x = bounds.origin.x.plus(number(i as u64).times(width.plus(gap)));
        let rect = Rect::new(x, bounds.origin.y, width, height);
        let op = fill_rounded_rect(
            rect,
            in_tenths(9),
            Color::from_thousandths(350, 880, 1000, 850),
        );
        assert(op@ == bars[i as int]);
        put(ops, op);
        assert(bars.take(i + 1) =~= bars.take(i as int).push(bars[i as int]));
        assert(drawing(ops@) =~= before + bars.take(i + 1));
        i = i + 1;
    }
    assert(bars.take(8) =~= bars);
}

/// A meter that is filled from the left up to `ratio`.
pub open spec fn level_meter(bounds: RectView, ratio: Value, fill: ColorView) -> Seq<DrawView> {
    let level = clamped(
        Format::Single,
        ratio,
        whole(Format::Single, 0),
        whole(Format::Single, 1),
    );
    seq![
        DrawView::Fill {
            rect: bounds,
            radius: tenths(14),
            color: thousandths(120, 140, 160, 950),
        },
        DrawView::Fill {
            rect: RectView { width: times(bounds.width, widened(level)), ..bounds },
            radius: tenths(14),
            color: fill,
        },
        DrawView::Stroke {
            rect: bounds,
            radius: tenths(14),
            color: thousandths(370, 400, 440, 620),
            line_width: tenths(5),
        },
    ]
}

/// Draws a meter: its ground, its filled part and its edge.
pub fn draw_level_meter(bounds: Rect, ratio: Single, fill_color: Color, ops: &mut Vec<DrawOp>)
    ensures
        drawing(final(ops)@) == drawing(old(ops)@) + level_meter(bounds@, ratio@, fill_color@),
{
    let ghost before = drawing(ops@);
    let radius = in_tenths(14);
    put(ops, fill_rounded_rect(bounds, radius, Color::from_thousandths(120, 140, 160, 950)));
    let level = ratio.clamp(Single::from_whole(0), Single::from_whole(1));
    let fill_rect = Rect::new(
        bounds.origin.x,
        bounds.origin.y,
        bounds.size.width.times(level.widen()),
        bounds.size.height,
    );
    put(ops, fill_rounded_rect(fill_rect, radius, fill_color));
    put(
        ops,
        stroke_rounded_rect(
            bounds,
            radius,
            Color::from_thousandths(370, 400, 440, 620),
            in_tenths(5),
        ),
    );
    assert(drawing(ops@) =~= before + level_meter(bounds@, ratio@, fill_color@));
}

/// The color of a temperature: red from 80 degrees, amber from 60, else green.
pub open spec fn gauge_color(temperature: Value) -> ColorView {
    if at_least(Format::Single, temperature, whole(Format::Single, 80)) {
        thousandths(1000, 280, 220, 950)
    } else if at_least(Format::Single, temperature, whole(Format::Single, 60)) {
        thousandths(1000, 680, 200, 950)
    } else {
        thousandths(710, 930, 350, 950)
    }
}

/// A bulb, at most eight points wide, and a meter to the right of it.
pub open spec fn temperature_gauge(bounds: RectView, temperature: Value) -> Seq<DrawView> {
    let bulb = lesser_of(Format::Double, bounds.height, num(8));
    let ratio = clamped(
        Format::Single,
        quotient(Format::Single, temperature, whole(Format::Single, 100)),
        whole(Format::Single, 0),
        whole(Format::Single, 1),
    );
    let stem = RectView {
        x: plus(plus(bounds.x, bulb), num(3)),
        y: plus(bounds.y, num(2)),
        width: minus(minus(bounds.width, bulb), num(3)),
        height: minus(bounds.height, num(4)),
    };
    seq![
        DrawView::Fill {
            rect: RectView { x: bounds.x, y: bounds.y, width: bulb, height: bulb },
            radius: over(bulb, num(2)),
            color: gauge_color(temperature),
        },
    ] + level_meter(stem, ratio, gauge_color(temperature))
}

/// Draws the bulb and the meter of a temperature up to 100 degrees.
pub fn draw_temperature_gauge(bounds: Rect, temperature: Single, ops: &mut Vec<DrawOp>)
    ensures
        drawing(final(ops)@) == drawing(old(ops)@) + temperature_gauge(bounds@, temperature@),
{
    let ghost before = drawing(ops@);
    let ratio = temperature.over(Single::from_whole(100)).clamp(
        Single::from_whole(0),
        Single::from_whole(1),
    );
    let fill_color = if temperature.is_at_least(Single::from_whole(80)) {
        Color::from_thousandths(1000, 280, 220, 950)
    } else if temperature.is_at_least(Single::from_whole(60)) {
        Color::from_thousandths(1000, 680, 200, 950)
    } else {
        Color::from_thousandths(710, 930, 350, 950)
    };
    let bulb_size = bounds.size.height.min(number(8));
    let bulb_rect = Rect::new(bounds.origin.x, bounds.origin.y, bulb_size, bulb_size);
    put(ops, fill_rounded_rect(bulb_rect, bulb_size.over(number(2)), fill_color));
    let three = number(3);
    let stem = Rect::new(
        bounds.origin.x.plus(bulb_size).plus(three),
        bounds.origin.y.plus(number(2)),
        bounds.size.width.minus(bulb_size).minus(three),
        bounds.size.height.minus(number(4)),
    );
    draw_level_meter(stem, ratio, fill_color, ops);
    assert(drawing(ops@) =~= before + temperature_gauge(bounds@, temperature@));
}

/// The share of the memory in use, from zero to one; zero where the total is
/// not known.
pub open spec fn memory_share(used_mb: u64, total_mb: u64) -> Value {
    if total_mb == 0 {
        whole(Format::Single, 0)
    } else {
        clamped(
            Format::Single,
            quotient(
                Format::Single,
                whole(Format::Single, used_mb as nat),
                whole(Format::Single, total_mb as nat),
            ),
            whole(Format::Single, 0),
            whole(Format::Single, 1),
        )
    }
}

/// The share of the memory in use.
pub fn memory_ratio_value(frame: &TelemetryFrame) -> (ratio: Single)
    ensures
        ratio@ == memory_share(frame.mem_used_mb, frame.mem_total_mb),
{
    let zero = Single::from_whole(0);
    if frame.mem_total_mb == 0 {
        return zero;
    }
    Single::from_whole(frame.mem_used_mb).over(Single::from_whole(frame.mem_total_mb)).clamp(
        zero,
        Single::from_whole(1),
    )
}

/// The line three and a half points to the right of an item.
pub open spec fn divider_after(left: RectView, panel: RectView) -> DrawView {
    divider(plus(plus(left.x, left.width), tenths(35)), panel)
}

fn draw_divider_after(left: Rect, panel: Rect) -> (op: DrawOp)
    ensures
        op@ == divider_after(left@, panel@),
{
    draw_divider(left.origin.x.plus(left.size.width).plus(in_tenths(35)), panel)
}

/// The panel with its edge, and the lines between the items.
pub open spec fn backdrop(bounds: RectView) -> Seq<DrawView> {
    let panel = panel_of(bounds);
    seq![
        DrawView::Fill { rect: panel, radius: tenths(45), color: thousandths(45, 51, 59, 960) },
        DrawView::Stroke {
            rect: panel,
            radius: tenths(45),
            color: thousandths(240, 270, 300, 720),
            line_width: tenths(6),
        },
        divider_after(cpu_item(bounds), panel),
        divider_after(memory_item(bounds), panel),
        divider_after(network_item(bounds), panel),
    ]
}

fn draw_backdrop(rects: MenuBarItemRects, Ghost(bounds): Ghost<RectView>) -> (ops: Vec<DrawOp>)
    requires
        rects.panel@ == panel_of(bounds),
        rects.cpu@ == cpu_item(bounds),
        rects.memory@ == memory_item(bounds),
        rects.network@ == network_item(bounds),
    ensures
        drawing(ops@) == backdrop(bounds),
{
    let radius = in_tenths(45);
    let mut ops: Vec<DrawOp> = Vec::new();
    put(&mut ops, fill_rounded_rect(rects.panel, radius, Color::from_thousandths(45, 51, 59, 960)));
    put(
        &mut ops,
        stroke_rounded_rect(
            rects.panel,
            radius,
            Color::from_thousandths(240, 270, 300, 720),
            in_tenths(6),
        ),
    );
    put(&mut ops, draw_divider_after(rects.cpu, rects.panel));
    put(&mut ops, draw_divider_after(rects.memory, rects.panel));
    put(&mut ops, draw_divider_after(rects.network, rects.panel));
    assert(drawing(ops@) =~= backdrop(bounds));
    ops
}

/// Everything that the menu bar view shows: the panel, the dividers, the
/// processor's bars, the memory's meter, the network's line and the gauge.
pub open spec fn activity_sparklines(bounds: RectView, frame: TelemetryFrame) -> Seq<DrawView> {
    backdrop(bounds) + cpu_bars(cpu_item(bounds), frame.cpu_history@) + level_meter(
        memory_item(bounds),
        memory_share(frame.mem_used_mb, frame.mem_total_mb),
        thousandths(450, 630, 1000, 920),
    ) + seq![
        sparkline(
            network_item(bounds),
            frame.net_activity_history@,
            thousandths(140, 910, 630, 960),
            fraction(Format::Double, 105, 100),
        ),
    ] + temperature_gauge(temperature_item(bounds), frame.temp_celsius@)
}

/// Draws the whole view in the menu bar.
pub fn draw_activity_sparklines(bounds: Rect, frame: &TelemetryFrame) -> (ops: Vec<DrawOp>)
    ensures
        drawing(ops@) == activity_sparklines(bounds@, *frame),
{
    let rects = menu_bar_item_rects(bounds);
    let mut ops = draw_backdrop(rects, Ghost(bounds@));
    draw_cpu_bars(rects.cpu, &frame.cpu_history, &mut ops);
    draw_level_meter(
        rects.memory,
        memory_ratio_value(frame),
        Color::from_thousandths(450, 630, 1000, 920),
        &mut ops,
    );
    let line = draw_sparkline(
        rects.network,
        &frame.net_activity_history,
        Color::from_thousandths(140, 910, 630, 960),
        Double::from_fraction(105, 100),
    );
    let ghost before = drawing(ops@);
    put(&mut ops, line);
    assert(before.push(line@) =~= before + seq![line@]);
    draw_temperature_gauge(rects.temperature, frame.temp_celsius, &mut ops);
    ops
}

} // verus!
