use aether_monitor::draw::{
    draw_activity_sparklines, draw_cpu_bars, draw_divider, draw_level_meter, draw_sparkline,
    draw_temperature_gauge, fill_rounded_rect, memory_ratio_value, stroke_rounded_rect, Color,
    DrawOp,
};
use aether_monitor::float::{Double, Single};
use aether_monitor::geometry::{
    content_frame, inset_rect, menu_bar_frame, menu_bar_item_rects, Rect,
};
use aether_monitor::telemetry::TelemetryFrame;

fn single(x: f32) -> Single {
    Single { bits: x.to_bits() }
}

fn double(x: f64) -> Double {
    Double { bits: x.to_bits() }
}

fn native(x: Double) -> f64 {
    f64::from_bits(x.bits)
}

type Box4 = [f64; 4];

fn rect(r: Box4) -> Rect {
    Rect::new(double(r[0]), double(r[1]), double(r[2]), double(r[3]))
}

fn box_of(r: &Rect) -> Box4 {
    [native(r.origin.x), native(r.origin.y), native(r.size.width), native(r.size.height)]
}

fn rgba(c: &Color) -> Box4 {
    [native(c.red), native(c.green), native(c.blue), native(c.alpha)]
}

fn color(c: Box4) -> Color {
    Color { red: double(c[0]), green: double(c[1]), blue: double(c[2]), alpha: double(c[3]) }
}

#[derive(Debug, PartialEq)]
enum Op {
    Fill(Box4, f64, Box4),
    Stroke(Box4, f64, Box4, f64),
    Line(Vec<(f64, f64)>, Box4, f64),
}

fn op_of(op: &DrawOp) -> Op {
    match op {
        DrawOp::Fill { rect, radius, color } => {
            Op::Fill(box_of(rect), native(*radius), rgba(color))
        }
        DrawOp::Stroke { rect, radius, color, line_width } => {
            Op::Stroke(box_of(rect), native(*radius), rgba(color), native(*line_width))
        }
        DrawOp::Line { points, color, line_width } => Op::Line(
            points.iter().map(|p| (native(p.x), native(p.y))).collect(),
            rgba(color),
            native(*line_width),
        ),
    }
}

fn ops_of(ops: &[DrawOp]) -> Vec<Op> {
    ops.iter().map(op_of).collect()
}

fn native_inset(r: Box4, x: f64, y: f64) -> Box4 {
    [r[0] + x, r[1] + y, (r[2] - x * 2.0).max(0.0), (r[3] - y * 2.0).max(0.0)]
}

/// The panel and the four items.
fn native_items(bounds: Box4) -> [Box4; 5] {
    let panel = native_inset(bounds, 1.0, 2.0);
    let (y, h) = (panel[1] + 4.0, panel[3] - 8.0);
    let cpu = [panel[0] + 5.0, y, 25.0, h];
    let memory = [cpu[0] + cpu[2] + 7.0, y, 18.0, h];
    let network = [memory[0] + memory[2] + 7.0, y, 43.0, h];
    let temperature = [network[0] + network[2] + 7.0, y, 21.0, h];
    [panel, cpu, memory, network, temperature]
}

fn native_divider(x: f64, panel: Box4) -> Op {
    Op::Line(
        vec![(x, panel[1] + 3.0), (x, panel[1] + panel[3] - 3.0)],
        [0.34, 0.37, 0.40, 0.55],
        0.6,
    )
}

fn native_sparkline(bounds: Box4, values: &[f32; 60], color: Box4, line_width: f64) -> Op {
    let width = bounds[2].max(1.0);
    let height = bounds[3].max(1.0);
    let step = width / 59.0;
    let mut points = Vec::new();
    for (index, value) in values.iter().enumerate() {
        let x = bounds[0] + index as f64 * step;
        let y = bounds[1] + (f64::from(*value).clamp(0.0, 100.0) / 100.0 * height);
        points.push((x, y));
    }
    Op::Line(points, color, line_width)
}

fn native_bars(bounds: Box4, values: &[f32; 60]) -> Vec<Op> {
    let slots = 8;
    let gap = 1.2;
    let bar_width = ((bounds[2] - gap * (slots as f64 - 1.0)) / slots as f64).max(1.0);
    let mut ops = Vec::new();
    for index in 0..slots {
        let value = values[values.len() - slots + index].clamp(0.0, 100.0);
        let height = (bounds[3] * f64::from(value) / 100.0).max(1.0);
        ops.push(Op::Fill(
            [bounds[0] + index as f64 * (bar_width + gap), bounds[1], bar_width, height],
            0.9,
            [0.35, 0.88, 1.0, 0.85],
        ));
    }
    ops
}

fn native_meter(bounds: Box4, ratio: f32, fill: Box4) -> Vec<Op> {
    let fill_width = bounds[2] * f64::from(ratio.clamp(0.0, 1.0));
    vec![
        Op::Fill(bounds, 1.4, [0.12, 0.14, 0.16, 0.95]),
        Op::Fill([bounds[0], bounds[1], fill_width, bounds[3]], 1.4, fill),
        Op::Stroke(bounds, 1.4, [0.37, 0.40, 0.44, 0.62], 0.5),
    ]
}

fn native_gauge(bounds: Box4, temperature: f32) -> Vec<Op> {
    let ratio = (temperature / 100.0).clamp(0.0, 1.0);
    let fill = if temperature >= 80.0 {
        [1.0, 0.28, 0.22, 0.95]
    } else if temperature >= 60.0 {
        [1.0, 0.68, 0.20, 0.95]
    } else {
        [0.71, 0.93, 0.35, 0.95]
    };
    let bulb = bounds[3].min(8.0);
    let mut ops = vec![Op::Fill([bounds[0], bounds[1], bulb, bulb], bulb / 2.0, fill)];
    let stem =
        [bounds[0] + bulb + 3.0, bounds[1] + 2.0, bounds[2] - bulb - 3.0, bounds[3] - 4.0];
    ops.extend(native_meter(stem, ratio, fill));
    ops
}

fn native_share(used: u64, total: u64) -> f32 {
    if total == 0 {
        return 0.0;
    }
    (used as f32 / total as f32).clamp(0.0, 1.0)
}

fn histories(seed: u64) -> [f32; 60] {
    let mut state = seed;
    let mut values = [0.0f32; 60];
    for v in values.iter_mut() {
        state = state.wrapping_mul(6364136223846793005).wrapping_add(1442695040888963407);
        *v = ((state >> 33) % 14_000) as f32 / 100.0 - 20.0;
    }
    values
}

fn in_bits(values: &[f32; 60]) -> [Single; 60] {
    let mut bits = [single(0.0); 60];
    for i in 0..60 {
        bits[i] = single(values[i]);
    }
    bits
}

const BOUNDS: [Box4; 5] = [
    [0.0, 0.0, 136.0, 22.0],
    [3.25, -1.5, 201.7, 30.1],
    [0.0, 0.0, 0.5, 0.5],
    [0.1, 0.2, 12.3, 13.7],
    [1e6, 1e-3, 77.0, 11.0],
];

#[test]
fn frames_have_their_size() {
    assert_eq!(box_of(&menu_bar_frame()), [0.0, 0.0, 136.0, 22.0]);
    assert_eq!(box_of(&content_frame()), [0.0, 0.0, 360.0, 240.0]);
}

#[test]
fn insets_stop_at_zero() {
    let inset = |r: Box4, x: f64, y: f64| box_of(&inset_rect(rect(r), double(x), double(y)));
    assert_eq!(inset([0.0, 0.0, 136.0, 22.0], 1.0, 2.0), [1.0, 2.0, 134.0, 18.0]);
    assert_eq!(inset([5.0, 5.0, 1.0, 3.0], 1.0, 2.0), [6.0, 7.0, 0.0, 0.0]);
    for bounds in BOUNDS {
        assert_eq!(inset(bounds, 0.3, 0.7), native_inset(bounds, 0.3, 0.7));
    }
}

#[test]
fn items_of_the_menu_bar() {
    let rects = menu_bar_item_rects(menu_bar_frame());
    assert_eq!(box_of(&rects.panel), [1.0, 2.0, 134.0, 18.0]);
    assert_eq!(box_of(&rects.cpu), [6.0, 6.0, 25.0, 10.0]);
    assert_eq!(box_of(&rects.memory), [38.0, 6.0, 18.0, 10.0]);
    assert_eq!(box_of(&rects.network), [63.0, 6.0, 43.0, 10.0]);
    assert_eq!(box_of(&rects.temperature), [113.0, 6.0, 21.0, 10.0]);
    for bounds in BOUNDS {
        let rects = menu_bar_item_rects(rect(bounds));
        let items = [rects.panel, rects.cpu, rects.memory, rects.network, rects.temperature];
        for (item, expected) in items.iter().zip(native_items(bounds)) {
            assert_eq!(box_of(item), expected);
        }
    }
}

#[test]
fn items_do_not_overlap() {
    for bounds in BOUNDS {
        let rects = menu_bar_item_rects(rect(bounds));
        let row = [rects.cpu, rects.memory, rects.network, rects.temperature];
        for pair in row.windows(2) {
            let (left, right) = (box_of(&pair[0]), box_of(&pair[1]));
            assert!(right[0] >= left[0] + left[2]);
        }
    }
}

#[test]
fn fills_and_strokes_keep_what_they_are_given() {
    let (r, c) = ([1.0, 2.0, 3.0, 4.0], [0.1, 0.2, 0.3, 0.4]);
    assert_eq!(op_of(&fill_rounded_rect(rect(r), double(0.9), color(c))), Op::Fill(r, 0.9, c));
    assert_eq!(
        op_of(&stroke_rounded_rect(rect(r), double(0.9), color(c), double(0.6))),
        Op::Stroke(r, 0.9, c, 0.6)
    );
}

#[test]
fn thousandths_are_decimal_constants() {
    assert_eq!(rgba(&Color::from_thousandths(45, 51, 59, 960)), [0.045, 0.051, 0.059, 0.96]);
    assert_eq!(rgba(&Color::from_thousandths(1000, 0, 5, 20)), [1.0, 0.0, 0.005, 0.02]);
}

#[test]
fn dividers_stand_between_items() {
    for bounds in BOUNDS {
        let [panel, cpu, memory, ..] = native_items(bounds);
        let x = cpu[0] + cpu[2] + 3.5;
        assert_eq!(op_of(&draw_divider(double(x), rect(panel))), native_divider(x, panel));
        assert!(cpu[0] + cpu[2] <= x && x <= memory[0]);
    }
    let expected = Op::Line(vec![(34.5, 5.0), (34.5, 17.0)], [0.34, 0.37, 0.40, 0.55], 0.6);
    assert_eq!(op_of(&draw_divider(double(34.5), rect([1.0, 2.0, 134.0, 18.0]))), expected);
}

#[test]
fn sparklines_are_the_native_formula() {
    let c = [0.14, 0.91, 0.63, 0.96];
    for (seed, bounds) in BOUNDS.into_iter().enumerate() {
        let values = histories(seed as u64);
        let op = draw_sparkline(rect(bounds), &in_bits(&values), color(c), double(1.05));
        assert_eq!(op_of(&op), native_sparkline(bounds, &values, c, 1.05));
    }
}

#[test]
fn sparklines_stay_between_their_edges() {
    let bounds = [63.0, 6.0, 43.0, 10.0];
    let mut values = histories(5);
    values[0] = -500.0;
    values[1] = 1e30;
    values[2] = f32::INFINITY;
    values[3] = f32::NEG_INFINITY;
    let op = draw_sparkline(rect(bounds), &in_bits(&values), color([0.0; 4]), double(1.0));
    let Op::Line(points, _, _) = op_of(&op) else {
        panic!("a line");
    };
    assert_eq!(points.len(), 60);
    assert_eq!(points[0], (63.0, 6.0));
    assert_eq!(points[1].1, 16.0);
    assert_eq!(points[2].1, 16.0);
    assert_eq!(points[3].1, 6.0);
    assert!(points.iter().all(|p| 6.0 <= p.1 && p.1 <= 16.0));
}

#[test]
fn bars_are_the_native_formula() {
    for (seed, bounds) in BOUNDS.into_iter().enumerate() {
        let values = histories(seed as u64 + 40);
        let mut ops = Vec::new();
        draw_cpu_bars(rect(bounds), &in_bits(&values), &mut ops);
        assert_eq!(ops_of(&ops), native_bars(bounds, &values));
    }
    let mut ops = Vec::new();
    draw_cpu_bars(rect([6.0, 6.0, 25.0, 10.0]), &in_bits(&[50.0; 60]), &mut ops);
    assert_eq!(ops.len(), 8);
    let Op::Fill(first, radius, _) = op_of(&ops[0]) else {
        panic!("a bar");
    };
    assert_eq!(first, [6.0, 6.0, (25.0 - 1.2 * 7.0) / 8.0, 5.0]);
    assert_eq!(radius, 0.9);
}

#[test]
fn meters_are_the_native_formula() {
    let fill = [0.45, 0.63, 1.0, 0.92];
    for bounds in BOUNDS {
        for ratio in [0.0, 0.25, 0.333, 1.0, -3.0, 7.5, f32::INFINITY] {
            let mut ops = Vec::new();
            draw_level_meter(rect(bounds), single(ratio), color(fill), &mut ops);
            assert_eq!(ops_of(&ops), native_meter(bounds, ratio, fill));
        }
    }
}

#[test]
fn meters_are_not_overfilled() {
    for ratio in [0.0, 0.5, 0.999_999, 1.0, 8.0] {
        let mut ops = Vec::new();
        draw_level_meter(rect([0.0, 0.0, 18.0, 10.0]), single(ratio), color([0.0; 4]), &mut ops);
        let Op::Fill(filled, _, _) = op_of(&ops[1]) else {
            panic!("a fill");
        };
        assert!(0.0 <= filled[2] && filled[2] <= 18.0);
    }
}

#[test]
fn gauges_are_the_native_formula() {
    let degrees =
        [0.0, 45.5, 59.999_996, 60.0, 79.999_99, 80.0, 100.0, 130.0, -5.0, f32::INFINITY];
    for bounds in BOUNDS {
        for temperature in degrees {
            let mut ops = Vec::new();
            draw_temperature_gauge(rect(bounds), single(temperature), &mut ops);
            assert_eq!(ops_of(&ops), native_gauge(bounds, temperature));
        }
    }
}

#[test]
fn memory_share_is_the_native_formula() {
    let pairs = [
        (0, 0),
        (7, 0),
        (0, 9),
        (8192, 16384),
        (1, 3),
        (5, 4),
        (u64::MAX, 1),
        (1, u64::MAX),
        (16_777_217, 16_777_216),
    ];
    for (used, total) in pairs {
        let frame =
            TelemetryFrame { mem_used_mb: used, mem_total_mb: total, ..TelemetryFrame::default() };
        let ratio = memory_ratio_value(&frame);
        assert_eq!(ratio.bits, native_share(used, total).to_bits());
    }
}

#[test]
fn full_memory_is_one() {
    for (used, total) in [(1, 1), (16_777_217, 16_777_217), (u64::MAX, u64::MAX - 1), (9, 2)] {
        let frame =
            TelemetryFrame { mem_used_mb: used, mem_total_mb: total, ..TelemetryFrame::default() };
        assert_eq!(memory_ratio_value(&frame).bits, 1.0f32.to_bits());
    }
}

#[test]
fn whole_view_is_drawn_in_order() {
    for (seed, bounds) in BOUNDS.into_iter().enumerate() {
        let cpu_history = histories(seed as u64 + 7);
        let net_history = histories(seed as u64 + 70);
        let frame = TelemetryFrame {
            cpu_history: in_bits(&cpu_history),
            net_activity_history: in_bits(&net_history),
            mem_used_mb: 11_000,
            mem_total_mb: 16_384,
            temp_celsius: single(61.25),
            ..TelemetryFrame::default()
        };
        let [panel, cpu, memory, network, temperature] = native_items(bounds);
        let mut expected = vec![
            Op::Fill(panel, 4.5, [0.045, 0.051, 0.059, 0.96]),
            Op::Stroke(panel, 4.5, [0.24, 0.27, 0.30, 0.72], 0.6),
            native_divider(cpu[0] + cpu[2] + 3.5, panel),
            native_divider(memory[0] + memory[2] + 3.5, panel),
            native_divider(network[0] + network[2] + 3.5, panel),
        ];
        expected.extend(native_bars(cpu, &cpu_history));
        expected.extend(native_meter(
            memory,
            native_share(11_000, 16_384),
            [0.45, 0.63, 1.0, 0.92],
        ));
        expected.push(native_sparkline(network, &net_history, [0.14, 0.91, 0.63, 0.96], 1.05));
        expected.extend(native_gauge(temperature, 61.25));
        assert_eq!(ops_of(&draw_activity_sparklines(rect(bounds), &frame)), expected);
    }
}
