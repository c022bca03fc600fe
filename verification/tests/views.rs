use aether_monitor::draw::draw_activity_sparklines;
use aether_monitor::float::{Double, Single};
use aether_monitor::geometry::{Point, Rect};
use aether_monitor::gpu::{draw_monitor_panel, GpuEngine, GpuInitError, PointerEvent};
use aether_monitor::telemetry::{TelemetryFrame, TelemetryPipe};
use aether_monitor::ui::{
    convert_point, install_tooltips, menu_bar_frame, pixel_size, pointer_event, redraw_requests,
    render_failed,
    tooltip_metric_from_data, tooltip_text, AetherCanvasView, AetherMenuBarView, RectEdge, Redraw,
    TooltipMetric,
};

fn single(x: f32) -> Single {
    Single { bits: x.to_bits() }
}

fn native_single(x: Single) -> f32 {
    f32::from_bits(x.bits)
}

fn double(x: f64) -> Double {
    Double { bits: x.to_bits() }
}

fn native(x: Double) -> f64 {
    f64::from_bits(x.bits)
}

fn rect(x: f64, y: f64, width: f64, height: f64) -> Rect {
    Rect::new(double(x), double(y), double(width), double(height))
}

fn point(x: f64, y: f64) -> Point {
    Point::new(double(x), double(y))
}

fn numbers(r: &Rect) -> [f64; 4] {
    [native(r.origin.x), native(r.origin.y), native(r.size.width), native(r.size.height)]
}

fn busy_frame() -> TelemetryFrame {
    TelemetryFrame {
        cpu_total: single(12.34),
        mem_used_mb: 11_000,
        mem_total_mb: 16_384,
        net_in_bytes_sec: 1_500,
        net_out_bytes_sec: 2_000_000,
        temp_celsius: single(51.25),
        ..TelemetryFrame::default()
    }
}

fn engine(width: u32, height: u32) -> GpuEngine<u8> {
    GpuEngine::<u8>::new_from_metal_layer(width, height)
        .surface_created(Ok(()))
        .expect("a surface")
        .adapter_requested(true)
        .expect("an adapter")
        .device_requested(Ok(vec![1]))
        .expect("a device")
}

#[test]
fn tooltip_data_leads_back() {
    let metrics = [
        (TooltipMetric::Cpu, 1),
        (TooltipMetric::Memory, 2),
        (TooltipMetric::Network, 3),
        (TooltipMetric::Temperature, 4),
    ];
    for (metric, data) in metrics {
        assert_eq!(metric.to_data(), data);
        assert_eq!(tooltip_metric_from_data(data), metric);
    }
}

#[test]
fn unknown_tooltip_data_means_the_processor() {
    for data in [0, 5, 77, usize::MAX] {
        assert_eq!(tooltip_metric_from_data(data), TooltipMetric::Cpu);
    }
}

#[test]
fn texts_of_the_tooltips() {
    let frame = busy_frame();
    assert_eq!(tooltip_text(TooltipMetric::Cpu, &frame), "CPU 12.3%");
    assert_eq!(
        tooltip_text(TooltipMetric::Memory, &frame),
        "Memory 11000 MB / 16384 MB (67%)"
    );
    assert_eq!(
        tooltip_text(TooltipMetric::Network, &frame),
        "Network in 1.5 KB/s  out 2.0 MB/s"
    );
    assert_eq!(tooltip_text(TooltipMetric::Temperature, &frame), "Temperature 51.2 C");
}

#[test]
fn texts_of_strange_numbers() {
    let frame = TelemetryFrame {
        cpu_total: single(f32::NAN),
        temp_celsius: single(-0.04),
        mem_used_mb: u64::MAX,
        ..TelemetryFrame::default()
    };
    assert_eq!(tooltip_text(TooltipMetric::Cpu, &frame), "CPU NaN%");
    assert_eq!(tooltip_text(TooltipMetric::Temperature, &frame), "Temperature -0.0 C");
    assert_eq!(
        tooltip_text(TooltipMetric::Memory, &frame),
        format!("Memory {} MB / 0 MB (0%)", u64::MAX)
    );
    let frame = TelemetryFrame { cpu_total: single(f32::NEG_INFINITY), ..frame };
    assert_eq!(tooltip_text(TooltipMetric::Cpu, &frame), "CPU -inf%");
}

#[test]
fn memory_tooltip_rounds_half_to_even() {
    for (used, total) in [(1u64, 200u64), (3, 200), (5, 200), (1, 8), (3, 8), (7, 8), (9, 8)] {
        let frame =
            TelemetryFrame { mem_used_mb: used, mem_total_mb: total, ..TelemetryFrame::default() };
        let percent = (used as f32 / total as f32).clamp(0.0, 1.0) * 100.0;
        assert_eq!(
            tooltip_text(TooltipMetric::Memory, &frame),
            format!("Memory {used} MB / {total} MB ({percent:.0}%)")
        );
    }
}

#[test]
fn tooltips_lie_over_the_items() {
    let places = install_tooltips(menu_bar_frame());
    let expected = [
        ([6.0, 6.0, 25.0, 10.0], 1),
        ([38.0, 6.0, 18.0, 10.0], 2),
        ([63.0, 6.0, 43.0, 10.0], 3),
        ([113.0, 6.0, 21.0, 10.0], 4),
    ];
    assert_eq!(places.len(), 4);
    for (place, (numbers_of, data)) in places.iter().zip(expected) {
        assert_eq!(numbers(&place.rect), numbers_of);
        assert_eq!(place.data, data);
    }
}

#[test]
fn menu_bar_view_has_its_tooltips() {
    let (_pipe, consumer) = TelemetryPipe::new();
    let view: AetherMenuBarView<u8> = AetherMenuBarView::new(menu_bar_frame(), consumer);
    assert_eq!(view.tooltips.len(), 4);
    assert!(view.ivars.popover.is_none());
}

#[test]
fn click_shows_the_popover_once_there_is_one() {
    let (_pipe, consumer) = TelemetryPipe::new();
    let mut view = AetherMenuBarView::new(menu_bar_frame(), consumer);
    let bounds = rect(0.0, 0.0, 140.0, 23.0);
    assert!(view.mouse_down(bounds).is_none());
    view.attach_popover("first");
    view.attach_popover("second");
    let request = view.mouse_down(bounds).expect("a popover");
    assert_eq!(*request.popover, "second");
    assert_eq!(numbers(&request.rect), [0.0, 0.0, 140.0, 23.0]);
    assert_eq!(request.edge, RectEdge::MinY);
    assert_eq!(view.tooltips.len(), 4);
}

#[test]
fn menu_bar_view_shows_the_newest_frame() {
    let (mut pipe, consumer) = TelemetryPipe::new();
    let view: AetherMenuBarView<u8> = AetherMenuBarView::new(menu_bar_frame(), consumer);
    assert_eq!(view.view_string_for_tool_tip(1), "CPU 0.0%");
    pipe.push(busy_frame());
    assert_eq!(view.view_string_for_tool_tip(1), "CPU 12.3%");
    assert_eq!(view.view_string_for_tool_tip(4), "Temperature 51.2 C");
    assert_eq!(view.view_string_for_tool_tip(99), "CPU 12.3%");
    let drawn = view.draw_rect(menu_bar_frame());
    let expected = draw_activity_sparklines(menu_bar_frame(), &busy_frame());
    assert_eq!(format!("{drawn:?}"), format!("{expected:?}"));
    assert_eq!(drawn.len(), 5 + 8 + 3 + 1 + 4);
}

#[test]
fn points_are_counted_from_the_top() {
    let p = convert_point(point(10.5, 200.0), rect(0.0, 0.0, 360.0, 240.0));
    assert_eq!((native(p.x), native(p.y)), (10.5, 40.0));
    let event = pointer_event(point(0.1, 0.2), rect(0.0, 0.0, 360.0, 240.0), true);
    assert_eq!(native_single(event.x), 0.1f64 as f32);
    assert_eq!(native_single(event.y), (240.0f64 - 0.2) as f32);
    assert!(event.pressed);
}

#[test]
fn sizes_are_cut_off() {
    assert_eq!(pixel_size(rect(0.0, 0.0, 360.9, 240.0)), (360, 240));
    assert_eq!(pixel_size(rect(0.0, 0.0, -1.0, f64::NAN)), (0, 0));
    assert_eq!(pixel_size(rect(0.0, 0.0, 0.999, 1e20)), (0, u32::MAX));
}

#[test]
fn events_wait_for_the_engine() {
    let (_pipe, consumer) = TelemetryPipe::new();
    let mut canvas: AetherCanvasView<u8> = AetherCanvasView::new(consumer);
    let bounds = rect(0.0, 0.0, 360.0, 240.0);
    assert!(canvas.mouse_down(point(1.0, 239.0), bounds).is_none());
    assert!(canvas.mouse_up(point(2.0, 238.0), bounds).is_none());
    assert!(canvas.render_current_frame(bounds).is_none());
    assert_eq!(canvas.ivars.pending_events.len(), 2);

    let outcome = canvas.engine_created(Ok(engine(360, 240)), bounds);
    let request = outcome.expect("an engine").expect("a frame");
    assert!(!request.reconfigure);
    let events = &request.input.events;
    assert_eq!(events.len(), 2);
    assert_eq!((native_single(events[0].x), native_single(events[0].y)), (1.0, 1.0));
    assert!(events[0].pressed);
    assert_eq!((native_single(events[1].x), native_single(events[1].y)), (2.0, 2.0));
    assert!(!events[1].pressed);
    assert!(canvas.ivars.pending_events.is_empty());

    let request = canvas.render_current_frame(bounds).expect("a frame");
    assert!(request.input.events.is_empty());
}

#[test]
fn every_event_is_handed_on_once() {
    let (_pipe, consumer) = TelemetryPipe::new();
    let mut canvas: AetherCanvasView<u8> = AetherCanvasView::new(consumer);
    let bounds = rect(0.0, 0.0, 360.0, 240.0);
    let _ = canvas.engine_created(Ok(engine(360, 240)), bounds);
    let mut handed = Vec::new();
    for n in 0..10 {
        canvas.dispatch_egui_event(PointerEvent {
            x: single(n as f32),
            y: single(0.0),
            pressed: true,
        });
        if n % 3 == 2 {
            let request = canvas.render_current_frame(bounds).expect("a frame");
            handed.extend(request.input.events);
        }
    }
    let request = canvas.mouse_up(point(10.0, 240.0), bounds).expect("a frame");
    handed.extend(request.input.events);
    let places: Vec<f32> = handed.iter().map(|e| native_single(e.x)).collect();
    assert_eq!(places, (0..=10).map(|n| n as f32).collect::<Vec<f32>>());
}

#[test]
fn canvas_follows_its_bounds() {
    let (mut pipe, consumer) = TelemetryPipe::new();
    let mut canvas: AetherCanvasView<u8> = AetherCanvasView::new(consumer);
    let _ = canvas.engine_created(Ok(engine(360, 240)), rect(0.0, 0.0, 360.0, 240.0));
    pipe.push(busy_frame());

    let request = canvas.render_current_frame(rect(0.0, 0.0, 400.7, 300.0)).expect("a frame");
    assert!(request.reconfigure);
    assert_eq!(native_single(request.input.screen_width), 400.0);
    assert_eq!(native_single(request.input.screen_height), 300.0);
    let expected = draw_monitor_panel(&busy_frame());
    assert_eq!(format!("{:?}", request.input.panel), format!("{expected:?}"));

    let request = canvas.render_current_frame(rect(0.0, 0.0, 400.2, 300.9)).expect("a frame");
    assert!(!request.reconfigure);
    let request = canvas.render_current_frame(rect(0.0, 0.0, 0.0, 10.0)).expect("a frame");
    assert!(!request.reconfigure);
    assert_eq!(native_single(request.input.screen_width), 400.0);
}

#[test]
fn canvas_renders_the_frame_it_is_given() {
    let (_pipe, consumer) = TelemetryPipe::new();
    let mut canvas: AetherCanvasView<u8> = AetherCanvasView::new(consumer);
    let bounds = rect(0.0, 0.0, 360.0, 241.0);
    assert!(canvas.render_frame(&busy_frame(), bounds).is_none());
    let _ = canvas.engine_created(Ok(engine(360, 240)), rect(0.0, 0.0, 360.0, 240.0));
    let request = canvas.render_frame(&busy_frame(), bounds).expect("a frame");
    assert!(request.reconfigure);
    assert_eq!(native_single(request.input.screen_height), 241.0);
    assert_eq!(request.input.panel.rows[0].value.text, "12.3%");
}

#[test]
fn set_up_needs_a_layer() {
    let (_pipe, consumer) = TelemetryPipe::new();
    let canvas: AetherCanvasView<u8> = AetherCanvasView::new(consumer);
    let bounds = rect(0.0, 0.0, 360.5, 240.0);
    assert!(canvas.view_did_move_to_window(false, bounds).is_none());
    let stage = canvas.view_did_move_to_window(true, bounds).expect("a stage");
    assert_eq!((stage.width, stage.height), (360, 240));
}

#[test]
fn failed_set_up_is_printed_and_changes_nothing() {
    let (_pipe, consumer) = TelemetryPipe::new();
    let mut canvas: AetherCanvasView<u8> = AetherCanvasView::new(consumer);
    let bounds = rect(0.0, 0.0, 360.0, 240.0);
    assert!(canvas.mouse_down(point(1.0, 1.0), bounds).is_none());
    let outcome = canvas.engine_created(Err(GpuInitError::NoAdapter), bounds);
    assert_eq!(
        outcome.err().expect("a message"),
        "AetherCanvasView GPU init failed: no Metal adapter found"
    );
    assert!(canvas.ivars.gpu_engine.is_none());
    assert_eq!(canvas.ivars.pending_events.len(), 1);
}

#[test]
fn failed_rendering_is_printed_and_keeps_the_engine() {
    let (_pipe, consumer) = TelemetryPipe::new();
    let mut canvas: AetherCanvasView<u8> = AetherCanvasView::new(consumer);
    let bounds = rect(0.0, 0.0, 360.0, 240.0);
    let _ = canvas.engine_created(Ok(engine(360, 240)), bounds);
    let request = canvas.mouse_down(point(1.0, 1.0), bounds).expect("a frame");
    assert_eq!(request.input.events.len(), 1);
    assert_eq!(
        canvas.frame_rendered(Err(String::from("Outdated"))).expect("a message"),
        "AetherCanvasView render failed: Outdated"
    );
    assert!(canvas.frame_rendered(Ok(())).is_none());
    assert!(canvas.ivars.gpu_engine.is_some());
    assert!(canvas.ivars.pending_events.is_empty());
    assert_eq!(render_failed("Lost"), "AetherCanvasView render failed: Lost");
}

#[test]
fn views_show_what_was_pushed_last() {
    let (mut pipe, consumer) = TelemetryPipe::new();
    let view: AetherMenuBarView<u8> =
        AetherMenuBarView::new(menu_bar_frame(), std::sync::Arc::clone(&consumer));
    let mut canvas: AetherCanvasView<u8> = AetherCanvasView::new(consumer);
    let bounds = rect(0.0, 0.0, 360.0, 240.0);
    let _ = canvas.engine_created(Ok(engine(360, 240)), bounds);
    for frame in [busy_frame(), TelemetryFrame::default(), busy_frame()] {
        pipe.push(TelemetryFrame { mem_total_mb: 1, ..TelemetryFrame::default() });
        pipe.push(frame);
        let drawn = view.draw_latest(menu_bar_frame(), Some(&pipe));
        let expected = draw_activity_sparklines(menu_bar_frame(), &frame);
        assert_eq!(format!("{drawn:?}"), format!("{expected:?}"));
        assert_eq!(
            view.latest_tool_tip(2, Some(&pipe)),
            tooltip_text(TooltipMetric::Memory, &frame)
        );
        let request = canvas.render_latest(bounds, Some(&pipe)).expect("a frame");
        let expected = draw_monitor_panel(&frame);
        assert_eq!(format!("{:?}", request.input.panel), format!("{expected:?}"));
    }
}

#[test]
fn existing_views_are_drawn_again() {
    assert!(redraw_requests(0, 0).is_empty());
    assert_eq!(redraw_requests(16, 0), vec![Redraw::MenuBar(16)]);
    assert_eq!(redraw_requests(0, 32), vec![Redraw::Canvas(32)]);
    assert_eq!(redraw_requests(16, 32), vec![Redraw::MenuBar(16), Redraw::Canvas(32)]);
}
