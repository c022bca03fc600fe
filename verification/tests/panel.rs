use aether_monitor::float::Single;
use aether_monitor::gpu::{
    bar_width, compact_bytes, draw_monitor_panel, latest_network_ratio, memory_ratio, metric_row,
    thermal_color, GpuEngine, GpuInitError, Label, MetricRow, PointerEvent, RenderStep, Rgb,
    RowCell,
};
use aether_monitor::telemetry::TelemetryFrame;

fn single(x: f32) -> Single {
    Single { bits: x.to_bits() }
}

fn native(x: Single) -> f32 {
    f32::from_bits(x.bits)
}

fn rgb(red: u8, green: u8, blue: u8) -> Rgb {
    Rgb { red, green, blue }
}

fn engine(width: u32, height: u32) -> GpuEngine<u8> {
    GpuEngine::<u8>::new_from_metal_layer(width, height)
        .surface_created(Ok(()))
        .expect("a surface")
        .adapter_requested(true)
        .expect("an adapter")
        .device_requested(Ok(vec![42, 7]))
        .expect("a device")
}

fn size(engine: &GpuEngine<u8>) -> (u32, u32) {
    let config = engine.surface_config();
    (config.width, config.height)
}

#[test]
fn messages_of_the_errors() {
    assert_eq!(
        GpuInitError::SurfaceCreation(String::from("no layer")).message(),
        "failed to bind Metal surface: no layer"
    );
    assert_eq!(GpuInitError::NoAdapter.message(), "no Metal adapter found");
    assert_eq!(
        GpuInitError::DeviceRequest(String::from("lost")).message(),
        "Metal device request failed: lost"
    );
}

#[test]
fn set_up_asks_for_a_saving_adapter() {
    let stage = GpuEngine::<u8>::new_from_metal_layer(360, 240);
    assert_eq!((stage.width, stage.height), (360, 240));
    let stage = stage.surface_created(Ok(())).expect("a surface");
    assert_eq!((stage.width, stage.height), (360, 240));
    assert!(stage.low_power);
    assert!(!stage.force_fallback);
}

#[test]
fn set_up_takes_the_first_format() {
    let engine = engine(360, 240);
    let config = engine.surface_config();
    assert_eq!(config.format, 42);
    assert_eq!((config.width, config.height), (360, 240));
    assert!(config.fifo);
    assert_eq!(config.desired_maximum_frame_latency, 2);
    assert!(config.post_multiplied_alpha);
}

#[test]
fn set_up_is_never_empty() {
    assert_eq!(size(&engine(0, 0)), (1, 1));
    assert_eq!(size(&engine(0, 5)), (1, 5));
    assert_eq!(size(&engine(5, 0)), (5, 1));
}

#[test]
fn set_up_reports_what_failed() {
    let stage = GpuEngine::<u8>::new_from_metal_layer(3, 4);
    assert!(matches!(
        stage.surface_created(Err(String::from("a"))),
        Err(GpuInitError::SurfaceCreation(text)) if text == "a"
    ));
    let stage = stage.surface_created(Ok(())).expect("a surface");
    assert!(matches!(stage.adapter_requested(false), Err(GpuInitError::NoAdapter)));
    let stage = stage.adapter_requested(true).expect("an adapter");
    assert!(matches!(
        stage.device_requested::<u8>(Err(String::from("b"))),
        Err(GpuInitError::DeviceRequest(text)) if text == "b"
    ));
}

#[test]
fn resizing_ignores_empty_and_equal_sizes() {
    let mut engine = engine(360, 240);
    assert!(!engine.resize(0, 240));
    assert!(!engine.resize(360, 0));
    assert!(!engine.resize(0, 0));
    assert!(!engine.resize(360, 240));
    assert_eq!(size(&engine), (360, 240));
    assert!(engine.resize(361, 240));
    assert_eq!(size(&engine), (361, 240));
    assert!(!engine.resize(361, 240));
    assert!(engine.resize(361, 1));
    assert_eq!(size(&engine), (361, 1));
    assert_eq!(engine.surface_config().format, 42);
}

#[test]
fn input_has_the_size_of_the_surface() {
    let engine = engine(360, 16_777_217);
    let events = vec![
        PointerEvent { x: single(1.0), y: single(2.0), pressed: true },
        PointerEvent { x: single(3.0), y: single(4.0), pressed: false },
    ];
    let input = engine.render(&TelemetryFrame::default(), events);
    assert_eq!(native(input.screen_width), 360.0);
    assert_eq!(native(input.screen_height), 16_777_217u32 as f32);
    assert_eq!(input.events.len(), 2);
    assert_eq!(native(input.events[0].x), 1.0);
    assert!(input.events[0].pressed);
    assert_eq!(native(input.events[1].y), 4.0);
    assert!(!input.events[1].pressed);
    assert_eq!(input.panel.title.text, "System Monitor");
}

#[test]
fn plan_has_its_steps_in_order() {
    let plan = engine(360, 240).texture_acquired::<u8>(Ok(()), single(2.0), 2, 1).expect("a plan");
    assert_eq!((plan.width, plan.height), (360, 240));
    assert_eq!(native(plan.pixels_per_point), 2.0);
    assert_eq!(f64::from_bits(plan.clear_color.red.bits), 0.02);
    assert_eq!(f64::from_bits(plan.clear_color.green.bits), 0.025);
    assert_eq!(f64::from_bits(plan.clear_color.blue.bits), 0.03);
    assert_eq!(f64::from_bits(plan.clear_color.alpha.bits), 0.92);
    assert_eq!(
        plan.steps,
        vec![
            RenderStep::Tessellate,
            RenderStep::UpdateTexture(0),
            RenderStep::UpdateTexture(1),
            RenderStep::UpdateBuffers,
            RenderStep::DrawPass,
            RenderStep::FreeTexture(0),
            RenderStep::SubmitBuffers,
            RenderStep::SubmitPass,
            RenderStep::Present,
        ]
    );
}

#[test]
fn plan_without_textures() {
    let plan = engine(1, 1).texture_acquired::<u8>(Ok(()), single(1.0), 0, 0).expect("a plan");
    assert_eq!(
        plan.steps,
        vec![
            RenderStep::Tessellate,
            RenderStep::UpdateBuffers,
            RenderStep::DrawPass,
            RenderStep::SubmitBuffers,
            RenderStep::SubmitPass,
            RenderStep::Present,
        ]
    );
}

#[test]
fn lost_texture_is_reported() {
    let plan = engine(1, 1).texture_acquired(Err("outdated"), single(1.0), 3, 3);
    assert!(matches!(plan, Err("outdated")));
}

fn assert_label(label: &Label, text: &str, size: u32, color: Rgb) {
    assert_eq!(label.text, text);
    assert_eq!(label.size, size);
    assert_eq!(label.color, color);
}

fn assert_row(row: &MetricRow, label: &str, value: &str, level: f32, accent: Rgb) {
    assert_label(&row.label, label, 10, rgb(130, 148, 160));
    assert_label(&row.value, value, 15, rgb(238, 244, 248));
    assert_eq!(row.level.bits, level.to_bits());
    assert_eq!(row.accent, accent);
    assert_eq!(row.style.fill, rgb(15, 18, 22));
    assert_eq!(row.style.border, rgb(37, 43, 50));
    assert_eq!(row.style.border_width, 1);
    assert_eq!(row.style.rounding, 4);
    assert_eq!((row.style.margin_x, row.style.margin_y), (10, 8));
    assert_eq!(row.style.height, 18);
    assert_eq!((row.style.label_width, row.style.value_width), (48, 168));
    assert!(!row.style.wrap);
    assert_eq!((row.style.bar_gap, row.style.bar_height), (4, 5));
    assert_eq!(row.cells, vec![RowCell::Label, RowCell::Value, RowCell::Bar]);
}

#[test]
fn panel_of_a_busy_frame() {
    let mut frame = TelemetryFrame {
        cpu_total: single(7.25),
        mem_used_mb: 11_000,
        mem_total_mb: 16_384,
        net_in_bytes_sec: 1_234_567,
        net_out_bytes_sec: 980,
        temp_celsius: single(64.06),
        ..TelemetryFrame::default()
    };
    frame.net_activity_history[58] = single(99.0);
    frame.net_activity_history[59] = single(87.5);
    let panel = draw_monitor_panel(&frame);
    assert_eq!(panel.style.text, rgb(224, 231, 238));
    assert_eq!(panel.style.widget_fill, rgb(18, 21, 25));
    assert_eq!(panel.style.background, rgb(10, 12, 15));
    assert_eq!(panel.style.item_spacing, 6);
    assert_eq!(panel.style.header_space, 8);
    assert_eq!(panel.style.header_margin, 10);
    assert_eq!(panel.style.caption_gap, 2);
    assert_label(&panel.caption, "AETHER", 9, rgb(122, 146, 164));
    assert_label(&panel.title, "System Monitor", 22, rgb(241, 246, 249));
    assert_eq!(panel.rows.len(), 4);
    assert_row(&panel.rows[0], "CPU", " 7.2%", 7.25 / 100.0, rgb(92, 222, 255));
    assert_row(
        &panel.rows[1],
        "Memory",
        "10.7 / 16.0 GB",
        11_000.0 / 16_384.0,
        rgb(112, 158, 255),
    );
    assert_row(
        &panel.rows[2],
        "Network",
        "1.2 MB/s in  980 B/s out",
        0.875,
        rgb(36, 232, 160),
    );
    assert_row(&panel.rows[3], "Thermal", "64.1 C", 64.06 / 100.0, rgb(255, 174, 54));
}

#[test]
fn panel_of_a_blank_frame() {
    let panel = draw_monitor_panel(&TelemetryFrame::default());
    assert_row(&panel.rows[0], "CPU", " 0.0%", 0.0, rgb(92, 222, 255));
    assert_row(&panel.rows[1], "Memory", "0.0 / 0.0 GB", 0.0, rgb(112, 158, 255));
    assert_row(&panel.rows[2], "Network", "0 B/s in  0 B/s out", 0.0, rgb(36, 232, 160));
    assert_row(&panel.rows[3], "Thermal", " 0.0 C", 0.0, rgb(181, 238, 90));
}

#[test]
fn row_level_is_kept_within_zero_to_one() {
    let level = |ratio: f32| {
        native(metric_row("x", String::from("y"), single(ratio), rgb(1, 2, 3)).level)
    };
    assert_eq!(level(0.5), 0.5);
    assert_eq!(level(1.75), 1.0);
    assert_eq!(level(-0.25), 0.0);
    assert_eq!(level(f32::INFINITY), 1.0);
    assert!(level(f32::NAN).is_nan());
}

#[test]
fn bars_are_at_least_sixty_wide() {
    for available in [0.0f32, 61.9, 62.0, 62.1, 118.4, 1e9, -4.0] {
        let width = native(bar_width(single(available)));
        assert_eq!(width, (available - 2.0).max(60.0));
    }
    assert_eq!(native(bar_width(single(f32::NAN))), 60.0);
}

#[test]
fn temperatures_change_their_color() {
    assert_eq!(thermal_color(single(-3.0)), rgb(181, 238, 90));
    assert_eq!(thermal_color(single(59.999_996)), rgb(181, 238, 90));
    assert_eq!(thermal_color(single(60.0)), rgb(255, 174, 54));
    assert_eq!(thermal_color(single(79.999_99)), rgb(255, 174, 54));
    assert_eq!(thermal_color(single(80.0)), rgb(255, 72, 56));
    assert_eq!(thermal_color(single(f32::INFINITY)), rgb(255, 72, 56));
    assert_eq!(thermal_color(single(f32::NAN)), rgb(181, 238, 90));
}

#[test]
fn ratios_of_a_frame() {
    let mut frame =
        TelemetryFrame { mem_used_mb: 3, mem_total_mb: 4, ..TelemetryFrame::default() };
    assert_eq!(native(memory_ratio(&frame)), 0.75);
    frame.mem_total_mb = 0;
    assert_eq!(native(memory_ratio(&frame)), 0.0);
    frame.net_activity_history[59] = single(33.3);
    assert_eq!(native(latest_network_ratio(&frame)), 33.3 / 100.0);
}

#[test]
fn rates_are_to_the_nearest_tenth() {
    assert_eq!(compact_bytes(1_249), "1.2 KB/s");
    assert_eq!(compact_bytes(1_251), "1.3 KB/s");
    assert_eq!(compact_bytes(16_049_999), "16.0 MB/s");
    assert_eq!(compact_bytes(16_050_001), "16.1 MB/s");
}
