use aether_monitor::float::Single;
use aether_monitor::telemetry::{
    latest_frame, max_component_temperature, measure_traffic, network_activity_argument,
    network_activity_percent, sample_frame, total_bytes, Reading, TelemetryFrame, TelemetryPipe,
    TelemetryWorker, Traffic,
};

fn single(x: f32) -> Single {
    Single { bits: x.to_bits() }
}

fn native(x: Single) -> f32 {
    f32::from_bits(x.bits)
}

fn singles(values: &[f32]) -> Vec<Single> {
    values.iter().map(|x| single(*x)).collect()
}

fn log_of(bytes: u64) -> Single {
    single(native(network_activity_argument(bytes)).log10())
}

fn native_percent(bytes_per_sec: u64) -> f32 {
    if bytes_per_sec == 0 {
        return 0.0;
    }
    (((bytes_per_sec as f32 + 1.0).log10() / 7.0) * 100.0).clamp(0.0, 100.0)
}

fn assert_blank(frame: &TelemetryFrame) {
    assert_eq!(frame.cpu_total.bits, 0);
    assert!(frame.cpu_history.iter().all(|x| x.bits == 0));
    assert!(frame.net_activity_history.iter().all(|x| x.bits == 0));
    assert_eq!(frame.mem_used_mb, 0);
    assert_eq!(frame.mem_total_mb, 0);
    assert_eq!(frame.net_in_bytes_sec, 0);
    assert_eq!(frame.net_out_bytes_sec, 0);
    assert_eq!(frame.temp_celsius.bits, 0);
}

fn reading(cpu: f32, received: u64, transmitted: u64, temperatures: &[f32]) -> Reading {
    Reading {
        cpu_usage: single(cpu),
        used_memory: 8 * 1024 * 1024 * 1024 + 5,
        total_memory: 16 * 1024 * 1024 * 1024,
        traffic: Traffic { received, transmitted },
        temperatures: singles(temperatures),
    }
}

#[test]
fn default_frame_is_blank() {
    assert_blank(&TelemetryFrame::default());
}

#[test]
fn new_pipe_gives_a_blank_frame() {
    let (pipe, consumer) = TelemetryPipe::new();
    assert_blank(&latest_frame(&consumer, None));
    assert_blank(&latest_frame(&consumer, Some(&pipe)));
}

#[test]
fn pushed_frame_is_read_until_the_next_push() {
    let (mut pipe, consumer) = TelemetryPipe::new();
    let mut frame = TelemetryFrame::default();
    for n in 1..20u64 {
        frame.mem_used_mb = n;
        frame.cpu_total = single(n as f32);
        frame.cpu_history[59] = single(n as f32 / 2.0);
        pipe.push(frame);
        for _ in 0..2 {
            let read = latest_frame(&consumer, Some(&pipe));
            assert_eq!(read.mem_used_mb, n);
            assert_eq!(native(read.cpu_total), n as f32);
            assert_eq!(native(read.cpu_history[59]), n as f32 / 2.0);
        }
    }
}

#[test]
fn only_the_last_of_several_pushes_is_read() {
    let (mut pipe, consumer) = TelemetryPipe::new();
    for n in 1..=7u64 {
        pipe.push(TelemetryFrame { net_in_bytes_sec: n, ..TelemetryFrame::default() });
    }
    assert_eq!(latest_frame(&consumer, None).net_in_bytes_sec, 7);
    assert_eq!(latest_frame(&consumer, Some(&pipe)).net_in_bytes_sec, 7);
}

#[test]
fn pipes_do_not_mix() {
    let (mut first, first_end) = TelemetryPipe::new();
    let (mut second, second_end) = TelemetryPipe::new();
    first.push(TelemetryFrame { mem_total_mb: 1, ..TelemetryFrame::default() });
    second.push(TelemetryFrame { mem_total_mb: 2, ..TelemetryFrame::default() });
    assert_eq!(latest_frame(&first_end, Some(&first)).mem_total_mb, 1);
    assert_eq!(latest_frame(&second_end, Some(&second)).mem_total_mb, 2);
    assert_eq!(latest_frame(&first_end, Some(&second)).mem_total_mb, 1);
}

#[test]
fn frames_outlive_the_producer() {
    let (mut pipe, consumer) = TelemetryPipe::new();
    let other_view = std::sync::Arc::clone(&consumer);
    pipe.push(TelemetryFrame { mem_used_mb: 11, ..TelemetryFrame::default() });
    assert_eq!(latest_frame(&other_view, None).mem_used_mb, 11);
    drop(pipe);
    assert_eq!(latest_frame(&consumer, None).mem_used_mb, 11);
}

#[test]
fn sample_holds_load_and_memory_only() {
    let frame = sample_frame(single(12.5), 3 * 1024 * 1024 - 1, 5 * 1024 * 1024);
    assert_eq!(native(frame.cpu_total), 12.5);
    assert_eq!(frame.mem_used_mb, 2);
    assert_eq!(frame.mem_total_mb, 5);
    let rest = TelemetryFrame {
        cpu_total: single(0.0),
        mem_used_mb: 0,
        mem_total_mb: 0,
        ..frame
    };
    assert_blank(&rest);
}

#[test]
fn mebibytes_are_two_divisions() {
    for bytes in [0, 1023, 1024, 1_048_575, 1_048_576, 34_359_738_368, u64::MAX] {
        let frame = sample_frame(single(0.0), bytes, bytes);
        assert_eq!(frame.mem_used_mb, bytes / 1024 / 1024);
        assert_eq!(frame.mem_total_mb, bytes / 1024 / 1024);
    }
}

#[test]
fn traffic_is_summed_over_interfaces() {
    assert_eq!(total_bytes(&vec![]), Some(0));
    assert_eq!(total_bytes(&vec![1, 20, 300]), Some(321));
    assert_eq!(total_bytes(&vec![u64::MAX, 0]), Some(u64::MAX));
    assert_eq!(total_bytes(&vec![u64::MAX, 1]), None);
    assert_eq!(total_bytes(&vec![u64::MAX, 1, 5]), None);

    let traffic = measure_traffic(&vec![5, 6], &vec![7, 0]).expect("small totals");
    assert_eq!((traffic.received, traffic.transmitted), (11, 7));
    assert!(measure_traffic(&vec![u64::MAX, 1], &vec![0]).is_none());
    assert!(measure_traffic(&vec![0], &vec![u64::MAX, 1]).is_none());
}

#[test]
fn both_directions_saturate() {
    assert_eq!(Traffic { received: 2, transmitted: 3 }.combined(), 5);
    assert_eq!(Traffic { received: u64::MAX, transmitted: 0 }.combined(), u64::MAX);
    assert_eq!(Traffic { received: u64::MAX, transmitted: 9 }.combined(), u64::MAX);
}

#[test]
fn activity_argument_is_one_more() {
    for bytes in [0, 1, 9, 999, 9_999_999, 16_777_216, 16_777_217, 1 << 40, u64::MAX] {
        let argument = network_activity_argument(bytes);
        assert_eq!(argument.bits, (bytes as f32 + 1.0).to_bits());
    }
}

#[test]
fn activity_is_the_native_formula() {
    let mut bytes: u64 = 0;
    while bytes < u64::MAX / 5 {
        let percent = network_activity_percent(bytes, log_of(bytes));
        assert_eq!(percent.bits, native_percent(bytes).to_bits(), "{bytes}");
        bytes = bytes * 4 / 3 + 1;
    }
}

#[test]
fn activity_stays_a_percentage() {
    assert_eq!(native(network_activity_percent(0, log_of(0))), 0.0);
    assert_eq!(native(network_activity_percent(0, single(f32::NAN))), 0.0);
    assert_eq!(native(network_activity_percent(0, single(3.0))), 0.0);
    assert_eq!(native(network_activity_percent(1, single(7.0))), 100.0);
    assert_eq!(native(network_activity_percent(1, single(3.5))), 50.0);
    assert_eq!(native(network_activity_percent(1, single(-3.5))), 0.0);
    assert_eq!(native(network_activity_percent(1, single(19.0))), 100.0);
    assert_eq!(native(network_activity_percent(1, single(f32::INFINITY))), 100.0);
    assert!(native(network_activity_percent(1, single(f32::NAN))).is_nan());
    assert_eq!(native(network_activity_percent(u64::MAX, log_of(u64::MAX))), 100.0);
}

#[test]
fn activity_grows_with_its_logarithm() {
    let mut last = 0.0;
    for i in 0..200 {
        let percent = native(network_activity_percent(1, single(i as f32 * 0.04)));
        assert!(percent >= last);
        last = percent;
    }
    assert_eq!(last, 100.0);
}

#[test]
fn activity_is_a_hundred_sevenths_of_its_logarithm() {
    for i in 0..=700 {
        let log = i as f32 / 100.0;
        let percent = f64::from(native(network_activity_percent(1, single(log))));
        assert!((percent - f64::from(log) * 100.0 / 7.0).abs() <= 1.0 / 131_072.0, "{log}");
    }
}

#[test]
fn equal_steps_of_the_logarithm_are_equal_steps_of_activity() {
    let percent = |log: f32| f64::from(native(network_activity_percent(1, single(log))));
    for i in 0..=600 {
        let (low, high) = (i as f32 / 100.0, i as f32 / 100.0 + 1.0);
        let wanted = (f64::from(high) - f64::from(low)) * 100.0 / 7.0;
        assert!((percent(high) - percent(low) - wanted).abs() <= 1.0 / 65_536.0, "{low}");
    }
}

#[test]
fn tenfold_traffic_adds_a_seventh() {
    let percent = |bytes: u64| f64::from(native(network_activity_percent(bytes, log_of(bytes))));
    for n in (0..1_000).chain((1_000..=999_999).step_by(997)).chain([999_999]) {
        assert_eq!(
            native(network_activity_argument(10 * n + 9)),
            10.0 * native(network_activity_argument(n))
        );
        let step = percent(10 * n + 9) - percent(n);
        assert!((step - 100.0 / 7.0).abs() < 0.001, "{n}");
    }
}

#[test]
fn native_logarithms_are_within_the_tolerance() {
    let mut n: u64 = 0;
    while n < u64::MAX / 5 {
        let argument = native(network_activity_argument(n));
        let error = f64::from(native(log_of(n))) - f64::from(argument).log10();
        assert!(error.abs() <= 1.0 / 65_536.0, "{n}");
        n = n * 5 / 4 + 1;
    }
}

#[test]
fn low_traffic_is_visible() {
    assert!(native(network_activity_percent(1, single(0.3))) > 4.0);
    for n in 1..2_000 {
        assert!(native(network_activity_percent(n, log_of(n))) > 4.0, "{n}");
    }
}

#[test]
fn spikes_reach_the_top() {
    for log in [7.0, 7.000_000_5, 8.0, 19.3, f32::MAX, f32::INFINITY] {
        assert_eq!(native(network_activity_percent(1, single(log))), 100.0);
    }
    for n in [9_999_999, 10_000_000, 1 << 33, u64::MAX] {
        let percent = native(network_activity_percent(n, log_of(n)));
        assert!(percent <= 100.0 && 100.0 - percent <= 1.0 / 4096.0, "{n}");
    }
}

#[test]
fn highest_finite_temperature_is_taken() {
    let highest = |values: &[f32]| native(max_component_temperature(&singles(values)));
    assert_eq!(highest(&[]), 0.0);
    assert_eq!(highest(&[41.5, 66.25, 60.0]), 66.25);
    assert_eq!(highest(&[f32::NAN, 35.0, f32::INFINITY]), 35.0);
    assert_eq!(highest(&[f32::NAN, f32::INFINITY, f32::NEG_INFINITY]), 0.0);
    assert_eq!(highest(&[-10.0, -0.5]), -0.5);
    assert_eq!(highest(&[-12.0, -5.0]), -5.0);
    assert_eq!(highest(&[f32::NAN, -3.5, f32::INFINITY, -8.0]), -3.5);
    assert_eq!(highest(&[-4.0, 0.0, 2.0]), 2.0);
    assert_eq!(highest(&[1e-40, 0.0]), 1e-40);
}

#[test]
fn worker_fills_the_frame_in() {
    let mut worker = TelemetryWorker::new();
    let r = reading(37.5, 1_000, 500, &[51.0, f32::NAN, 48.0]);
    let frame = worker.record(&r, log_of(1_500));
    assert_eq!(native(frame.cpu_total), 37.5);
    assert_eq!(native(frame.cpu_history[59]), 37.5);
    assert!(frame.cpu_history[..59].iter().all(|x| x.bits == 0));
    assert_eq!(frame.net_activity_history[59].bits, native_percent(1_500).to_bits());
    assert!(frame.net_activity_history[..59].iter().all(|x| x.bits == 0));
    assert_eq!(frame.mem_used_mb, 8192);
    assert_eq!(frame.mem_total_mb, 16384);
    assert_eq!(frame.net_in_bytes_sec, 1_000);
    assert_eq!(frame.net_out_bytes_sec, 500);
    assert_eq!(native(frame.temp_celsius), 51.0);
}

#[test]
fn worker_shows_temperatures_below_zero() {
    let mut worker = TelemetryWorker::new();
    let frame = worker.record(&reading(1.0, 0, 0, &[-12.0, f32::NAN, -5.0]), log_of(0));
    assert_eq!(native(frame.temp_celsius), -5.0);
    let frame = worker.record(&reading(1.0, 0, 0, &[f32::NAN]), log_of(0));
    assert_eq!(frame.temp_celsius.bits, 0);
}

#[test]
fn worker_keeps_the_last_sixty() {
    let mut worker = TelemetryWorker::new();
    let mut cpu = [0.0f32; 60];
    let mut net = [0.0f32; 60];
    for n in 0..150u64 {
        let bytes = n * n * 97;
        cpu.rotate_left(1);
        cpu[59] = n as f32 * 0.5;
        net.rotate_left(1);
        net[59] = native_percent(bytes);
        let frame = worker.record(&reading(cpu[59], bytes, 0, &[]), log_of(bytes));
        for i in 0..60 {
            assert_eq!(frame.cpu_history[i].bits, cpu[i].to_bits());
            assert_eq!(frame.net_activity_history[i].bits, net[i].to_bits());
        }
        assert_eq!(frame.cpu_total.bits, cpu[59].to_bits());
        assert_eq!(frame.temp_celsius.bits, 0);
    }
}
