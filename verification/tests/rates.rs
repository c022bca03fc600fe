use aether_monitor::gpu::{compact_bytes, mb_to_gb};
use aether_monitor::ui::compact_bytes_per_second;

fn native_rate(bytes_per_sec: u64) -> String {
    if bytes_per_sec >= 1_000_000 {
        return format!("{:.1} MB/s", bytes_per_sec as f32 / 1_000_000.0);
    }
    if bytes_per_sec >= 1_000 {
        return format!("{:.1} KB/s", bytes_per_sec as f32 / 1_000.0);
    }
    format!("{bytes_per_sec} B/s")
}

#[test]
fn rates_change_their_unit() {
    assert_eq!(compact_bytes(0), "0 B/s");
    assert_eq!(compact_bytes(999), "999 B/s");
    assert_eq!(compact_bytes(1_000), "1.0 KB/s");
    assert_eq!(compact_bytes(1_500), "1.5 KB/s");
    assert_eq!(compact_bytes(999_949), "999.9 KB/s");
    assert_eq!(compact_bytes(999_999), "1000.0 KB/s");
    assert_eq!(compact_bytes(1_000_000), "1.0 MB/s");
    assert_eq!(compact_bytes(12_345_678), "12.3 MB/s");
    assert_eq!(compact_bytes(u64::MAX), "18446744027136.0 MB/s");
}

#[test]
fn rates_are_native_rates() {
    let mut n: u64 = 1;
    while n < u64::MAX / 3 {
        for d in [0, 1, 49, 50, 51] {
            let rate = n + d;
            assert_eq!(compact_bytes(rate), native_rate(rate));
            assert_eq!(compact_bytes_per_second(rate), native_rate(rate));
        }
        n = n * 3 / 2 + 1;
    }
    for rate in (0..2_000_000).step_by(373) {
        assert_eq!(compact_bytes_per_second(rate), native_rate(rate));
    }
}

#[test]
fn mebibytes_are_shown_in_gibibytes() {
    assert_eq!(mb_to_gb(0), "0.0");
    assert_eq!(mb_to_gb(51), "0.0");
    assert_eq!(mb_to_gb(52), "0.1");
    assert_eq!(mb_to_gb(1024), "1.0");
    assert_eq!(mb_to_gb(16_384), "16.0");
    assert_eq!(mb_to_gb(1_280), "1.2");
    for mb in (0..200_000).step_by(17) {
        assert_eq!(mb_to_gb(mb), format!("{:.1}", mb as f32 / 1024.0));
    }
}
