use aether_monitor::float::{Double, Single};

fn next(state: &mut u64) -> u64 {
    *state ^= *state << 13;
    *state ^= *state >> 7;
    *state ^= *state << 17;
    *state
}

const SINGLES: [u32; 24] = [
    0,
    0x8000_0000,
    1,
    0x8000_0001,
    0x007f_ffff,
    0x0080_0000,
    0x0080_0001,
    0x3f80_0000,
    0xbf80_0000,
    0x3f80_0001,
    0x3f7f_ffff,
    0x4000_0000,
    0x4b80_0000,
    0x4b7f_ffff,
    0x42c8_0000,
    0x3dcc_cccd,
    0x7f7f_ffff,
    0xff7f_ffff,
    0x7f80_0000,
    0xff80_0000,
    0x7fc0_0000,
    0xffc0_1234,
    0x7f00_0000,
    0x3380_0000,
];

const DOUBLES: [u64; 22] = [
    0,
    0x8000_0000_0000_0000,
    1,
    0x8000_0000_0000_0001,
    0x000f_ffff_ffff_ffff,
    0x0010_0000_0000_0000,
    0x3ff0_0000_0000_0000,
    0xbff0_0000_0000_0000,
    0x3ff0_0000_0000_0001,
    0x3fef_ffff_ffff_ffff,
    0x4000_0000_0000_0000,
    0x4340_0000_0000_0000,
    0x433f_ffff_ffff_ffff,
    0x4059_0000_0000_0000,
    0x3fb9_9999_9999_999a,
    0x7fef_ffff_ffff_ffff,
    0xffef_ffff_ffff_ffff,
    0x7ff0_0000_0000_0000,
    0xfff0_0000_0000_0000,
    0x7ff8_0000_0000_0000,
    0x7fe0_0000_0000_0000,
    0x3ca0_0000_0000_0000,
];

fn singles() -> Vec<u32> {
    let mut values: Vec<u32> = SINGLES.to_vec();
    let mut state: u64 = 0x1234_5678_9abc_def1;
    for _ in 0..120 {
        values.push(next(&mut state) as u32);
    }
    for _ in 0..60 {
        let exponent = 100 + next(&mut state) as u32 % 56;
        values.push((exponent << 23) | (next(&mut state) as u32 & 0x807f_ffff));
    }
    values
}

fn doubles() -> Vec<u64> {
    let mut values: Vec<u64> = DOUBLES.to_vec();
    let mut state: u64 = 0xfedc_ba98_7654_3211;
    for _ in 0..120 {
        values.push(next(&mut state));
    }
    for _ in 0..60 {
        let exponent = 960 + next(&mut state) % 130;
        values.push((exponent << 52) | (next(&mut state) & 0x800f_ffff_ffff_ffff));
    }
    values
}

fn same_single(ours: Single, native: f32) -> bool {
    if native.is_nan() {
        f32::from_bits(ours.bits).is_nan()
    } else {
        ours.bits == native.to_bits()
    }
}

fn same_double(ours: Double, native: f64) -> bool {
    if native.is_nan() {
        f64::from_bits(ours.bits).is_nan()
    } else {
        ours.bits == native.to_bits()
    }
}

#[test]
fn single_arithmetic_is_native_arithmetic() {
    let values = singles();
    for a in &values {
        for b in &values {
            let (x, y) = (f32::from_bits(*a), f32::from_bits(*b));
            let (s, t) = (Single { bits: *a }, Single { bits: *b });
            assert!(same_single(s.plus(t), x + y), "{x:e} + {y:e}");
            assert!(same_single(s.minus(t), x - y), "{x:e} - {y:e}");
            assert!(same_single(s.times(t), x * y), "{x:e} * {y:e}");
            assert!(same_single(s.over(t), x / y), "{x:e} / {y:e}");
            assert_eq!(s.is_at_least(t), x >= y, "{x:e} >= {y:e}");
            if x != y {
                assert!(same_single(s.max(t), x.max(y)), "max {x:e} {y:e}");
            }
            if x <= y {
                let z = f32::from_bits(0x4048_f5c3);
                let w = Single { bits: 0x4048_f5c3 };
                assert!(same_single(w.clamp(s, t), z.clamp(x, y)), "clamp {x:e} {y:e}");
            }
        }
    }
}

#[test]
fn double_arithmetic_is_native_arithmetic() {
    let values = doubles();
    for a in &values {
        for b in &values {
            let (x, y) = (f64::from_bits(*a), f64::from_bits(*b));
            let (s, t) = (Double { bits: *a }, Double { bits: *b });
            assert!(same_double(s.plus(t), x + y), "{x:e} + {y:e}");
            assert!(same_double(s.minus(t), x - y), "{x:e} - {y:e}");
            assert!(same_double(s.times(t), x * y), "{x:e} * {y:e}");
            assert!(same_double(s.over(t), x / y), "{x:e} / {y:e}");
            if x != y {
                assert!(same_double(s.max(t), x.max(y)), "max {x:e} {y:e}");
                assert!(same_double(s.min(t), x.min(y)), "min {x:e} {y:e}");
            }
            if x <= y {
                let z = 2.5f64;
                let w = Double { bits: z.to_bits() };
                assert!(same_double(w.clamp(s, t), z.clamp(x, y)), "clamp {x:e} {y:e}");
            }
        }
    }
}

#[test]
fn conversions_are_native_conversions() {
    for a in singles() {
        let x = f32::from_bits(a);
        let s = Single { bits: a };
        assert!(same_double(s.widen(), f64::from(x)), "{x:e}");
        assert_eq!(s.is_finite(), x.is_finite());
    }
    for a in doubles() {
        let x = f64::from_bits(a);
        let s = Double { bits: a };
        assert!(same_single(s.narrow(), x as f32), "{x:e}");
        assert_eq!(s.truncate(), x as u32, "{x:e}");
    }
    for x in [0.0, 0.99, 1.0, 359.999, 360.0, 4294967295.0, 4294967296.0, 1e300, -1.0, f64::NAN] {
        assert_eq!(Double { bits: x.to_bits() }.truncate(), x as u32, "{x:e}");
    }
    let mut state: u64 = 77;
    for shift in 0..64 {
        for _ in 0..40 {
            let n = next(&mut state) >> shift;
            assert!(same_single(Single::from_whole(n), n as f32), "{n}");
            assert!(same_double(Double::from_whole(n), n as f64), "{n}");
        }
    }
}

#[test]
fn fractions_are_decimal_constants() {
    let constants: [(u64, u64, f64); 8] = [
        (45, 10, 4.5),
        (12, 10, 1.2),
        (105, 100, 1.05),
        (45, 1000, 0.045),
        (51, 1000, 0.051),
        (59, 1000, 0.059),
        (6, 10, 0.6),
        (960, 1000, 0.96),
    ];
    for (num, den, native) in constants {
        assert_eq!(Double::from_fraction(num, den).bits, native.to_bits());
        assert_eq!(Single::from_fraction(num, den).bits, (native as f32).to_bits());
    }
    assert_eq!(Double::from_fraction(0, 7).bits, 0);
}

#[test]
fn text_is_native_text() {
    let mut values = singles();
    for i in 0..4000u32 {
        values.push((i as f32 / 40.0).to_bits());
        values.push((-(i as f32) / 160.0).to_bits());
        values.push((i as f32 / 2.0).to_bits());
    }
    for bits in values {
        let x = f32::from_bits(bits);
        let s = Single { bits };
        assert_eq!(s.to_one_place(), format!("{:.1}", x));
        let mut text = String::new();
        s.push_no_places(&mut text);
        assert_eq!(text, format!("{:.0}", x));
        assert_eq!(
            aether_monitor::text::pad(s.to_one_place().as_str(), 4),
            format!("{:>4.1}", x)
        );
    }
}
