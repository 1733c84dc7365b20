//! The number types against the machine's own floating point.

use vedit::ieee::{Double, Single};

fn d(x: f64) -> Double {
    Double { bits: x.to_bits() }
}

fn f(x: f32) -> Single {
    Single { bits: x.to_bits() }
}

fn same_double(got: Double, want: f64) -> bool {
    if want.is_nan() {
        f64::from_bits(got.bits).is_nan()
    } else {
        got.bits == want.to_bits()
    }
}

fn same_single(got: Single, want: f32) -> bool {
    if want.is_nan() {
        f32::from_bits(got.bits).is_nan()
    } else {
        got.bits == want.to_bits()
    }
}

/// Bit patterns of every kind: specials, neighbours of specials, and a spread.
fn doubles() -> Vec<f64> {
    let mut v = vec![
        0.0, -0.0, 1.0, -1.0, 0.1, 0.2, 0.3, 0.5, -0.5, 1.5, 2.5, -2.5, 3.7, 1e-6, 1e300, -1e300,
        1e-300, 5e-324, -5e-324, f64::MAX, f64::MIN, f64::MIN_POSITIVE, f64::INFINITY,
        f64::NEG_INFINITY, f64::NAN, 4503599627370496.5, 9007199254740993.0, 0.49999999999999994,
        29.97, 1.0 / 3.0, 60.0, 1000.0, 48000.0, 18446744073709551615.0, 9.3e18, -9.3e18, 4.3e9,
    ];
    let mut x: u64 = 0x9e37_79b9_7f4a_7c15;
    for i in 0..120u64 {
        x ^= x << 13;
        x ^= x >> 7;
        x ^= x << 17;
        if i % 3 == 0 {
            v.push(f64::from_bits(x));
        } else {
            let exp = 1023 - 40 + (x >> 50) % 80;
            v.push(f64::from_bits((x & 0x800f_ffff_ffff_ffff) | (exp << 52)));
        }
    }
    v
}

fn singles() -> Vec<f32> {
    let mut v: Vec<f32> = doubles().iter().map(|x| *x as f32).collect();
    v.push(f32::MIN_POSITIVE);
    v.push(1e-45);
    v.push(f32::MAX);
    let mut x: u32 = 0x9e37_79b9;
    for _ in 0..60 {
        x ^= x << 13;
        x ^= x >> 17;
        x ^= x << 5;
        v.push(f32::from_bits(x));
    }
    v
}

#[test]
fn double_arithmetic_is_the_machines() {
    let all = doubles();
    for &a in &all {
        for &b in &all {
            assert!(same_double(d(a).plus(d(b)), a + b), "{a:e} + {b:e}");
            assert!(same_double(d(a).minus(d(b)), a - b), "{a:e} - {b:e}");
            assert!(same_double(d(a).times(d(b)), a * b), "{a:e} * {b:e}");
            assert!(same_double(d(a).over(d(b)), a / b), "{a:e} / {b:e}");
            assert_eq!(d(a).lt(d(b)), a < b);
            assert_eq!(d(a).le(d(b)), a <= b);
            assert_eq!(d(a).same(d(b)), a == b);
            if a != b {
                assert!(same_double(d(a).max(d(b)), a.max(b)), "max {a:e} {b:e}");
                assert!(same_double(d(a).min(d(b)), a.min(b)), "min {a:e} {b:e}");
            }
        }
    }
}

#[test]
fn single_arithmetic_is_the_machines() {
    let all = singles();
    for &a in &all {
        for &b in &all {
            assert!(same_single(f(a).plus(f(b)), a + b), "{a:e} + {b:e}");
            assert!(same_single(f(a).minus(f(b)), a - b), "{a:e} - {b:e}");
            assert!(same_single(f(a).times(f(b)), a * b), "{a:e} * {b:e}");
            assert!(same_single(f(a).over(f(b)), a / b), "{a:e} / {b:e}");
            assert_eq!(f(a).lt(f(b)), a < b);
            assert_eq!(f(a).le(f(b)), a <= b);
            assert_eq!(f(a).same(f(b)), a == b);
        }
    }
}

#[test]
fn rounding_and_casts_are_the_machines() {
    for a in doubles() {
        assert!(same_double(d(a).floor(), a.floor()), "floor {a:e}");
        assert!(same_double(d(a).ceil(), a.ceil()), "ceil {a:e}");
        assert!(same_double(d(a).round(), a.round()), "round {a:e}");
        assert!(same_double(d(a).abs(), a.abs()));
        assert!(same_double(d(a).negate(), -a));
        assert!(same_single(d(a).to_single(), a as f32), "narrow {a:e}");
        assert_eq!(d(a).to_u8(), a as u8);
        assert_eq!(d(a).to_u32(), a as u32);
        assert_eq!(d(a).to_u64(), a as u64);
        assert_eq!(d(a).to_usize(), a as usize);
        assert_eq!(d(a).to_i32(), a as i32);
        assert_eq!(d(a).to_i64(), a as i64);
        assert_eq!(d(a).is_nan(), a.is_nan());
        assert_eq!(d(a).is_finite(), a.is_finite());
    }
    for a in singles() {
        assert!(same_single(f(a).floor(), a.floor()));
        assert!(same_single(f(a).ceil(), a.ceil()));
        assert!(same_single(f(a).round(), a.round()));
        assert!(same_single(f(a).abs(), a.abs()));
        assert!(same_double(f(a).to_double(), a as f64));
        assert_eq!(f(a).to_u8(), a as u8);
        assert_eq!(f(a).to_i64(), a as i64);
    }
}

#[test]
fn whole_numbers_become_numbers_as_on_the_machine() {
    let some: [u64; 10] = [
        0, 1, 2, 255, 16777217, 9007199254740993, 9007199254740995, u64::MAX, 1 << 63, 48000,
    ];
    for n in some {
        assert!(same_double(Double::from_u64(n), n as f64));
        assert!(same_single(Single::from_u64(n), n as f32));
        assert!(same_double(Double::from_i64(n as i64), n as i64 as f64));
        assert!(same_single(Single::from_i64(-((n >> 1) as i64)), -((n >> 1) as i64) as f32));
    }
    assert!(same_double(Double::from_i64(i64::MIN), i64::MIN as f64));
}

#[test]
fn clamping_keeps_what_is_inside() {
    assert_eq!(d(0.5).clamp(d(0.0), d(1.0)), d(0.5));
    assert_eq!(d(-0.5).clamp(d(0.0), d(1.0)), d(0.0));
    assert_eq!(d(7.0).clamp(d(0.0), d(1.0)), d(1.0));
    assert!(d(f64::NAN).clamp(d(0.0), d(1.0)).is_nan());
}
