//! How numbers, times and rates are written.

use vedit::fmt::{
    decimal, fmt_fps, format_tick_label, format_timecode, nice_tick_interval, signed_decimal,
    truncate_to_width,
};
use vedit::ieee::{Double, Single};
use vedit::strings::{chars_of, lines, text_of, trim};

fn d(x: f64) -> Double {
    Double { bits: x.to_bits() }
}

fn f(x: f32) -> Single {
    Single { bits: x.to_bits() }
}

#[test]
fn numbers_are_written_as_the_machine_writes_them() {
    for n in [0u64, 7, 10, 999, 1000, u64::MAX] {
        assert_eq!(decimal(n), n.to_string());
    }
    for n in [0i64, -1, 42, i64::MIN, i64::MAX] {
        assert_eq!(signed_decimal(n), n.to_string());
    }
}

#[test]
fn a_timecode_counts_milliseconds() {
    assert_eq!(format_timecode(d(0.0)), "00:00.000");
    assert_eq!(format_timecode(d(61.25)), "01:01.250");
    assert_eq!(format_timecode(d(-3.0)), "00:00.000");
    assert_eq!(format_timecode(d(6000.5)), "100:00.500");
}

#[test]
fn ticks_are_as_far_apart_as_people_count() {
    let interval = |px: f32| f64::from_bits(nice_tick_interval(f(px)).bits);
    assert_eq!(interval(100.0), 1.0);
    assert_eq!(interval(10_000.0), 0.1);
    assert_eq!(interval(0.001), 3600.0);
    assert_eq!(interval(0.0), 60.0);
}

#[test]
fn a_tick_says_as_much_as_its_interval() {
    assert_eq!(format_tick_label(d(61.25), d(0.25)), "1:01.25");
    assert_eq!(format_tick_label(d(61.0), d(1.0)), "1:01");
    assert_eq!(format_tick_label(d(3725.0), d(60.0)), "1:02:05");
}

#[test]
fn rates_lose_the_zeroes_they_do_not_need() {
    let rate = |x: f64| fmt_fps(d(x), &format!("{x:.3}"));
    assert_eq!(rate(25.0), "25");
    assert_eq!(rate(29.97), "29.97");
    assert_eq!(rate(23.976), "23.976");
    assert_eq!(rate(30.0001), "30");
}

#[test]
fn a_long_text_is_cut_short() {
    let short = |max: f32| {
        let w: Vec<Single> = vec![f(5.0); 6];
        truncate_to_width("abcdef", f(30.0), &w, f(6.0), f(max))
    };
    assert_eq!(short(30.0), "abcdef");
    assert_eq!(short(22.0), "abc\u{2026}");
    assert_eq!(short(6.0), "\u{2026}");
    assert_eq!(short(5.0), "");
}

#[test]
fn texts_come_apart_and_together_again() {
    assert_eq!(text_of(&chars_of("na\u{ef}ve")), "na\u{ef}ve");
    assert_eq!(lines("a\nb\r\n\nc"), "a\nb\r\n\nc".lines().collect::<Vec<_>>());
    assert_eq!(lines(""), Vec::<String>::new());
    assert_eq!(trim("  a b\t\n"), "a b");
}
