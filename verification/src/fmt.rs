//! Turning numbers into the strings the interface shows.

use crate::ieee::{double, single, Double, Single};
use crate::strings::{chars_of, text_of};
use crate::timeline::{ONE, ZERO};
use vstd::prelude::*;

verus! {

/// `1000`, as a double.
pub const THOUSAND: u64 = 0x408f_4000_0000_0000;

/// The width that ruler ticks aim for, `100` points.
pub const TARGET_PX: u32 = 0x42c8_0000;

/// A frame rate this near, `0.001`, to a whole number is shown as one.
pub const WHOLE_FPS_EPS: u64 = 0x3f50_624d_d2f1_a9fc;

/// The character of a digit.
pub open spec fn digit(d: int) -> char {
    (48 + d) as char
}

/// A number in decimal.
pub open spec fn decimal_of(n: nat) -> Seq<char>
    decreases n,
{
    if n < 10 {
        seq![digit(n as int)]
    } else {
        decimal_of(n / 10).push(digit((n % 10) as int))
    }
}

/// Zeroes in front until there are `width` characters.
pub open spec fn padded(s: Seq<char>, width: nat) -> Seq<char>
    decreases width - s.len(),
{
    if s.len() >= width {
        s
    } else {
        padded(seq!['0'] + s, width)
    }
}

/// The character of a digit.
fn digit_char(d: u64) -> (c: char)
    requires
        d < 10,
    ensures
        c == digit(d as int),
{
    (48u8 + d as u8) as char
}

/// The digits of a number, appended to a list of characters.
fn push_decimal(out: &mut Vec<char>, n: u64)
    ensures
        final(out)@ == old(out)@ + decimal_of(n as nat),
    decreases n,
{
    if n < 10 {
        out.push(digit_char(n));
        proof {
            assert(out@ =~= old(out)@ + decimal_of(n as nat));
        }
    } else {
        push_decimal(out, n / 10);
        out.push(digit_char(n % 10));
        proof {
            assert(out@ =~= old(out)@ + decimal_of(n as nat));
        }
    }
}

/// A number in decimal, zeroes in front up to `width` characters, appended.
fn push_padded(out: &mut Vec<char>, n: u64, width: usize)
    ensures
        final(out)@ == old(out)@ + padded(decimal_of(n as nat), width as nat),
{
    let mut digits: Vec<char> = Vec::new();
    push_decimal(&mut digits, n);
    proof {
        assert(digits@ =~= decimal_of(n as nat));
    }
    let ghost want = padded(digits@, width as nat);
    while digits.len() < width
        invariant
            want == padded(digits@, width as nat),
        decreases width - digits.len(),
    {
        let ghost before = digits@;
        digits.insert(0, '0');
        proof {
            assert(digits@ =~= seq!['0'] + before);
        }
    }
    let mut i: usize = 0;
    while i < digits.len()
        invariant
            i <= digits.len(),
            out@ =~= old(out)@ + digits@.take(i as int),
        decreases digits.len() - i,
    {
        out.push(digits[i]);
        i += 1;
    }
    proof {
        assert(digits@.take(digits.len() as int) =~= digits@);
    }
}

/// A number in decimal.
pub fn decimal(n: u64) -> (r: String)
    ensures
        r@ == decimal_of(n as nat),
{
    let mut out: Vec<char> = Vec::new();
    push_decimal(&mut out, n);
    proof {
        assert(out@ =~= decimal_of(n as nat));
    }
    text_of(&out)
}

/// A signed number in decimal.
pub open spec fn signed_decimal_of(n: int) -> Seq<char> {
    if n < 0 {
        seq!['-'] + decimal_of((-n) as nat)
    } else {
        decimal_of(n as nat)
    }
}

/// A signed number in decimal.
pub fn signed_decimal(n: i64) -> (r: String)
    ensures
        r@ == signed_decimal_of(n as int),
{
    let mut out: Vec<char> = Vec::new();
    if n < 0 {
        out.push('-');
        push_decimal(&mut out, (-(n + 1)) as u64 + 1);
    } else {
        push_decimal(&mut out, n as u64);
    }
    proof {
        assert(out@ =~= signed_decimal_of(n as int));
    }
    text_of(&out)
}

/// Minutes, seconds and milliseconds: `mm:ss.mmm`.
pub open spec fn timecode_of(ms: nat) -> Seq<char> {
    padded(decimal_of(ms / 1000 / 60), 2) + seq![':'] + padded(decimal_of(ms / 1000 % 60), 2)
        + seq!['.'] + padded(decimal_of(ms % 1000), 3)
}

/// A time as minutes, seconds and milliseconds, not before the start.
pub open spec fn timecode(t: Double) -> Seq<char> {
    timecode_of(t.max(double(ZERO)).times(double(THOUSAND)).to_u64() as nat)
}

/// A time as minutes, seconds and milliseconds, not before the start.
pub fn format_timecode(t: Double) -> (r: String)
    ensures
        r@ == timecode(t),
{
    let total_ms: u64 = t.max(double(ZERO)).times(double(THOUSAND)).to_u64();
    let ms: u64 = total_ms % 1000;
    let sec: u64 = total_ms / 1000;
    let mut out: Vec<char> = Vec::new();
    push_padded(&mut out, sec / 60, 2);
    out.push(':');
    push_padded(&mut out, sec % 60, 2);
    out.push('.');
    push_padded(&mut out, ms, 3);
    proof {
        assert(out@ =~= timecode_of(total_ms as nat));
    }
    text_of(&out)
}

/// The intervals people count in, as bits, shortest first: from a tenth of a second
/// to an hour.
pub open spec fn intervals() -> Seq<u64> {
    seq![
        0x3fb9_9999_9999_999au64,
        0x3fd0_0000_0000_0000u64,
        0x3fe0_0000_0000_0000u64,
        0x3ff0_0000_0000_0000u64,
        0x4000_0000_0000_0000u64,
        0x4014_0000_0000_0000u64,
        0x4024_0000_0000_0000u64,
        0x402e_0000_0000_0000u64,
        0x403e_0000_0000_0000u64,
        0x404e_0000_0000_0000u64,
        0x405e_0000_0000_0000u64,
        0x4072_c000_0000_0000u64,
        0x4082_c000_0000_0000u64,
        0x409c_2000_0000_0000u64,
        0x40ac_2000_0000_0000u64,
    ]
}

/// An hour, as a double.
pub const HOUR: u64 = 0x40ac_2000_0000_0000;

/// A minute, as a double.
pub const MINUTE: u64 = 0x404e_0000_0000_0000;

/// The first of the intervals from `from` on that is not below `raw`; an hour where
/// none is.
pub open spec fn interval_from(raw: Double, from: int) -> Double
    decreases intervals().len() - from,
{
    if from < 0 || from >= intervals().len() {
        double(HOUR)
    } else if raw.le(double(intervals()[from])) {
        double(intervals()[from])
    } else {
        interval_from(raw, from + 1)
    }
}

/// Seconds between ruler ticks at this zoom: the shortest interval people count in
/// that keeps ticks apart; a minute where there is no zoom.
pub open spec fn tick_interval(pixels_per_sec: Single) -> Double {
    if pixels_per_sec.le(single(0)) {
        double(MINUTE)
    } else {
        interval_from(single(TARGET_PX).over(pixels_per_sec).to_double(), 0)
    }
}

/// Seconds between ruler ticks at this zoom.
pub fn nice_tick_interval(pixels_per_sec: Single) -> (r: Double)
    ensures
        r == tick_interval(pixels_per_sec),
{
    if pixels_per_sec.le(single(0)) {
        return double(MINUTE);
    }
    let raw: Double = single(TARGET_PX).over(pixels_per_sec).to_double();
    let nice: [u64; 15] = [
        0x3fb9_9999_9999_999a,
        0x3fd0_0000_0000_0000,
        0x3fe0_0000_0000_0000,
        0x3ff0_0000_0000_0000,
        0x4000_0000_0000_0000,
        0x4014_0000_0000_0000,
        0x4024_0000_0000_0000,
        0x402e_0000_0000_0000,
        0x403e_0000_0000_0000,
        0x404e_0000_0000_0000,
        0x405e_0000_0000_0000,
        0x4072_c000_0000_0000,
        0x4082_c000_0000_0000,
        0x409c_2000_0000_0000,
        0x40ac_2000_0000_0000,
    ];
    proof {
        assert(nice@ =~= intervals());
    }
    let mut i: usize = 0;
    while i < 15
        invariant
            i <= 15,
            nice@ == intervals(),
            !pixels_per_sec.le(single(0)),
            raw == single(TARGET_PX).over(pixels_per_sec).to_double(),
            interval_from(raw, 0) == interval_from(raw, i as int),
        decreases 15 - i,
    {
        if raw.le(double(nice[i])) {
            return double(nice[i]);
        }
        i += 1;
    }
    double(HOUR)
}

/// A ruler label with hundredths: `m:ss.cc`.
pub open spec fn fine_label(ms: nat) -> Seq<char> {
    decimal_of(ms / 1000 / 60) + seq![':'] + padded(decimal_of(ms / 1000 % 60), 2) + seq!['.']
        + padded(decimal_of(ms % 1000 / 10), 2)
}

/// A ruler label in whole seconds: `m:ss`, or `h:mm:ss` from an hour on.
pub open spec fn coarse_label(s: nat) -> Seq<char> {
    if s / 3600 > 0 {
        decimal_of(s / 3600) + seq![':'] + padded(decimal_of(s / 60 % 60), 2) + seq![':'] + padded(
            decimal_of(s % 60),
            2,
        )
    } else {
        decimal_of(s / 60 % 60) + seq![':'] + padded(decimal_of(s % 60), 2)
    }
}

/// The label of a ruler tick: as fine as the interval between ticks asks for.
pub open spec fn tick_label(t: Double, interval: Double) -> Seq<char> {
    let s = t.max(double(ZERO));
    if interval.lt(double(ONE)) {
        fine_label(s.times(double(THOUSAND)).round().to_u64() as nat)
    } else {
        coarse_label(s.round().to_u64() as nat)
    }
}

/// The label of a ruler tick: as fine as the interval between ticks asks for.
pub fn format_tick_label(t: Double, interval: Double) -> (r: String)
    ensures
        r@ == tick_label(t, interval),
{
    let total_sec: Double = t.max(double(ZERO));
    let mut out: Vec<char> = Vec::new();
    if interval.lt(double(ONE)) {
        let total_ms: u64 = total_sec.times(double(THOUSAND)).round().to_u64();
        let s_total: u64 = total_ms / 1000;
        push_decimal(&mut out, s_total / 60);
        out.push(':');
        push_padded(&mut out, s_total % 60, 2);
        out.push('.');
        push_padded(&mut out, (total_ms % 1000) / 10, 2);
        proof {
            assert(out@ =~= fine_label(total_ms as nat));
        }
    } else {
        let total: u64 = total_sec.round().to_u64();
        let h: u64 = total / 3600;
        let m: u64 = (total / 60) % 60;
        let s: u64 = total % 60;
        if h > 0 {
            push_decimal(&mut out, h);
            out.push(':');
            push_padded(&mut out, m, 2);
            out.push(':');
            push_padded(&mut out, s, 2);
        } else {
            push_decimal(&mut out, m);
            out.push(':');
            push_padded(&mut out, s, 2);
        }
        proof {
            assert(out@ =~= coarse_label(total as nat));
        }
    }
    text_of(&out)
}

/// Without the characters `c` at the back.
pub open spec fn back_stripped(s: Seq<char>, c: char) -> Seq<char>
    decreases s.len(),
{
    if s.len() > 0 && s.last() == c {
        back_stripped(s.drop_last(), c)
    } else {
        s
    }
}

/// Whether a frame rate is shown as a whole number.
pub open spec fn whole_rate(fps: Double) -> bool {
    fps.minus(fps.round()).abs().lt(double(WHOLE_FPS_EPS))
}

/// A frame rate as editors write it: whole numbers bare, others to as many decimals
/// as they need. `decimals` is the rate written with three.
pub open spec fn rate_text(fps: Double, decimals: Seq<char>) -> Seq<char> {
    if whole_rate(fps) {
        signed_decimal_of(fps.round().to_i64() as int)
    } else {
        back_stripped(back_stripped(decimals, '0'), '.')
    }
}

/// A frame rate as editors write it: whole numbers bare, others to as many decimals
/// as they need. `decimals` is the rate written with three.
pub fn fmt_fps(fps: Double, decimals: &str) -> (r: String)
    ensures
        r@ == rate_text(fps, decimals@),
{
    if fps.minus(fps.round()).abs().lt(double(WHOLE_FPS_EPS)) {
        return signed_decimal(fps.round().to_i64());
    }
    let mut chars: Vec<char> = chars_of(decimals);
    strip_back(&mut chars, '0');
    strip_back(&mut chars, '.');
    text_of(&chars)
}

/// Drops the characters `c` at the back.
fn strip_back(chars: &mut Vec<char>, c: char)
    ensures
        final(chars)@ == back_stripped(old(chars)@, c),
{
    while chars.len() > 0 && chars[chars.len() - 1] == c
        invariant
            back_stripped(old(chars)@, c) == back_stripped(chars@, c),
        decreases chars.len(),
    {
        let ghost before = chars@;
        let _ = chars.pop();
        proof {
            assert(chars@ =~= before.drop_last());
        }
    }
}

/// The mark of a text that was cut short.
pub const ELLIPSIS: char = '\u{2026}';

/// How many of the characters fit before an ellipsis, the widths added up from the
/// front; `used` is what stands before character `from`.
pub open spec fn fitting(
    widths: Seq<Single>,
    ellipsis_w: Single,
    max_w: Single,
    used: Single,
    from: int,
) -> int
    decreases widths.len() - from,
{
    if from < 0 || from >= widths.len() {
        from
    } else if max_w.lt(used.plus(widths[from]).plus(ellipsis_w)) {
        from
    } else {
        fitting(widths, ellipsis_w, max_w, used.plus(widths[from]), from + 1)
    }
}

/// A text that fits `max_w`: itself where `full_w` fits, nothing where not even the
/// ellipsis does, else as many characters as fit before one. `widths` holds the width
/// of each character.
pub fn truncate_to_width(
    s: &str,
    full_w: Single,
    widths: &Vec<Single>,
    ellipsis_w: Single,
    max_w: Single,
) -> (r: String)
    requires
        widths@.len() == s@.len(),
    ensures
        r@ == (if full_w.le(max_w) {
            s@
        } else if max_w.lt(ellipsis_w) {
            Seq::empty()
        } else {
            s@.take(fitting(widths@, ellipsis_w, max_w, single(0), 0)).push(ELLIPSIS)
        }),
{
    if full_w.le(max_w) {
        return s.to_owned();
    }
    if max_w.lt(ellipsis_w) {
        return String::new();
    }
    let chars: Vec<char> = chars_of(s);
    let mut out: Vec<char> = Vec::new();
    let mut used: Single = single(0);
    let mut i: usize = 0;
    while i < chars.len() && !max_w.lt(used.plus(widths[i]).plus(ellipsis_w))
        invariant
            i <= chars.len(),
            chars@ == s@,
            widths@.len() == s@.len(),
            out@ =~= s@.take(i as int),
            fitting(widths@, ellipsis_w, max_w, single(0), 0) == fitting(
                widths@,
                ellipsis_w,
                max_w,
                used,
                i as int,
            ),
        decreases chars.len() - i,
    {
        out.push(chars[i]);
        used = used.plus(widths[i]);
        i += 1;
    }
    out.push(ELLIPSIS);
    text_of(&out)
}

} // verus!
