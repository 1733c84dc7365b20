//! When frames show and sound is heard, against the clock of the timeline.

use crate::export::{plan_of, Plan, Render, Step, VideoSpec};
use crate::fades::lemma_between_its_fades_a_clip_plays_at_its_gain;
use crate::ieee::facts::{
    lemma_double_has, lemma_double_one, lemma_double_over, lemma_double_plus,
    lemma_double_plus_near, lemma_double_small, lemma_single_has, lemma_single_plus,
    lemma_single_times, lemma_single_zero,
};
use crate::ieee::laws::{lemma_pow2_monotone, lemma_round_ge, lemma_round_le};
use crate::ieee::model::{double_format, single_format, units, Num};
use crate::ieee::near::{
    double_upto, gap_of, lemma_double_over_near, lemma_double_times_near, lemma_double_to_whole,
    within,
};
use crate::ieee::numbers::{lemma_double_bits, lemma_single_bits};
use crate::ieee::{double, single, Double, Single};
use crate::sound::{mixed, sample_time};
use crate::timeline::{clips_of, latest_end, Clip, Lane, ONE, ZERO};
use vstd::arithmetic::power2::{
    lemma2_to64, lemma_pow2_adds, lemma_pow2_pos, lemma_pow2_unfold, pow2,
};
use vstd::prelude::*;

verus! {

/// One second, in the units that times are counted in.
pub open spec fn second() -> int {
    pow2(1074) as int
}

/// A whole number of sample periods over the rate is that many periods.
proof fn lemma_samples_over_rate(n: u64)
    requires
        n <= 0x20_0000_0000_0000,
    ensures
        ({
            let t = Double::from_u64(n).over(Double::from_u64(48_000));
            &&& t.is_finite()
            &&& gap_of(units(t@) * 48_000, n * second()) < second()
            &&& n % 48_000 == 0 ==> units(t@) == (n / 48_000) * second()
        }),
{
    let a = Double::from_u64(n);
    let b = Double::from_u64(48_000);
    let t = a.over(b);
    let one = pow2(1074);
    lemma_double_small(n);
    lemma_double_small(48_000);
    lemma_pow2_pos(1074);
    lemma2_to64();
    lemma_pow2_adds(38, 1074);
    let k38 = 0x40_0000_0000nat;
    assert(pow2(38) == k38) by {
        vstd::arithmetic::power2::lemma2_to64_rest();
    }
    assert((n as nat * one) * one <= (k38 * one) * (48_000 * one)) by (nonlinear_arith)
        requires
            n <= 0x20_0000_0000_0000,
            k38 == 0x40_0000_0000nat,
            one > 0,
    ;
    lemma_double_over_near(a, b, 1112);
    lemma_pow2_adds(16, 1058);
    lemma_pow2_pos(1058);
    let e = pow2(1058);
    let u = units(t@);
    assert(u * (48_000 * one) == (u * 48_000) * one) by (nonlinear_arith);
    assert(e * (48_000 * one) == (e * 48_000) * one) by (nonlinear_arith);
    assert((n as nat * one) * one == (n as nat * one) * one);
    assert(gap_of(u * 48_000, n * one) <= e * 48_000) by (nonlinear_arith)
        requires
            -((e * 48_000) * one) <= (u * 48_000) * one - (n * one) * one <= (e * 48_000) * one,
            one > 0,
    ;
    if n % 48_000 == 0 {
        let s = n / 48_000;
        let f = double_format();
        lemma_double_bits();
        lemma_double_small(s);
        lemma_double_over(a, b);
        assert((n as nat * one) * one == (s as nat * one) * (48_000 * one)) by (nonlinear_arith)
            requires
                n == 48_000 * s,
        ;
        lemma_round_le(f, (n as nat * one) * one, 48_000 * one, s as nat * one);
        lemma_round_ge(f, (n as nat * one) * one, 48_000 * one, s as nat * one);
    }
}

/// Sound is mixed from when it is heard: a block that begins at sample `n` is mixed from `n`
/// sample periods into the timeline, to within one of them, and from exactly second `s` where
/// it begins `s` seconds in.
pub proof fn lemma_sound_is_mixed_from_when_it_is_heard(r: Render, cancelled: bool)
    requires
        r.sound(),
    ensures
        r.stepped(cancelled).1 matches Step::Sound { from, frames: _, t } ==> (from
            <= 0x20_0000_0000_0000 ==> {
            &&& t.is_finite()
            &&& gap_of(units(t@) * 48_000, from * second()) < second()
            &&& from % 48_000 == 0 ==> units(t@) == (from / 48_000) * second()
        }),
{
    if let Step::Sound { from, frames: _, t: _ } = r.stepped(cancelled).1 {
        if from <= 0x20_0000_0000_0000 {
            lemma_samples_over_rate(from);
        }
    }
}

/// A frame rate of at least one frame a second.
pub open spec fn paced(fps: Double) -> bool {
    fps.is_finite() && second() <= units(fps@) <= 0x400 * second()
}

/// A whole number of frames over the rate is that many frame periods.
proof fn lemma_frames_over_rate(n: u64, fps: Double)
    requires
        paced(fps),
        n <= 0x1_0000_0000,
    ensures
        ({
            let t = Double::from_u64(n).over(fps);
            &&& t.is_finite()
            &&& 0 <= units(t@) <= 0x1_0000_0000 * second()
            &&& within(
                units(t@) * units(fps@),
                n * second() * second(),
                pow2(1052) * units(fps@),
            )
        }),
{
    let a = Double::from_u64(n);
    let one = pow2(1074);
    let t = a.over(fps);
    lemma_double_small(n);
    lemma_pow2_pos(1074);
    lemma2_to64();
    lemma_pow2_adds(32, 1074);
    let uf = units(fps@);
    assert((n as nat * one) * one <= (0x1_0000_0000 * one) * uf) by (nonlinear_arith)
        requires
            n <= 0x1_0000_0000,
            uf >= one,
            one > 0,
    ;
    lemma_double_over_near(a, fps, 1106);
    lemma_double_over(a, fps);
    lemma_double_bits();
    assert(n * second() * second() == (n as nat * one) * one);
}

/// Frame `n` shows `n` frame periods into the timeline, to within a quarter of a microsecond.
pub proof fn lemma_frames_show_a_period_apart(r: Render, cancelled: bool)
    requires
        r.sound(),
        paced(r.plan.fps),
    ensures
        r.stepped(cancelled).1 matches Step::Picture { n, t } ==> (n <= 0x1_0000_0000 ==> {
            &&& t.is_finite()
            &&& within(
                units(t@) * units(r.plan.fps@),
                n * second() * second(),
                pow2(1052) * units(r.plan.fps@),
            )
        }),
{
    if let Step::Picture { n, t: _ } = r.stepped(cancelled).1 {
        if n <= 0x1_0000_0000 {
            lemma_frames_over_rate(n, r.plan.fps);
        }
    }
}

/// Sound keeps up with the picture: once frame `n` is out, sound is asked for up to where the
/// next frame begins, to within one sample, or to its end where that comes sooner.
pub proof fn lemma_sound_keeps_up_with_the_picture(r: Render, cancelled: bool)
    requires
        r.sound(),
        paced(r.plan.fps),
        r.plan.audio,
    ensures
        r.stepped(cancelled).1 matches Step::Picture { n, t: _ } ==> (n < 0x1_0000_0000 ==> {
            let goal = r.stepped(cancelled).0.goal;
            let f = units(r.plan.fps@);
            &&& goal is Some
            &&& goal matches Some((g, _)) ==> {
                &&& g <= r.plan.total_samples
                &&& g < r.plan.total_samples ==> gap_of(g * f, (n + 1) * 48_000 * second()) <= f
                &&& g * f <= (n + 1) * 48_000 * second() + f
            }
        }),
{
    if let Step::Picture { n, t: _ } = r.stepped(cancelled).1 {
        if n < 0x1_0000_0000 {
            lemma_sound_by(r.plan, n + 1);
            let f = units(r.plan.fps@);
            let g = r.plan.sound_by(n + 1);
            let want = r.plan.frame_time(n + 1).times(
                Double::from_u64(48_000),
            ).round().to_u64() as int;
            lemma_pow2_pos(1074);
            assert(g * f <= want * f) by (nonlinear_arith)
                requires
                    g <= want,
                    f > 0,
            ;
        }
    }
}

/// The sound that goes before frame `n`, to within one sample.
proof fn lemma_sound_by(plan: Plan, n: int)
    requires
        paced(plan.fps),
        0 <= n <= 0x1_0000_0000,
    ensures
        ({
            let f = units(plan.fps@);
            let want = plan.frame_time(n).times(Double::from_u64(48_000)).round().to_u64();
            gap_of(want * f, n * 48_000 * second()) <= f
        }),
{
    let fps = plan.fps;
    let f = units(fps@);
    let one = pow2(1074);
    let t = plan.frame_time(n);
    let rate = Double::from_u64(48_000);
    let x = t.times(rate);
    lemma_frames_over_rate(n as u64, fps);
    lemma_double_small(48_000);
    lemma_pow2_pos(1074);
    lemma2_to64();
    let ut = units(t@);
    lemma_pow2_adds(48, 1074);
    let k48 = 0x1_0000_0000_0000nat;
    assert(pow2(48) == k48) by {
        vstd::arithmetic::power2::lemma2_to64_rest();
    }
    assert(0 <= ut * (48_000 * one) <= (k48 * one) * one) by (nonlinear_arith)
        requires
            0 <= ut <= 0x1_0000_0000 * one,
            k48 == 0x1_0000_0000_0000nat,
            one > 0,
    ;
    lemma_double_times_near(t, rate, 1122);
    let ux = units(x@);
    let e = pow2(1068);
    lemma_pow2_adds(6, 1068);
    assert(ut * (48_000 * one) == (ut * 48_000) * one) by (nonlinear_arith);
    assert(within(ux, ut * 48_000, e as int)) by (nonlinear_arith)
        requires
            -(e * one) <= ux * one - (ut * 48_000) * one <= e * one,
            one > 0,
    ;
    assert(ux >= 0) by {
        lemma_double_bits();
        crate::ieee::facts::lemma_double_times(t, rate);
        lemma_not_below_zero(t, rate);
    }
    lemma_double_to_whole(x);
    let w = x.round().to_u64() as int;
    // 2 |w - x| <= 1, |x - 48000 t| <= 2^-6, |t f - n| <= 2^-22 f
    let g = pow2(1052);
    lemma_pow2_adds(22, 1052);
    assert(gap_of(w * f, n * 48_000 * one) <= f) by {
        let a = 2 * (w * one) - 2 * ux;
        assert(-one <= a <= one);
        let b = 2 * ux - 2 * (ut * 48_000);
        assert(-2 * e <= b <= 2 * e);
        let d = ut * f - n * one * one;
        assert(-(g * f) <= d <= g * f);
        assert((2 * (w * one) - 96_000 * ut) == a + b);
        assert(gap_of(2 * (w * f) * one, 96_000 * (ut * f)) <= (one + 2 * e) * f) by (nonlinear_arith)
            requires
                2 * (w * one) - 96_000 * ut == a + b,
                -one <= a <= one,
                -2 * e <= b <= 2 * e,
                f > 0,
        ;
        assert(gap_of(2 * (w * f) * one, 96_000 * (n * one * one)) <= (one + 2 * e) * f + 96_000 * (g
            * f));
        assert((one + 2 * e) * f + 96_000 * (g * f) <= 2 * one * f) by (nonlinear_arith)
            requires
                one == 64 * e,
                one == 0x40_0000 * g,
                f > 0,
        ;
        assert(gap_of(w * f, n * 48_000 * one) <= f) by (nonlinear_arith)
            requires
                gap_of(2 * (w * f) * one, 96_000 * (n * one * one)) <= 2 * one * f,
                one > 0,
        ;
    }
}

/// A product of numbers that are not negative is not negative.
proof fn lemma_not_below_zero(a: Double, b: Double)
    requires
        a.is_finite(),
        b.is_finite(),
        0 <= units(a@),
        0 <= units(b@),
        a.times(b).is_finite(),
    ensures
        0 <= units(a.times(b)@),
{
    crate::ieee::facts::lemma_double_times(a, b);
    let f = double_format();
    lemma_double_bits();
    match (a@, b@) {
        (Num::Fin { neg: na, mag: ma }, Num::Fin { neg: nb, mag: mb }) => {
            if na != nb {
                assert(ma * mb == 0) by (nonlinear_arith)
                    requires
                        ma == 0 || mb == 0,
                ;
                lemma_pow2_pos(f.unit);
                crate::ieee::facts::lemma_holds_zero(f);
                lemma_round_le(f, 0, pow2(f.unit), 0);
            }
        },
        _ => {},
    }
}

/// A render is planned to its end: there is a frame for every frame period that the timeline
/// has begun, and a sample for every sample period, to within a thousandth of one.
pub proof fn lemma_a_render_covers_the_timeline(tracks: Seq<Lane>, video: Option<VideoSpec>)
    requires
        plan_of(tracks, video) is Ok,
        ({
            let d = latest_end(clips_of(tracks));
            d.is_finite() && 0 <= units(d@) <= 0x100_0000 * second()
        }),
    ensures
        ({
            let plan = plan_of(tracks, video)->Ok_0;
            let d = units(latest_end(clips_of(tracks))@);
            &&& plan.video matches Some(spec) ==> (paced(spec.fps) ==> {
                let f = units(spec.fps@);
                &&& plan.fps == spec.fps
                &&& 1024 * (d * f) <= (1024 * plan.total_frames + 1) * (second() * second())
                &&& (1024 * plan.total_frames - 1025) * (second() * second()) <= 1024 * (d * f)
            })
            &&& plan.audio ==> {
                &&& 1024 * (d * 48_000) <= (1024 * plan.total_samples + 1) * second()
                &&& (1024 * plan.total_samples - 1025) * second() <= 1024 * (d * 48_000)
            }
        }),
{
    let dur = latest_end(clips_of(tracks));
    let plan = plan_of(tracks, video)->Ok_0;
    let one = pow2(1074);
    lemma_pow2_pos(1074);
    if let Some(spec) = plan.video {
        if paced(spec.fps) {
            lemma_periods_in(dur, spec.fps);
        }
    }
    if plan.audio {
        let rate = Double::from_u64(48_000);
        lemma_double_small(48_000);
        lemma_periods_in(dur, rate);
        let d = units(dur@);
        let n = plan.total_samples as int;
        assert(d * (48_000 * one) == (d * 48_000) * one) by (nonlinear_arith);
        assert(1024 * (d * 48_000) <= (1024 * n + 1) * one) by (nonlinear_arith)
            requires
                1024 * ((d * 48_000) * one) <= (1024 * n + 1) * (one * one),
                one > 0,
        ;
        assert((1024 * n - 1025) * one <= 1024 * (d * 48_000)) by (nonlinear_arith)
            requires
                (1024 * n - 1025) * (one * one) <= 1024 * ((d * 48_000) * one),
                one > 0,
        ;
    }
}

/// How many periods a stretch begins, to within a thousandth of one.
proof fn lemma_periods_in(dur: Double, rate: Double)
    requires
        dur.is_finite(),
        0 <= units(dur@) <= 0x100_0000 * second(),
        rate.is_finite(),
        0 <= units(rate@) <= 0x1_0000 * second(),
    ensures
        ({
            let n = dur.times(rate).ceil().to_u64() as int;
            let p = units(dur@) * units(rate@);
            &&& 1024 * p <= (1024 * n + 1) * (second() * second())
            &&& (1024 * n - 1025) * (second() * second()) <= 1024 * p
        }),
{
    let one = pow2(1074);
    lemma_pow2_pos(1074);
    lemma2_to64();
    let (d, f) = (units(dur@), units(rate@));
    let k40 = 0x100_0000_0000nat;
    lemma_pow2_adds(40, 1074);
    assert(pow2(40) == k40) by {
        vstd::arithmetic::power2::lemma2_to64_rest();
    }
    assert(0 <= d * f <= (k40 * one) * one) by (nonlinear_arith)
        requires
            0 <= d <= 0x100_0000 * one,
            0 <= f <= 0x1_0000 * one,
            k40 == 0x100_0000_0000nat,
            one > 0,
    ;
    lemma_double_times_near(dur, rate, 1114);
    let x = dur.times(rate);
    lemma_not_below_zero(dur, rate);
    lemma_double_to_whole(x);
    let n = x.ceil().to_u64() as int;
    let u = units(x@);
    let e = pow2(1060);
    lemma_pow2_adds(14, 1060);
    assert(1024 * (d * f) <= (1024 * n + 1) * (one * one)) by (nonlinear_arith)
        requires
            -(e * one) <= u * one - d * f,
            u <= n * one,
            one == 0x4000 * e,
            one > 0,
    ;
    assert((1024 * n - 1025) * (one * one) <= 1024 * (d * f)) by (nonlinear_arith)
        requires
            u * one - d * f <= e * one,
            n * one < u + one,
            one == 0x4000 * e,
            one > 0,
    ;
}

/// Sample `i` of a block that begins at `t` sounds as many sample periods after `t` as there
/// are sample frames before it in the block, to within a thousandth of one; those of the first
/// frame sound at `t` itself.
pub proof fn lemma_samples_sound_a_period_apart(t: Double, i: int)
    requires
        double_upto(t, 1098),
        0 <= i < 0x2_0000_0000,
    ensures
        ({
            let at = sample_time(t, i);
            &&& at.is_finite()
            &&& 1024 * gap_of(48_000 * units(at@), 48_000 * units(t@) + (i / 2) * second())
                <= second()
            &&& i < 2 ==> units(at@) == units(t@)
        }),
{
    let one = pow2(1074);
    let rate = Double::from_u64(48_000);
    let unity = double(ONE);
    let dt = unity.over(rate);
    let k = i / 2;
    let n = Double::from_u64(k as u64);
    let x = n.times(dt);
    lemma_double_one();
    lemma_double_small(48_000);
    lemma_double_small(k as u64);
    lemma_pow2_pos(1074);
    lemma2_to64();
    // the period
    lemma_pow2_adds(15, 1059);
    let h = pow2(1059);
    lemma_pow2_pos(1059);
    assert(one * one <= h * (48_000 * one)) by (nonlinear_arith)
        requires
            one == 0x8000 * h,
            one > 0,
    ;
    lemma_double_over_near(unity, rate, 1059);
    let ud = units(dt@);
    let e = pow2(1005);
    assert(ud * (48_000 * one) == (ud * 48_000) * one) by (nonlinear_arith);
    assert(e * (48_000 * one) == (e * 48_000) * one) by (nonlinear_arith);
    assert(within(ud * 48_000, one as int, (e * 48_000) as int)) by (nonlinear_arith)
        requires
            -((e * 48_000) * one) <= (ud * 48_000) * one - one * one <= (e * 48_000) * one,
            one > 0,
    ;
    // so many periods
    lemma_pow2_adds(32, 1059);
    lemma_pow2_adds(69, 1005);
    lemma_pow2_pos(1005);
    assert(-(0x1_0000_0000 * h * one) <= (k * one) * ud <= 0x1_0000_0000 * h * one)
        by (nonlinear_arith)
        requires
            0 <= k < 0x1_0000_0000,
            -h <= ud <= h,
            one > 0,
    ;
    lemma_double_times_near(n, dt, 1091);
    let ux = units(x@);
    let g = pow2(1037);
    lemma_pow2_adds(32, 1005);
    assert((k * one) * ud == (k * ud) * one) by (nonlinear_arith);
    assert(within(ux, k * ud, g as int)) by (nonlinear_arith)
        requires
            -(g * one) <= ux * one - (k * ud) * one <= g * one,
            one > 0,
    ;
    // after the beginning of the block
    lemma_pow2_unfold(1099);
    lemma_pow2_monotone(1091, 1098);
    lemma_double_plus_near(t, x, 1099);
    let at = sample_time(t, i);
    let m = pow2(1045);
    lemma_pow2_adds(8, 1037);
    lemma_pow2_adds(29, 1045);
    let ua = units(at@);
    assert(gap_of(48_000 * (k * ud), k * one) <= 48_000 * g) by (nonlinear_arith)
        requires
            -(e * 48_000) <= ud * 48_000 - one <= e * 48_000,
            g == 0x1_0000_0000 * e,
            0 <= k < 0x1_0000_0000,
            e > 0,
    ;
    assert(gap_of(48_000 * ua, 48_000 * units(t@) + k * one) <= 48_000 * (m + 2 * g));
    if i < 2 {
        assert(k * one == 0) by (nonlinear_arith)
            requires
                k == 0,
        ;
        lemma_double_bits();
        let f = double_format();
        crate::ieee::facts::lemma_double_times(n, dt);
        assert((k as nat * one) * ud == 0) by (nonlinear_arith)
            requires
                k == 0,
        ;
        if let Num::Fin { neg: _, mag } = dt@ {
            assert(0 * mag == 0) by (nonlinear_arith);
            crate::ieee::facts::lemma_holds_zero(f);
            lemma_round_le(f, 0, one, 0);
        }
        lemma_double_plus(t, x);
        lemma_double_has(t);
        if let Num::Fin { neg: _, mag } = t@ {
            lemma_round_le(f, mag, 1, mag);
            lemma_round_ge(f, mag, 1, mag);
        }
    }
}

/// A voice between its fades is heard at its gain, wherever in a block its samples fall: a
/// sample by itself comes out times the gain of its clip.
pub proof fn lemma_a_voice_is_heard_at_its_gain(c: Clip, read: Seq<Single>, t: Double, j: int)
    requires
        c.timed(),
        c.gain.is_finite(),
        double_upto(t, 1098),
        0 <= j < read.len(),
        j < 0x2_0000_0000,
        read[j].times(c.gain).is_finite(),
        double(ZERO).lt(c.fade_in) ==> 48_000 * (units(c.timeline_start@) + units(c.fade_in@))
            <= 48_000 * units(t@) + (j / 2 - 1) * second(),
        double(ZERO).lt(c.fade_out) ==> 48_000 * units(t@) + (j / 2 + 1) * second() <= 48_000 * (
        units(c.timeline_end()@) - units(c.fade_out@)),
    ensures
        mixed(seq![c], seq![read], t, j).same(read[j].times(c.gain)),
{
    let at = sample_time(t, j);
    lemma_samples_sound_a_period_apart(t, j);
    lemma_pow2_pos(1074);
    let (k, one) = (j / 2, second());
    assert((k - 1) * one == k * one - one) by (nonlinear_arith);
    assert((k + 1) * one == k * one + one) by (nonlinear_arith);
    lemma_between_its_fades_a_clip_plays_at_its_gain(c, at);
    reveal_with_fuel(mixed, 2);
    assert(seq![c].drop_last() =~= Seq::empty());
    lemma_single_times_same(read[j], c.level(at), c.gain);
    lemma_silence_adds_nothing(read[j].times(c.level(at)));
}

/// Silence adds nothing.
proof fn lemma_silence_adds_nothing(x: Single)
    requires
        x.is_finite(),
    ensures
        single(0).plus(x).is_finite(),
        units(single(0).plus(x)@) == units(x@),
{
    lemma_single_zero();
    lemma_single_plus(single(0), x);
    lemma_single_has(x);
    lemma_single_bits();
    if let Num::Fin { neg: _, mag } = x@ {
        lemma_round_le(single_format(), mag, 1, mag);
        lemma_round_ge(single_format(), mag, 1, mag);
    }
}

/// The same number gives the same product.
proof fn lemma_single_times_same(x: Single, a: Single, b: Single)
    requires
        a.same(b),
        a.is_finite(),
        x.times(b).is_finite(),
    ensures
        x.times(a).is_finite(),
        units(x.times(a)@) == units(x.times(b)@),
{
    lemma_single_times(x, a);
    lemma_single_times(x, b);
    lemma_single_bits();
    lemma_pow2_pos(149);
    match (x@, a@, b@) {
        (
            Num::Fin { neg: _, mag: mx },
            Num::Fin { neg: na, mag: ma },
            Num::Fin { neg: nb, mag: mb },
        ) => {
            assert(ma == mb);
            if na != nb {
                assert(mx * ma == 0) by (nonlinear_arith)
                    requires
                        ma == 0,
                ;
                crate::ieee::facts::lemma_holds_zero(single_format());
                lemma_round_le(single_format(), 0, pow2(149), 0);
            }
        },
        _ => {},
    }
}

} // verus!
