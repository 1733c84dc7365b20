//! What fades do to a clip, and how a clip runs through its source.

use crate::ieee::facts::{
    lemma_double_has, lemma_double_minus_near, lemma_double_one, lemma_double_part,
    lemma_double_plus, lemma_double_plus_near, lemma_double_times_commutes, lemma_double_zero,
    lemma_ramp_is_a_share, lemma_ramp_not_begun, lemma_share_to_single, lemma_single_one,
    lemma_single_part, lemma_single_times, lemma_single_zero,
};
use crate::ieee::laws::{lemma_round_ge, lemma_round_le};
use crate::ieee::model::{double_format, units, Num};
use crate::ieee::near::{
    double_upto, gap_of, lemma_double_minus_keeps_side, lemma_double_over_near,
    lemma_double_plus_keeps_side, lemma_double_ratio,
    lemma_double_times_one, lemma_share_to_single_near, lemma_single_times_near,
    lemma_single_times_one, single_upto, size, within,
};
use crate::ieee::numbers::lemma_double_bits;
use crate::ieee::{double, single, Double, Single};
use crate::timeline::{latest_end, Clip, ONE, ZERO};
use crate::timing::second;
use vstd::arithmetic::power2::{
    lemma2_to64, lemma_pow2_adds, lemma_pow2_pos, lemma_pow2_unfold, pow2,
};
use vstd::prelude::*;

verus! {

impl Clip {
    /// Every time of the clip is a number.
    pub open spec fn timed(self) -> bool {
        &&& self.timeline_start.is_finite()
        &&& self.timeline_end().is_finite()
        &&& self.fade_in.is_finite()
        &&& self.fade_out.is_finite()
    }
}

/// What the fades leave is a share, nothing before a fade begins and nothing after one
/// ends.
proof fn lemma_taper(c: Clip, t: Double)
    requires
        c.timed(),
        t.is_finite(),
    ensures
        double(ZERO).le(c.taper(t)),
        c.taper(t).le(double(ONE)),
        double(ZERO).lt(c.fade_in) && t.le(c.timeline_start) ==> c.taper(t).same(double(ZERO)),
        double(ZERO).lt(c.fade_out) && c.timeline_end().le(t) ==> c.taper(t).same(double(ZERO)),
{
    lemma_double_zero();
    lemma_double_one();
    let one = double(ONE);
    let a = if double(ZERO).lt(c.fade_in) {
        one.times(c.head(t))
    } else {
        one
    };
    if double(ZERO).lt(c.fade_in) {
        lemma_ramp_is_a_share(c.timeline_start, t, c.fade_in);
        lemma_double_part(one, c.head(t));
        if t.le(c.timeline_start) {
            lemma_ramp_not_begun(t, c.timeline_start, c.fade_in);
        }
    }
    if double(ZERO).lt(c.fade_out) {
        lemma_ramp_is_a_share(t, c.timeline_end(), c.fade_out);
        lemma_double_part(a, c.tail(t));
        if c.timeline_end().le(t) {
            lemma_ramp_not_begun(c.timeline_end(), t, c.fade_out);
        }
    }
}

/// Fades only quieten: the level at any time lies between silence and the gain.
pub proof fn lemma_fades_only_quieten(c: Clip, t: Double)
    requires
        c.timed(),
        t.is_finite(),
        c.gain.is_finite(),
        single(0).le(c.gain),
    ensures
        single(0).le(c.level(t)),
        c.level(t).le(c.gain),
{
    lemma_single_zero();
    if !c.plain() {
        lemma_taper(c, t);
        lemma_share_to_single(c.taper(t));
        lemma_single_part(c.gain, c.taper(t).to_single());
    }
}

/// A fade in starts from silence, and there is silence before it.
pub proof fn lemma_a_fade_in_starts_from_silence(c: Clip, t: Double)
    requires
        c.timed(),
        t.is_finite(),
        c.gain.is_finite(),
        double(ZERO).lt(c.fade_in),
        t.le(c.timeline_start),
    ensures
        c.level(t).same(single(0)),
{
    lemma_double_zero();
    lemma_taper(c, t);
    lemma_share_to_single(c.taper(t));
    lemma_single_part(c.gain, c.taper(t).to_single());
}

/// A fade out ends in silence, and there is silence after it.
pub proof fn lemma_a_fade_out_ends_in_silence(c: Clip, t: Double)
    requires
        c.timed(),
        t.is_finite(),
        c.gain.is_finite(),
        double(ZERO).lt(c.fade_out),
        c.timeline_end().le(t),
    ensures
        c.level(t).same(single(0)),
{
    lemma_double_zero();
    lemma_taper(c, t);
    lemma_share_to_single(c.taper(t));
    lemma_single_part(c.gain, c.taper(t).to_single());
}

/// A clip without fades plays at its gain, and shows at its opacity, throughout.
pub proof fn lemma_a_plain_clip_plays_at_its_gain(c: Clip, t: Double)
    requires
        c.fade_in.le(double(ZERO)),
        c.fade_out.le(double(ZERO)),
    ensures
        c.level(t) == c.gain,
        c.alpha(t) == c.opacity,
{
}

/// What shows of a clip lies between nothing and its opacity; at the ends of its fades
/// nothing shows.
pub proof fn lemma_fades_only_dim(c: Clip, t: Double)
    requires
        c.timed(),
        t.is_finite(),
        c.opacity.is_finite(),
        single(0).le(c.opacity),
    ensures
        single(0).le(c.alpha(t)),
        c.alpha(t).le(c.opacity),
        double(ZERO).lt(c.fade_in) && t.le(c.timeline_start) ==> c.alpha(t).same(single(0)),
        double(ZERO).lt(c.fade_out) && c.timeline_end().le(t) ==> c.alpha(t).same(single(0)),
{
    lemma_single_zero();
    lemma_double_zero();
    if !c.plain() {
        lemma_taper(c, t);
        lemma_share_to_single(c.taper(t));
        lemma_single_part(c.opacity, c.taper(t).to_single());
    }
}

/// No clip ends after the timeline does.
pub proof fn lemma_no_clip_outlasts_the_timeline(clips: Seq<Clip>, i: int)
    requires
        0 <= i < clips.len(),
        !clips[i].timeline_end().is_nan(),
    ensures
        clips[i].timeline_end().le(latest_end(clips)),
        !latest_end(clips).is_nan(),
    decreases clips.len(),
{
    lemma_length_is_a_number(clips);
    lemma_length_is_a_number(clips.drop_last());
    if i < clips.len() - 1 {
        assert(clips.drop_last()[i] == clips[i]);
        lemma_no_clip_outlasts_the_timeline(clips.drop_last(), i);
    }
}

/// The length of a timeline is a number.
proof fn lemma_length_is_a_number(clips: Seq<Clip>)
    ensures
        !latest_end(clips).is_nan(),
        double(ZERO).le(latest_end(clips)),
    decreases clips.len(),
{
    lemma_double_zero();
    if clips.len() > 0 {
        lemma_length_is_a_number(clips.drop_last());
    }
}

impl Clip {
    /// Whether no fade in is under way at `t`: the clip has none, or it is over by then.
    pub open spec fn head_over(self, t: Double) -> bool {
        double(ZERO).lt(self.fade_in) ==> units(self.timeline_start@) + units(self.fade_in@)
            <= units(t@)
    }

    /// Whether no fade out is under way at `t`: the clip has none, or it has not begun.
    pub open spec fn tail_ahead(self, t: Double) -> bool {
        double(ZERO).lt(self.fade_out) ==> units(t@) + units(self.fade_out@) <= units(
            self.timeline_end()@,
        )
    }
}

/// A ramp that is over stands at one.
proof fn lemma_ramp_over(from: Double, to: Double, len: Double)
    requires
        from.is_finite(),
        to.is_finite(),
        len.is_finite(),
        double(ZERO).lt(len),
        units(len@) <= units(to@) - units(from@),
    ensures
        ({
            let r = to.minus(from).over(len).clamp(double(ZERO), double(ONE));
            r.is_finite() && units(r@) == pow2(1074)
        }),
{
    lemma_double_zero();
    lemma_double_one();
    lemma_double_minus_keeps_side(to, from, len);
    lemma_double_ratio(to.minus(from), len);
}

/// What the ramps leave where one of them is over or missing.
proof fn lemma_taper_beside(c: Clip, t: Double)
    requires
        c.timed(),
        t.is_finite(),
    ensures
        c.taper(t).is_finite(),
        c.tail_ahead(t) && double(ZERO).lt(c.fade_in) ==> units(c.taper(t)@) == units(c.head(t)@),
        c.head_over(t) && double(ZERO).lt(c.fade_out) ==> units(c.taper(t)@) == units(c.tail(t)@),
        c.head_over(t) && c.tail_ahead(t) ==> units(c.taper(t)@) == pow2(1074),
{
    let one = double(ONE);
    lemma_double_zero();
    lemma_double_one();
    lemma_taper(c, t);
    lemma_pow2_pos(1074);
    if double(ZERO).lt(c.fade_in) {
        lemma_ramp_is_a_share(c.timeline_start, t, c.fade_in);
        lemma_double_times_one(c.head(t));
        if c.head_over(t) {
            lemma_ramp_over(c.timeline_start, t, c.fade_in);
        }
    }
    let a = if double(ZERO).lt(c.fade_in) {
        one.times(c.head(t))
    } else {
        one
    };
    if double(ZERO).lt(c.fade_out) {
        lemma_ramp_is_a_share(t, c.timeline_end(), c.fade_out);
        if c.tail_ahead(t) {
            lemma_ramp_over(t, c.timeline_end(), c.fade_out);
            lemma_one_is_one(c.tail(t));
            lemma_double_times_alike(a, c.tail(t), one);
            lemma_double_times_one(a);
        }
        if c.head_over(t) {
            lemma_double_times_one(c.tail(t));
            lemma_double_times_commutes(a, c.tail(t));
            lemma_double_times_alike(c.tail(t), a, one);
        }
    }
}

/// Numbers of as many units give products of as many units.
proof fn lemma_double_times_alike(x: Double, a: Double, b: Double)
    requires
        x.is_finite(),
        a.is_finite(),
        b.is_finite(),
        units(a@) == units(b@),
        units(a@) != 0,
    ensures
        x.times(a) == x.times(b),
{
    reveal(Double::spec_times);
}

/// A number of `2^1074` units is one.
proof fn lemma_one_is_one(x: Double)
    requires
        x.is_finite(),
        units(x@) == pow2(1074),
    ensures
        x@ == double(ONE)@,
{
    lemma_double_one();
    lemma_pow2_pos(1074);
}

/// Between its fades a clip plays at its gain and shows at its opacity.
pub proof fn lemma_between_its_fades_a_clip_plays_at_its_gain(c: Clip, t: Double)
    requires
        c.timed(),
        t.is_finite(),
        c.head_over(t),
        c.tail_ahead(t),
    ensures
        c.gain.is_finite() ==> c.level(t).same(c.gain),
        c.opacity.is_finite() ==> c.alpha(t).same(c.opacity),
{
    lemma_double_zero();
    if !c.plain() {
        lemma_taper_beside(c, t);
        let q = c.taper(t);
        lemma_share_to_single_near(q);
        lemma_single_one();
        lemma_pow2_pos(149);
        assert(q.to_single()@ == single(0x3f80_0000)@);
        if c.gain.is_finite() {
            lemma_single_times_one(c.gain);
            lemma_single_times(c.gain, single(0x3f80_0000));
            lemma_single_times(c.gain, q.to_single());
        }
        if c.opacity.is_finite() {
            lemma_single_times_one(c.opacity);
            lemma_single_times(c.opacity, single(0x3f80_0000));
            lemma_single_times(c.opacity, q.to_single());
        }
    }
}

/// How far a ramp has come, to within rounding.
proof fn lemma_ramp_near(from: Double, to: Double, len: Double)
    requires
        double_upto(from, 1098),
        double_upto(to, 1098),
        len.is_finite(),
        double(ZERO).lt(len),
        0 <= units(to@) - units(from@) <= units(len@),
    ensures
        ({
            let r = to.minus(from).over(len).clamp(double(ZERO), double(ONE));
            &&& r.is_finite()
            &&& 0 <= units(r@) <= pow2(1074)
            &&& within(
                units(r@) * units(len@),
                (units(to@) - units(from@)) * pow2(1074),
                pow2(1020) * units(len@) + pow2(1045) * pow2(1074),
            )
        }),
{
    let one = pow2(1074);
    let a = to.minus(from);
    let zero = double(ZERO);
    lemma_double_zero();
    lemma_double_one();
    lemma_pow2_pos(1074);
    lemma_pow2_unfold(1099);
    lemma_double_minus_near(to, from, 1099);
    lemma_double_minus_keeps_side(to, from, len);
    lemma_double_minus_keeps_side(to, from, zero);
    lemma_double_ratio(a, len);
    let (ua, f) = (units(a@), units(len@));
    assert(ua * one <= one * f) by (nonlinear_arith)
        requires
            ua <= f,
            one > 0,
    ;
    lemma_double_over_near(a, len, 1074);
    let d = units(to@) - units(from@);
    let e = pow2(1045);
    assert(within(ua * one, d * one, (e * one) as int)) by (nonlinear_arith)
        requires
            -e <= ua - d <= e,
            one > 0,
    ;
}

/// A share of a level, to within rounding.
proof fn lemma_share_of_level(g: Single, q: Double)
    requires
        single_upto(g, 153),
        q.is_finite(),
        0 <= units(q@) <= pow2(1074),
    ensures
        ({
            let r = g.times(q.to_single());
            &&& r.is_finite()
            &&& within(
                units(r@) * pow2(1074),
                units(g@) * units(q@),
                (pow2(129) * pow2(1074)) as int,
            )
        }),
{
    let s = q.to_single();
    let r = g.times(s);
    lemma_share_to_single_near(q);
    let (o, p) = (pow2(1074), pow2(149));
    lemma_pow2_pos(1074);
    lemma_pow2_pos(149);
    let (ug, us, uq, ur) = (units(g@), units(s@), units(q@), units(r@));
    let top = pow2(153);
    assert(-(top * p) <= ug * us <= top * p) by (nonlinear_arith)
        requires
            -top <= ug <= top,
            0 <= us <= p,
    ;
    lemma_single_times_near(g, s, 153);
    let (e, h) = (pow2(128), pow2(124));
    lemma_pow2_unfold(129);
    lemma_pow2_adds(4, 149);
    lemma_pow2_adds(4, 124);
    lemma2_to64();
    // ur p ~ ug us by e p; us o ~ uq p by h o
    let x = ur * p - ug * us;
    let y = us * o - uq * p;
    assert(-(e * p) <= x <= e * p);
    assert(-(h * o) <= y <= h * o);
    assert((ur * o - ug * uq) * p == x * o + ug * y) by (nonlinear_arith)
        requires
            x == ur * p - ug * us,
            y == us * o - uq * p,
    ;
    assert(-((e * p) * o) <= x * o <= (e * p) * o) by (nonlinear_arith)
        requires
            -(e * p) <= x <= e * p,
            o > 0,
    ;
    assert(-(top * (h * o)) <= ug * y <= top * (h * o)) by (nonlinear_arith)
        requires
            -top <= ug <= top,
            -(h * o) <= y <= h * o,
            h * o >= 0,
    ;
    assert(top * (h * o) == (e * o) * p) by (nonlinear_arith)
        requires
            top == 16 * p,
            e == 16 * h,
    ;
    assert((e * p) * o == (e * o) * p) by (nonlinear_arith);
    assert(within(ur * o, ug * uq, ((2 * e) * o) as int)) by (nonlinear_arith)
        requires
            -(2 * ((e * o) * p)) <= (ur * o - ug * uq) * p <= 2 * ((e * o) * p),
            p > 0,
    ;
}

/// A level on a ramp: the level times how far along the ramp it is, to within rounding.
proof fn lemma_level_on_ramp(g: Single, q: Double, len: int, d: int)
    requires
        single_upto(g, 153),
        q.is_finite(),
        0 <= units(q@) <= pow2(1074),
        len > 0,
        within(
            units(q@) * len,
            d * pow2(1074),
            pow2(1020) * len + pow2(1045) * pow2(1074),
        ),
    ensures
        within(
            units(g.times(q.to_single())@) * len,
            units(g@) * d,
            pow2(130) * len + pow2(1045) * size(units(g@)),
        ),
{
    lemma_share_of_level(g, q);
    let o = pow2(1074);
    lemma_pow2_pos(1074);
    lemma_pow2_unfold(130);
    lemma_pow2_adds(54, 1020);
    lemma_pow2_pos(1020);
    lemma_pow2_adds(153, 1020);
    let (ug, uq, ur) = (units(g@), units(q@), units(g.times(q.to_single())@));
    let (e, k, z) = (pow2(129), pow2(1020), pow2(1045));
    let x = ur * o - ug * uq;
    let y = uq * len - d * o;
    assert((ur * len - ug * d) * o == x * len + ug * y) by (nonlinear_arith)
        requires
            x == ur * o - ug * uq,
            y == uq * len - d * o,
    ;
    let g0 = size(ug);
    assert(-((e * o) * len) <= x * len <= (e * o) * len) by (nonlinear_arith)
        requires
            -(e * o) <= x <= e * o,
            len > 0,
    ;
    let w = k * len + z * o;
    assert(-(g0 * w) <= ug * y <= g0 * w) by (nonlinear_arith)
        requires
            -w <= y <= w,
            g0 == size(ug),
    ;
    let top = pow2(153);
    assert(top * k <= e * o) by {
        lemma_pow2_adds(129, 1074);
        crate::ieee::laws::lemma_pow2_monotone(1173, 1203);
    }
    assert(g0 * w <= (e * o) * len + (z * g0) * o) by (nonlinear_arith)
        requires
            0 <= g0 <= top,
            w == k * len + z * o,
            top * k <= e * o,
            k > 0,
            len > 0,
    ;
    let b = 2 * e * len + z * g0;
    assert((e * o) * len + ((e * o) * len + (z * g0) * o) == b * o) by (nonlinear_arith)
        requires
            b == 2 * e * len + z * g0,
    ;
    assert(-b <= ur * len - ug * d <= b) by (nonlinear_arith)
        requires
            -(b * o) <= (ur * len - ug * d) * o <= b * o,
            o > 0,
    ;
    assert(pow2(130) * len == 2 * e * len) by (nonlinear_arith)
        requires
            pow2(130) == 2 * e,
    ;
}

/// A fade in rises evenly: so far into it, that much of the gain is heard, and that much of
/// the picture shows, to within rounding.
pub proof fn lemma_a_fade_in_rises_evenly(c: Clip, t: Double)
    requires
        c.timed(),
        double_upto(c.timeline_start, 1098),
        double_upto(t, 1098),
        double(ZERO).lt(c.fade_in),
        0 <= units(t@) - units(c.timeline_start@) <= units(c.fade_in@),
        c.tail_ahead(t),
    ensures
        ({
            let into = units(t@) - units(c.timeline_start@);
            let len = units(c.fade_in@);
            &&& single_upto(c.gain, 153) ==> within(
                units(c.level(t)@) * len,
                units(c.gain@) * into,
                pow2(130) * len + pow2(1045) * size(units(c.gain@)),
            )
            &&& single_upto(c.opacity, 153) ==> within(
                units(c.alpha(t)@) * len,
                units(c.opacity@) * into,
                pow2(130) * len + pow2(1045) * size(units(c.opacity@)),
            )
        }),
{
    lemma_double_zero();
    lemma_taper_beside(c, t);
    lemma_ramp_near(c.timeline_start, t, c.fade_in);
    let into = units(t@) - units(c.timeline_start@);
    let len = units(c.fade_in@);
    if single_upto(c.gain, 153) {
        lemma_level_on_ramp(c.gain, c.taper(t), len, into);
    }
    if single_upto(c.opacity, 153) {
        lemma_level_on_ramp(c.opacity, c.taper(t), len, into);
    }
}

/// A fade out falls evenly: so much of it left, that much of the gain is heard, and that much
/// of the picture shows, to within rounding.
pub proof fn lemma_a_fade_out_falls_evenly(c: Clip, t: Double)
    requires
        c.timed(),
        double_upto(c.timeline_end(), 1098),
        double_upto(t, 1098),
        double(ZERO).lt(c.fade_out),
        0 <= units(c.timeline_end()@) - units(t@) <= units(c.fade_out@),
        c.head_over(t),
    ensures
        ({
            let left = units(c.timeline_end()@) - units(t@);
            let len = units(c.fade_out@);
            &&& single_upto(c.gain, 153) ==> within(
                units(c.level(t)@) * len,
                units(c.gain@) * left,
                pow2(130) * len + pow2(1045) * size(units(c.gain@)),
            )
            &&& single_upto(c.opacity, 153) ==> within(
                units(c.alpha(t)@) * len,
                units(c.opacity@) * left,
                pow2(130) * len + pow2(1045) * size(units(c.opacity@)),
            )
        }),
{
    lemma_double_zero();
    lemma_taper_beside(c, t);
    lemma_ramp_near(t, c.timeline_end(), c.fade_out);
    let left = units(c.timeline_end()@) - units(t@);
    let len = units(c.fade_out@);
    if single_upto(c.gain, 153) {
        lemma_level_on_ramp(c.gain, c.taper(t), len, left);
    }
    if single_upto(c.opacity, 153) {
        lemma_level_on_ramp(c.opacity, c.taper(t), len, left);
    }
}

/// A clip ends as far after it begins as it shows of its source, and what shows at `t` lies as
/// far into its source as `t` lies into the clip, to within rounding.
pub proof fn lemma_a_clip_runs_through_its_source(c: Clip, t: Double)
    requires
        double_upto(c.timeline_start, 1098),
        double_upto(c.source_in, 1098),
        double_upto(c.source_out, 1098),
        double_upto(t, 1098),
        units(c.source_in@) <= units(c.source_out@),
        units(c.timeline_start@) <= units(t@),
    ensures
        within(
            units(c.timeline_end()@) - units(c.timeline_start@),
            units(c.source_out@) - units(c.source_in@),
            pow2(1047) as int,
        ),
        within(
            units(c.source_time(t)@) - units(c.source_in@),
            units(t@) - units(c.timeline_start@),
            pow2(1047) as int,
        ),
        units(t@) == units(c.timeline_start@) ==> units(c.source_time(t)@) == units(c.source_in@),
{
    lemma_double_zero();
    lemma_pow2_unfold(1099);
    lemma_pow2_unfold(1100);
    lemma_pow2_unfold(1046);
    lemma_pow2_unfold(1047);
    let zero = double(ZERO);
    let len = c.source_out.minus(c.source_in);
    lemma_double_minus_near(c.source_out, c.source_in, 1099);
    lemma_double_minus_keeps_side(c.source_out, c.source_in, zero);
    lemma_double_plus_near(c.timeline_start, len.max(zero), 1100);
    let into = t.minus(c.timeline_start);
    lemma_double_minus_near(t, c.timeline_start, 1099);
    lemma_double_minus_keeps_side(t, c.timeline_start, zero);
    lemma_double_plus_near(c.source_in, into.max(zero), 1100);
    if units(t@) == units(c.timeline_start@) {
        lemma_double_has(c.source_in);
        lemma_double_plus(c.source_in, into.max(zero));
        if let Num::Fin { neg: _, mag } = c.source_in@ {
            let f = double_format();
            lemma_double_bits();
            lemma_round_le(f, mag, 1, mag);
            lemma_round_ge(f, mag, 1, mag);
        }
    }
}

/// A cut leaves what plays as it is: the first half ends where the second begins, the second
/// where the clip ended, and each of them shows the same of the source at every moment as the
/// clip did, at the same level, opacity and place, all but for rounding.
pub proof fn lemma_a_cut_leaves_what_plays(c: Clip, t: Double, u: Double, id: u32, link: Option<u32>)
    requires
        double_upto(c.timeline_start, 1096),
        double_upto(c.source_in, 1096),
        double_upto(c.source_out, 1096),
        double_upto(t, 1096),
        double_upto(u, 1096),
        units(c.source_in@) <= units(c.source_out@),
        units(c.timeline_start@) <= units(t@),
        units(t@) - units(c.timeline_start@) <= units(c.source_out@) - units(c.source_in@)
            - pow2(1048),
    ensures
        ({
            let a = c.before_cut(t).with_fades_clamped();
            let b = c.after_cut(t, id, link).with_fades_clamped();
            &&& 0x10_0000 * gap_of(units(a.timeline_end()@), units(t@)) <= second()
            &&& units(b.timeline_start@) == units(t@)
            &&& 0x10_0000 * gap_of(units(b.timeline_end()@), units(c.timeline_end()@)) <= second()
            &&& a.source_time(u) == c.source_time(u)
            &&& units(t@) <= units(u@) ==> 0x10_0000 * gap_of(
                units(b.source_time(u)@),
                units(c.source_time(u)@),
            ) <= second()
            &&& a.opacity == c.opacity && b.opacity == c.opacity
            &&& a.gain == c.gain && b.gain == c.gain
            &&& a.transform == c.transform && b.transform == c.transform
        }),
{
    let a = c.before_cut(t);
    let b = c.after_cut(t, id, link);
    lemma_pow2_unfold(1097);
    lemma_pow2_unfold(1098);
    lemma_pow2_unfold(1048);
    lemma_pow2_pos(1047);
    lemma_pow2_adds(49, 1048);
    lemma_pow2_pos(49);
    lemma_pow2_adds(26, 1048);
    lemma_pow2_adds(6, 1048);
    lemma2_to64();
    vstd::arithmetic::power2::lemma2_to64_rest();
    lemma_source_time_is_near(c, t);
    lemma_a_clip_runs_through_its_source(c, t);
    lemma_a_clip_runs_through_its_source(a, t);
    lemma_a_clip_runs_through_its_source(b, t);
    if units(t@) <= units(u@) {
        lemma_a_clip_runs_through_its_source(b, u);
        lemma_a_clip_runs_through_its_source(c, u);
    }
}

/// What shows of a source is a finite time.
proof fn lemma_source_time_is_near(c: Clip, t: Double)
    requires
        double_upto(c.timeline_start, 1096),
        double_upto(c.source_in, 1096),
        double_upto(t, 1096),
        units(c.timeline_start@) <= units(t@),
    ensures
        double_upto(c.source_time(t), 1098),
        units(c.source_in@) <= units(c.source_time(t)@),
{
    lemma_double_zero();
    lemma_pow2_unfold(1097);
    lemma_pow2_unfold(1098);
    let zero = double(ZERO);
    let into = t.minus(c.timeline_start);
    lemma_double_minus_near(t, c.timeline_start, 1097);
    lemma_double_minus_keeps_side(t, c.timeline_start, zero);
    lemma_double_plus_near(c.source_in, into.max(zero), 1098);
    lemma_double_plus_keeps_side(c.source_in, into.max(zero), c.source_in);
}

} // verus!
