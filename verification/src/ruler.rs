//! Where times stand in the timeline panel, and what lies where in it.

use crate::ieee::facts::{
    lemma_double_literal, lemma_double_one, lemma_double_zero, lemma_single_literal,
    lemma_single_one, lemma_single_small, lemma_single_zero,
};
use crate::ieee::model::units;
use crate::ieee::near::{
    double_upto, gap_of, lemma_close_parts, lemma_close_times, lemma_double_minus_keeps_side,
    lemma_double_over_near, lemma_double_ratio, lemma_double_sums_near, lemma_double_times_near,
    lemma_half_near, lemma_share_to_single_near, lemma_single_keeps_sign, lemma_single_minus_near,
    lemma_single_over_near, lemma_single_plus_near, lemma_single_times_near,
    lemma_single_to_double_near, single_upto, size,
};
use crate::ieee::{double, single, Double, Single};
use crate::layout::{
    lane_y, spec_lane_y, TimelineLayout, MIN_CONTENT_SPAN, MIN_VIEW_SPAN, PAN_STEP_FRAC, VIEW_FOLLOW_LEAD,
};
use crate::placing::pixel;
use crate::session::Sitting;
use crate::theme::{HALF_PT, TRACK_LANE_GAP};
use crate::timeline::TrackKind;
use crate::timing::second;
use vstd::arithmetic::power2::{
    lemma2_to64, lemma_pow2_adds, lemma_pow2_pos, lemma_pow2_unfold, pow2,
};
use vstd::prelude::*;

verus! {

/// A panel of an ordinary size: at least a point wide, with a view of more than a sixteenth of
/// a second and less than a fortnight.
pub open spec fn legible(l: TimelineLayout) -> bool {
    &&& l.view_dur.is_finite() && second() <= 16 * units(l.view_dur@) && double_upto(
        l.view_dur,
        1094,
    )
    &&& double_upto(l.view_start, 1094) && 0 <= units(l.view_start@)
    &&& pixel() <= units(l.clips_w@) && single_upto(l.clips_w, 163)
    &&& single_upto(l.clips_x, 163)
}

/// How far into the view a time is, as a share of it.
proof fn lemma_share_of_the_view(l: TimelineLayout, t: Double)
    requires
        legible(l),
        t.is_finite(),
        0 <= units(t@) - units(l.view_start@) <= units(l.view_dur@),
    ensures
        ({
            let s = t.minus(l.view_start).over(l.view_dur).to_single();
            &&& s.is_finite()
            &&& 0 <= units(s@) <= pixel()
            &&& gap_of(
                units(s@) * units(l.view_dur@),
                (units(t@) - units(l.view_start@)) * pixel(),
            ) <= pow2(125) * units(l.view_dur@)
        }),
{
    let (p, d) = (pow2(149), pow2(1074));
    let len = units(l.view_dur@);
    let tau = units(t@) - units(l.view_start@);
    let a = t.minus(l.view_start);
    let r = a.over(l.view_dur);
    let s = r.to_single();
    lemma_pow2_pos(149);
    lemma_pow2_pos(1074);
    lemma_pow2_pos(1070);
    lemma2_to64();
    lemma_double_zero();
    lemma_double_one();
    lemma_pow2_adds(4, 1070);
    lemma_double_sums_near(t, l.view_start, 1094);
    lemma_double_minus_keeps_side(t, l.view_start, l.view_dur);
    lemma_double_minus_keeps_side(t, l.view_start, double(0));
    lemma_double_ratio(a, l.view_dur);
    let ua = units(a@);
    assert(size(ua) * d <= pow2(1074) * size(len)) by (nonlinear_arith)
        requires
            0 <= ua <= len,
            d == pow2(1074),
    ;
    lemma_double_over_near(a, l.view_dur, 1074);
    lemma_share_to_single_near(r);
    let (ur, us) = (units(r@), units(s@));
    let (e5, e4, e3) = (pow2(1040), pow2(1020), pow2(124));
    // us * d is near ur * p, ur * len is near ua * d, and ua is near tau.
    lemma_close_times(us * d, ur * p, (e3 * d) as int, len);
    lemma_close_times(ur * len, ua * d, e4 * len, p as int);
    lemma_close_times(ua, tau, e5 as int, (d * p) as int);
    assert((us * d) * len == (us * len) * d) by (nonlinear_arith);
    assert((ur * p) * len == (ur * len) * p) by (nonlinear_arith);
    assert((ua * d) * p == ua * (d * p)) by (nonlinear_arith);
    assert(tau * (d * p) == (tau * p) * d) by (nonlinear_arith);
    assert((e3 * d) * len == (e3 * len) * d) by (nonlinear_arith);
    lemma_pow2_adds(1020, 149);
    lemma_pow2_adds(95, 1074);
    lemma_pow2_pos(95);
    assert((e4 * len) * p == (pow2(95) * len) * d) by (nonlinear_arith)
        requires
            e4 * p == pow2(95) * d,
    ;
    lemma_pow2_adds(1040, 149);
    lemma_pow2_adds(119, 1070);
    lemma_pow2_pos(119);
    assert(e5 * (d * p) <= (pow2(119) * len) * d) by (nonlinear_arith)
        requires
            e5 * p == pow2(119) * pow2(1070),
            pow2(1070) <= len,
            pow2(119) > 0,
            d > 0,
    ;
    lemma_pow2_adds(1, 124);
    lemma_pow2_adds(5, 119);
    lemma_pow2_adds(29, 95);
    let e = pow2(125);
    assert((e3 * len) * d + (pow2(95) * len) * d + (pow2(119) * len) * d <= (e * len) * d)
        by (nonlinear_arith)
        requires
            e == 2 * e3,
            e3 == 32 * pow2(119),
            pow2(95) <= pow2(119),
            pow2(119) > 0,
            len > 0,
            d > 0,
    ;
    lemma_close_parts(us * len, tau * p, e * len, d as int);
}

/// A time stands as far along the panel as it is into the view, to within a sixty-fourth of a
/// point: the start of the view at the left edge, its end at the right one.
pub proof fn lemma_a_time_stands_along_the_panel(l: TimelineLayout, t: Double)
    requires
        legible(l),
        t.is_finite(),
        0 <= units(t@) - units(l.view_start@) <= units(l.view_dur@),
    ensures
        l.t_to_x(t).is_finite(),
        64 * gap_of(
            (units(l.t_to_x(t)@) - units(l.clips_x@)) * units(l.view_dur@),
            (units(t@) - units(l.view_start@)) * units(l.clips_w@),
        ) <= pixel() * units(l.view_dur@),
{
    reveal(TimelineLayout::spec_t_to_x);
    let p = pow2(149);
    let len = units(l.view_dur@);
    let w = units(l.clips_w@);
    let tau = units(t@) - units(l.view_start@);
    let s = t.minus(l.view_start).over(l.view_dur).to_single();
    let q = s.times(l.clips_w);
    let x = l.t_to_x(t);
    lemma_pow2_pos(149);
    lemma2_to64();
    lemma_pow2_adds(4, 1070);
    lemma_pow2_pos(1070);
    lemma_share_of_the_view(l, t);
    let us = units(s@);
    let top = pow2(163);
    assert(0 <= us * w <= top * p) by (nonlinear_arith)
        requires
            0 <= us <= p,
            0 <= w <= top,
    ;
    lemma_single_times_near(s, l.clips_w, 163);
    lemma_pow2_unfold(164);
    lemma_single_plus_near(l.clips_x, q, 164);
    let uq = units(q@);
    let (e1, e2, e6) = (pow2(139), pow2(138), pow2(125));
    lemma_close_times(uq * p, us * w, (e2 * p) as int, len);
    lemma_close_times(us * len, tau * p, e6 * len, w);
    assert((uq * p) * len == (uq * len) * p) by (nonlinear_arith);
    assert((us * w) * len == (us * len) * w) by (nonlinear_arith);
    assert((tau * p) * w == (tau * w) * p) by (nonlinear_arith);
    assert((e2 * p) * len == (e2 * len) * p) by (nonlinear_arith);
    lemma_pow2_adds(14, 149);
    lemma_pow2_adds(14, 125);
    lemma_pow2_pos(125);
    assert((e6 * len) * w <= (e1 * len) * p) by (nonlinear_arith)
        requires
            w <= 0x4000 * p,
            e1 == 0x4000 * e6,
            e6 > 0,
            len > 0,
    ;
    assert((e2 * len) * p + (e1 * len) * p == ((e2 + e1) * len) * p) by (nonlinear_arith);
    lemma_close_parts(uq * len, tau * w, (e2 + e1) * len, p as int);
    lemma_close_times(units(x@) - units(l.clips_x@), uq, e1 as int, len);
    lemma_pow2_adds(1, 138);
    lemma_pow2_adds(10, 139);
    lemma_pow2_pos(138);
    assert(64 * ((e2 + e1) * len + e1 * len) <= p * len) by (nonlinear_arith)
        requires
            e1 == 2 * e2,
            p == 1024 * e1,
            e2 > 0,
            len > 0,
    ;
}

/// How far along the panel a position lies, as a share of it.
proof fn lemma_share_of_the_panel(l: TimelineLayout, x: Single)
    requires
        legible(l),
        x.is_finite(),
        0 <= units(x@) - units(l.clips_x@) <= units(l.clips_w@),
    ensures
        double_upto(l.along(x), 1074),
        0 <= units(l.along(x)@),
        gap_of(
            units(l.along(x)@) * units(l.clips_w@),
            (units(x@) - units(l.clips_x@)) * second(),
        ) <= pow2(140) * second(),
{
    reveal(TimelineLayout::spec_along);
    let (p, d) = (pow2(149), pow2(1074));
    let w = units(l.clips_w@);
    let kappa = units(x@) - units(l.clips_x@);
    let k = x.minus(l.clips_x);
    let q = k.over(l.clips_w);
    let f = q.clamp(single(0), single(0x3f80_0000));
    let g = f.to_double();
    lemma_pow2_pos(149);
    lemma_pow2_pos(1074);
    lemma2_to64();
    lemma_single_zero();
    lemma_single_one();
    lemma_pow2_unfold(150);
    lemma_single_minus_near(x, l.clips_x, 163);
    lemma_pow2_adds(11, 138);
    lemma_pow2_pos(138);
    let uk = units(k@);
    assert(size(uk) * p <= pow2(150) * size(w)) by (nonlinear_arith)
        requires
            size(uk) <= 2 * w,
            pow2(150) == 2 * p,
            w > 0,
    ;
    lemma_single_over_near(k, l.clips_w, 150);
    let (uq, uf) = (units(q@), units(f@));
    let (e1, e2) = (pow2(138), pow2(125));
    lemma_close_times(uk, kappa, e1 as int, p as int);
    assert(gap_of(uq * w, kappa * p) <= e1 * p + e2 * w);
    assert(gap_of(uf * w, kappa * p) <= gap_of(uq * w, kappa * p)) by (nonlinear_arith)
        requires
            (uf == uq && 0 <= uq <= p) || (uf == 0 && uq < 0) || (uf == p && uq > p),
            0 <= kappa <= w,
            p > 0,
    ;
    lemma_single_to_double_near(f, 1074);
    let ug = units(g@);
    let e3 = pow2(1020);
    lemma_close_times(ug * p, uf * d, (e3 * p) as int, w);
    lemma_close_times(uf * w, kappa * p, e1 * p + e2 * w, d as int);
    assert((ug * p) * w == (ug * w) * p) by (nonlinear_arith);
    assert((uf * d) * w == (uf * w) * d) by (nonlinear_arith);
    assert((kappa * p) * d == (kappa * d) * p) by (nonlinear_arith);
    lemma_pow2_adds(14, 149);
    lemma_pow2_adds(13, 125);
    lemma_pow2_adds(2, 138);
    lemma_pow2_adds(1020, 163);
    lemma_pow2_adds(109, 1074);
    lemma_pow2_adds(16, 109);
    lemma_pow2_pos(109);
    lemma_pow2_pos(1020);
    let e = pow2(140);
    assert((e3 * p) * w <= (pow2(109) * d) * p) by (nonlinear_arith)
        requires
            e3 * pow2(163) == pow2(109) * d,
            0 < w <= pow2(163),
            e3 > 0,
            p > 0,
    ;
    assert((e1 * p + e2 * w) * d <= ((3 * e1) * d) * p) by (nonlinear_arith)
        requires
            w <= 0x4000 * p,
            e1 == 0x2000 * e2,
            e2 > 0,
            d > 0,
            p > 0,
    ;
    assert((pow2(109) * d) * p + ((3 * e1) * d) * p <= (e * d) * p) by (nonlinear_arith)
        requires
            e == 4 * e1,
            pow2(109) <= e1,
            d > 0,
            p > 0,
    ;
    lemma_close_parts(ug * w, kappa * d, (e * d) as int, p as int);
}

/// The time under a position is as far into the view as the position is along the panel, to
/// within what a small part of a point stands for.
pub proof fn lemma_the_cursor_is_over_a_time(l: TimelineLayout, x: Single)
    requires
        legible(l),
        x.is_finite(),
        0 <= units(x@) - units(l.clips_x@) <= units(l.clips_w@),
    ensures
        l.cursor_to_t(x).is_finite(),
        128 * gap_of(
            (units(l.cursor_to_t(x)@) - units(l.view_start@)) * units(l.clips_w@),
            (units(x@) - units(l.clips_x@)) * units(l.view_dur@),
        ) <= pixel() * units(l.view_dur@),
{
    reveal(TimelineLayout::spec_cursor_to_t);
    let (p, d) = (pow2(149), pow2(1074));
    let w = units(l.clips_w@);
    let len = units(l.view_dur@);
    let kappa = units(x@) - units(l.clips_x@);
    let g = l.along(x);
    let y = g.times(l.view_dur);
    let t = l.cursor_to_t(x);
    lemma_pow2_pos(149);
    lemma_pow2_pos(1074);
    lemma_pow2_pos(1070);
    lemma2_to64();
    lemma_pow2_adds(4, 1070);
    lemma_share_of_the_panel(l, x);
    let ug = units(g@);
    let top = pow2(1094);
    assert(0 <= ug * len <= top * d) by (nonlinear_arith)
        requires
            0 <= ug <= d,
            0 <= len <= top,
    ;
    lemma_double_times_near(g, l.view_dur, 1094);
    lemma_pow2_unfold(1095);
    lemma_double_sums_near(l.view_start, y, 1095);
    let (uy, ut) = (units(y@), units(t@) - units(l.view_start@));
    let (e1, e2, e) = (pow2(1040), pow2(1041), pow2(140));
    lemma_close_times(uy * d, ug * len, (e1 * d) as int, w);
    lemma_close_times(ug * w, kappa * d, (e * d) as int, len);
    assert((uy * d) * w == (uy * w) * d) by (nonlinear_arith);
    assert((ug * len) * w == (ug * w) * len) by (nonlinear_arith);
    assert((kappa * d) * len == (kappa * len) * d) by (nonlinear_arith);
    assert((e1 * d) * w + (e * d) * len == (e1 * w + e * len) * d) by (nonlinear_arith);
    lemma_close_parts(uy * w, kappa * len, e1 * w + e * len, d as int);
    lemma_close_times(ut, uy, e2 as int, w);
    lemma_pow2_adds(1040, 163);
    lemma_pow2_adds(133, 1070);
    lemma_pow2_adds(1, 1040);
    lemma_pow2_adds(7, 133);
    lemma_pow2_adds(9, 140);
    lemma_pow2_pos(133);
    lemma_pow2_pos(1040);
    let z = pow2(133);
    assert(e1 * w <= z * len) by (nonlinear_arith)
        requires
            e1 * pow2(163) == z * pow2(1070),
            0 < w <= pow2(163),
            pow2(1070) <= len,
            z > 0,
            e1 > 0,
    ;
    assert(e2 * w == 2 * (e1 * w)) by (nonlinear_arith)
        requires
            e2 == 2 * e1,
    ;
    assert(128 * (3 * (z * len) + e * len) <= p * len) by (nonlinear_arith)
        requires
            e == 128 * z,
            p == 512 * e,
            len > 0,
            z > 0,
    ;
}

/// A second is as many points wide as the panel is in proportion to the view.
pub proof fn lemma_a_second_is_so_many_points(l: TimelineLayout)
    requires
        legible(l),
    ensures
        l.px_per_sec().is_finite(),
        64 * gap_of(
            units(l.px_per_sec()@) * units(l.view_dur@) * pixel(),
            units(l.clips_w@) * second() * second(),
        ) <= units(l.clips_w@) * second() * second(),
{
    reveal(TimelineLayout::spec_px_per_sec);
    let (p, d) = (pow2(149), pow2(1074));
    let w = units(l.clips_w@);
    let len = units(l.view_dur@);
    let g = l.clips_w.to_double();
    let r = g.over(l.view_dur);
    lemma_pow2_pos(149);
    lemma_pow2_pos(1074);
    lemma_pow2_pos(1070);
    lemma2_to64();
    lemma_pow2_adds(4, 1070);
    lemma_pow2_adds(14, 1074);
    lemma_pow2_adds(18, 1074);
    lemma_single_to_double_near(l.clips_w, 1088);
    let ug = units(g@);
    assert(size(ug) * d <= pow2(1092) * size(len)) by (nonlinear_arith)
        requires
            0 <= ug <= 0x4000 * d,
            d <= 16 * len,
            pow2(1092) == 0x4_0000 * d,
            d > 0,
    ;
    lemma_double_over_near(g, l.view_dur, 1092);
    let ur = units(r@);
    let (e1, e2) = (pow2(1034), pow2(1038));
    lemma_close_times(ur * len, ug * d, e2 * len, p as int);
    lemma_close_times(ug * p, w * d, (e1 * p) as int, d as int);
    assert((ug * d) * p == (ug * p) * d) by (nonlinear_arith);
    lemma_pow2_adds(1038, 1094);
    lemma_pow2_adds(1058, 1074);
    lemma_pow2_adds(16, 1058);
    lemma_pow2_adds(40, 1034);
    lemma_pow2_adds(24, 1034);
    lemma_pow2_pos(1034);
    lemma_pow2_pos(1038);
    assert((e2 * len) * p <= pow2(1058) * (w * d)) by (nonlinear_arith)
        requires
            e2 * pow2(1094) == pow2(1058) * d,
            0 < len <= pow2(1094),
            p <= w,
            e2 > 0,
            p > 0,
            d > 0,
            pow2(1058) >= 0,
    ;
    assert((e1 * p) * d <= e1 * (w * d)) by (nonlinear_arith)
        requires
            p <= w,
            e1 > 0,
            d > 0,
    ;
    let m = w * d;
    assert(m > 0) by (nonlinear_arith)
        requires
            m == w * d,
            w > 0,
            d > 0,
    ;
    assert(64 * (pow2(1058) * m + e1 * m) <= m * d) by (nonlinear_arith)
        requires
            d == 0x1_0000 * pow2(1058),
            pow2(1058) == 0x100_0000 * e1,
            m > 0,
            e1 > 0,
    ;
}

/// Zooming keeps the time under the cursor where it is, wherever the content leaves room for
/// that.
pub proof fn lemma_zooming_keeps_what_is_under_the_cursor(s: Sitting, shrink: Double, x: Single)
    requires
        legible(s.layout()),
        legible(s.zoomed(shrink, x).layout()),
        x.is_finite(),
        0 <= units(x@) - units(s.layout().clips_x@) <= units(s.layout().clips_w@),
        s.zoomed(shrink, x).layout().view_start == s.zoomed(shrink, x).desk.view_start,
    ensures
        s.zoomed(shrink, x).layout().cursor_to_t(x).is_finite(),
        0x8000_0000 * gap_of(
            units(s.zoomed(shrink, x).layout().cursor_to_t(x)@),
            units(s.layout().cursor_to_t(x)@),
        ) <= second(),
{
    reveal(Sitting::layout);
    reveal(TimelineLayout::spec_cursor_to_t);
    reveal(crate::layout::spec_resolve_view);
    let d = pow2(1074);
    let z = s.zoomed(shrink, x);
    let (l, n) = (s.layout(), z.layout());
    assert(n.along(x) == l.along(x)) by {
        reveal(TimelineLayout::spec_along);
    }
    let g = l.along(x);
    let y = g.times(n.view_dur);
    let t = l.cursor_to_t(x);
    lemma_pow2_pos(1074);
    lemma_pow2_pos(1094);
    lemma_share_of_the_panel(l, x);
    lemma_the_cursor_stays_in_the_view(l, x);
    let ug = units(g@);
    let len = units(n.view_dur@);
    let top = pow2(1094);
    assert(0 <= ug * len <= top * d) by (nonlinear_arith)
        requires
            0 <= ug <= d,
            0 <= len <= top,
    ;
    lemma_double_times_near(g, n.view_dur, 1094);
    assert(n.view_start == t.minus(y));
    lemma_pow2_unfold(1095);
    lemma_pow2_unfold(1096);
    lemma_pow2_unfold(1097);
    lemma_double_sums_near(t, y, 1096);
    lemma_double_sums_near(n.view_start, y, 1097);
    lemma_pow2_adds(31, 1043);
    lemma_pow2_adds(2, 1041);
    lemma2_to64();
    lemma_back_again(t, y);
}

/// Taking a span away and putting it back.
proof fn lemma_back_again(t: Double, y: Double)
    requires
        double_upto(t, 1095),
        double_upto(y, 1094),
        double_upto(t.minus(y), 1094),
    ensures
        t.minus(y).plus(y).is_finite(),
        0x8000_0000 * gap_of(units(t.minus(y).plus(y)@), units(t@)) <= second(),
{
    lemma_pow2_unfold(1095);
    lemma_pow2_unfold(1096);
    lemma_double_sums_near(t, y, 1096);
    lemma_double_sums_near(t.minus(y), y, 1095);
    lemma_pow2_adds(31, 1043);
    lemma_pow2_unfold(1042);
    lemma_pow2_unfold(1043);
    lemma_pow2_pos(1041);
    lemma2_to64();
}

/// The time under a position on the panel is no further than the view goes.
proof fn lemma_the_cursor_stays_in_the_view(l: TimelineLayout, x: Single)
    requires
        legible(l),
        x.is_finite(),
        0 <= units(x@) - units(l.clips_x@) <= units(l.clips_w@),
    ensures
        double_upto(l.cursor_to_t(x), 1095),
{
    reveal(TimelineLayout::spec_cursor_to_t);
    let d = pow2(1074);
    let g = l.along(x);
    let y = g.times(l.view_dur);
    lemma_pow2_pos(1074);
    lemma_share_of_the_panel(l, x);
    let (ug, len, top) = (units(g@), units(l.view_dur@), pow2(1094));
    assert(0 <= ug * len <= top * d) by (nonlinear_arith)
        requires
            0 <= ug <= d,
            0 <= len <= top,
    ;
    lemma_double_times_near(g, l.view_dur, 1094);
    lemma_pow2_unfold(1095);
    lemma_double_sums_near(l.view_start, y, 1095);
}

/// Zooming divides the span of the view by what it is zoomed by, as long as the content has
/// more than that and the least view less.
pub proof fn lemma_zooming_divides_the_view(s: Sitting, shrink: Double, x: Single)
    requires
        legible(s.layout()),
        shrink.is_finite(),
        second() <= 16 * units(shrink@) <= 256 * second(),
        ({
            let want = s.layout().view_dur.over(shrink);
            double(MIN_VIEW_SPAN).le(want) && !s.content().le(want) && want.le(s.content())
        }),
    ensures
        s.zoomed(shrink, x).layout().view_dur.is_finite(),
        0x1000_0000 * gap_of(
            units(s.zoomed(shrink, x).layout().view_dur@) * units(shrink@),
            units(s.layout().view_dur@) * second(),
        ) <= second() * units(shrink@),
{
    reveal(Sitting::layout);
    reveal(crate::layout::spec_resolve_view);
    let d = pow2(1074);
    let l = s.layout();
    let (len, by) = (units(l.view_dur@), units(shrink@));
    lemma_pow2_pos(1074);
    lemma2_to64();
    lemma_pow2_adds(5, 1094);
    assert(size(len) * d <= pow2(1099) * size(by)) by (nonlinear_arith)
        requires
            0 <= len <= pow2(1094),
            d <= 16 * by,
            pow2(1099) == 32 * pow2(1094),
            d > 0,
    ;
    lemma_double_over_near(l.view_dur, shrink, 1099);
    lemma_pow2_adds(29, 1045);
    lemma_pow2_pos(1045);
    let e = pow2(1045);
    assert(0x1000_0000 * (e * by) <= d * by) by (nonlinear_arith)
        requires
            d == 0x2000_0000 * e,
            by > 0,
            e > 0,
    ;
    let want = l.view_dur.over(shrink);
    assert(s.content().max(double(MIN_CONTENT_SPAN)) == s.content()) by {
        lemma_double_one();
    }
    assert(s.zoomed(shrink, x).layout().view_dur == want);
}

/// How far a notch takes the view, as a part of it.
proof fn lemma_pan_step()
    ensures
        double(PAN_STEP_FRAC).is_finite(),
        0 <= units(double(PAN_STEP_FRAC)@) <= pow2(1071),
        gap_of(25 * units(double(PAN_STEP_FRAC)@), 3 * second()) <= 64 * pow2(1018),
{
    vstd::arithmetic::power2::lemma2_to64_rest();
    lemma_double_literal(PAN_STEP_FRAC, 1018, 0x1e_b851_eb85_1eb8);
    lemma_pow2_adds(56, 1018);
    lemma_pow2_adds(53, 1018);
    lemma_pow2_pos(1018);
}

/// A notch forward takes the view three twenty-fifths of its span forward, and one back as far
/// back.
pub proof fn lemma_panning_slides_the_view(s: Sitting, notches: Double)
    requires
        double_upto(s.window().0, 1094),
        double_upto(s.window().1, 1094),
        0 <= units(s.window().1@),
        double_upto(notches, 1084),
    ensures
        s.panned(notches).desk.view_start.is_finite(),
        0x8_0000 * gap_of(
            25 * ((units(s.panned(notches).desk.view_start@) - units(s.window().0@)) * second()),
            3 * (units(notches@) * units(s.window().1@)),
        ) <= second() * second(),
        s.panned(notches).desk.view_dur == s.desk.view_dur,
{
    let d = pow2(1074);
    let step = double(PAN_STEP_FRAC);
    let a = notches.times(step);
    let (start, dur) = s.window();
    let b = a.times(dur);
    let v = s.panned(notches).desk.view_start;
    lemma_pan_step();
    lemma_pow2_pos(1074);
    lemma2_to64();
    let (un, us, len) = (units(notches@), units(step@), units(dur@));
    lemma_pow2_adds(1084, 1071);
    lemma_pow2_adds(1081, 1074);
    lemma_pow2_adds(1081, 1094);
    lemma_pow2_adds(1101, 1074);
    lemma_pow2_pos(1084);
    lemma_pow2_pos(1081);
    assert(-(pow2(1081) * d) <= un * us <= pow2(1081) * d) by (nonlinear_arith)
        requires
            -pow2(1084) <= un <= pow2(1084),
            0 <= us <= pow2(1071),
            pow2(1084) * pow2(1071) == pow2(1081) * d,
    ;
    lemma_double_times_near(notches, step, 1081);
    let ua = units(a@);
    assert(-(pow2(1101) * d) <= ua * len <= pow2(1101) * d) by (nonlinear_arith)
        requires
            -pow2(1081) <= ua <= pow2(1081),
            0 <= len <= pow2(1094),
            pow2(1081) * pow2(1094) == pow2(1101) * d,
    ;
    lemma_double_times_near(a, dur, 1101);
    let ub = units(b@);
    lemma_pow2_adds(7, 1094);
    lemma_pow2_unfold(1102);
    lemma_pow2_pos(1094);
    lemma_double_sums_near(start, b, 1102);
    let w = units(v@) - units(start@);
    let (e1, e2, e3) = (pow2(1048), pow2(1047), pow2(1027));
    // w is near ub, ub * d near ua * len, and ua * d near un * us.
    lemma_close_times(w, ub, e1 as int, (d * d) as int);
    lemma_close_times(ub * d, ua * len, (e2 * d) as int, d as int);
    lemma_close_times(ua * d, un * us, (e3 * d) as int, len);
    let q = (un * us) * len;
    assert(w * (d * d) == (w * d) * d && ub * (d * d) == (ub * d) * d && (ua * len) * d == (ua * d)
        * len) by (nonlinear_arith);
    lemma_pow2_adds(1027, 1094);
    lemma_pow2_adds(1047, 1074);
    lemma_pow2_pos(1027);
    assert((e3 * d) * len <= (e2 * d) * d) by (nonlinear_arith)
        requires
            e3 * pow2(1094) == e2 * d,
            0 <= len <= pow2(1094),
            e3 > 0,
            d > 0,
    ;
    lemma_pow2_adds(1, 1047);
    lemma_pow2_pos(1047);
    assert(gap_of((w * d) * d, q) <= (4 * e2 * d) * d) by (nonlinear_arith)
        requires
            gap_of((w * d) * d, q) <= e1 * (d * d) + (e2 * d) * d + (e2 * d) * d,
            e1 == 2 * e2,
    ;
    // 25 * us is near 3 * d.
    let k = un * len;
    assert(q == us * k) by (nonlinear_arith)
        requires
            q == (un * us) * len,
            k == un * len,
    ;
    let c = 64 * pow2(1018);
    lemma_pow2_adds(1084, 1094);
    lemma_pow2_adds(1104, 1074);
    assert(-(pow2(1104) * d) <= k <= pow2(1104) * d) by (nonlinear_arith)
        requires
            k == un * len,
            -pow2(1084) <= un <= pow2(1084),
            0 <= len <= pow2(1094),
            pow2(1084) * pow2(1094) == pow2(1104) * d,
    ;
    lemma_pow2_adds(6, 1018);
    lemma_pow2_adds(1024, 1104);
    lemma_pow2_adds(1054, 1074);
    lemma_pow2_pos(1104);
    lemma_pow2_pos(1018);
    assert(gap_of(25 * q, 3 * (k * d)) <= (pow2(1054) * d) * d) by (nonlinear_arith)
        requires
            q == us * k,
            gap_of(25 * us, 3 * d as int) <= c,
            c * pow2(1104) == pow2(1054) * d,
            -(pow2(1104) * d) <= k <= pow2(1104) * d,
            c > 0,
            d > 0,
    ;
    lemma_pow2_adds(7, 1047);
    assert(25 * ((4 * e2 * d) * d) <= (pow2(1054) * d) * d) by (nonlinear_arith)
        requires
            pow2(1054) == 128 * e2,
            e2 > 0,
            d > 0,
    ;
    let wd = w * d;
    assert(gap_of((25 * wd) * d, (3 * k) * d) <= (2 * pow2(1054) * d) * d) by (nonlinear_arith)
        requires
            gap_of(25 * (wd * d), 3 * (k * d)) <= 2 * ((pow2(1054) * d) * d),
    ;
    lemma_close_parts(25 * wd, 3 * k, (2 * pow2(1054) * d) as int, d as int);
    lemma_pow2_adds(20, 1054);
    lemma_pow2_pos(1054);
    assert(0x8_0000 * (2 * pow2(1054) * d) <= d * d) by (nonlinear_arith)
        requires
            d == 0x10_0000 * pow2(1054),
            d > 0,
    ;
}

/// How much of the view is left behind the playhead when the view is brought along.
proof fn lemma_follow_lead()
    ensures
        double(VIEW_FOLLOW_LEAD).is_finite(),
        0 <= units(double(VIEW_FOLLOW_LEAD)@) <= pow2(1071),
        gap_of(10 * units(double(VIEW_FOLLOW_LEAD)@), second()) <= 64 * pow2(1018),
{
    vstd::arithmetic::power2::lemma2_to64_rest();
    lemma_double_literal(VIEW_FOLLOW_LEAD, 1018, 0x19_9999_9999_999a);
    lemma_pow2_adds(56, 1018);
    lemma_pow2_adds(53, 1018);
    lemma_pow2_pos(1018);
}

/// Where the playhead ran out of the view while playing, the view is brought to where the
/// playhead is a tenth of the way into it; else it stays.
pub proof fn lemma_the_view_follows_the_playhead(s: Sitting, t: Double)
    requires
        double_upto(s.window().0, 1094),
        double_upto(s.window().1, 1094),
        0 <= units(s.window().1@),
        double_upto(t, 1094),
    ensures
        !s.desk.clock.playing ==> s.followed(t) == s,
        s.window().0.le(t) && t.lt(s.window().0.plus(s.window().1)) ==> s.followed(t) == s,
        s.desk.clock.playing && !(s.window().0.le(t) && t.lt(s.window().0.plus(s.window().1))) ==> {
            let v = s.followed(t).desk.view_start;
            &&& v.is_finite()
            &&& 0x100_0000 * gap_of(10 * (units(t@) - units(v@)), units(s.window().1@)) <= second()
        },
{
    let d = pow2(1074);
    let lead = double(VIEW_FOLLOW_LEAD);
    let dur = s.window().1;
    let b = dur.times(lead);
    lemma_follow_lead();
    lemma_pow2_pos(1074);
    lemma2_to64();
    let (us, len) = (units(lead@), units(dur@));
    lemma_pow2_adds(1094, 1071);
    lemma_pow2_adds(1091, 1074);
    assert(0 <= len * us <= pow2(1091) * d) by (nonlinear_arith)
        requires
            0 <= len <= pow2(1094),
            0 <= us <= pow2(1071),
            pow2(1094) * pow2(1071) == pow2(1091) * d,
    ;
    lemma_double_times_near(dur, lead, 1091);
    lemma_pow2_adds(3, 1091);
    lemma_pow2_unfold(1095);
    lemma_pow2_pos(1091);
    lemma_double_sums_near(t, b, 1095);
    let ub = units(b@);
    let (e, c) = (pow2(1037), 64 * pow2(1018));
    lemma_pow2_adds(6, 1018);
    lemma_pow2_adds(1024, 1094);
    lemma_pow2_adds(1044, 1074);
    lemma_pow2_pos(1018);
    assert(gap_of(10 * ub, len) <= 10 * e + pow2(1044)) by (nonlinear_arith)
        requires
            gap_of(ub * d, len * us) <= e * d,
            gap_of(10 * us, d as int) <= c,
            c * pow2(1094) == pow2(1044) * d,
            0 <= len <= pow2(1094),
            c > 0,
            d > 0,
    ;
    lemma_pow2_adds(7, 1037);
    lemma_pow2_adds(30, 1044);
    lemma_pow2_adds(4, 1037);
    lemma_pow2_pos(1037);
}

/// The heights of lanes and panels that are of an ordinary size.
pub open spec fn shelved(center_y: Single, lane_h: Single, i: usize) -> bool {
    &&& single_upto(center_y, 163)
    &&& single_upto(lane_h, 160) && 0 <= units(lane_h@)
    &&& i <= 64
}

/// The gap between lanes, and half of it.
proof fn lemma_gap_between_lanes()
    ensures
        single(TRACK_LANE_GAP).is_finite(),
        units(single(TRACK_LANE_GAP)@) == 2 * pixel(),
        single(TRACK_LANE_GAP).times(single(HALF_PT)).is_finite(),
        0x10_0000 * gap_of(units(single(TRACK_LANE_GAP).times(single(HALF_PT))@), pixel())
            <= pixel(),
{
    lemma_single_literal(TRACK_LANE_GAP, 127, 0x80_0000);
    lemma2_to64();
    lemma_pow2_adds(23, 127);
    lemma_pow2_unfold(150);
    lemma_half_near(single(TRACK_LANE_GAP), 150);
    lemma_pow2_adds(24, 125);
    lemma_pow2_pos(125);
}

/// Where the top of a lane lies, counted from the divider.
proof fn lemma_lane_near(center_y: Single, lane_h: Single, i: usize, kind: TrackKind)
    requires
        shelved(center_y, lane_h, i),
    ensures
        lane_y(center_y, lane_h, i, kind).is_finite(),
        16 * gap_of(
            units(lane_y(center_y, lane_h, i, kind)@),
            match kind {
                TrackKind::Video => units(center_y@) - pixel() - units(lane_h@) - i * (units(lane_h@)
                    + 2 * pixel()),
                TrackKind::Audio => units(center_y@) + pixel() + i * (units(lane_h@) + 2 * pixel()),
            },
        ) <= pixel(),
{
    reveal(spec_lane_y);
    let p = pow2(149);
    let half = single(TRACK_LANE_GAP).times(single(HALF_PT));
    let stride = lane_h.plus(single(TRACK_LANE_GAP));
    let n = Single::from_u64(i as u64);
    let m = n.times(stride);
    lemma_pow2_pos(149);
    lemma2_to64();
    lemma_gap_between_lanes();
    lemma_single_small(i as u64);
    lemma_pow2_adds(11, 149);
    lemma_pow2_adds(12, 149);
    lemma_pow2_adds(18, 149);
    lemma_pow2_adds(19, 149);
    lemma_pow2_adds(14, 149);
    lemma_pow2_adds(15, 149);
    lemma_pow2_adds(13, 136);
    lemma_pow2_adds(6, 143);
    lemma_pow2_adds(7, 136);
    lemma_pow2_adds(6, 136);
    lemma_pow2_pos(136);
    lemma_single_plus_near(lane_h, single(TRACK_LANE_GAP), 161);
    let us = units(stride@);
    let h = units(lane_h@);
    lemma_single_keeps_sign(lane_h, single(TRACK_LANE_GAP));
    assert(0 <= (i * p) * us <= pow2(167) * p) by (nonlinear_arith)
        requires
            0 <= us <= pow2(161),
            i <= 64,
            pow2(161) == 0x1000 * p,
            pow2(167) == 0x4_0000 * p,
            p > 0,
    ;
    lemma_single_times_near(n, stride, 167);
    let um = units(m@);
    let (e, f) = (pow2(142), pow2(136));
    assert(gap_of(um, i * us) <= e) by (nonlinear_arith)
        requires
            -(e * p) <= um * p - (i * p) * us <= e * p,
            p > 0,
    ;
    assert(gap_of(i * us, i * (h + 2 * p)) <= 64 * f) by (nonlinear_arith)
        requires
            gap_of(us, h + 2 * p) <= f,
            i <= 64,
            f > 0,
    ;
    assert(um <= pow2(167));
    match kind {
        TrackKind::Video => {
            let a = center_y.minus(half);
            let b = a.minus(lane_h);
            lemma_single_minus_near(center_y, half, 164);
            lemma_pow2_unfold(165);
            lemma_single_minus_near(a, lane_h, 165);
            lemma_single_minus_near(b, m, 168);
            lemma_pow2_adds(3, 136);
            lemma_pow2_adds(4, 136);
        },
        TrackKind::Audio => {
            let a = center_y.plus(half);
            lemma_single_plus_near(center_y, half, 164);
            lemma_single_plus_near(a, m, 168);
            lemma_pow2_adds(3, 136);
        },
    }
}

/// Lanes lie one against the next with a gap between them: video lanes upwards from the
/// divider, audio lanes downwards from it, to within an eighth of a point.
pub proof fn lemma_lanes_stack_away_from_the_divider(center_y: Single, lane_h: Single, i: usize)
    requires
        shelved(center_y, lane_h, i),
        i < 64,
    ensures
        ({
            let up = |k: int| units(lane_y(center_y, lane_h, k as usize, TrackKind::Video)@);
            let down = |k: int| units(lane_y(center_y, lane_h, k as usize, TrackKind::Audio)@);
            let h = units(lane_h@);
            let p = pixel();
            &&& 8 * gap_of(up(0) + h + p, units(center_y@)) <= p
            &&& 8 * gap_of(up(i + 1) + h + 2 * p, up(i as int)) <= p
            &&& 8 * gap_of(down(0) - p, units(center_y@)) <= p
            &&& 8 * gap_of(down(i as int) + h + 2 * p, down(i + 1)) <= p
        }),
{
    let j = (i + 1) as usize;
    lemma_lane_near(center_y, lane_h, 0, TrackKind::Video);
    lemma_lane_near(center_y, lane_h, 0, TrackKind::Audio);
    lemma_lane_near(center_y, lane_h, i, TrackKind::Video);
    lemma_lane_near(center_y, lane_h, i, TrackKind::Audio);
    lemma_lane_near(center_y, lane_h, j, TrackKind::Video);
    lemma_lane_near(center_y, lane_h, j, TrackKind::Audio);
    let k = units(lane_h@) + 2 * pixel();
    assert((i + 1) * k == i * k + k) by (nonlinear_arith);
    assert(0 * k == 0);
}

} // verus!
