//! Where a picture goes on the canvas while it is dragged.

use crate::canvas::Canvas;
use crate::edit::{
    frame_lines, frame_pull, near, offset_latched, scaled_about, scales, snap_of, three, Point, HALF,
    HALF_DOUBLE,
};
use crate::ieee::facts::{
    lemma_double_literal, lemma_double_one, lemma_double_zero, lemma_holds_zero, lemma_single_has,
    lemma_single_literal, lemma_single_one, lemma_single_over, lemma_single_plus,
    lemma_single_small, lemma_single_zero,
};
use crate::ieee::laws::{lemma_round_ge, lemma_round_le};
use crate::ieee::model::{single_format, units, Num};
use crate::ieee::near::{
    gap_of, lemma_close_parts, lemma_close_times, lemma_double_sums_near,
    lemma_double_times_near, lemma_double_to_single_near, lemma_half_near, lemma_single_minus_near, lemma_single_over_near, lemma_single_plus_near,
    lemma_single_times_near, lemma_single_to_double_near, double_upto, single_upto, size, within,
};
use crate::ieee::numbers::lemma_single_bits;
use crate::ieee::{double, single, Single};
use crate::moving::{lemma_double_abs, lemma_snap};
use crate::placing::{lemma_axis, lemma_a_picture_fits_the_canvas, ordinary, pixel};
use crate::session::Sitting;
use crate::timeline::{Transform, MAX_SCALE, MIN_SCALE, UNITY};
use crate::timing::second;
use vstd::arithmetic::power2::{
    lemma2_to64, lemma_pow2_adds, lemma_pow2_pos, lemma_pow2_unfold, pow2,
};
use vstd::prelude::*;

verus! {

/// How much of a picture lies before the corner that stays: all of it, or nothing.
proof fn lemma_before_the_anchor(w: Single, far: bool)
    requires
        w.is_finite(),
        0 <= units(w@) <= pow2(166),
    ensures
        ({
            let corner = if far {
                single(UNITY)
            } else {
                single(0)
            };
            let q = single(UNITY).minus(corner).times(w);
            &&& q.is_finite()
            &&& far ==> size(units(q@)) <= 4 * pow2(141)
            &&& !far ==> gap_of(units(q@), units(w@)) <= 4 * pow2(141)
        }),
{
    let p = pow2(149);
    let corner = if far {
        single(UNITY)
    } else {
        single(0)
    };
    let k = single(UNITY).minus(corner);
    let q = k.times(w);
    let u = units(w@);
    let (e, z) = (pow2(141), pow2(125));
    lemma_pow2_pos(149);
    lemma2_to64();
    lemma_single_zero();
    lemma_single_one();
    lemma_pow2_unfold(150);
    lemma_single_minus_near(single(UNITY), corner, 150);
    lemma_pow2_adds(16, 125);
    lemma_pow2_adds(17, 149);
    lemma_pow2_adds(1, 166);
    lemma_pow2_adds(1, 141);
    lemma_pow2_adds(25, 141);
    lemma_pow2_pos(125);
    let uk = units(k@);
    let v = if far {
        0
    } else {
        u
    };
    if far {
        lemma_close_times(uk, 0, z as int, u);
    } else {
        lemma_close_times(uk, p as int, z as int, u);
    }
    assert(0 * u == 0 && p * u == u * p) by (nonlinear_arith);
    assert(z * u <= (2 * e) * p) by (nonlinear_arith)
        requires
            u <= 0x2_0000 * p,
            e == 0x1_0000 * z,
            z > 0,
    ;
    assert(0 <= v * p <= pow2(166) * p && 0 * p == 0) by (nonlinear_arith)
        requires
            0 <= v <= pow2(166),
            p > 0,
    ;
    assert((2 * e) * p <= pow2(166) * p && pow2(167) * p == 2 * (pow2(166) * p)) by (nonlinear_arith)
        requires
            2 * e <= pow2(166),
            pow2(167) == 2 * pow2(166),
            p > 0,
    ;
    lemma_single_times_near(k, w, 167);
    let uq = units(q@);
    assert(gap_of(uq * p, v * p) <= (4 * e) * p) by (nonlinear_arith)
        requires
            gap_of(uq * p, uk * u) <= (2 * e) * p,
            gap_of(uk * u, v * p) <= (2 * e) * p,
    ;
    lemma_close_parts(uq, v, 4 * e as int, p as int);
}

/// A length in parts of a side of the canvas, and that many parts of it again.
proof fn lemma_in_parts_of_the_canvas(m: Single, n: u32)
    requires
        1 <= n <= 0x4000,
        m.is_finite(),
        size(units(m@)) <= 8 * (n * pixel()),
    ensures
        ({
            let by = m.over(Single::from_u64(n as u64));
            &&& single_upto(by, 152)
            &&& gap_of(n * units(by@), units(m@)) <= pow2(141)
        }),
{
    let p = pow2(149);
    let c = Single::from_u64(n as u64);
    let by = m.over(c);
    let um = units(m@);
    let (e, g) = (pow2(141), pow2(127));
    lemma_pow2_pos(149);
    lemma_pow2_pos(127);
    lemma2_to64();
    lemma_single_small(n as u64);
    lemma_pow2_adds(3, 149);
    lemma_pow2_adds(14, 127);
    assert(n * p > 0) by (nonlinear_arith)
        requires
            n >= 1,
            p > 0,
    ;
    assert(size(um) * p <= pow2(152) * (n * p)) by (nonlinear_arith)
        requires
            size(um) <= 8 * (n * p),
            pow2(152) == 8 * p,
            p > 0,
    ;
    lemma_single_over_near(m, c, 152);
    let ub = units(by@);
    assert(ub * (n * p) == (n * ub) * p && g * (n * p) == (g * n) * p) by (nonlinear_arith);
    lemma_close_parts(n * ub, um, g * n, p as int);
    assert(g * n <= 0x4000 * g) by (nonlinear_arith)
        requires
            n <= 0x4000,
            g > 0,
    ;
}

/// One axis of a picture that is scaled by a corner: the far corner stays on the anchor.
#[verifier::spinoff_prover]
#[verifier::rlimit(60)]
proof fn lemma_pinned_axis(n: u32, fx: Single, fw: Single, s: Single, anchor: Single, far: bool)
    requires
        1 <= n <= 0x4000,
        single_upto(fx, 163),
        fw.is_finite(),
        0 <= units(fw@),
        0x40_0000 * (units(fw@) - n * pixel()) <= n * pixel(),
        512 * gap_of(2 * units(fx@) + units(fw@), n * pixel()) <= pixel(),
        s.is_finite(),
        0 <= units(s@) <= 4 * pixel(),
        anchor.is_finite(),
        -(n * pixel()) <= units(anchor@) <= n * pixel(),
    ensures
        ({
            let corner = if far {
                single(UNITY)
            } else {
                single(0)
            };
            let w = fw.times(s);
            let c = Single::from_u64(n as u64);
            let by = anchor.minus(single(UNITY).minus(corner).times(w)).minus(fx).minus(
                fw.minus(w).times(single(0x3f00_0000)),
            ).over(c);
            let x = fx.plus(fw.minus(w).times(single(0x3f00_0000))).plus(by.times(c));
            &&& x.is_finite() && w.is_finite()
            &&& far ==> 4 * gap_of(units(x@), units(anchor@)) <= pixel()
            &&& !far ==> 4 * gap_of(units(x@) + units(w@), units(anchor@)) <= pixel()
        }),
{
    let p = pow2(149);
    let cw = n * p;
    let corner = if far {
        single(UNITY)
    } else {
        single(0)
    };
    let w = fw.times(s);
    let c = Single::from_u64(n as u64);
    let (f, us, ua) = (units(fw@), units(s@), units(anchor@));
    lemma_pow2_pos(149);
    lemma2_to64();
    lemma_single_zero();
    lemma_single_one();
    lemma_single_small(n as u64);
    lemma_pow2_adds(14, 149);
    lemma_pow2_adds(2, 163);
    lemma_pow2_adds(3, 163);
    lemma_pow2_adds(4, 163);
    lemma_pow2_adds(5, 163);
    lemma_pow2_adds(2, 149);
    lemma_pow2_adds(3, 149);
    lemma_pow2_adds(24, 125);
    lemma_pow2_adds(8, 141);
    lemma_pow2_adds(1, 141);
    lemma_pow2_adds(2, 141);
    lemma_pow2_adds(3, 141);
    lemma_pow2_unfold(164);
    lemma_pow2_pos(141);
    lemma_pow2_pos(125);
    let e = pow2(141);
    assert(p <= cw <= 0x4000 * p) by (nonlinear_arith)
        requires
            1 <= n <= 0x4000,
            cw == n * p,
            p > 0,
    ;
    // the size
    assert(0 <= f * us <= (4 * f) * p) by (nonlinear_arith)
        requires
            0 <= us <= 4 * p,
            0 <= f,
    ;
    assert((4 * f) * p <= pow2(166) * p) by (nonlinear_arith)
        requires
            4 * f <= pow2(166),
            p > 0,
    ;
    lemma_single_times_near(fw, s, 166);
    let u = units(w@);
    crate::placing::lemma_nonneg_product(fw, s);
    assert(u <= 4 * f + e) by (nonlinear_arith)
        requires
            u * p - f * us <= e * p,
            f * us <= (4 * f) * p,
            p > 0,
    ;
    // how much of it lies before the anchor
    let q = single(UNITY).minus(corner).times(w);
    lemma_before_the_anchor(w, far);
    // how far the picture is moved
    let a = anchor.minus(q);
    lemma_single_minus_near(anchor, q, 167);
    let b = a.minus(fx);
    lemma_single_minus_near(a, fx, 168);
    lemma_single_minus_near(fw, w, 166);
    let h = fw.minus(w).times(single(0x3f00_0000));
    lemma_half_near(fw.minus(w), 166);
    let m = b.minus(h);
    lemma_single_minus_near(b, h, 168);
    let um = units(m@);
    let by = m.over(c);
    lemma_in_parts_of_the_canvas(m, n);
    lemma_axis(n, fx, fw, s, by);
}

/// Scaling a picture by a corner keeps the corner across from it on the anchor, to within a
/// quarter of a pixel.
pub proof fn lemma_scaling_pins_the_far_corner(
    canvas: Canvas,
    size: (u32, u32),
    anchor: Point,
    right: bool,
    low: bool,
    scale: Single,
)
    requires
        ordinary(canvas),
        1 <= size.0 <= 0x1_0000,
        1 <= size.1 <= 0x1_0000,
        scale.is_finite(),
        units(scale@) <= 4 * pixel(),
        anchor.x.is_finite() && -(canvas.width * pixel()) <= units(anchor.x@) <= canvas.width
            * pixel(),
        anchor.y.is_finite() && -(canvas.height * pixel()) <= units(anchor.y@) <= canvas.height
            * pixel(),
    ensures
        ({
            let corner = Point {
                x: if right {
                    single(UNITY)
                } else {
                    single(0)
                },
                y: if low {
                    single(UNITY)
                } else {
                    single(0)
                },
            };
            let t = scaled_about(canvas, size, anchor, corner, scale);
            let r = canvas.place(
                Single::from_u64(size.0 as u64),
                Single::from_u64(size.1 as u64),
                t,
            );
            &&& r.x.is_finite() && r.y.is_finite() && r.w.is_finite() && r.h.is_finite()
            &&& right ==> 4 * gap_of(units(r.x@), units(anchor.x@)) <= pixel()
            &&& !right ==> 4 * gap_of(units(r.x@) + units(r.w@), units(anchor.x@)) <= pixel()
            &&& low ==> 4 * gap_of(units(r.y@), units(anchor.y@)) <= pixel()
            &&& !low ==> 4 * gap_of(units(r.y@) + units(r.h@), units(anchor.y@)) <= pixel()
            &&& t.scale == scales().kept(scale)
        }),
{
    let f = canvas.fit(Single::from_u64(size.0 as u64), Single::from_u64(size.1 as u64));
    let s = scales().kept(scale);
    let p = pow2(149);
    lemma_a_picture_fits_the_canvas(canvas, size.0 as u64, size.1 as u64);
    lemma_pow2_pos(149);
    lemma_scale_bounds();
    lemma_fit_corner(canvas.width, f.x, f.w);
    lemma_fit_corner(canvas.height, f.y, f.h);
    lemma_pinned_axis(canvas.width, f.x, f.w, s, anchor.x, right);
    lemma_pinned_axis(canvas.height, f.y, f.h, s, anchor.y, low);
}

/// The least and the largest scale.
proof fn lemma_scale_bounds()
    ensures
        single(MIN_SCALE).is_finite(),
        0 < units(single(MIN_SCALE)@) <= pixel(),
        single(MAX_SCALE).is_finite(),
        units(single(MAX_SCALE)@) == 8 * pixel(),
{
    lemma2_to64();
    lemma_single_literal(MIN_SCALE, 121, 0xcc_cccd);
    lemma_single_literal(MAX_SCALE, 129, 0x80_0000);
    lemma_pow2_adds(28, 121);
    lemma_pow2_adds(23, 129);
    lemma_pow2_adds(20, 129);
    lemma_pow2_pos(121);
}

/// Where a picture by itself begins is no further off than the canvas is long.
proof fn lemma_fit_corner(n: u32, x: Single, w: Single)
    requires
        1 <= n <= 0x4000,
        x.is_finite(),
        0 < units(w@),
        0x40_0000 * (units(w@) - n * pixel()) <= n * pixel(),
        512 * gap_of(2 * units(x@) + units(w@), n * pixel()) <= pixel(),
    ensures
        single_upto(x, 163),
{
    let p = pow2(149);
    lemma_pow2_pos(149);
    lemma2_to64();
    lemma_pow2_adds(14, 149);
    assert(p <= n * p <= 0x4000 * p) by (nonlinear_arith)
        requires
            1 <= n <= 0x4000,
            p > 0,
    ;
}

/// One axis of a picture that follows the pointer.
proof fn lemma_following_axis(n: u32, from: Single, cursor: Single, grab: Single, s: Single)
    requires
        1 <= n <= 0x4000,
        single_upto(from, 152),
        single_upto(cursor, 163),
        single_upto(grab, 163),
        s.is_finite(),
        pixel() <= 16 * units(s@),
        size(units(cursor@) - units(grab@)) <= 4 * (n * units(s@)),
    ensures
        ({
            let to = from.plus(cursor.minus(grab).over(s).over(Single::from_u64(n as u64)));
            &&& to.is_finite()
            &&& 32 * gap_of(
                (n * (units(to@) - units(from@))) * units(s@),
                (units(cursor@) - units(grab@)) * pixel(),
            ) <= pixel() * units(s@)
        }),
{
    let p = pow2(149);
    let kappa = units(cursor@) - units(grab@);
    let us = units(s@);
    let d = cursor.minus(grab);
    let q = d.over(s);
    let c = Single::from_u64(n as u64);
    let by = q.over(c);
    let to = from.plus(by);
    lemma_pow2_pos(149);
    lemma2_to64();
    lemma_pow2_unfold(164);
    lemma_pow2_adds(10, 139);
    lemma_pow2_adds(14, 149);
    lemma_pow2_adds(17, 149);
    lemma_pow2_pos(139);
    lemma_single_minus_near(cursor, grab, 164);
    let ud = units(d@);
    let (g, e) = (pow2(139), pow2(141));
    let k = n * us;
    assert(us <= k <= 0x4000 * us) by (nonlinear_arith)
        requires
            1 <= n <= 0x4000,
            k == n * us,
            us > 0,
    ;
    assert(size(ud) * p <= pow2(166) * us) by (nonlinear_arith)
        requires
            size(ud) <= 4 * k + us,
            us <= k <= 0x4000 * us,
            pow2(166) == 0x2_0000 * p,
            p > 0,
            us > 0,
    ;
    lemma_single_over_near(d, s, 166);
    let uq = units(q@);
    let cw = n * p;
    assert(p <= cw) by (nonlinear_arith)
        requires
            n >= 1,
            cw == n * p,
            p > 0,
    ;
    lemma_pow2_adds(2, 139);
    lemma_pow2_adds(8, 141);
    assert(k * p == cw * us) by (nonlinear_arith)
        requires
            k == n * us,
            cw == n * p,
    ;
    assert(g * p <= cw * us) by (nonlinear_arith)
        requires
            0 <= g <= us,
            0 <= p <= cw,
    ;
    assert(size(uq) <= 8 * cw) by (nonlinear_arith)
        requires
            gap_of(uq * us, ud * p) <= e * us,
            size(ud) <= 4 * k + g,
            k * p == cw * us,
            g * p <= cw * us,
            e <= cw,
            us > 0,
            p > 0,
            cw > 0,
    {
        assert(size(ud) * p <= (4 * k + g) * p) by (nonlinear_arith)
            requires
                size(ud) <= 4 * k + g,
                p > 0,
        ;
        assert((4 * k + g) * p <= (5 * cw) * us) by (nonlinear_arith)
            requires
                k * p == cw * us,
                g * p <= cw * us,
        ;
        assert(e * us <= cw * us) by (nonlinear_arith)
            requires
                e <= cw,
                us > 0,
        ;
        assert(size(uq) * us <= (6 * cw) * us) by (nonlinear_arith)
            requires
                gap_of(uq * us, ud * p) <= e * us,
                size(ud) * p <= (5 * cw) * us,
                e * us <= cw * us,
                us > 0,
                p > 0,
        ;
        assert(size(uq) <= 6 * cw) by (nonlinear_arith)
            requires
                size(uq) * us <= (6 * cw) * us,
                us > 0,
        ;
    }
    lemma_in_parts_of_the_canvas(q, n);
    let ub = units(by@);
    lemma_pow2_unfold(153);
    lemma_single_plus_near(from, by, 153);
    let ut = units(to@) - units(from@);
    let z = pow2(128);
    lemma_pow2_adds(14, 128);
    lemma_pow2_adds(1, 141);
    lemma_pow2_pos(128);
    assert(gap_of(n * ut, n * ub) <= 2 * e) by (nonlinear_arith)
        requires
            gap_of(ut, ub) <= z,
            1 <= n <= 0x4000,
            2 * e == 0x4000 * z,
            z > 0,
    ;
    lemma_close_times(n * ut, uq, 3 * e as int, us);
    lemma_close_times(ud, kappa, g as int, p as int);
    assert((3 * e) * us + e * us + g * p <= (8 * e) * us) by (nonlinear_arith)
        requires
            e == 4 * g,
            p <= 16 * us,
            us > 0,
            g > 0,
    ;
    assert(32 * ((8 * e) * us) == p * us) by (nonlinear_arith)
        requires
            p == 256 * e,
    ;
}

/// A picture that is dragged follows the pointer, as far on the canvas as the pointer went on
/// the preview, across and down, to within a part of a pixel; the size of it stays. So it is
/// where nothing can latch.
pub proof fn lemma_a_picture_follows_the_pointer(
    s: Sitting,
    track: int,
    idx: int,
    start: Transform,
    grab: Point,
)
    requires
        !s.desk.snap_enabled,
        ordinary(s.canvas()),
        single_upto(start.x, 152) && single_upto(start.y, 152),
        single_upto(s.desk.cursor.x, 163) && single_upto(s.desk.cursor.y, 163),
        single_upto(grab.x, 163) && single_upto(grab.y, 163),
        s.desk.preview_canvas_scale.is_finite(),
        pixel() <= 16 * units(s.desk.preview_canvas_scale@),
        size(units(s.desk.cursor.x@) - units(grab.x@)) <= 4 * (s.canvas().width * units(
            s.desk.preview_canvas_scale@,
        )),
        size(units(s.desk.cursor.y@) - units(grab.y@)) <= 4 * (s.canvas().height * units(
            s.desk.preview_canvas_scale@,
        )),
    ensures
        s.canvas_move(track, idx, start, grab) matches Some(t) && {
            let k = units(s.desk.preview_canvas_scale@);
            &&& 32 * gap_of(
                (s.canvas().width * (units(t.x@) - units(start.x@))) * k,
                (units(s.desk.cursor.x@) - units(grab.x@)) * pixel(),
            ) <= pixel() * k
            &&& 32 * gap_of(
                (s.canvas().height * (units(t.y@) - units(start.y@))) * k,
                (units(s.desk.cursor.y@) - units(grab.y@)) * pixel(),
            ) <= pixel() * k
            &&& t.scale == start.scale
        },
{
    reveal(Sitting::canvas_move);
    let k = s.desk.preview_canvas_scale;
    lemma_single_zero();
    lemma_pow2_pos(149);
    let c = s.canvas();
    lemma_following_axis(c.width, start.x, s.desk.cursor.x, grab.x, k);
    lemma_following_axis(c.height, start.y, s.desk.cursor.y, grab.y, k);
}

/// The edges and the middle of a picture along one axis, as they are compared with the frame.
proof fn lemma_three_lines(from: Single, extent: Single, i: int)
    requires
        single_upto(from, 167),
        single_upto(extent, 167),
        0 <= i < 3,
    ensures
        ({
            let v = three(from, extent)[i];
            &&& double_upto(v, 1093)
            &&& gap_of(2 * units(v@) * pixel(), (2 * units(from@) + i * units(extent@)) * second())
                <= (5 * pow2(143)) * second()
        }),
{
    let (p, d) = (pow2(149), pow2(1074));
    lemma_pow2_pos(149);
    lemma_pow2_pos(1074);
    lemma2_to64();
    lemma_pow2_unfold(168);
    lemma_pow2_unfold(143);
    let h = extent.times(single(HALF));
    lemma_half_near(extent, 167);
    lemma_single_plus_near(from, h, 168);
    lemma_single_plus_near(from, extent, 168);
    let x = if i == 0 {
        from
    } else if i == 1 {
        from.plus(h)
    } else {
        from.plus(extent)
    };
    lemma_single_to_double_near(x, 1093);
    let v = x.to_double();
    assert(three(from, extent)[i] == v);
    let (ux, uv) = (units(x@), units(v@));
    let (e, z) = (pow2(143), pow2(1039));
    let exact = 2 * units(from@) + i * units(extent@);
    assert(i * units(extent@) == if i == 0 {
        0
    } else if i == 1 {
        units(extent@)
    } else {
        2 * units(extent@)
    });
    assert(gap_of(2 * ux, exact) <= 4 * e);
    lemma_close_times(2 * ux, exact, 4 * e as int, d as int);
    lemma_pow2_adds(1039, 149);
    lemma_pow2_adds(114, 1074);
    lemma_pow2_adds(29, 114);
    lemma_pow2_pos(114);
    assert(z * p <= (pow2(114)) * d && 2 * (pow2(114) * d) <= e * d) by (nonlinear_arith)
        requires
            z * p == pow2(114) * d,
            e == 0x2000_0000 * pow2(114),
            d > 0,
    ;
    assert(gap_of(2 * uv * p, (2 * ux) * d) <= 2 * (z * p)) by (nonlinear_arith)
        requires
            gap_of(uv * p, ux * d) <= z * p,
    ;
    assert((4 * e) * d + e * d == (5 * e) * d) by (nonlinear_arith);
}

/// The edges and the middle of the frame along one axis.
proof fn lemma_frame_line(n: u32, j: int)
    requires
        1 <= n <= 0x4000,
        0 <= j < 3,
    ensures
        ({
            let v = frame_lines(Single::from_u64(n as u64))[j];
            &&& double_upto(v, 1088)
            &&& gap_of(2 * units(v@), j * (n * second())) <= 4 * pow2(1034)
        }),
{
    let (p, d) = (pow2(149), pow2(1074));
    let side = Single::from_u64(n as u64);
    let x = side.to_double();
    lemma_pow2_pos(149);
    lemma_pow2_pos(1074);
    lemma_pow2_pos(1088);
    lemma_pow2_pos(1034);
    lemma2_to64();
    lemma_pow2_adds(14, 149);
    lemma_double_zero();
    lemma_single_small(n as u64);
    assert(0 <= n * p <= 0x4000 * p) by (nonlinear_arith)
        requires
            1 <= n <= 0x4000,
            p > 0,
    ;
    lemma_single_to_double_near(side, 1088);
    let ux = units(x@);
    let e = pow2(1034);
    assert((n * p) * d == (n * d) * p) by (nonlinear_arith);
    lemma_close_parts(ux, n * d, e as int, p as int);
    let half = double(HALF_DOUBLE);
    lemma_double_literal(HALF_DOUBLE, 1021, 0x10_0000_0000_0000);
    vstd::arithmetic::power2::lemma2_to64_rest();
    lemma_pow2_adds(52, 1021);
    lemma_pow2_unfold(1074);
    let t = pow2(1073);
    assert(0 <= ux * t <= pow2(1088) * d) by (nonlinear_arith)
        requires
            0 <= ux <= pow2(1088),
            d == 2 * t,
            t >= 0,
    ;
    lemma_double_times_near(x, half, 1088);
    let uy = units(x.times(half)@);
    assert(gap_of(2 * uy, ux) <= 2 * e) by (nonlinear_arith)
        requires
            gap_of(uy * d, ux * t) <= e * d,
            d == 2 * t,
            t > 0,
    ;
    assert(j * (n * d) == if j == 0 {
        0
    } else if j == 1 {
        n * d
    } else {
        2 * (n * d)
    });
}

/// How far a picture is pulled along one axis: from one of its lines to one of the frame's, no
/// farther than the magnet reaches; not at all where none of its lines is that near to one.
proof fn lemma_pulled(from: Single, extent: Single, n: u32, reach: Single)
    requires
        1 <= n <= 0x4000,
        single_upto(from, 167),
        single_upto(extent, 167),
        reach.is_finite(),
        0 <= units(reach@) <= 2 * (n * pixel()),
    ensures
        ({
            let v = frame_pull(from, extent, Single::from_u64(n as u64), reach);
            &&& v.is_finite()
            &&& size(units(v@)) <= 4 * (n * pixel())
            &&& units(v@) == 0 || exists|i: int, j: int|
                0 <= i < 3 && 0 <= j < 3 && #[trigger] on_a_line(
                    2 * (units(from@) + units(v@)) + i * units(extent@),
                    j * (n * pixel()),
                )
        }),
{
    let (p, d) = (pow2(149), pow2(1074));
    let side = Single::from_u64(n as u64);
    let (edges, lines) = (three(from, extent), frame_lines(side));
    let v = frame_pull(from, extent, side, reach);
    let cw = n * p;
    lemma_pow2_pos(149);
    lemma_pow2_pos(1074);
    lemma2_to64();
    lemma_double_zero();
    lemma_snap(edges, lines, reach.to_double());
    lemma_pow2_adds(14, 149);
    lemma_pow2_unfold(164);
    assert(p <= cw <= 0x4000 * p) by (nonlinear_arith)
        requires
            1 <= n <= 0x4000,
            cw == n * p,
            p > 0,
    ;
    match snap_of(edges, lines, reach.to_double()) {
        None => {
            lemma_double_to_single_near(double(0), 149);
            assert(0 * p == 0);
            let u = units(v@);
            assert(v == double(0).to_single());
            lemma_zero_to_single();
        },
        Some(a) => {
            let (i, j) = choose|i: int, j: int| #[trigger]
                crate::edit::nearest_pair(
                    edges,
                    lines,
                    reach.to_double(),
                    i,
                    j,
                    edges.len() as int,
                    0,
                ) && a == lines[j].minus(edges[i]);
            assert(near(edges, lines, reach.to_double(), i, j));
            lemma_three_lines(from, extent, i);
            lemma_frame_line(n, j);
            lemma_pow2_adds(5, 1088);
            lemma_pow2_unfold(1094);
            lemma_double_sums_near(lines[j], edges[i], 1094);
            lemma_double_abs(a);
            lemma_single_to_double_near(reach, 1089);
            lemma_double_to_single_near(a, 169);
            let (ua, ue, ul, uv) = (units(a@), units(edges[i]@), units(lines[j]@), units(v@));
            let exact = 2 * units(from@) + i * units(extent@);
            let (e, z) = (pow2(143), pow2(1040));
            // twice the pull is what the line is beyond the edge
            lemma_pow2_adds(1040, 149);
            lemma_pow2_adds(115, 1074);
            lemma_pow2_adds(1034, 149);
            lemma_pow2_adds(109, 1074);
            lemma_pow2_adds(28, 115);
            lemma_pow2_adds(6, 109);
            lemma_pow2_adds(1, 143);
            lemma_pow2_adds(6, 143);
            lemma_pow2_pos(109);
            let q = pow2(109);
            lemma_close_times(ua, ul - ue, z as int, p as int);
            lemma_close_times(2 * ul, j * (n * d), 4 * pow2(1034) as int, p as int);
            assert(2 * (uv * d) == (2 * uv) * d && 2 * (ua * p) == (2 * ua) * p && (2 * ul) * p
                - (2 * ue) * p == 2 * ((ul - ue) * p)) by (nonlinear_arith);
            assert(2 * ue * p == (2 * ue) * p);
            assert((j * (n * d)) * p == (j * cw) * d) by (nonlinear_arith)
                requires
                    cw == n * p,
            ;
            assert(z * p == (64 * q) * d) by (nonlinear_arith)
                requires
                    z * p == pow2(115) * d,
                    pow2(115) == 64 * q,
            ;
            assert((4 * pow2(1034)) * p == (4 * q) * d) by (nonlinear_arith)
                requires
                    pow2(1034) * p == q * d,
            ;
            let w = j * cw - exact;
            assert((j * cw) * d - exact * d == w * d) by (nonlinear_arith)
                requires
                    w == j * cw - exact,
            ;
            assert(gap_of((2 * uv) * d, w * d) <= (2 * pow2(144)) * d + 2 * ((64 * q) * d) + (4 * q)
                * d + (5 * e) * d) by (nonlinear_arith)
                requires
                    gap_of((2 * uv) * d, (2 * ua) * p) <= 2 * (pow2(144) * d),
                    gap_of((2 * ua) * p, 2 * ((ul - ue) * p)) <= 2 * ((64 * q) * d),
                    gap_of((2 * ul) * p, (j * cw) * d) <= (4 * q) * d,
                    gap_of((2 * ue) * p, exact * d) <= (5 * e) * d,
                    (2 * ul) * p - (2 * ue) * p == 2 * ((ul - ue) * p),
                    (j * cw) * d - exact * d == w * d,
            ;
            assert((2 * pow2(144)) * d + 2 * ((64 * q) * d) + (4 * q) * d + (5 * e) * d <= (10 * e)
                * d) by (nonlinear_arith)
                requires
                    pow2(144) == 2 * e,
                    132 * q <= e,
                    d > 0,
            ;
            lemma_close_parts(2 * uv, w, 10 * e as int, d as int);
            assert(on_a_line(exact + 2 * uv, j * cw));
            assert(2 * (units(from@) + units(v@)) + i * units(extent@) == exact + 2 * uv);
            // and no more than the reach
            let ur = units(reach.to_double()@);
            assert(size(ua) <= ur);
            lemma_within_reach(ua, ur, units(reach@), uv, cw);
        },
    }
}

/// What no pull is as a single.
proof fn lemma_zero_to_single()
    ensures
        double(0).to_single().is_finite(),
        units(double(0).to_single()@) == 0,
{
    lemma_double_zero();
    lemma_single_zero();
    lemma_double_one();
    lemma_pow2_pos(1074);
    crate::ieee::facts::lemma_share_to_single(double(0));
}

/// A pull that is no more than its reach in doubles is little more than it in singles.
proof fn lemma_within_reach(ua: int, ur: int, reach: int, uv: int, cw: int)
    requires
        size(ua) <= ur,
        within(ur * pow2(149), reach * pow2(1074), (pow2(1035) * pow2(149)) as int),
        within(uv * pow2(1074), ua * pow2(149), (pow2(144) * pow2(1074)) as int),
        0 <= reach <= 2 * cw,
        pixel() <= cw,
    ensures
        size(uv) <= 4 * cw,
{
    let (p, d) = (pow2(149), pow2(1074));
    lemma_pow2_pos(149);
    lemma_pow2_pos(1074);
    lemma2_to64();
    lemma_pow2_adds(1035, 149);
    lemma_pow2_adds(110, 1074);
    lemma_pow2_adds(39, 110);
    lemma_pow2_adds(5, 144);
    lemma_pow2_pos(110);
    vstd::arithmetic::power2::lemma2_to64_rest();
    assert(size(ua) * p <= ur * p) by (nonlinear_arith)
        requires
            size(ua) <= ur,
            p > 0,
    ;
    assert(size(ua * p) == size(ua) * p) by (nonlinear_arith)
        requires
            p > 0,
    ;
    assert(reach * d <= (2 * cw) * d) by (nonlinear_arith)
        requires
            reach <= 2 * cw,
            d > 0,
    ;
    assert(pow2(1035) * p <= cw * d) by (nonlinear_arith)
        requires
            pow2(1035) * p == pow2(110) * d,
            pow2(110) <= cw,
            d > 0,
    ;
    assert(pow2(144) * d <= cw * d) by (nonlinear_arith)
        requires
            pow2(144) <= cw,
            d > 0,
    ;
    assert((2 * cw) * d + cw * d + cw * d == (4 * cw) * d) by (nonlinear_arith);
    assert(size(uv * d) == size(uv) * d) by (nonlinear_arith)
        requires
            d > 0,
    ;
    assert(size(uv) <= 4 * cw) by (nonlinear_arith)
        requires
            size(uv) * d <= (4 * cw) * d,
            d > 0,
    ;
}

/// Whether twice a position and twice a line are the same to within a sixth of a pixel.
pub open spec fn on_a_line(a: int, b: int) -> bool {
    6 * gap_of(a, b) <= pixel()
}

/// One axis of a picture that is moved and latches.
proof fn lemma_latching_axis(n: u32, fx: Single, fw: Single, scale: Single, by: Single, reach: Single)
    requires
        1 <= n <= 0x4000,
        single_upto(fx, 163),
        fw.is_finite(),
        0 <= units(fw@),
        0x40_0000 * (units(fw@) - n * pixel()) <= n * pixel(),
        512 * gap_of(2 * units(fx@) + units(fw@), n * pixel()) <= pixel(),
        scale.is_finite(),
        0 <= units(scale@) <= 4 * pixel(),
        single_upto(by, 151),
        reach.is_finite(),
        0 <= units(reach@) <= 2 * (n * pixel()),
    ensures
        ({
            let c = Single::from_u64(n as u64);
            let w = fw.times(scale);
            let at = fx.plus(fw.minus(w).times(single(0x3f00_0000)));
            let x = at.plus(by.times(c));
            let to = by.plus(frame_pull(x, w, c, reach).over(c));
            let y = at.plus(to.times(c));
            &&& y.is_finite() && w.is_finite() && x.is_finite() && to.is_finite()
            &&& units(to@) == units(by@) || exists|i: int, j: int|
                0 <= i < 3 && 0 <= j < 3 && #[trigger] stands_on(
                    2 * units(y@) + i * units(w@),
                    j * (n * pixel()),
                )
        }),
{
    let p = pow2(149);
    let cw = n * p;
    let c = Single::from_u64(n as u64);
    let w = fw.times(scale);
    let at = fx.plus(fw.minus(w).times(single(0x3f00_0000)));
    let x = at.plus(by.times(c));
    lemma_pow2_pos(149);
    lemma2_to64();
    lemma_pow2_adds(14, 149);
    lemma_pow2_adds(2, 149);
    lemma_pow2_adds(3, 149);
    lemma_pow2_adds(2, 163);
    lemma_pow2_adds(3, 163);
    lemma_pow2_adds(4, 163);
    lemma_pow2_unfold(164);
    assert(p <= cw <= 0x4000 * p) by (nonlinear_arith)
        requires
            1 <= n <= 0x4000,
            cw == n * p,
            p > 0,
    ;
    let (f, us, ub) = (units(fw@), units(scale@), units(by@));
    lemma_axis(n, fx, fw, scale, by);
    let (u, ux) = (units(w@), units(x@));
    crate::placing::lemma_nonneg_product(fw, scale);
    assert(f * us <= (4 * f) * p) by (nonlinear_arith)
        requires
            0 <= us <= 4 * p,
            0 <= f,
    ;
    assert(u <= 4 * f + p) by (nonlinear_arith)
        requires
            128 * (u * p - f * us) <= p * p,
            f * us <= (4 * f) * p,
            p > 0,
    ;
    assert(-(0x1_0000 * p) <= n * ub <= 0x1_0000 * p) by (nonlinear_arith)
        requires
            1 <= n <= 0x4000,
            -(4 * p) <= ub <= 4 * p,
            p > 0,
    ;
    lemma_pulled(x, w, n, reach);
    let v = frame_pull(x, w, c, reach);
    let q = v.over(c);
    lemma_in_parts_of_the_canvas(v, n);
    let to = by.plus(q);
    let (uv, uq) = (units(v@), units(q@));
    // the pull, in parts of the canvas, is at most four
    lemma_pull_in_parts(v, n);
    lemma_pow2_unfold(152);
    lemma_single_plus_near(by, q, 152);
    let ut = units(to@);
    lemma_axis(n, fx, fw, scale, to);
    let y = at.plus(to.times(c));
    if uv == 0 {
        lemma_no_pull(by, v, n);
    } else {
        let (i, j) = choose|i: int, j: int|
            0 <= i < 3 && 0 <= j < 3 && #[trigger] on_a_line(
                2 * (units(x@) + units(v@)) + i * units(w@),
                j * (n * pixel()),
            );
        let z = pow2(127);
        lemma_pow2_adds(14, 127);
        lemma_pow2_adds(8, 141);
        lemma_pow2_pos(127);
        assert(gap_of(n * ut, n * ub + n * uq) <= pow2(141)) by (nonlinear_arith)
            requires
                gap_of(ut, ub + uq) <= z,
                pow2(141) == 0x4000 * z,
                1 <= n <= 0x4000,
                z > 0,
        ;
        assert(stands_on(2 * units(y@) + i * units(w@), j * (n * pixel())));
    }
}

/// A pull of no more than four canvases is no more than four parts of it.
proof fn lemma_pull_in_parts(v: Single, n: u32)
    requires
        1 <= n <= 0x4000,
        v.is_finite(),
        size(units(v@)) <= 4 * (n * pixel()),
    ensures
        single_upto(v.over(Single::from_u64(n as u64)), 151),
{
    let p = pow2(149);
    lemma_pow2_pos(149);
    lemma2_to64();
    lemma_single_small(n as u64);
    lemma_pow2_adds(2, 149);
    let uv = units(v@);
    assert(n * p > 0) by (nonlinear_arith)
        requires
            n >= 1,
            p > 0,
    ;
    assert(size(uv) * p <= pow2(151) * (n * p)) by (nonlinear_arith)
        requires
            size(uv) <= 4 * (n * p),
            pow2(151) == 4 * p,
            p > 0,
    ;
    lemma_single_over_near(v, Single::from_u64(n as u64), 151);
}

/// No pull leaves a picture where it was.
proof fn lemma_no_pull(by: Single, v: Single, n: u32)
    requires
        1 <= n <= 0x4000,
        by.is_finite(),
        v.is_finite(),
        units(v@) == 0,
    ensures
        units(by.plus(v.over(Single::from_u64(n as u64)))@) == units(by@),
{
    let p = pow2(149);
    let c = Single::from_u64(n as u64);
    let q = v.over(c);
    let f = single_format();
    lemma_pow2_pos(149);
    lemma_single_small(n as u64);
    lemma_single_bits();
    assert(n * p > 0) by (nonlinear_arith)
        requires
            n >= 1,
            p > 0,
    ;
    lemma_single_over(v, c);
    match (v@, c@) {
        (Num::Fin { neg: _, mag: a }, Num::Fin { neg: _, mag: b }) => {
            assert(a * p == 0) by (nonlinear_arith)
                requires
                    a == 0,
            ;
            lemma_holds_zero(f);
            lemma_round_le(f, 0, b, 0);
        },
        _ => {},
    }
    assert(units(q@) == 0);
    lemma_single_plus(by, q);
    lemma_single_has(by);
    match (by@, q@) {
        (Num::Fin { neg: na, mag: a }, Num::Fin { neg: nb, mag: b }) => {
            lemma_round_le(f, a, 1, a);
            lemma_round_ge(f, a, 1, a);
        },
        _ => {},
    }
}

/// Whether twice a position and twice a line are the same to within half a pixel.
pub open spec fn stands_on(a: int, b: int) -> bool {
    2 * gap_of(a, b) <= pixel()
}

/// A picture that is moved near the frame latches: along each axis it either stays where it was
/// moved to, or has an edge or its middle on an edge or the middle of the canvas, to within a
/// quarter of a pixel. Its size stays.
pub proof fn lemma_a_picture_latches_onto_the_frame(
    canvas: Canvas,
    dims: (u32, u32),
    t: Transform,
    reach: Single,
)
    requires
        ordinary(canvas),
        1 <= dims.0 <= 0x1_0000,
        1 <= dims.1 <= 0x1_0000,
        single_upto(t.x, 151) && single_upto(t.y, 151),
        t.scale.is_finite(),
        0 <= units(t.scale@) <= 4 * pixel(),
        reach.is_finite(),
        0 <= units(reach@) <= 2 * (canvas.width * pixel()),
        units(reach@) <= 2 * (canvas.height * pixel()),
    ensures
        ({
            let to = offset_latched(canvas, dims, t, Some(reach));
            let r = canvas.place(
                Single::from_u64(dims.0 as u64),
                Single::from_u64(dims.1 as u64),
                to,
            );
            &&& to.scale == t.scale
            &&& to.x.is_finite() && to.y.is_finite()
            &&& units(to.x@) == units(t.x@) || exists|i: int, j: int|
                0 <= i < 3 && 0 <= j < 3 && #[trigger] stands_on(
                    2 * units(r.x@) + i * units(r.w@),
                    j * (canvas.width * pixel()),
                )
            &&& units(to.y@) == units(t.y@) || exists|i: int, j: int|
                0 <= i < 3 && 0 <= j < 3 && #[trigger] stands_on(
                    2 * units(r.y@) + i * units(r.h@),
                    j * (canvas.height * pixel()),
                )
        }),
{
    let f = canvas.fit(Single::from_u64(dims.0 as u64), Single::from_u64(dims.1 as u64));
    lemma_a_picture_fits_the_canvas(canvas, dims.0 as u64, dims.1 as u64);
    lemma_fit_corner(canvas.width, f.x, f.w);
    lemma_fit_corner(canvas.height, f.y, f.h);
    lemma_latching_axis(canvas.width, f.x, f.w, t.scale, t.x, reach);
    lemma_latching_axis(canvas.height, f.y, f.h, t.scale, t.y, reach);
    let to = offset_latched(canvas, dims, t, Some(reach));
    let r = canvas.place(Single::from_u64(dims.0 as u64), Single::from_u64(dims.1 as u64), to);
    assert(to.scale == t.scale);
    assert(to.x.is_finite() && to.y.is_finite());
    if units(to.x@) != units(t.x@) {
        let (i, j) = choose|i: int, j: int|
            0 <= i < 3 && 0 <= j < 3 && #[trigger] stands_on(
                2 * units(r.x@) + i * units(r.w@),
                j * (canvas.width * pixel()),
            );
        assert(stands_on(2 * units(r.x@) + i * units(r.w@), j * (canvas.width * pixel())));
    }
    if units(to.y@) != units(t.y@) {
        let (i, j) = choose|i: int, j: int|
            0 <= i < 3 && 0 <= j < 3 && #[trigger] stands_on(
                2 * units(r.y@) + i * units(r.h@),
                j * (canvas.height * pixel()),
            );
        assert(stands_on(2 * units(r.y@) + i * units(r.h@), j * (canvas.height * pixel())));
    }
}

/// Nothing is latched where there is no reach.
pub proof fn lemma_a_picture_is_left_where_nothing_pulls(
    canvas: Canvas,
    dims: (u32, u32),
    t: Transform,
)
    ensures
        offset_latched(canvas, dims, t, None) == t,
{
}

} // verus!
