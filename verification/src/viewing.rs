//! Where what is on the canvas shows in the preview, and where the pointer is on the canvas.

use crate::canvas::Canvas;
use crate::compose::Layer;
use crate::ieee::facts::lemma_single_zero;
use crate::ieee::model::units;
use crate::ieee::near::{
    gap_of, lemma_close_times, lemma_single_minus_near, lemma_single_over_near,
    lemma_single_plus_near, lemma_single_times_near, single_upto, size,
};
use crate::ieee::Single;
use crate::placing::{ordinary, pixel};
use crate::preview::{picture, share};
use crate::scene::Stroke;
use crate::session::Desk;
use crate::showing::lemma_visible_axis;
use crate::ui::Rect;
use vstd::arithmetic::power2::{
    lemma2_to64, lemma_pow2_adds, lemma_pow2_pos, lemma_pow2_unfold, pow2,
};
use vstd::prelude::*;

verus! {

/// A length on the canvas, as it comes out in the preview, and a position.
proof fn lemma_scaled(at: Single, v: Single, s: Single)
    requires
        single_upto(at, 163),
        single_upto(v, 164),
        single_upto(s, 151),
        0 <= units(s@),
    ensures
        v.times(s).is_finite(),
        128 * gap_of(units(v.times(s)@) * pixel(), units(v@) * units(s@)) <= pixel() * pixel(),
        at.plus(v.times(s)).is_finite(),
        64 * gap_of(
            (units(at.plus(v.times(s))@) - units(at@)) * pixel(),
            units(v@) * units(s@),
        ) <= pixel() * pixel(),
{
    let p = pow2(149);
    let (uv, us) = (units(v@), units(s@));
    let q = v.times(s);
    lemma_pow2_pos(149);
    lemma2_to64();
    lemma_pow2_adds(2, 149);
    lemma_pow2_adds(2, 164);
    lemma_pow2_unfold(164);
    lemma_pow2_unfold(167);
    lemma_pow2_adds(3, 163);
    lemma_pow2_unfold(142);
    lemma_pow2_adds(8, 141);
    lemma_pow2_pos(141);
    let top = pow2(164);
    assert(-(pow2(166) * p) <= uv * us <= pow2(166) * p) by (nonlinear_arith)
        requires
            -top <= uv <= top,
            0 <= us <= 4 * p,
            pow2(166) == 4 * top,
            p > 0,
    ;
    lemma_single_times_near(v, s, 166);
    lemma_single_plus_near(at, q, 167);
    let e = pow2(141);
    let w = units(at.plus(q)@) - units(at@);
    lemma_close_times(w, units(q@), 2 * e as int, p as int);
    assert(128 * (e * p) <= p * p && 64 * ((2 * e) * p + e * p) <= p * p) by (nonlinear_arith)
        requires
            p == 256 * e,
            e > 0,
    ;
}

/// How far along a layer what shows of it begins, or ends.
proof fn lemma_share_near(x: Single, origin: Single, extent: Single)
    requires
        single_upto(x, 164),
        single_upto(origin, 167),
        single_upto(extent, 167),
        pixel() <= units(extent@),
        size(units(x@) - units(origin@)) <= units(extent@) + pixel(),
    ensures
        share(x, origin, extent).is_finite(),
        32 * gap_of(
            units(share(x, origin, extent)@) * units(extent@),
            (units(x@) - units(origin@)) * pixel(),
        ) <= pixel() * pixel() + pow2(131) * units(extent@),
{
    let p = pow2(149);
    let k = x.minus(origin);
    let len = units(extent@);
    let kappa = units(x@) - units(origin@);
    lemma_pow2_pos(149);
    lemma2_to64();
    lemma_pow2_unfold(168);
    lemma_pow2_adds(3, 164);
    lemma_pow2_adds(2, 149);
    lemma_pow2_adds(6, 143);
    lemma_pow2_adds(5, 126);
    lemma_pow2_pos(143);
    lemma_pow2_pos(126);
    lemma_single_minus_near(x, origin, 168);
    let uk = units(k@);
    assert(size(uk) * p <= pow2(151) * size(len)) by (nonlinear_arith)
        requires
            size(uk) <= 4 * len,
            pow2(151) == 4 * p,
            len > 0,
    ;
    lemma_single_over_near(k, extent, 151);
    let (e, z) = (pow2(143), pow2(126));
    lemma_close_times(uk, kappa, e as int, p as int);
    assert(32 * (e * p) <= p * p && 32 * (z * len) == pow2(131) * len) by (nonlinear_arith)
        requires
            p == 64 * e,
            pow2(131) == 32 * z,
            e > 0,
    ;
}

/// A layer shows in the preview where it lies on the canvas, scaled: every picture of the frame
/// that shows is drawn as far from the corner of the frame as it lies from the corner of the
/// canvas, at its size, with the part of it that shows, of its source at its time.
pub proof fn lemma_the_preview_shows_the_canvas(l: Layer, c: Canvas, at: Rect, s: Single)
    requires
        ordinary(c),
        single_upto(l.rect.x, 167) && single_upto(l.rect.y, 167),
        single_upto(l.rect.w, 167) && single_upto(l.rect.h, 167),
        pixel() <= units(l.rect.w@) && pixel() <= units(l.rect.h@),
        single_upto(at.x, 163) && single_upto(at.y, 163),
        single_upto(s, 151) && 0 <= units(s@),
    ensures
        l.visible_rect(c.width, c.height) is None ==> picture(l, c, at, s).len() == 0,
        l.visible_rect(c.width, c.height) matches Some(v) ==> {
            &&& picture(l, c, at, s).len() == 1
            &&& picture(l, c, at, s)[0] matches Stroke::Picture {
                rect,
                part,
                source,
                at: when,
                alpha,
            } && {
                let (p, k) = (pixel(), units(s@));
                &&& source == l.source && when == l.source_time && alpha == l.alpha
                &&& 64 * gap_of((units(rect.x@) - units(at.x@)) * p, units(v.x@) * k) <= p * p
                &&& 64 * gap_of((units(rect.y@) - units(at.y@)) * p, units(v.y@) * k) <= p * p
                &&& 128 * gap_of(units(rect.w@) * p, units(v.w@) * k) <= p * p
                &&& 128 * gap_of(units(rect.h@) * p, units(v.h@) * k) <= p * p
                &&& 32 * gap_of(
                    units(part.u0@) * units(l.rect.w@),
                    (units(v.x@) - units(l.rect.x@)) * p,
                ) <= p * p + pow2(131) * units(l.rect.w@)
                &&& 32 * gap_of(
                    units(part.v0@) * units(l.rect.h@),
                    (units(v.y@) - units(l.rect.y@)) * p,
                ) <= p * p + pow2(131) * units(l.rect.h@)
                &&& 32 * gap_of(
                    units(part.u1@) * units(l.rect.w@),
                    (units(v.x.plus(v.w)@) - units(l.rect.x@)) * p,
                ) <= p * p + pow2(131) * units(l.rect.w@)
                &&& 32 * gap_of(
                    units(part.v1@) * units(l.rect.h@),
                    (units(v.y.plus(v.h)@) - units(l.rect.y@)) * p,
                ) <= p * p + pow2(131) * units(l.rect.h@)
            }
        },
{
    lemma_visible_axis(l.rect.x, l.rect.w, c.width);
    lemma_visible_axis(l.rect.y, l.rect.h, c.height);
    if let Some(v) = l.visible_rect(c.width, c.height) {
        lemma_shown_axis(l.rect.x, l.rect.w, v.x, v.w, c.width, at.x, s);
        lemma_shown_axis(l.rect.y, l.rect.h, v.y, v.h, c.height, at.y, s);
    }
}

/// One axis of what shows of a layer.
proof fn lemma_shown_axis(
    rx: Single,
    rw: Single,
    x: Single,
    w: Single,
    n: u32,
    at: Single,
    s: Single,
)
    requires
        1 <= n <= 0x4000,
        single_upto(rx, 167),
        single_upto(rw, 167),
        pixel() <= units(rw@),
        x.is_finite(),
        w.is_finite(),
        units(x@) == (if units(rx@) < 0 {
            0
        } else {
            units(rx@)
        }),
        units(x@) < 0x4000 * pixel(),
        0 <= units(w@),
        32 * (units(x@) + units(w@)) <= 32 * (units(rx@) + units(rw@)) + pixel(),
        32 * (units(x@) + units(w@)) <= 32 * (n * pixel()) + pixel(),
        single_upto(at, 163),
        single_upto(s, 151),
        0 <= units(s@),
    ensures
        ({
            let (p, k) = (pixel(), units(s@));
            &&& 64 * gap_of((units(at.plus(x.times(s))@) - units(at@)) * p, units(x@) * k) <= p * p
            &&& 128 * gap_of(units(w.times(s)@) * p, units(w@) * k) <= p * p
            &&& 32 * gap_of(units(share(x, rx, rw)@) * units(rw@), (units(x@) - units(rx@)) * p)
                <= p * p + pow2(131) * units(rw@)
            &&& 32 * gap_of(
                units(share(x.plus(w), rx, rw)@) * units(rw@),
                (units(x.plus(w)@) - units(rx@)) * p,
            ) <= p * p + pow2(131) * units(rw@)
        }),
{
    let p = pow2(149);
    lemma_pow2_pos(149);
    lemma2_to64();
    lemma_pow2_adds(14, 149);
    lemma_pow2_adds(15, 149);
    lemma_pow2_adds(10, 139);
    lemma_pow2_pos(139);
    assert(n * p <= 0x4000 * p) by (nonlinear_arith)
        requires
            n <= 0x4000,
            p > 0,
    ;
    lemma_single_plus_near(x, w, 164);
    lemma_scaled(at, x, s);
    lemma_scaled(at, w, s);
    lemma_share_near(x, rx, rw);
    lemma_share_near(x.plus(w), rx, rw);
}

/// The pointer is over the pixel of the canvas that is drawn under it.
pub proof fn lemma_the_pointer_is_over_a_pixel(desk: Desk)
    requires
        single_upto(desk.cursor.x, 163) && single_upto(desk.cursor.y, 163),
        single_upto(desk.preview_canvas.x, 163) && single_upto(desk.preview_canvas.y, 163),
        desk.preview_canvas_scale.is_finite(),
        pixel() <= 16 * units(desk.preview_canvas_scale@),
    ensures
        desk.cursor_on_canvas() matches Some(q) && {
            let (p, k) = (pixel(), units(desk.preview_canvas_scale@));
            &&& q.x.is_finite() && q.y.is_finite()
            &&& 32 * gap_of(
                units(q.x@) * k,
                (units(desk.cursor.x@) - units(desk.preview_canvas.x@)) * p,
            ) <= p * k
            &&& 32 * gap_of(
                units(q.y@) * k,
                (units(desk.cursor.y@) - units(desk.preview_canvas.y@)) * p,
            ) <= p * k
        },
{
    reveal(Desk::spec_cursor_on_canvas);
    let s = desk.preview_canvas_scale;
    lemma_single_zero();
    lemma_pow2_pos(149);
    lemma_unscaled(desk.cursor.x, desk.preview_canvas.x, s);
    lemma_unscaled(desk.cursor.y, desk.preview_canvas.y, s);
}

/// A position in the preview, on the canvas.
proof fn lemma_unscaled(x: Single, origin: Single, s: Single)
    requires
        single_upto(x, 163),
        single_upto(origin, 163),
        s.is_finite(),
        pixel() <= 16 * units(s@),
    ensures
        x.minus(origin).over(s).is_finite(),
        32 * gap_of(
            units(x.minus(origin).over(s)@) * units(s@),
            (units(x@) - units(origin@)) * pixel(),
        ) <= pixel() * units(s@),
{
    let p = pow2(149);
    let k = x.minus(origin);
    let us = units(s@);
    let kappa = units(x@) - units(origin@);
    lemma_pow2_pos(149);
    lemma2_to64();
    lemma_pow2_unfold(164);
    lemma_pow2_adds(15, 149);
    lemma_pow2_adds(19, 149);
    lemma_pow2_adds(10, 139);
    lemma_pow2_adds(4, 139);
    lemma_pow2_pos(139);
    lemma_pow2_adds(14, 149);
    lemma_single_minus_near(x, origin, 164);
    let uk = units(k@);
    assert(size(uk) * p <= pow2(168) * size(us)) by (nonlinear_arith)
        requires
            size(uk) <= 0x8000 * p,
            p <= 16 * us,
            pow2(168) == 0x8_0000 * p,
            p > 0,
    ;
    lemma_single_over_near(k, s, 168);
    let (e, g) = (pow2(143), pow2(139));
    lemma_close_times(uk, kappa, g as int, p as int);
    assert(32 * (e * us + g * p) <= p * us) by (nonlinear_arith)
        requires
            e == 16 * g,
            p == 64 * e,
            p <= 16 * us,
            g > 0,
    ;
}

} // verus!
