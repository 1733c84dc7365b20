//! Where a picture lands on the canvas, against the sizes of both.

use crate::canvas::Canvas;
use crate::ieee::facts::{lemma_single_small, lemma_single_times, lemma_single_zero};
use crate::ieee::model::{units, Num};
use crate::ieee::near::{
    gap_of, lemma_half_near, lemma_single_minus_near, lemma_single_over_near,
    lemma_single_over_part, lemma_single_plus_near, lemma_single_times_near,
    lemma_single_times_part, single_upto, within,
};
use crate::ieee::{single, Single};
use crate::timeline::Transform;
use vstd::arithmetic::power2::{
    lemma2_to64, lemma_pow2_adds, lemma_pow2_pos, lemma_pow2_unfold, pow2,
};
use vstd::prelude::*;

verus! {

/// One pixel, in the units that positions are counted in.
pub open spec fn pixel() -> int {
    pow2(149) as int
}

/// A canvas of an ordinary size.
pub open spec fn ordinary(canvas: Canvas) -> bool {
    1 <= canvas.width <= 0x4000 && 1 <= canvas.height <= 0x4000
}

/// Dividing a length by a whole number.
proof fn lemma_ratio(n: u32, by: u64)
    requires
        1 <= n <= 0x4000,
        1 <= by <= 0x1_0000,
    ensures
        ({
            let r = Single::from_u64(n as u64).over(Single::from_u64(by));
            &&& r.is_finite()
            &&& pow2(130) <= units(r@) <= pow2(163)
            &&& 0x100_0000 * gap_of(units(r@) * by, n * pixel()) <= n * pixel() + 0x100_0000 * by
        }),
{
    let p = pow2(149);
    let a = Single::from_u64(n as u64);
    let b = Single::from_u64(by);
    let r = a.over(b);
    lemma_single_small(n as u64);
    lemma_single_small(by);
    lemma_pow2_pos(149);
    lemma_pow2_pos(130);
    lemma2_to64();
    lemma_pow2_adds(14, 149);
    lemma_pow2_adds(19, 130);
    lemma_pow2_adds(32, 98);
    lemma_pow2_pos(98);
    assert((n as nat * p) * p <= (0x4000 * p) * (by as nat * p)) by (nonlinear_arith)
        requires
            n <= 0x4000,
            by >= 1,
            p > 0,
    ;
    assert(by as nat * p > 0) by (nonlinear_arith)
        requires
            by >= 1,
            p > 0,
    ;
    lemma_single_over_near(a, b, 163);
    lemma_single_over_part(a, b);
    let u = units(r@);
    assert(u * (by * p) == (u * by) * p) by (nonlinear_arith);
    assert(0x100_0000 * gap_of(u * by, n * p) <= n * p + 0x100_0000 * by) by (nonlinear_arith)
        requires
            0x100_0000 * gap_of((u * by) * p, (n * p) * p) <= (n * p) * p + 0x100_0000 * (by * p),
            p > 0,
    ;
    assert(u >= pow2(130)) by (nonlinear_arith)
        requires
            0x100_0000 * gap_of(u * by, n * p) <= n * p + 0x100_0000 * by,
            1 <= by <= 0x1_0000,
            n >= 1,
            p == 0x8_0000 * pow2(130),
            pow2(130) >= 0x1_0000_0000,
    ;
}

/// A picture's length at a scale.
proof fn lemma_scaled_length(n: u64, scale: Single)
    requires
        1 <= n <= 0x1_0000,
        scale.is_finite(),
        pow2(130) <= units(scale@) <= pow2(163),
    ensures
        ({
            let r = Single::from_u64(n).times(scale);
            &&& r.is_finite()
            &&& 0x100_0000 * gap_of(units(r@), n * units(scale@)) <= n * units(scale@)
                + 0x100_0000
        }),
{
    let p = pow2(149);
    let a = Single::from_u64(n);
    let r = a.times(scale);
    let s = units(scale@);
    lemma_single_small(n);
    lemma_pow2_pos(149);
    lemma_pow2_pos(130);
    lemma2_to64();
    lemma_pow2_adds(16, 163);
    let top = pow2(179);
    assert(0 <= (n * p) * s <= top * p) by (nonlinear_arith)
        requires
            1 <= n <= 0x1_0000,
            0 < s <= pow2(163),
            top == 0x1_0000 * pow2(163),
            p > 0,
    ;
    lemma_single_times_near(a, scale, 179);
    lemma_single_times_part(a, scale);
    let u = units(r@);
    assert((n * p) * s == (n * s) * p) by (nonlinear_arith);
    assert(0x100_0000 * gap_of(u, n * s) <= n * s + 0x100_0000) by (nonlinear_arith)
        requires
            0x100_0000 * gap_of(u * p, (n * s) * p) <= (n * s) * p + 0x100_0000 * p,
            p > 0,
    ;
}

/// What is left beside a length, in two halves.
proof fn lemma_margin(n: u32, w: Single)
    requires
        1 <= n <= 0x4000,
        w.is_finite(),
        0 <= units(w@) <= 2 * (n * pixel()),
    ensures
        ({
            let x = Single::from_u64(n as u64).minus(w).times(single(0x3f00_0000));
            &&& single_upto(x, 163)
            &&& 512 * gap_of(2 * units(x@) + units(w@), n * pixel()) <= pixel()
        }),
{
    let p = pow2(149);
    let a = Single::from_u64(n as u64);
    lemma_single_small(n as u64);
    lemma_pow2_pos(149);
    lemma2_to64();
    lemma_pow2_adds(14, 149);
    assert(0 < n * p <= 0x4000 * p) by (nonlinear_arith)
        requires
            1 <= n <= 0x4000,
            p > 0,
    ;
    lemma_single_minus_near(a, w, 163);
    lemma_half_near(a.minus(w), 163);
    lemma_pow2_adds(11, 138);
    lemma_pow2_unfold(139);
}

/// A picture by itself lies inside the canvas, reaches across it one way or the other, keeps
/// its shape and stands in the middle, all but for rounding.
pub proof fn lemma_a_picture_fits_the_canvas(canvas: Canvas, pw: u64, ph: u64)
    requires
        ordinary(canvas),
        1 <= pw <= 0x1_0000,
        1 <= ph <= 0x1_0000,
    ensures
        ({
            let r = canvas.fit(Single::from_u64(pw), Single::from_u64(ph));
            let (x, y) = (units(r.x@), units(r.y@));
            let (w, h) = (units(r.w@), units(r.h@));
            let (cw, ch) = (canvas.width * pixel(), canvas.height * pixel());
            &&& r.x.is_finite() && r.y.is_finite() && r.w.is_finite() && r.h.is_finite()
            &&& 0 < w && 0 < h
            &&& 0x40_0000 * (w - cw) <= cw && 0x40_0000 * (h - ch) <= ch
            &&& 0x40_0000 * gap_of(w, cw) <= cw || 0x40_0000 * gap_of(h, ch) <= ch
            &&& 0x40_0000 * gap_of(w * ph, h * pw) <= w * ph + h * pw
            &&& 512 * gap_of(2 * x + w, cw) <= pixel()
            &&& 512 * gap_of(2 * y + h, ch) <= pixel()
        }),
{
    let p = pixel();
    let (sw, sh) = (Single::from_u64(pw), Single::from_u64(ph));
    lemma_single_small(pw);
    lemma_single_small(ph);
    lemma_single_zero();
    lemma_pow2_pos(149);
    assert(pw as nat * pow2(149) > 0 && ph as nat * pow2(149) > 0) by (nonlinear_arith)
        requires
            pw >= 1,
            ph >= 1,
            pow2(149) > 0,
    ;
    lemma_ratio(canvas.width, pw);
    lemma_ratio(canvas.height, ph);
    let (ra, rb) = (canvas.w().over(sw), canvas.h().over(sh));
    let scale = ra.min(rb);
    let s = units(scale@);
    lemma_scaled_length(pw, scale);
    lemma_scaled_length(ph, scale);
    let r = canvas.fit(sw, sh);
    let (w, h) = (units(r.w@), units(r.h@));
    let (cw, ch) = (canvas.width * p, canvas.height * p);
    lemma2_to64();
    lemma_pow2_adds(32, 98);
    lemma_pow2_adds(19, 130);
    lemma_pow2_pos(98);
    assert(cw >= p && ch >= p) by (nonlinear_arith)
        requires
            cw == canvas.width * p,
            ch == canvas.height * p,
            canvas.width >= 1,
            canvas.height >= 1,
            p > 0,
    ;
    let (a, b) = (pw * s, ph * s);
    assert(a <= pw * units(ra@) && b <= ph * units(rb@) && a >= s && b >= s) by (nonlinear_arith)
        requires
            s <= units(ra@),
            s <= units(rb@),
            s > 0,
            a == pw * s,
            b == ph * s,
            pw >= 1,
            ph >= 1,
    ;
    assert(units(ra@) * pw == pw * units(ra@)) by (nonlinear_arith);
    assert(units(rb@) * ph == ph * units(rb@)) by (nonlinear_arith);
    assert(0x40_0000 * gap_of(w * ph, h * pw) <= w * ph + h * pw) by (nonlinear_arith)
        requires
            0x100_0000 * gap_of(w, a) <= a + 0x100_0000,
            0x100_0000 * gap_of(h, b) <= b + 0x100_0000,
            a == pw * s,
            b == ph * s,
            s >= 0x1_0000_0000,
            1 <= pw <= 0x1_0000,
            1 <= ph <= 0x1_0000,
    {
        let x = (pw * ph) * s;
        assert(a * ph == x) by (nonlinear_arith)
            requires
                a == pw * s,
                x == (pw * ph) * s,
        ;
        assert(b * pw == x) by (nonlinear_arith)
            requires
                b == ph * s,
                x == (pw * ph) * s,
        ;
        assert(x >= s * ph && x >= s * pw) by (nonlinear_arith)
            requires
                x == (pw * ph) * s,
                s > 0,
                pw >= 1,
                ph >= 1,
        ;
        assert(0x100_0000 * gap_of(w * ph, x) <= x + 0x100_0000 * ph) by (nonlinear_arith)
            requires
                0x100_0000 * gap_of(w, a) <= a + 0x100_0000,
                a * ph == x,
                ph >= 1,
        ;
        assert(0x100_0000 * gap_of(h * pw, x) <= x + 0x100_0000 * pw) by (nonlinear_arith)
            requires
                0x100_0000 * gap_of(h, b) <= b + 0x100_0000,
                b * pw == x,
                pw >= 1,
        ;
        assert(s * ph >= 0x1_0000_0000 * ph && s * pw >= 0x1_0000_0000 * pw) by (nonlinear_arith)
            requires
                s >= 0x1_0000_0000,
                pw >= 1,
                ph >= 1,
        ;
    }
    lemma_margin(canvas.width, r.w);
    lemma_margin(canvas.height, r.h);
}

/// A transform of an ordinary size.
pub open spec fn moderate(t: Transform) -> bool {
    &&& single_upto(t.x, 152) && single_upto(t.y, 152) && single_upto(t.scale, 152)
    &&& 0 <= units(t.scale@)
}

/// One axis of a placement: a length is scaled, its middle moved by a fraction of the canvas.
pub proof fn lemma_axis(n: u32, fx: Single, fw: Single, scale: Single, by: Single)
    requires
        1 <= n <= 0x4000,
        single_upto(fx, 163),
        fw.is_finite(),
        0 <= units(fw@) <= pow2(164),
        512 * gap_of(2 * units(fx@) + units(fw@), n * pixel()) <= pixel(),
        single_upto(scale, 152),
        0 <= units(scale@),
        single_upto(by, 152),
    ensures
        ({
            let w = fw.times(scale);
            let x = fx.plus(fw.minus(w).times(single(0x3f00_0000))).plus(
                by.times(Single::from_u64(n as u64)),
            );
            &&& w.is_finite() && x.is_finite()
            &&& 128 * gap_of(units(w@) * pixel(), units(fw@) * units(scale@)) <= pixel() * pixel()
            &&& 8 * gap_of(2 * units(x@) + units(w@), n * pixel() + 2 * (n * units(by@))) <= pixel()
        }),
{
    let p = pow2(149);
    let w = fw.times(scale);
    let c = Single::from_u64(n as u64);
    let (f, s, b) = (units(fw@), units(scale@), units(by@));
    lemma_single_small(n as u64);
    lemma_pow2_pos(149);
    lemma2_to64();
    lemma_pow2_adds(3, 149);
    lemma_pow2_adds(3, 164);
    lemma_pow2_adds(7, 142);
    lemma_pow2_adds(14, 149);
    lemma_pow2_adds(3, 163);
    lemma_pow2_adds(21, 142);
    lemma_pow2_unfold(142);
    lemma_pow2_unfold(143);
    lemma_pow2_unfold(168);
    lemma_pow2_unfold(167);
    lemma_pow2_unfold(166);
    lemma_pow2_unfold(165);
    lemma_pow2_unfold(164);
    // the size
    let t = pow2(167);
    assert(0 <= f * s <= t * p) by (nonlinear_arith)
        requires
            0 <= f <= pow2(164),
            0 <= s <= 8 * p,
            t == 8 * pow2(164),
            p > 0,
    ;
    lemma_single_times_near(fw, scale, 167);
    let u = units(w@);
    let e = pow2(142);
    assert(u >= 0) by {
        lemma_single_times(fw, scale);
        lemma_nonneg_product(fw, scale);
    }
    assert(128 * gap_of(u * p, f * s) <= p * p) by (nonlinear_arith)
        requires
            -(e * p) <= u * p - f * s <= e * p,
            p == 128 * e,
            p > 0,
    ;
    // half of what the scale takes
    lemma_single_minus_near(fw, w, 167);
    lemma_half_near(fw.minus(w), 167);
    let h = fw.minus(w).times(single(0x3f00_0000));
    lemma_single_plus_near(fx, h, 167);
    // the offset
    let q = pow2(166);
    assert(-(q * p) <= b * (n * p) <= q * p) by (nonlinear_arith)
        requires
            -(8 * p) <= b <= 8 * p,
            1 <= n <= 0x4000,
            q == 8 * (0x4000 * p),
            p > 0,
    ;
    lemma_single_times_near(by, c, 166);
    let o = by.times(c);
    let uo = units(o@);
    let g = pow2(141);
    assert(b * (n * p) == (n * b) * p) by (nonlinear_arith);
    assert(within(uo, n * b, g as int)) by (nonlinear_arith)
        requires
            -(g * p) <= uo * p - (n * b) * p <= g * p,
            p > 0,
    ;
    lemma_single_plus_near(fx.plus(h), o, 168);
}

/// A product of numbers that are not negative is not negative.
pub proof fn lemma_nonneg_product(a: Single, b: Single)
    requires
        a.is_finite(),
        b.is_finite(),
        0 <= units(a@),
        0 <= units(b@),
        a.times(b).is_finite(),
    ensures
        0 <= units(a.times(b)@),
{
    let f = crate::ieee::model::single_format();
    lemma_single_times(a, b);
    crate::ieee::numbers::lemma_single_bits();
    match (a@, b@) {
        (Num::Fin { neg: na, mag: ma }, Num::Fin { neg: nb, mag: mb }) => {
            if na != nb {
                assert(ma * mb == 0) by (nonlinear_arith)
                    requires
                        ma == 0 || mb == 0,
                ;
                lemma_pow2_pos(f.unit);
                crate::ieee::facts::lemma_holds_zero(f);
                crate::ieee::laws::lemma_round_le(f, 0, pow2(f.unit), 0);
            }
        },
        _ => {},
    }
}

/// A transform scales a picture about its middle and moves that from the middle of the canvas
/// by fractions of it: `x` of the width to the right, `y` of the height down, to within an
/// eighth of a pixel.
pub proof fn lemma_a_transform_moves_and_scales(canvas: Canvas, pw: u64, ph: u64, t: Transform)
    requires
        ordinary(canvas),
        1 <= pw <= 0x1_0000,
        1 <= ph <= 0x1_0000,
        moderate(t),
    ensures
        ({
            let f = canvas.fit(Single::from_u64(pw), Single::from_u64(ph));
            let r = canvas.place(Single::from_u64(pw), Single::from_u64(ph), t);
            let (cw, ch) = (canvas.width as int, canvas.height as int);
            &&& r.x.is_finite() && r.y.is_finite() && r.w.is_finite() && r.h.is_finite()
            &&& 8 * gap_of(
                2 * units(r.x@) + units(r.w@),
                cw * pixel() + 2 * (cw * units(t.x@)),
            ) <= pixel()
            &&& 8 * gap_of(
                2 * units(r.y@) + units(r.h@),
                ch * pixel() + 2 * (ch * units(t.y@)),
            ) <= pixel()
            &&& 128 * gap_of(units(r.w@) * pixel(), units(f.w@) * units(t.scale@)) <= pixel()
                * pixel()
            &&& 128 * gap_of(units(r.h@) * pixel(), units(f.h@) * units(t.scale@)) <= pixel()
                * pixel()
        }),
{
    let f = canvas.fit(Single::from_u64(pw), Single::from_u64(ph));
    let p = pow2(149);
    lemma_a_picture_fits_the_canvas(canvas, pw, ph);
    lemma_pow2_pos(149);
    lemma2_to64();
    lemma_pow2_adds(14, 149);
    lemma_pow2_unfold(164);
    let (cw, ch) = (canvas.width * pixel(), canvas.height * pixel());
    assert(0 < cw <= 0x4000 * p && 0 < ch <= 0x4000 * p) by (nonlinear_arith)
        requires
            cw == canvas.width * p,
            ch == canvas.height * p,
            1 <= canvas.width <= 0x4000,
            1 <= canvas.height <= 0x4000,
            p > 0,
    ;
    lemma_axis(canvas.width, f.x, f.w, t.scale, t.x);
    lemma_axis(canvas.height, f.y, f.h, t.scale, t.y);
}

/// Moving a picture sideways leaves its height, its size and how far down it stands; moving it
/// up or down leaves its width, its size and how far across it stands.
pub proof fn lemma_the_axes_of_a_transform_are_apart(
    canvas: Canvas,
    sw: Single,
    sh: Single,
    a: Transform,
    b: Transform,
)
    requires
        a.scale == b.scale,
    ensures
        ({
            let (r, s) = (canvas.place(sw, sh, a), canvas.place(sw, sh, b));
            &&& r.w == s.w && r.h == s.h
            &&& a.y == b.y ==> r.y == s.y
            &&& a.x == b.x ==> r.x == s.x
        }),
{
}

} // verus!
