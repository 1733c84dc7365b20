//! How pictures are cut and sized: which samples of them a part covers, and what stays of
//! their shape.

use crate::ieee::facts::{
    lemma_double_literal, lemma_double_of, lemma_double_small, lemma_double_zero,
    lemma_single_small,
};
use crate::ieee::model::{double_format, units};
use crate::ieee::near::{
    gap_of, lemma_close_parts, lemma_double_cut, lemma_double_over_near, lemma_double_times_near,
    lemma_double_to_whole, lemma_single_cut, lemma_single_times_near, lemma_single_to_whole, size,
};
use crate::ieee::numbers::lemma_double_bits;
use crate::ieee::{double, Double, Single};
use crate::placing::{lemma_nonneg_product, pixel};
use crate::raster::{below_even, fit_scale, fit_side, Part};
use crate::take::{
    cropped, footage_of, mask_cropped, share_of, share_within, thumb_of, TICKS_PER_SECOND,
};
use crate::timing::second;
use vstd::arithmetic::power2::{
    lemma2_to64, lemma_pow2_adds, lemma_pow2_pos, lemma_pow2_unfold, pow2,
};
use vstd::prelude::*;

verus! {

/// A share between nothing and all.
pub open spec fn is_share(f: Single) -> bool {
    f.is_finite() && 0 <= units(f@) <= pixel()
}

/// A share of a side is that many samples, to the nearest.
proof fn lemma_share_of(f: Single, side: u32)
    requires
        is_share(f),
        1 <= side <= 0x4000,
    ensures
        0 <= share_of(f, side) <= side,
        64 * gap_of(share_of(f, side) * pixel(), side * units(f@)) <= 33 * pixel(),
        share_within(f, side) == share_of(f, side),
{
    let p = pow2(149);
    let n = Single::from_u64(side as u64);
    let x = f.times(n);
    let u = units(f@);
    lemma_pow2_pos(149);
    lemma2_to64();
    lemma_single_small(side as u64);
    lemma_pow2_adds(14, 149);
    lemma_pow2_adds(11, 138);
    lemma_pow2_pos(138);
    assert(0 <= u * (side * p) <= pow2(163) * p) by (nonlinear_arith)
        requires
            0 <= u <= p,
            1 <= side <= 0x4000,
            pow2(163) == 0x4000 * p,
            p > 0,
    ;
    assert(0 <= side * p) by (nonlinear_arith)
        requires
            side >= 1,
            p > 0,
    ;
    lemma_single_times_near(f, n, 163);
    lemma_nonneg_product(f, n);
    let ux = units(x@);
    let e = pow2(138);
    assert(u * (side * p) == (side * u) * p) by (nonlinear_arith);
    lemma_close_parts(ux, side * u, e as int, p as int);
    assert(0 <= side * u <= side * p && side * p <= 0x4000 * p) by (nonlinear_arith)
        requires
            0 <= u <= p,
            1 <= side <= 0x4000,
            p > 0,
    ;
    lemma_single_to_whole(x);
    let k = x.round().to_i32();
    assert(0 <= k <= side) by (nonlinear_arith)
        requires
            64 * gap_of(k * p, side * u) <= 33 * p,
            0 <= side * u <= side * p,
            p > 0,
    ;
    assert(0 <= k * p <= side * p) by (nonlinear_arith)
        requires
            0 <= k <= side,
            p > 0,
    ;
    lemma_single_cut(x.round());
    let m = x.round().min(n);
    assert(m.is_finite() && units(m@) == k * p);
    lemma_single_cut(m);
    let c = m.to_i32();
    assert(c == k) by (nonlinear_arith)
        requires
            c * p <= k * p < c * p + p,
            p > 0,
    ;
}

/// A part of a picture covers the samples it lies on: from where its share of the side begins
/// to where it ends, on even samples, to within two of them.
pub proof fn lemma_a_part_covers_its_samples(src: Part, sw: u32, sh: u32)
    requires
        is_share(src.u0) && is_share(src.u1) && is_share(src.v0) && is_share(src.v1),
        2 <= sw <= 0x4000,
        2 <= sh <= 0x4000,
    ensures
        cropped(src, sw, sh) matches Some(c) ==> {
            let p = pixel();
            &&& 16 * gap_of(c.x * p, sw * units(src.u0@)) <= 25 * p
            &&& 16 * gap_of(c.y * p, sh * units(src.v0@)) <= 25 * p
            &&& 16 * gap_of((c.x + c.w) * p, sw * units(src.u1@)) <= 25 * p
            &&& 16 * gap_of((c.y + c.h) * p, sh * units(src.v1@)) <= 25 * p
        },
{
    lemma_even_edges(src.u0, src.u1, sw);
    lemma_even_edges(src.v0, src.v1, sh);
}

/// One axis of a part.
proof fn lemma_even_edges(a: Single, b: Single, side: u32)
    requires
        is_share(a),
        is_share(b),
        2 <= side <= 0x4000,
    ensures
        ({
            let (x0, x1) = crate::take::even_span(a, b, side);
            &&& 0 <= x0 <= 0x4000 && 0 <= x1 <= 0x4000
            &&& 16 * gap_of(x0 * pixel(), side * units(a@)) <= 25 * pixel()
            &&& 16 * gap_of(x1 * pixel(), side * units(b@)) <= 25 * pixel()
        }),
{
    let p = pow2(149);
    lemma_pow2_pos(149);
    lemma_share_of(a, side);
    lemma_share_of(b, side);
    let (x0, x1) = crate::take::even_span(a, b, side);
    let (s0, s1) = (share_of(a, side) as int, share_of(b, side) as int);
    assert(s0 - 1 <= x0 <= s0);
    assert(s0 * p - p <= x0 * p <= s0 * p) by (nonlinear_arith)
        requires
            s0 - 1 <= x0 <= s0,
            p > 0,
    ;
    let ub = units(b@);
    assert(side * ub <= side * p) by (nonlinear_arith)
        requires
            ub <= p,
            side >= 0,
    ;
    assert(s1 - 1 <= x1 <= s1 + 1);
    assert(s1 * p - p <= x1 * p <= s1 * p + p) by (nonlinear_arith)
        requires
            s1 - 1 <= x1 <= s1 + 1,
            p > 0,
    ;
}

/// A part of a mask covers the samples it lies on, to the nearest.
pub proof fn lemma_a_part_of_a_mask_covers_its_samples(src: Part, w: u32, h: u32)
    requires
        is_share(src.u0) && is_share(src.u1) && is_share(src.v0) && is_share(src.v1),
        1 <= w <= 0x4000,
        1 <= h <= 0x4000,
    ensures
        mask_cropped(src, w, h) matches Some(c) ==> {
            let p = pixel();
            &&& 64 * gap_of(c.x * p, w * units(src.u0@)) <= 33 * p
            &&& 64 * gap_of(c.y * p, h * units(src.v0@)) <= 33 * p
            &&& 64 * gap_of((c.x + c.w) * p, w * units(src.u1@)) <= 33 * p
            &&& 64 * gap_of((c.y + c.h) * p, h * units(src.v1@)) <= 33 * p
        },
{
    lemma_share_of(src.u0, w);
    lemma_share_of(src.u1, w);
    lemma_share_of(src.v0, h);
    lemma_share_of(src.v1, h);
}

/// A whole number that is not negative is exact as a double.
proof fn lemma_double_whole(n: i64)
    requires
        0 <= n <= 0x20_0000_0000_0000,
    ensures
        Double::from_i64(n).is_finite(),
        units(Double::from_i64(n)@) == n * second(),
{
    reveal(Double::spec_from_i64);
    let f = double_format();
    lemma_double_bits();
    lemma2_to64();
    vstd::arithmetic::power2::lemma2_to64_rest();
    lemma_pow2_pos(1074);
    crate::ieee::engine::lemma_whole_exact(f, false, n as nat);
    crate::ieee::laws::lemma_rounded_has(f, false, n as nat * pow2(f.unit), 1);
    lemma_double_of(f.whole(false, n as nat));
}

/// What is known of a stream is what its numbers say: it lasts its ticks in millionths of a
/// second, and shows `num` frames in `den` seconds.
pub proof fn lemma_a_stream_is_as_its_numbers_say(
    ticks: i64,
    num: i64,
    den: i64,
    width: u32,
    height: u32,
)
    requires
        1 <= ticks <= 0x2000_0000_0000,
        1 <= num <= 0x8000_0000,
        1 <= den <= 0x8000_0000,
        num <= 0x1_0000 * den,
    ensures
        ({
            let f = footage_of(ticks, num, den, width, height);
            &&& f.width == width && f.height == height
            &&& f.duration.is_finite() && f.frame_rate.is_finite()
            &&& 128 * gap_of(units(f.duration@) * 1_000_000, ticks * second()) <= second()
            &&& 0x1000 * gap_of(units(f.frame_rate@) * den, num * second()) <= den * second()
        }),
{
    let d = pow2(1074);
    lemma_pow2_pos(1074);
    lemma2_to64();
    vstd::arithmetic::power2::lemma2_to64_rest();
    lemma_double_zero();
    lemma_double_whole(ticks);
    lemma_double_whole(num);
    lemma_double_whole(den);
    lemma_double_literal(TICKS_PER_SECOND, 1041, 0x1e_8480_0000_0000);
    lemma_pow2_adds(33, 1041);
    let k = double(TICKS_PER_SECOND);
    assert(units(k@) == 1_000_000 * d);
    lemma_pow2_adds(26, 1074);
    assert((ticks * d) * d <= pow2(1100) * (1_000_000 * d) && 0 < ticks * d && 0 < num * d && 0
        < den * d) by (nonlinear_arith)
        requires
            1 <= ticks <= 0x2000_0000_0000,
            1 <= num,
            1 <= den,
            pow2(1100) == 0x400_0000 * d,
            d > 0,
    ;
    let a = Double::from_i64(ticks).over(k);
    lemma_double_over_near(Double::from_i64(ticks), k, 1100);
    let ua = units(a@);
    let e = pow2(1046);
    assert(ua * (1_000_000 * d) == (ua * 1_000_000) * d && e * (1_000_000 * d) == (e * 1_000_000)
        * d) by (nonlinear_arith);
    lemma_close_parts(ua * 1_000_000, ticks * d, (e * 1_000_000) as int, d as int);
    lemma_pow2_adds(28, 1046);
    lemma_pow2_pos(1046);
    lemma_pow2_adds(16, 1074);
    assert((num * d) * d <= pow2(1090) * (den * d)) by (nonlinear_arith)
        requires
            num <= 0x1_0000 * den,
            pow2(1090) == 0x1_0000 * d,
            d > 0,
    ;
    let b = Double::from_i64(num).over(Double::from_i64(den));
    lemma_double_over_near(Double::from_i64(num), Double::from_i64(den), 1090);
    let ub = units(b@);
    let g = pow2(1036);
    assert(ub * (den * d) == (ub * den) * d && g * (den * d) == (g * den) * d) by (nonlinear_arith);
    lemma_close_parts(ub * den, num * d, g * den, d as int);
    lemma_pow2_adds(38, 1036);
    lemma_pow2_pos(1036);
    assert(0x1000 * (g * den) <= den * d) by (nonlinear_arith)
        requires
            d == 0x40_0000_0000 * g,
            den >= 1,
            g > 0,
    ;
}

/// A thumbnail is at most as high as one may be, no higher than the picture, and keeps the
/// shape of it as nearly as whole samples can.
pub proof fn lemma_a_thumbnail_keeps_the_shape(width: u32, height: u32)
    requires
        1 <= width <= 0x1_0000,
        1 <= height <= 0x1_0000,
    ensures
        ({
            let (w, h) = thumb_of(width, height);
            &&& 1 <= h <= height && h <= 64
            &&& height <= 64 ==> h == height
            &&& height > 64 ==> h == 64
            &&& 1 <= w
            &&& w == 1 || 2 * gap_of(w * height, h * width) <= height
        }),
{
    let d = pow2(1074);
    let (w, h) = thumb_of(width, height);
    let (a, b, c) = (
        Double::from_u64(h as u64),
        Double::from_u64(width as u64),
        Double::from_u64(height as u64),
    );
    let m = a.times(b);
    let x = m.over(c);
    lemma_pow2_pos(1074);
    lemma2_to64();
    vstd::arithmetic::power2::lemma2_to64_rest();
    lemma_double_small(h as u64);
    lemma_double_small(width as u64);
    lemma_double_small(height as u64);
    lemma_pow2_adds(22, 1074);
    lemma_pow2_adds(23, 1074);
    let area = h * width;
    assert(1 <= area <= 0x40_0000) by (nonlinear_arith)
        requires
            area == h * width,
            1 <= h <= 64,
            1 <= width <= 0x1_0000,
    ;
    assert((h * d) * (width * d) == (area * d) * d) by (nonlinear_arith)
        requires
            area == h * width,
    ;
    assert(0 <= area * d <= 0x40_0000 * d && 0 < h * d && 0 < width * d && 0 < height * d)
        by (nonlinear_arith)
        requires
            1 <= area <= 0x40_0000,
            h >= 1,
            width >= 1,
            height >= 1,
            d > 0,
    ;
    assert(0 <= (area * d) * d <= pow2(1096) * d) by (nonlinear_arith)
        requires
            0 <= area * d <= pow2(1096),
            d > 0,
    ;
    lemma_double_times_near(a, b, 1096);
    let um = units(m@);
    let e = pow2(1042);
    lemma_close_parts(um, area * d, e as int, d as int);
    lemma_pow2_adds(32, 1042);
    lemma_pow2_pos(1042);
    crate::hearing::lemma_nonneg_times(a, b);
    assert(size(um) * d <= pow2(1097) * (height * d)) by (nonlinear_arith)
        requires
            0 <= um <= pow2(1097),
            height >= 1,
            d > 0,
    ;
    lemma_double_over_near(m, c, 1097);
    let ux = units(x@);
    let f = pow2(1043);
    assert(ux * (height * d) == (ux * height) * d && f * (height * d) == (f * height) * d)
        by (nonlinear_arith);
    lemma_close_parts(ux * height, um, f * height, d as int);
    lemma_pow2_unfold(1043);
    assert(f * height + e <= (3 * e) * 0x1_0000) by (nonlinear_arith)
        requires
            f == 2 * e,
            1 <= height <= 0x1_0000,
            e > 0,
    ;
    assert(0x2000 * gap_of(ux * height, area * d) <= d);
    assert(area <= width * height) by (nonlinear_arith)
        requires
            area == h * width,
            h <= height,
            width >= 1,
    ;
    lemma_positive_quotient(ux, height as int, area, d as int, width as int);
    lemma_double_to_whole(x);
    lemma_double_cut(x.round());
    let k = x.round().to_u64();
    assert(k <= 0xffff_ffff) by (nonlinear_arith)
        requires
            2 * gap_of(k * d, ux) <= d,
            ux <= 0x1_0001 * d,
            d > 0,
    ;
    assert(2 * gap_of(k * height, area) <= height) by (nonlinear_arith)
        requires
            2 * gap_of(k * d, ux) <= d,
            0x2000 * gap_of(ux * height, area * d) <= d,
            1 <= height,
            d > 0,
    {
        assert(2 * gap_of((k * height) * d, ux * height) <= d * height) by (nonlinear_arith)
            requires
                2 * gap_of(k * d, ux) <= d,
                1 <= height,
        ;
        assert(2 * gap_of((k * height) * d, area * d) < (height + 1) * d) by (nonlinear_arith)
            requires
                2 * gap_of((k * height) * d, ux * height) <= d * height,
                0x2000 * gap_of(ux * height, area * d) <= d,
                d > 0,
        ;
        assert(2 * gap_of(k * height, area) < height + 1) by (nonlinear_arith)
            requires
                2 * gap_of((k * height) * d, area * d) < (height + 1) * d,
                d > 0,
        ;
    }
}

/// A quotient of positive numbers is not negative, and no more than what it is of.
proof fn lemma_positive_quotient(ux: int, height: int, area: int, d: int, width: int)
    requires
        0x2000 * gap_of(ux * height, area * d) <= d,
        1 <= area <= width * height,
        1 <= height,
        1 <= width <= 0x1_0000,
        0 < d,
    ensures
        0 <= ux <= 0x1_0001 * d,
{
    assert(d <= area * d <= (width * height) * d) by (nonlinear_arith)
        requires
            1 <= area <= width * height,
            d > 0,
    ;
    assert(ux >= 0) by (nonlinear_arith)
        requires
            ux * height > 0,
            height >= 1,
    ;
    assert(ux <= (width + 1) * d) by (nonlinear_arith)
        requires
            ux * height <= (width * height) * d + d,
            height >= 1,
            width >= 1,
            d > 0,
    ;
    assert((width + 1) * d <= 0x1_0001 * d) by (nonlinear_arith)
        requires
            width <= 0x1_0000,
            d > 0,
    ;
}

/// How often a side goes into another.
proof fn lemma_times_into(out: u32, src: u32)
    requires
        1 <= src <= 0x4000,
        2 <= out <= 0x4000,
    ensures
        ({
            let r = Double::from_u64(out as u64).over(Double::from_u64(src as u64));
            &&& r.is_finite()
            &&& 0 < units(r@)
            &&& 0x100_0000 * gap_of(units(r@) * src, out * second()) <= second()
        }),
{
    let d = pow2(1074);
    let (a, b) = (Double::from_u64(out as u64), Double::from_u64(src as u64));
    let r = a.over(b);
    lemma_pow2_pos(1074);
    lemma2_to64();
    lemma_double_small(out as u64);
    lemma_double_small(src as u64);
    lemma_pow2_adds(14, 1074);
    assert((out * d) * d <= pow2(1088) * (src * d) && 0 < src * d && 0 < out * d)
        by (nonlinear_arith)
        requires
            1 <= src,
            1 <= out <= 0x4000,
            pow2(1088) == 0x4000 * d,
            d > 0,
    ;
    lemma_double_over_near(a, b, 1088);
    let u = units(r@);
    let e = pow2(1034);
    assert(u * (src * d) == (u * src) * d && e * (src * d) == (e * src) * d) by (nonlinear_arith);
    lemma_close_parts(u * src, out * d, e * src, d as int);
    lemma_pow2_adds(40, 1034);
    lemma_pow2_pos(1034);
    vstd::arithmetic::power2::lemma2_to64_rest();
    assert(0x100_0000 * (e * src) <= d) by (nonlinear_arith)
        requires
            d == 0x100_0000_0000 * e,
            src <= 0x4000,
            e > 0,
    ;
    assert(2 * d <= out * d) by (nonlinear_arith)
        requires
            2 <= out,
            d > 0,
    ;
    assert(u > 0) by (nonlinear_arith)
        requires
            u * src > 0,
            src >= 1,
    ;
}

/// A side after scaling: within two samples of what the scale makes of it.
proof fn lemma_side_near(src: u32, scale: Double, out: u32)
    requires
        1 <= src <= 0x4000,
        2 <= out <= 0x4000,
        scale.is_finite(),
        0 < units(scale@),
        0x100_0000 * (units(scale@) * src) <= 0x100_0000 * (out * second()) + second(),
    ensures
        4 * gap_of(fit_side(src, scale, out) * second(), units(scale@) * src) <= 9 * second(),
        2 <= fit_side(src, scale, out) <= out,
        0x100_0000 * (out * second()) <= 0x100_0000 * (units(scale@) * src) + second()
            ==> fit_side(src, scale, out) == below_even(out as int),
{
    let d = pow2(1074);
    let a = Double::from_u64(src as u64);
    let x = a.times(scale);
    let us = units(scale@);
    let v = us * src;
    lemma_pow2_pos(1074);
    lemma2_to64();
    lemma_double_small(src as u64);
    lemma_pow2_adds(15, 1074);
    assert(0 < src * d && 0 < v && out * d <= 0x4000 * d && 2 * d <= out * d) by (nonlinear_arith)
        requires
            src >= 1,
            us > 0,
            v == us * src,
            d > 0,
            2 <= out <= 0x4000,
    ;
    assert((src * d) * us == v * d) by (nonlinear_arith)
        requires
            v == us * src,
    ;
    assert(0 <= v * d <= pow2(1089) * d) by (nonlinear_arith)
        requires
            0 < v <= pow2(1089),
            d > 0,
    ;
    lemma_double_times_near(a, scale, 1089);
    let ux = units(x@);
    let e = pow2(1035);
    lemma_close_parts(ux, v, e as int, d as int);
    lemma_pow2_adds(32, 1035);
    lemma_pow2_adds(39, 1035);
    lemma_pow2_pos(1035);
    assert(0x100_0000 * e <= d) by {
        lemma_pow2_adds(24, 1035);
        lemma_pow2_adds(15, 1059);
        lemma_pow2_pos(1059);
    }
    crate::hearing::lemma_nonneg_times(a, scale);
    lemma_double_to_whole(x);
    lemma_double_cut(x.round());
    let k = x.round().to_u64();
    assert(k <= out) by (nonlinear_arith)
        requires
            2 * gap_of(k * d, ux) <= d,
            0x100_0000 * ux <= 0x100_0000 * (out * d) + 2 * d,
            d > 0,
    ;
    let r = fit_side(src, scale, out);
    let c = if k < 2 {
        2
    } else {
        k as int
    };
    assert(r == below_even(c));
    assert(c - 1 <= r <= c);
    assert(c * d - d <= r * d <= c * d) by (nonlinear_arith)
        requires
            c - 1 <= r <= c,
            d > 0,
    ;
    if k < 2 {
        assert(r == 2);
        assert(k * d <= d && k * d >= 0) by (nonlinear_arith)
            requires
                0 <= k < 2,
                d > 0,
        ;
    } else {
        assert(c * d == k * d);
    }
    if 0x100_0000 * (out * d) <= 0x100_0000 * v + d {
        assert(k == out) by (nonlinear_arith)
            requires
                2 * gap_of(k * d, ux) <= d,
                0x100_0000 * (out * d) <= 0x100_0000 * ux + 2 * d,
                k <= out,
                d > 0,
        ;
    }
}

/// A picture that is fitted keeps its shape to within a few samples, and fills the output one
/// way or the other.
pub proof fn lemma_a_fitted_picture_keeps_its_shape(src_w: u32, src_h: u32, out_w: u32, out_h: u32)
    requires
        1 <= src_w <= 0x4000,
        1 <= src_h <= 0x4000,
        2 <= out_w <= 0x4000,
        2 <= out_h <= 0x4000,
    ensures
        ({
            let scale = fit_scale(src_w, src_h, out_w, out_h);
            let w = fit_side(src_w, scale, out_w);
            let h = fit_side(src_h, scale, out_h);
            &&& gap_of(w * src_h, h * src_w) <= 3 * (src_w + src_h)
            &&& w == below_even(out_w as int) || h == below_even(out_h as int)
        }),
{
    let d = pow2(1074);
    lemma_pow2_pos(1074);
    lemma_times_into(out_w, src_w);
    lemma_times_into(out_h, src_h);
    let scale = fit_scale(src_w, src_h, out_w, out_h);
    let ra = Double::from_u64(out_w as u64).over(Double::from_u64(src_w as u64));
    let rb = Double::from_u64(out_h as u64).over(Double::from_u64(src_h as u64));
    let s = units(scale@);
    assert(s * src_w <= units(ra@) * src_w && s * src_h <= units(rb@) * src_h) by (nonlinear_arith)
        requires
            s <= units(ra@),
            s <= units(rb@),
    ;
    lemma_side_near(src_w, scale, out_w);
    lemma_side_near(src_h, scale, out_h);
    let w = fit_side(src_w, scale, out_w);
    let h = fit_side(src_h, scale, out_h);
    let q = (s * src_w) * src_h;
    assert((s * src_h) * src_w == q) by (nonlinear_arith)
        requires
            q == (s * src_w) * src_h,
    ;
    assert(4 * gap_of((w * src_h) * d, q) <= (9 * src_h) * d) by (nonlinear_arith)
        requires
            4 * gap_of(w * d, s * src_w) <= 9 * d,
            q == (s * src_w) * src_h,
            src_h >= 1,
    ;
    assert(4 * gap_of((h * src_w) * d, q) <= (9 * src_w) * d) by (nonlinear_arith)
        requires
            4 * gap_of(h * d, s * src_h) <= 9 * d,
            q == (s * src_h) * src_w,
            src_w >= 1,
    ;
    assert(gap_of(w * src_h, h * src_w) <= 3 * (src_w + src_h)) by (nonlinear_arith)
        requires
            4 * gap_of((w * src_h) * d, q) <= (9 * src_h) * d,
            4 * gap_of((h * src_w) * d, q) <= (9 * src_w) * d,
            src_w >= 1,
            src_h >= 1,
            d > 0,
    {
        assert(4 * gap_of((w * src_h) * d, (h * src_w) * d) <= (9 * (src_w + src_h)) * d)
            by (nonlinear_arith)
            requires
                4 * gap_of((w * src_h) * d, q) <= (9 * src_h) * d,
                4 * gap_of((h * src_w) * d, q) <= (9 * src_w) * d,
        ;
        assert(4 * gap_of(w * src_h, h * src_w) <= 9 * (src_w + src_h)) by (nonlinear_arith)
            requires
                4 * gap_of((w * src_h) * d, (h * src_w) * d) <= (9 * (src_w + src_h)) * d,
                d > 0,
        ;
    }
}

} // verus!
