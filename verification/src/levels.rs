//! Where the level lines of clips lie in their lanes, and what a position in a lane means.

use crate::ieee::facts::{
    lemma_single_literal, lemma_single_negative_literal, lemma_single_one, lemma_single_zero,
};
use crate::ieee::model::units;
use crate::ieee::near::{
    gap_of, lemma_close_parts, lemma_close_times, lemma_single_keeps_sign, lemma_single_minus_near,
    lemma_single_over_near, lemma_single_plus_near, lemma_single_times_near, single_upto, size,
};
use crate::ieee::{single, Single};
use crate::layout::{
    db_to_y, level_band, opacity_to_y, spec_db_to_y, spec_level_band, spec_opacity_to_y,
    spec_y_to_db, spec_y_to_opacity, y_to_db, y_to_opacity,
};
use crate::placing::pixel;
use crate::theme::{CLIP_LEVEL_INSET, ONE_PT, TWO_PT};
use crate::timeline::{MAX_GAIN_DB, MAX_OPACITY, MIN_GAIN_DB, MIN_OPACITY};
use vstd::arithmetic::power2::{
    lemma2_to64, lemma_pow2_adds, lemma_pow2_pos, lemma_pow2_unfold, pow2,
};
use vstd::prelude::*;

verus! {

/// A lane of an ordinary height at an ordinary place.
pub open spec fn shelf(lane_y: Single, lane_h: Single) -> bool {
    &&& single_upto(lane_y, 163)
    &&& single_upto(lane_h, 158)
    &&& 16 * pixel() <= units(lane_h@)
}

/// How far the line travels: all of the lane but the room that is left above and below.
pub open spec fn travel(lane_h: Single) -> int {
    units(lane_h@) - 10 * pixel()
}

/// How far below the top of its travel a height lies.
pub open spec fn below_top(lane_y: Single, y: Single) -> int {
    units(y@) - units(lane_y@) - 5 * pixel()
}

/// The stretch that the line travels.
proof fn lemma_band(lane_y: Single, lane_h: Single)
    requires
        shelf(lane_y, lane_h),
    ensures
        ({
            let (top, h) = level_band(lane_y, lane_h);
            &&& single_upto(top, 164)
            &&& h.is_finite()
            &&& 2 * pixel() <= units(h@) <= pow2(159)
            &&& gap_of(units(top@), units(lane_y@) + 5 * pixel()) <= pow2(139)
            &&& gap_of(units(h@), travel(lane_h)) <= pow2(134)
        }),
{
    reveal(spec_level_band);
    let p = pow2(149);
    let inset = single(CLIP_LEVEL_INSET);
    let two = single(TWO_PT);
    lemma_pow2_pos(149);
    lemma2_to64();
    lemma_single_one();
    lemma_single_literal(CLIP_LEVEL_INSET, 128, 0xa0_0000);
    lemma_single_literal(TWO_PT, 127, 0x80_0000);
    lemma_pow2_adds(21, 128);
    lemma_pow2_adds(23, 127);
    lemma_pow2_unfold(150);
    assert(units(inset@) == 5 * p);
    assert(units(two@) == 2 * p);
    lemma_pow2_adds(14, 149);
    lemma_pow2_unfold(164);
    lemma_pow2_unfold(159);
    lemma_pow2_adds(9, 149);
    lemma_pow2_adds(4, 149);
    lemma_pow2_adds(15, 134);
    lemma_pow2_adds(5, 128);
    lemma_pow2_adds(1, 133);
    lemma_pow2_adds(1, 128);
    lemma_pow2_pos(128);
    lemma_single_plus_near(lane_y, inset, 164);
    assert(0 <= (5 * p) * (2 * p) <= pow2(153) * p) by (nonlinear_arith)
        requires
            pow2(153) == 16 * p,
            p > 0,
    ;
    lemma_single_times_near(inset, two, 153);
    let m = inset.times(two);
    let um = units(m@);
    assert((5 * p) * (2 * p) == (10 * p) * p) by (nonlinear_arith);
    lemma_close_parts(um, 10 * p as int, pow2(128) as int, p as int);
    lemma_single_minus_near(lane_h, m, 158);
}

/// A height that is a share of the travel lies on it.
proof fn lemma_line_is_on_the_lane(ur: int, ud: int, uh: int, ua: int, e: int, p: int)
    requires
        gap_of(ur * ud, uh * ua) <= (2 * e) * ud + e * p,
        0 <= uh <= 0x400 * p,
        0 <= ua <= 2 * ud,
        p <= 2 * ud,
        0 <= 8 * e <= p,
        0 < p,
    ensures
        -(0x1000 * p) <= ur <= 0x1000 * p,
{
    let m = e * ud;
    assert(uh * ua <= (0x400 * p) * (2 * ud) && 0 <= uh * ua) by (nonlinear_arith)
        requires
            0 <= uh <= 0x400 * p,
            0 <= ua <= 2 * ud,
    ;
    assert((2 * e) * ud == 2 * m && e * p <= 2 * m) by (nonlinear_arith)
        requires
            p <= 2 * ud,
            e >= 0,
            m == e * ud,
    ;
    let k = p * ud;
    assert(8 * m <= k && (0x400 * p) * (2 * ud) == 0x800 * k) by (nonlinear_arith)
        requires
            8 * e <= p,
            ud > 0,
            m == e * ud,
            k == p * ud,
    ;
    assert(ur * ud <= 0x801 * k && ur * ud >= -k);
    assert(ur <= 0x801 * p && ur >= -p) by (nonlinear_arith)
        requires
            ur * ud <= 0x801 * k,
            ur * ud >= -k,
            k == p * ud,
            ud > 0,
    ;
}

/// Where a line lies whose value is so far below the largest.
#[verifier::spinoff_prover]
#[verifier::rlimit(40)]
proof fn lemma_line(lane_y: Single, lane_h: Single, hi: Single, lo: Single, v: Single)
    requires
        shelf(lane_y, lane_h),
        single_upto(hi, 155) && single_upto(lo, 155) && v.is_finite(),
        pixel() <= units(hi@) - units(lo@) <= 64 * pixel(),
        units(lo@) <= units(v@) <= units(hi@),
    ensures
        ({
            let (top, h) = level_band(lane_y, lane_h);
            let y = top.plus(h.times(hi.minus(v)).over(hi.minus(lo)));
            &&& y.is_finite()
            &&& 16 * gap_of(
                below_top(lane_y, y) * (units(hi@) - units(lo@)),
                travel(lane_h) * (units(hi@) - units(v@)),
            ) <= pixel() * (units(hi@) - units(lo@))
        }),
{
    let p = pow2(149);
    let (top, h) = level_band(lane_y, lane_h);
    let a = hi.minus(v);
    let den = hi.minus(lo);
    let q = h.times(a);
    let r = q.over(den);
    let y = top.plus(r);
    let (big, part, len) = (units(hi@) - units(lo@), units(hi@) - units(v@), travel(lane_h));
    lemma_pow2_pos(149);
    lemma2_to64();
    lemma_band(lane_y, lane_h);
    lemma_pow2_adds(6, 149);
    lemma_pow2_adds(7, 149);
    lemma_pow2_adds(10, 149);
    lemma_pow2_adds(11, 149);
    lemma_pow2_adds(17, 149);
    lemma_pow2_adds(18, 149);
    lemma_pow2_adds(19, 149);
    lemma_pow2_adds(15, 149);
    lemma_pow2_adds(19, 130);
    lemma_pow2_adds(4, 130);
    lemma_pow2_adds(9, 130);
    lemma_pow2_adds(11, 130);
    lemma_pow2_adds(12, 130);
    lemma_pow2_adds(13, 130);
    lemma_pow2_pos(130);
    let z = pow2(130);
    lemma_single_minus_near(hi, v, 155);
    lemma_single_minus_near(hi, lo, 155);
    lemma_single_keeps_sign(hi, v);
    let (ua, ud, uh) = (units(a@), units(den@), units(h@));
    assert(0 <= uh * ua <= pow2(166) * p) by (nonlinear_arith)
        requires
            0 <= uh <= 0x400 * p,
            0 <= ua <= 0x80 * p,
            pow2(166) == 0x2_0000 * p,
            p > 0,
    ;
    lemma_single_times_near(h, a, 166);
    crate::placing::lemma_nonneg_product(h, a);
    let uq = units(q@);
    assert(size(uq) * p <= pow2(167) * size(ud)) by (nonlinear_arith)
        requires
            0 <= uq <= 0x2_0000 * p,
            p <= 2 * ud,
            pow2(167) == 0x4_0000 * p,
            p > 0,
    ;
    lemma_single_over_near(q, den, 167);
    let ur = units(r@);
    lemma_single_plus_near(top, r, 168);
    // ur * ud is near uq * p, and that near uh * ua
    let e = 0x800 * z;
    assert(gap_of(ur * ud, uh * ua) <= (2 * e) * ud + e * p);
    lemma_line_is_on_the_lane(ur, ud, uh, ua, e as int, p as int);
    assert(gap_of(ur * big, ur * ud) <= (0x1000 * p) * z) by (nonlinear_arith)
        requires
            gap_of(big, ud) <= z,
            -(0x1000 * p) <= ur <= 0x1000 * p,
            p > 0,
    ;
    assert(gap_of(uh * ua, len * part) <= (0x400 * p) * z + (16 * z) * (0x40 * p))
        by (nonlinear_arith)
        requires
            gap_of(uh, len) <= 16 * z,
            gap_of(ua, part) <= z,
            0 <= uh <= 0x400 * p,
            0 <= part <= 0x40 * p,
    {
        assert(gap_of(uh * ua, uh * part) <= (0x400 * p) * z) by (nonlinear_arith)
            requires
                gap_of(ua, part) <= z,
                0 <= uh <= 0x400 * p,
        ;
        assert(gap_of(uh * part, len * part) <= (16 * z) * (0x40 * p)) by (nonlinear_arith)
            requires
                gap_of(uh, len) <= 16 * z,
                0 <= part <= 0x40 * p,
        ;
    }
    let w = below_top(lane_y, y);
    lemma_close_times(w, ur, (4 * e + pow2(139)) as int, big);
    assert((2 * e) * ud + e * p <= (5 * e) * big && (0x1000 * p) * z + (0x400 * p) * z + (16 * z)
        * (0x40 * p) <= (4 * e) * big) by (nonlinear_arith)
        requires
            p <= big,
            ud <= 2 * big,
            e == 0x800 * z,
            z > 0,
            p > 0,
    ;
    assert(16 * ((4 * e + e) * big + (5 * e) * big + (4 * e) * big) <= p * big) by (nonlinear_arith)
        requires
            p == 0x100 * e,
            big > 0,
            e > 0,
    ;
    assert((4 * e + pow2(139)) * big <= (4 * e + e) * big) by (nonlinear_arith)
        requires
            pow2(139) <= e,
            big > 0,
    ;
}

/// What a height on the travel of a line means.
#[verifier::spinoff_prover]
#[verifier::rlimit(40)]
proof fn lemma_value(lane_y: Single, lane_h: Single, hi: Single, lo: Single, y: Single)
    requires
        shelf(lane_y, lane_h),
        single_upto(hi, 155) && single_upto(lo, 155) && y.is_finite(),
        pixel() <= units(hi@) - units(lo@) <= 64 * pixel(),
        0 <= below_top(lane_y, y) <= travel(lane_h),
    ensures
        ({
            let (top, h) = level_band(lane_y, lane_h);
            let f = y.minus(top).over(h).clamp(single(0), single(ONE_PT));
            let v = hi.minus(f.times(hi.minus(lo)));
            &&& v.is_finite()
            &&& 16 * gap_of(
                (units(hi@) - units(v@)) * travel(lane_h),
                below_top(lane_y, y) * (units(hi@) - units(lo@)),
            ) <= pixel() * (units(hi@) - units(lo@))
        }),
{
    let p = pow2(149);
    let (top, h) = level_band(lane_y, lane_h);
    let d = y.minus(top);
    let q = d.over(h);
    let f = q.clamp(single(0), single(ONE_PT));
    let den = hi.minus(lo);
    let g = f.times(den);
    let v = hi.minus(g);
    let (big, kappa, len) = (units(hi@) - units(lo@), below_top(lane_y, y), travel(lane_h));
    lemma_pow2_pos(149);
    lemma2_to64();
    lemma_single_zero();
    lemma_single_one();
    lemma_band(lane_y, lane_h);
    lemma_pow2_adds(6, 149);
    lemma_pow2_adds(7, 149);
    lemma_pow2_adds(8, 149);
    lemma_pow2_adds(9, 149);
    lemma_pow2_adds(10, 149);
    lemma_pow2_adds(11, 149);
    lemma_pow2_unfold(150);
    lemma_pow2_adds(24, 125);
    lemma_pow2_adds(5, 125);
    lemma_pow2_adds(6, 125);
    lemma_pow2_adds(7, 125);
    lemma_pow2_adds(9, 125);
    lemma_pow2_adds(10, 125);
    lemma_pow2_adds(14, 125);
    lemma_pow2_pos(125);
    let z = pow2(125);
    lemma_single_minus_near(y, top, 160);
    let (ud, uh) = (units(d@), units(h@));
    assert(gap_of(ud, kappa) <= 0x8000 * z);
    assert(size(ud) * p <= pow2(150) * size(uh)) by (nonlinear_arith)
        requires
            size(ud) <= 2 * uh,
            pow2(150) == 2 * p,
            uh > 0,
    ;
    lemma_single_over_near(d, h, 150);
    let (uq, uf) = (units(q@), units(f@));
    // the share, against what it should be
    lemma_close_times(ud, kappa, (0x8000 * z) as int, p as int);
    assert(gap_of(uq * uh, kappa * p) <= z * uh + (0x8000 * z) * p);
    assert(gap_of(uf * uh, kappa * p) <= gap_of(uq * uh, kappa * p) + (0x200 * z) * p)
        by (nonlinear_arith)
        requires
            (uf == uq && 0 <= uq <= p) || (uf == 0 && uq < 0) || (uf == p && uq > p),
            0 <= kappa <= uh + 0x200 * z,
            uh > 0,
            p > 0,
            z > 0,
    ;
    // the value, against the share
    lemma_single_minus_near(hi, lo, 155);
    let un = units(den@);
    assert(0 <= uf * un <= pow2(156) * p) by (nonlinear_arith)
        requires
            0 <= uf <= p,
            0 <= un <= pow2(156),
    ;
    lemma_single_times_near(f, den, 156);
    let ug = units(g@);
    lemma_single_minus_near(hi, g, 157);
    let w = units(hi@) - units(v@);
    assert(gap_of(uf * un, uf * big) <= (0x20 * z) * p) by (nonlinear_arith)
        requires
            gap_of(un, big) <= 0x20 * z,
            0 <= uf <= p,
    ;
    lemma_close_times(w, ug, (0x80 * z) as int, p as int);
    assert(gap_of(w * p, uf * big) <= (0x100 * z) * p) by (nonlinear_arith)
        requires
            gap_of(w * p, ug * p) <= (0x80 * z) * p,
            gap_of(ug * p, uf * un) <= (0x40 * z) * p,
            gap_of(uf * un, uf * big) <= (0x20 * z) * p,
            z > 0,
            p > 0,
    ;
    lemma_close_times(w * p, uf * big, ((0x100 * z) * p) as int, uh);
    lemma_close_times(
        uf * uh,
        kappa * p,
        z * uh + (0x8000 * z) * p + (0x200 * z) * p,
        big,
    );
    assert((w * p) * uh == (w * uh) * p && (uf * big) * uh == (uf * uh) * big && (kappa * p) * big
        == (kappa * big) * p) by (nonlinear_arith);
    let t = z * big;
    lemma_slack(z as int, p as int, uh, big);
    assert((0x4_0000 * t) * p + (0x9000 * t) * p == (0x4_9000 * t) * p) by (nonlinear_arith);
    lemma_close_parts(w * uh, kappa * big, 0x4_9000 * t, p as int);
    lemma_value_is_on_the_line(w, uf, big, p as int, z as int);
    assert(gap_of(w * len, w * uh) <= (0x400 * t)) by (nonlinear_arith)
        requires
            gap_of(uh, len) <= 0x200 * z,
            -(2 * big) <= w <= 2 * big,
            t == z * big,
            z > 0,
            big > 0,
    ;
    assert(16 * (0x4_9400 * t) <= p * big) by (nonlinear_arith)
        requires
            p == 0x100_0000 * z,
            t == z * big,
            z > 0,
            big > 0,
    ;
}

/// How far off a value is at most.
proof fn lemma_slack(z: int, p: int, uh: int, big: int)
    requires
        0 <= uh <= 0x400 * p,
        p <= big,
        0 < z,
        0 < p,
    ensures
        ((0x100 * z) * p) * uh <= (0x4_0000 * (z * big)) * p,
        (z * uh + (0x8000 * z) * p + (0x200 * z) * p) * big <= (0x9000 * (z * big)) * p,
{
    let a = z * p;
    let b = z * big;
    assert(a <= b && 0 < a && a * big == b * p && (0x100 * z) * p == 0x100 * a) by (nonlinear_arith)
        requires
            p <= big,
            0 < z,
            0 < p,
            a == z * p,
            b == z * big,
    ;
    assert((0x8000 * z) * p == 0x8000 * a && (0x200 * z) * p == 0x200 * a) by (nonlinear_arith)
        requires
            a == z * p,
    ;
    assert(z * uh <= 0x400 * a) by (nonlinear_arith)
        requires
            uh <= 0x400 * p,
            0 < z,
            a == z * p,
    ;
    assert((0x100 * a) * uh <= (0x100 * a) * (0x400 * p)) by (nonlinear_arith)
        requires
            0 <= uh <= 0x400 * p,
            0 < a,
    ;
    assert((0x100 * a) * (0x400 * p) == (0x4_0000 * a) * p) by (nonlinear_arith);
    assert((0x4_0000 * a) * p <= (0x4_0000 * b) * p) by (nonlinear_arith)
        requires
            a <= b,
            0 < p,
    ;
    let c = z * uh + 0x8200 * a;
    assert(c * big <= (0x9000 * a) * big) by (nonlinear_arith)
        requires
            c <= 0x9000 * a,
            big > 0,
    ;
    assert((0x9000 * a) * big == 0x9000 * (a * big) && (0x9000 * b) * p == 0x9000 * (b * p))
        by (nonlinear_arith);
}

/// A value that is a share of the line lies on it.
proof fn lemma_value_is_on_the_line(w: int, uf: int, big: int, p: int, z: int)
    requires
        gap_of(w * p, uf * big) <= (0x100 * z) * p,
        0 <= uf <= p,
        p <= big,
        0 < 0x100 * z <= p,
    ensures
        -(2 * big) <= w <= 2 * big,
{
    assert(0 <= uf * big <= big * p && (0x100 * z) * p <= big * p) by (nonlinear_arith)
        requires
            0 <= uf <= p,
            0 < 0x100 * z <= p,
            p <= big,
    ;
    assert(-(2 * big) <= w <= 2 * big) by (nonlinear_arith)
        requires
            w * p <= 2 * (big * p),
            w * p >= -(2 * (big * p)),
            p > 0,
    ;
}

/// The ends of the level line, in decibels.
proof fn lemma_gain_ends()
    ensures
        single(MAX_GAIN_DB).is_finite() && units(single(MAX_GAIN_DB)@) == 6 * pixel(),
        single(MIN_GAIN_DB).is_finite() && units(single(MIN_GAIN_DB)@) == -40 * pixel(),
        single_upto(single(MAX_GAIN_DB), 155) && single_upto(single(MIN_GAIN_DB), 155),
{
    lemma2_to64();
    lemma_pow2_pos(149);
    lemma_single_literal(MAX_GAIN_DB, 128, 0xc0_0000);
    lemma_single_negative_literal(MIN_GAIN_DB, 131, 0xa0_0000);
    lemma_pow2_adds(21, 128);
    lemma_pow2_adds(18, 131);
    lemma_pow2_adds(6, 149);
}

/// A level line lies as far down its travel as the level is below the loudest, of the forty-six
/// decibels there are, to within a sixteenth of a point.
pub proof fn lemma_a_level_lies_along_its_lane(lane_y: Single, lane_h: Single, level: Single)
    requires
        shelf(lane_y, lane_h),
        level.is_finite(),
        -40 * pixel() <= units(level@) <= 6 * pixel(),
    ensures
        db_to_y(lane_y, lane_h, level).is_finite(),
        16 * gap_of(
            below_top(lane_y, db_to_y(lane_y, lane_h, level)) * (46 * pixel()),
            travel(lane_h) * (6 * pixel() - units(level@)),
        ) <= pixel() * (46 * pixel()),
{
    reveal(spec_db_to_y);
    lemma_gain_ends();
    lemma_pow2_pos(149);
    let v = level.clamp(single(MIN_GAIN_DB), single(MAX_GAIN_DB));
    lemma_line(lane_y, lane_h, single(MAX_GAIN_DB), single(MIN_GAIN_DB), v);
}

/// A height in a lane means the level whose line lies there.
pub proof fn lemma_a_height_means_a_level(lane_y: Single, lane_h: Single, y: Single)
    requires
        shelf(lane_y, lane_h),
        y.is_finite(),
        0 <= below_top(lane_y, y) <= travel(lane_h),
    ensures
        y_to_db(lane_y, lane_h, y).is_finite(),
        16 * gap_of(
            (6 * pixel() - units(y_to_db(lane_y, lane_h, y)@)) * travel(lane_h),
            below_top(lane_y, y) * (46 * pixel()),
        ) <= pixel() * (46 * pixel()),
{
    reveal(spec_y_to_db);
    lemma_gain_ends();
    lemma_pow2_pos(149);
    lemma_value(lane_y, lane_h, single(MAX_GAIN_DB), single(MIN_GAIN_DB), y);
}

/// An opacity line lies as far down its travel as the opacity is short of all of the picture.
pub proof fn lemma_an_opacity_lies_along_its_lane(lane_y: Single, lane_h: Single, opacity: Single)
    requires
        shelf(lane_y, lane_h),
        opacity.is_finite(),
        0 <= units(opacity@) <= pixel(),
    ensures
        opacity_to_y(lane_y, lane_h, opacity).is_finite(),
        16 * gap_of(
            below_top(lane_y, opacity_to_y(lane_y, lane_h, opacity)) * pixel(),
            travel(lane_h) * (pixel() - units(opacity@)),
        ) <= pixel() * pixel(),
{
    reveal(spec_opacity_to_y);
    lemma_single_zero();
    lemma_single_one();
    lemma_pow2_pos(149);
    lemma2_to64();
    lemma_pow2_adds(6, 149);
    let v = opacity.clamp(single(MIN_OPACITY), single(MAX_OPACITY));
    lemma_line(lane_y, lane_h, single(MAX_OPACITY), single(MIN_OPACITY), v);
}

/// A height in a lane means the opacity whose line lies there.
pub proof fn lemma_a_height_means_an_opacity(lane_y: Single, lane_h: Single, y: Single)
    requires
        shelf(lane_y, lane_h),
        y.is_finite(),
        0 <= below_top(lane_y, y) <= travel(lane_h),
    ensures
        y_to_opacity(lane_y, lane_h, y).is_finite(),
        16 * gap_of(
            (pixel() - units(y_to_opacity(lane_y, lane_h, y)@)) * travel(lane_h),
            below_top(lane_y, y) * pixel(),
        ) <= pixel() * pixel(),
{
    reveal(spec_y_to_opacity);
    lemma_single_zero();
    lemma_single_one();
    lemma_pow2_pos(149);
    lemma2_to64();
    lemma_pow2_adds(6, 149);
    lemma_value(lane_y, lane_h, single(MAX_OPACITY), single(MIN_OPACITY), y);
}

} // verus!
