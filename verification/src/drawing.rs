//! What the columns of a fade and of a waveform look like in their lane.

use crate::ieee::facts::{
    lemma_single_half, lemma_single_literal, lemma_single_one, lemma_single_zero,
};
use crate::ieee::model::units;
use crate::ieee::near::{
    gap_of, lemma_close_parts, lemma_close_times, lemma_half_near, lemma_single_minus_near,
    lemma_single_over_near, lemma_single_plus_near, lemma_single_small_signed,
    lemma_single_times_near, single_upto, size,
};
use crate::ieee::{single, Single};
use crate::lane::{wave_column, wedge_column, Bar};
use crate::placing::{lemma_nonneg_product, pixel};
use crate::scene::Stroke;
use crate::theme::{HALF_PT, LANE_WAVE_REACH, ONE_PT, TWO_PT};
use crate::timeline::FadeSide;
use vstd::arithmetic::power2::{
    lemma2_to64, lemma_pow2_adds, lemma_pow2_pos, lemma_pow2_unfold, pow2,
};
use vstd::prelude::*;

verus! {

/// How far into a fade the middle of a column lies, as a share of the fade.
proof fn lemma_column_along(w: Single, col: int)
    requires
        single_upto(w, 163),
        0 <= col,
        (col + 1) * pixel() <= units(w@),
    ensures
        ({
            let a = Single::from_i64(col as i64).plus(single(HALF_PT)).over(w);
            &&& single_upto(a, 150)
            &&& gap_of(2 * units(a@) * units(w@), ((2 * col + 1) * pixel()) * pixel()) <= 2 * (pow2(
                138,
            ) * pixel()) + 2 * (pow2(125) * units(w@))
        }),
{
    let p = pow2(149);
    let n = Single::from_i64(col as i64);
    let half = single(HALF_PT);
    let m = n.plus(half);
    let uw = units(w@);
    lemma_pow2_pos(149);
    lemma_pow2_pos(148);
    lemma2_to64();
    lemma_pow2_adds(14, 149);
    lemma_pow2_unfold(149);
    lemma_pow2_unfold(150);
    lemma_pow2_adds(10, 138);
    lemma_pow2_pos(138);
    assert(col <= 0x4000 && p <= uw && col * p + p <= uw && 0 <= col * p) by (nonlinear_arith)
        requires
            0 <= col,
            (col + 1) * p <= uw,
            uw <= 0x4000 * p,
            p > 0,
    ;
    lemma_single_small_signed(col as i64);
    lemma_single_half();
    lemma_single_plus_near(n, half, 163);
    let um = units(m@);
    assert(size(um) * p <= pow2(150) * size(uw)) by (nonlinear_arith)
        requires
            size(um) <= 2 * uw,
            pow2(150) == 2 * p,
            uw > 0,
    ;
    lemma_single_over_near(m, w, 150);
    let ua = units(m.over(w)@);
    let (e, z) = (pow2(138), pow2(125));
    let exact = (2 * col + 1) * p;
    assert(exact == 2 * (col * p) + p) by (nonlinear_arith)
        requires
            exact == (2 * col + 1) * p,
    ;
    lemma_close_times(2 * um, exact, 2 * e as int, p as int);
    assert((2 * um) * p == 2 * (um * p) && (2 * e) * p == 2 * (e * p) && 2 * ua * uw == 2 * (ua
        * uw)) by (nonlinear_arith);
}

/// A fade of a clip in its lane, both of ordinary sizes.
pub open spec fn drawn_at(x: Single, w: Single, lane_y: Single, lane_h: Single, col: int) -> bool {
    &&& single_upto(x, 163) && single_upto(w, 163) && single_upto(lane_y, 163)
    &&& single_upto(lane_h, 156) && 0 <= units(lane_h@)
    &&& 0 <= col && (col + 1) * pixel() <= units(w@)
}

/// A fade takes away from the top of a clip, at each column as much of its height as it takes
/// of its level there: a fade in all of it at its start and nothing at its end, a fade out the
/// other way about. What it takes away is marked off below, and each column is drawn a point
/// wide where it stands.
pub proof fn lemma_a_fade_is_drawn_as_it_sounds(
    x: Single,
    w: Single,
    lane_y: Single,
    lane_h: Single,
    side: FadeSide,
    col: int,
)
    requires
        drawn_at(x, w, lane_y, lane_h, col),
    ensures
        wedge_column(x, w, lane_y, lane_h, side, col).len() == 2,
        ({
            let at = wedge_column(x, w, lane_y, lane_h, side, col);
            let (uw, h, p) = (units(w@), units(lane_h@), pixel());
            &&& at[0] matches Stroke::Fill { rect, color: _ } && {
                &&& rect.y == lane_y
                &&& rect.w == single(ONE_PT)
                &&& 64 * gap_of(units(rect.x@), units(x@) + col * p) <= p
                &&& rect.h.is_finite()
                &&& side == FadeSide::In ==> 2 * gap_of(
                    2 * units(rect.h@) * uw,
                    h * (2 * uw - (2 * col + 1) * p),
                ) <= uw * p
                &&& side == FadeSide::Out ==> 2 * gap_of(
                    2 * units(rect.h@) * uw,
                    h * ((2 * col + 1) * p),
                ) <= uw * p
                &&& at[1] matches Stroke::Fill { rect: edge, color: _ } && edge.x == rect.x && edge.y
                    == lane_y.plus(rect.h)
            }
        }),
{
    let p = pow2(149);
    let n = Single::from_i64(col as i64);
    let one = single(ONE_PT);
    let along = n.plus(single(HALF_PT)).over(w);
    let raw = match side {
        FadeSide::In => along,
        FadeSide::Out => one.minus(along),
    };
    let level = raw.clamp(single(0), one);
    let g = one.minus(level);
    let cut = lane_h.times(g);
    let (uw, h) = (units(w@), units(lane_h@));
    lemma_pow2_pos(149);
    lemma2_to64();
    lemma_single_zero();
    lemma_single_one();
    lemma_pow2_adds(14, 149);
    lemma_pow2_adds(15, 149);
    lemma_pow2_adds(7, 149);
    lemma_pow2_adds(8, 149);
    lemma_pow2_unfold(150);
    lemma_pow2_unfold(151);
    lemma_pow2_unfold(126);
    lemma_pow2_adds(24, 125);
    lemma_pow2_adds(13, 125);
    lemma_pow2_adds(6, 125);
    lemma_pow2_adds(14, 125);
    lemma_pow2_pos(125);
    let z = pow2(125);
    assert(col <= 0x4000 && p <= uw && 0 <= col * p <= uw) by (nonlinear_arith)
        requires
            0 <= col,
            (col + 1) * p <= uw,
            uw <= 0x4000 * p,
            p > 0,
    ;
    lemma_single_small_signed(col as i64);
    lemma_single_plus_near(x, n, 164);
    lemma_column_along(w, col);
    let ua = units(along@);
    let c = (2 * col + 1) * p;
    assert(p <= c <= 2 * uw) by (nonlinear_arith)
        requires
            c == (2 * col + 1) * p,
            (col + 1) * p <= uw,
            0 <= col,
            p > 0,
    ;
    // what the level should be, twice over
    let want = match side {
        FadeSide::In => c,
        FadeSide::Out => 2 * uw - c,
    };
    lemma_single_minus_near(one, along, 151);
    let ur = units(raw@);
    let off = 2 * ((0x2000 * z) * p) + 2 * (z * uw);
    assert(gap_of(2 * ua * uw, c * p) <= off);
    assert(gap_of(2 * ur * uw, want * p) <= off + (4 * z) * uw) by (nonlinear_arith)
        requires
            gap_of(2 * ua * uw, c * p) <= off,
            (ur == ua && want == c) || (gap_of(ur, p - ua) <= 2 * z && want == 2 * uw - c),
            uw > 0,
            z > 0,
    ;
    let ul = units(level@);
    lemma_clamping_helps(ur, ul, uw, want, p as int);
    // and what is taken away
    lemma_single_minus_near(one, level, 150);
    let ug = units(g@);
    let rest = 2 * uw - want;
    assert(gap_of(2 * ug * uw, rest * p) <= off + (8 * z) * uw) by (nonlinear_arith)
        requires
            gap_of(2 * ul * uw, want * p) <= off + (4 * z) * uw,
            gap_of(ug, p - ul) <= z,
            rest == 2 * uw - want,
            uw > 0,
            z > 0,
    ;
    crate::ieee::near::lemma_single_keeps_sign(one, level);
    assert(0 <= h * ug <= pow2(157) * p) by (nonlinear_arith)
        requires
            0 <= h <= 0x80 * p,
            0 <= ug <= 2 * p,
            pow2(157) == 0x100 * p,
            p > 0,
    ;
    lemma_pow2_adds(7, 125);
    lemma_single_times_near(lane_h, g, 157);
    let uc = units(cut@);
    lemma_cut_off(uc, ug, h, uw, rest, z as int, p as int);
}

/// What lies between nothing and all is not taken further from it by being kept there.
proof fn lemma_clamping_helps(ur: int, ul: int, uw: int, want: int, p: int)
    requires
        (ul == ur && 0 <= ur <= p) || (ul == 0 && ur < 0) || (ul == p && ur > p),
        0 <= want <= 2 * uw,
        0 < uw,
        0 < p,
    ensures
        gap_of(2 * ul * uw, want * p) <= gap_of(2 * ur * uw, want * p),
{
    assert(0 <= want * p <= 2 * (p * uw)) by (nonlinear_arith)
        requires
            0 <= want <= 2 * uw,
            0 < p,
    ;
    if ur < 0 {
        assert(2 * ur * uw <= 0 && 2 * ul * uw == 0) by (nonlinear_arith)
            requires
                ur < 0,
                ul == 0,
                uw > 0,
        ;
    } else if ur > p {
        assert(2 * ur * uw >= 2 * (p * uw) && 2 * ul * uw == 2 * (p * uw)) by (nonlinear_arith)
            requires
                ur > p,
                ul == p,
                uw > 0,
        ;
    }
}

/// How far off the height of a column is at most.
proof fn lemma_cut_off(uc: int, ug: int, h: int, uw: int, rest: int, z: int, p: int)
    requires
        gap_of(uc * p, h * ug) <= (0x80 * z) * p,
        gap_of(2 * ug * uw, rest * p) <= 2 * ((0x2000 * z) * p) + 2 * (z * uw) + (8 * z) * uw,
        0 <= h <= 0x80 * p,
        p <= uw,
        0 < z,
        p == 0x100_0000 * z,
    ensures
        2 * gap_of(2 * uc * uw, h * rest) <= uw * p,
{
    let k = 2 * uw;
    lemma_close_times(uc * p, h * ug, (0x80 * z) * p, k);
    assert((uc * p) * k == (2 * uc * uw) * p && (h * ug) * k == h * (2 * ug * uw))
        by (nonlinear_arith)
        requires
            k == 2 * uw,
    ;
    let off = 2 * ((0x2000 * z) * p) + 2 * (z * uw) + (8 * z) * uw;
    let m = z * uw;
    assert(z * p <= m && (0x2000 * z) * p == 0x2000 * (z * p) && (8 * z) * uw == 8 * m)
        by (nonlinear_arith)
        requires
            p <= uw,
            0 < z,
            m == z * uw,
    ;
    assert(0 < m) by (nonlinear_arith)
        requires
            0 < z,
            p == 0x100_0000 * z,
            p <= uw,
            m == z * uw,
    ;
    assert(off <= 0x4010 * m);
    assert(gap_of(h * (2 * ug * uw), (h * rest) * p) <= (0x80 * p) * (0x4010 * m))
        by (nonlinear_arith)
        requires
            gap_of(2 * ug * uw, rest * p) <= 0x4010 * m,
            0 <= h <= 0x80 * p,
            0 < m,
            0 < p,
    {
        let a = 2 * ug * uw;
        let b = rest * p;
        assert(h * b == (h * rest) * p) by (nonlinear_arith)
            requires
                b == rest * p,
        ;
        assert(gap_of(h * a, h * b) <= h * (0x4010 * m)) by (nonlinear_arith)
            requires
                gap_of(a, b) <= 0x4010 * m,
                0 <= h,
        ;
        assert(h * (0x4010 * m) <= (0x80 * p) * (0x4010 * m)) by (nonlinear_arith)
            requires
                0 <= h <= 0x80 * p,
                0 < m,
        ;
    }
    assert((0x80 * p) * (0x4010 * m) == (0x20_0800 * m) * p && ((0x80 * z) * p) * k == (0x100 * m)
        * p) by (nonlinear_arith)
        requires
            m == z * uw,
            k == 2 * uw,
    ;
    assert((0x20_0800 * m) * p + (0x100 * m) * p == (0x20_0900 * m) * p) by (nonlinear_arith);
    lemma_close_parts(2 * uc * uw, h * rest, 0x20_0900 * m, p);
    assert(uw * p == 0x100_0000 * m) by (nonlinear_arith)
        requires
            p == 0x100_0000 * z,
            m == z * uw,
    ;
}

/// How far the tallest column reaches, as a share of its lane.
proof fn lemma_reach()
    ensures
        single(LANE_WAVE_REACH).is_finite(),
        0 < units(single(LANE_WAVE_REACH)@) <= pixel(),
        gap_of(20 * units(single(LANE_WAVE_REACH)@), 9 * pixel()) <= 8 * pow2(124),
        single(TWO_PT).is_finite() && units(single(TWO_PT)@) == 2 * pixel(),
{
    lemma2_to64();
    lemma_pow2_pos(124);
    lemma_single_literal(LANE_WAVE_REACH, 124, 0xe6_6666);
    lemma_pow2_adds(25, 124);
    lemma_single_literal(TWO_PT, 127, 0x80_0000);
    lemma_pow2_adds(23, 127);
    lemma_pow2_unfold(150);
}

/// A column of a waveform stands on the middle of its lane, as far above it as below, a point
/// wide at its place, and is as high as its peak is loud: nine tenths of the lane for one that
/// is all the way up.
pub proof fn lemma_a_peak_is_drawn_as_high_as_it_is_loud(b: Bar, peak: Single, col: int)
    requires
        single_upto(b.x, 163) && single_upto(b.lane_y, 163),
        single_upto(b.lane_h, 156) && 16 * pixel() <= units(b.lane_h@),
        peak.is_finite() && 0 <= units(peak@) <= pixel(),
        0 <= col <= 0x4000,
    ensures
        wave_column(b, peak, col) matches Stroke::Fill { rect, color: _ } && {
            let p = pixel();
            &&& rect.w == single(ONE_PT)
            &&& 64 * gap_of(units(rect.x@), units(b.x@) + col * p) <= p
            &&& rect.y.is_finite() && rect.h.is_finite()
            &&& 16 * gap_of(
                2 * units(rect.y@) + units(rect.h@),
                2 * units(b.lane_y@) + units(b.lane_h@),
            ) <= p
            &&& 12 * (p * p) <= 10 * (units(b.lane_h@) * units(peak@)) ==> 4 * gap_of(
                10 * (units(rect.h@) * p),
                9 * (units(b.lane_h@) * units(peak@)),
            ) <= p * p
        },
{
    let p = pow2(149);
    let h = units(b.lane_h@);
    let up = units(peak@);
    let hl = b.lane_h.times(single(HALF_PT));
    let mid = b.lane_y.plus(hl);
    let tall = b.lane_h.times(single(LANE_WAVE_REACH));
    let most = tall.max(single(ONE_PT));
    let loud = peak.times(most);
    let half = loud.max(single(HALF_PT));
    let y = mid.minus(half);
    let full = half.times(single(TWO_PT));
    let n = Single::from_i64(col as i64);
    lemma_pow2_pos(149);
    lemma_pow2_pos(124);
    lemma2_to64();
    lemma_single_one();
    lemma_single_half();
    lemma_reach();
    lemma_pow2_unfold(149);
    lemma_pow2_adds(14, 149);
    lemma_pow2_adds(15, 149);
    lemma_pow2_adds(16, 149);
    lemma_pow2_adds(7, 149);
    lemma_pow2_adds(8, 149);
    lemma_pow2_adds(25, 124);
    lemma_pow2_adds(7, 124);
    lemma_pow2_adds(8, 124);
    lemma_pow2_adds(15, 124);
    lemma_pow2_adds(16, 124);
    let z = pow2(124);
    assert(0 <= col * p <= 0x4000 * p) by (nonlinear_arith)
        requires
            0 <= col <= 0x4000,
            p > 0,
    ;
    lemma_single_small_signed(col as i64);
    lemma_single_plus_near(b.x, n, 164);
    // the middle
    lemma_half_near(b.lane_h, 156);
    lemma_single_plus_near(b.lane_y, hl, 164);
    // how far it reaches
    let ur = units(single(LANE_WAVE_REACH)@);
    assert(0 <= h * ur <= pow2(156) * p) by (nonlinear_arith)
        requires
            0 <= h <= pow2(156),
            0 < ur <= p,
    ;
    lemma_single_times_near(b.lane_h, single(LANE_WAVE_REACH), 156);
    let ut = units(tall@);
    let um = units(most@);
    lemma_tall(ut, h, ur, z as int, p as int);
    assert(um == ut);
    // how much of that is heard
    assert(0 <= up * um <= pow2(156) * p) by (nonlinear_arith)
        requires
            0 <= up <= p,
            0 <= um <= pow2(156),
    ;
    lemma_single_times_near(peak, most, 156);
    lemma_nonneg_product(peak, most);
    let ul = units(loud@);
    let uh = units(half@);
    assert(0 <= uh * (2 * p) <= pow2(157) * p) by (nonlinear_arith)
        requires
            0 <= uh <= pow2(156),
            pow2(157) == 2 * pow2(156),
            p > 0,
    ;
    lemma_single_times_near(half, single(TWO_PT), 157);
    let uf = units(full@);
    assert(gap_of(uf, 2 * uh) <= 0x100 * z) by (nonlinear_arith)
        requires
            gap_of(uf * p, uh * (2 * p)) <= (0x100 * z) * p,
            p > 0,
    ;
    lemma_single_minus_near(mid, half, 165);
    // the height
    let hp = h * up;
    lemma_loud(ul, um, up, h, z as int, p as int);
    if 12 * (p * p) <= 10 * hp {
        assert(2 * ul >= p) by (nonlinear_arith)
            requires
                gap_of((20 * ul) * p, 9 * hp) <= (0x4000 * z) * p,
                12 * (p * p) <= 10 * hp,
                p == 0x200_0000 * z,
                z > 0,
        ;
        assert(uh == ul);
        let k = 10 * (uf * p);
        assert(gap_of(k, (20 * ul) * p) <= (0xa00 * z) * p) by (nonlinear_arith)
            requires
                gap_of(uf, 2 * ul) <= 0x100 * z,
                k == 10 * (uf * p),
                p > 0,
        ;
        assert(4 * ((0xa00 * z) * p + (0x4000 * z) * p) <= p * p) by (nonlinear_arith)
            requires
                p == 0x200_0000 * z,
                z > 0,
        ;
    }
}

/// How far a column of a lane reaches.
proof fn lemma_tall(ut: int, h: int, ur: int, z: int, p: int)
    requires
        gap_of(ut * p, h * ur) <= (0x80 * z) * p,
        gap_of(20 * ur, 9 * p) <= 8 * z,
        0 <= h <= 0x80 * p,
        0 < z,
        0 < p,
    ensures
        gap_of(20 * ut, 9 * h) <= 0x1000 * z,
{
    let a = h * ur;
    assert(gap_of(20 * a, (9 * h) * p) <= (8 * z) * (0x80 * p)) by (nonlinear_arith)
        requires
            gap_of(20 * ur, 9 * p) <= 8 * z,
            0 <= h <= 0x80 * p,
            a == h * ur,
            0 < z,
    ;
    assert((20 * ut) * p == 20 * (ut * p) && (8 * z) * (0x80 * p) == 0x400 * (z * p) && (0x80 * z)
        * p == 0x80 * (z * p) && (0x1000 * z) * p == 0x1000 * (z * p) && 0 < z * p)
        by (nonlinear_arith)
        requires
            0 < z,
            0 < p,
    ;
    lemma_close_parts(20 * ut, 9 * h, 0x1000 * z, p);
}

/// How high a peak comes out.
proof fn lemma_loud(ul: int, um: int, up: int, h: int, z: int, p: int)
    requires
        gap_of(ul * p, up * um) <= (0x80 * z) * p,
        gap_of(20 * um, 9 * h) <= 0x1000 * z,
        0 <= up <= p,
        0 < z,
        0 < p,
    ensures
        gap_of((20 * ul) * p, 9 * (h * up)) <= (0x4000 * z) * p,
{
    let a = up * um;
    assert(gap_of(20 * a, 9 * (h * up)) <= (0x1000 * z) * p) by (nonlinear_arith)
        requires
            gap_of(20 * um, 9 * h) <= 0x1000 * z,
            0 <= up <= p,
            a == up * um,
            0 < z,
    ;
    assert((20 * ul) * p == 20 * (ul * p) && (0x80 * z) * p == 0x80 * (z * p) && (0x1000 * z) * p
        == 0x1000 * (z * p) && (0x4000 * z) * p == 0x4000 * (z * p) && 0 < z * p)
        by (nonlinear_arith)
        requires
            0 < z,
            0 < p,
    ;
}

} // verus!
