//! What shows of the pictures of a frame: which part of them, when in their source, and how
//! much of it.

use crate::canvas::Canvas;
use crate::compose::{lane_layer, layers, size_from, Layer, SourceSize, MIN_VISIBLE_ALPHA};
use crate::ieee::facts::{
    lemma_holds_zero, lemma_single_has, lemma_single_literal, lemma_single_one, lemma_single_small,
    lemma_single_times, lemma_single_zero,
};
use crate::ieee::laws::lemma_round_le;
use crate::ieee::model::{single_format, units, Num};
use crate::ieee::near::{
    gap_of, lemma_single_cut, lemma_single_keeps_sign, lemma_single_minus_near,
    lemma_single_over_near, lemma_single_plus_near, lemma_single_times_near, lemma_single_to_whole,
    single_upto, size,
};
use crate::ieee::numbers::lemma_single_bits;
use crate::ieee::{single, Double, Single};
use crate::placing::pixel;
use crate::raster::{
    along, blended, channel_byte, color_laid, coverage, cropped, frame_laid, laid, left, mixed,
    nearest_even, nearest_inside, painted, parts_of, placement, shown, Frame, Plane, Yuv, FULL_BYTE,
    WHOLE_ALPHA,
};
use crate::timeline::{lemma_first_covering, Clip, Lane, SourceId, TrackKind};
use vstd::arithmetic::div_mod::{lemma_fundamental_div_mod, lemma_mod_bound};
use vstd::arithmetic::power2::{
    lemma2_to64, lemma_pow2_adds, lemma_pow2_pos, lemma_pow2_unfold, pow2,
};
use vstd::prelude::*;

verus! {

/// The lesser of two counts.
pub open spec fn lower(a: int, b: int) -> int {
    if a < b {
        a
    } else {
        b
    }
}

/// The greater of two counts.
pub open spec fn upper(a: int, b: int) -> int {
    if a < b {
        b
    } else {
        a
    }
}

/// One axis of what of a layer lies on the canvas.
pub proof fn lemma_visible_axis(x: Single, w: Single, n: u32)
    requires
        single_upto(x, 167),
        single_upto(w, 167),
        1 <= n <= 0x4000,
    ensures
        ({
            let x0 = x.max(single(0));
            let x1 = x.plus(w).min(Single::from_u64(n as u64));
            let end = lower(units(x@) + units(w@), n * pixel());
            &&& x0.is_finite() && x1.is_finite()
            &&& units(x0@) == upper(units(x@), 0)
            &&& 64 * gap_of(units(x1@), end) <= pixel()
            &&& units(x0@) < units(x1@) ==> {
                &&& x1.minus(x0).is_finite()
                &&& 0 <= units(x1.minus(x0)@)
                &&& units(x0@) < 0x4000 * pixel()
                &&& 32 * gap_of(units(x0@) + units(x1.minus(x0)@), end) <= pixel()
            }
        }),
{
    let p = pow2(149);
    let x0 = x.max(single(0));
    let x1 = x.plus(w).min(Single::from_u64(n as u64));
    lemma_single_zero();
    lemma_single_small(n as u64);
    lemma_pow2_pos(149);
    lemma2_to64();
    lemma_pow2_unfold(168);
    lemma_pow2_adds(6, 143);
    lemma_pow2_adds(14, 149);
    lemma_pow2_adds(4, 163);
    lemma_pow2_adds(5, 138);
    lemma_single_plus_near(x, w, 168);
    assert(0 < n * p <= 0x4000 * p) by (nonlinear_arith)
        requires
            1 <= n <= 0x4000,
            p > 0,
    ;
    if units(x0@) < units(x1@) {
        lemma_single_minus_near(x1, x0, 163);
        lemma_single_keeps_sign(x1, x0);
    }
}

/// What shows of a layer is what of it lies on the canvas: it begins where the layer does, or
/// at the edge of the canvas, and ends where the layer does, or at the other edge, to within
/// a thirtieth of a pixel. Where nothing shows, the two have nothing in common.
pub proof fn lemma_what_shows_lies_on_the_canvas(layer: Layer, width: u32, height: u32)
    requires
        1 <= width <= 0x4000,
        1 <= height <= 0x4000,
        single_upto(layer.rect.x, 167),
        single_upto(layer.rect.y, 167),
        single_upto(layer.rect.w, 167),
        single_upto(layer.rect.h, 167),
    ensures
        ({
            let r = layer.rect;
            let left = if units(r.x@) < 0 {
                0
            } else {
                units(r.x@)
            };
            let top = if units(r.y@) < 0 {
                0
            } else {
                units(r.y@)
            };
            let far = units(r.x@) + units(r.w@);
            let low = units(r.y@) + units(r.h@);
            let right = if far < width * pixel() {
                far
            } else {
                width * pixel()
            };
            let bottom = if low < height * pixel() {
                low
            } else {
                height * pixel()
            };
            match layer.visible_rect(width, height) {
                Some(v) => {
                    &&& units(v.x@) == left && units(v.y@) == top
                    &&& 32 * gap_of(units(v.x@) + units(v.w@), right) <= pixel()
                    &&& 32 * gap_of(units(v.y@) + units(v.h@), bottom) <= pixel()
                },
                None => 64 * (right - left) <= pixel() || 64 * (bottom - top) <= pixel(),
            }
        }),
{
    lemma_visible_axis(layer.rect.x, layer.rect.w, width);
    lemma_visible_axis(layer.rect.y, layer.rect.h, height);
}

/// How far along a picture a sample lies: as far as it lies from where the picture begins, in
/// parts of its extent.
pub proof fn lemma_a_sample_lies_along_its_picture(edge: int, origin: Single, extent: Single)
    requires
        0 <= edge <= 0x4000,
        single_upto(origin, 167),
        single_upto(extent, 167),
        pixel() <= units(extent@),
        0 <= edge * pixel() - units(origin@) <= units(extent@),
    ensures
        ({
            let s = along(edge, origin, extent);
            &&& s.is_finite()
            &&& 0 <= units(s@) <= pixel()
            &&& 32 * gap_of(
                units(s@) * units(extent@),
                (edge * pixel() - units(origin@)) * pixel(),
            ) <= pixel() * pixel() + pow2(130) * units(extent@)
        }),
{
    let p = pow2(149);
    let e = Single::from_u64(edge as u64);
    let a = e.minus(origin);
    let x = a.over(extent);
    let s = along(edge, origin, extent);
    lemma_single_zero();
    lemma_single_one();
    lemma_single_small(edge as u64);
    lemma_pow2_pos(149);
    lemma2_to64();
    lemma_pow2_adds(6, 143);
    lemma_pow2_adds(18, 125);
    lemma_pow2_adds(5, 125);
    lemma_pow2_unfold(150);
    lemma_pow2_unfold(168);
    lemma_pow2_pos(125);
    assert(edge * pixel() == edge as nat * p);
    lemma_single_minus_near(e, origin, 168);
    let (ua, w) = (units(a@), units(extent@));
    let d = edge * pixel() - units(origin@);
    assert(size(ua) * p <= (2 * p) * w) by (nonlinear_arith)
        requires
            size(ua) <= 2 * w,
            p > 0,
    ;
    lemma_single_over_near(a, extent, 150);
    let ux = units(x@);
    let us = units(s@);
    let (g, h) = (pow2(143), pow2(125));
    assert(gap_of(ua * p, d * p) <= g * p) by (nonlinear_arith)
        requires
            gap_of(ua, d) <= g,
            p > 0,
    ;
    assert(gap_of(us * w, d * p) <= gap_of(ux * w, d * p)) by (nonlinear_arith)
        requires
            (us == ux && 0 <= ux <= p) || (us == 0 && ux < 0) || (us == p && ux > p),
            0 <= d <= w,
            p > 0,
    ;
    assert(32 * (g * p) <= p * p) by (nonlinear_arith)
        requires
            p == 64 * g,
            p > 0,
    ;
    assert(pow2(130) * w == 32 * (h * w)) by (nonlinear_arith)
        requires
            pow2(130) == 32 * h,
    ;
}

/// Where a placement stands inside its layer, its corners name the part of the picture that
/// lies there.
pub proof fn lemma_a_placement_shows_what_lies_under_it(layer: Layer, width: u32, height: u32)
    requires
        1 <= width <= 0x4000,
        1 <= height <= 0x4000,
        single_upto(layer.rect.x, 167),
        single_upto(layer.rect.y, 167),
        single_upto(layer.rect.w, 167),
        single_upto(layer.rect.h, 167),
        pixel() <= units(layer.rect.w@),
        pixel() <= units(layer.rect.h@),
    ensures
        placement(layer, width, height) matches Some(q) ==> ({
            let r = layer.rect;
            let (rx, ry) = (units(r.x@), units(r.y@));
            let (rw, rh) = (units(r.w@), units(r.h@));
            let p = pixel();
            &&& 0 <= q.x * p - rx <= rw ==> 32 * gap_of(units(q.src.u0@) * rw, (q.x * p - rx) * p)
                <= p * p + pow2(130) * rw
            &&& 0 <= q.y * p - ry <= rh ==> 32 * gap_of(units(q.src.v0@) * rh, (q.y * p - ry) * p)
                <= p * p + pow2(130) * rh
            &&& 0 <= (q.x + q.w) * p - rx <= rw ==> 32 * gap_of(
                units(q.src.u1@) * rw,
                ((q.x + q.w) * p - rx) * p,
            ) <= p * p + pow2(130) * rw
            &&& 0 <= (q.y + q.h) * p - ry <= rh ==> 32 * gap_of(
                units(q.src.v1@) * rh,
                ((q.y + q.h) * p - ry) * p,
            ) <= p * p + pow2(130) * rh
        }),
{
    let r = layer.rect;
    let p = pixel();
    crate::raster::lemma_placement_is_even_and_inside(layer, width, height);
    if let Some(q) = placement(layer, width, height) {
        if 0 <= q.x * p - units(r.x@) <= units(r.w@) {
            lemma_a_sample_lies_along_its_picture(q.x as int, r.x, r.w);
        }
        if 0 <= q.y * p - units(r.y@) <= units(r.h@) {
            lemma_a_sample_lies_along_its_picture(q.y as int, r.y, r.h);
        }
        if 0 <= (q.x + q.w) * p - units(r.x@) <= units(r.w@) {
            lemma_a_sample_lies_along_its_picture(q.x + q.w, r.x, r.w);
        }
        if 0 <= (q.y + q.h) * p - units(r.y@) <= units(r.h@) {
            lemma_a_sample_lies_along_its_picture(q.y + q.h, r.y, r.h);
        }
    }
}

/// The picture of a clip that a frame shows: that of its source, as it stands at that time, as
/// much of it as the clip lets show, and where the clip puts a picture of that size.
pub open spec fn shows(
    l: Layer,
    c: Clip,
    t: Double,
    canvas: Canvas,
    sizes: Seq<SourceSize>,
) -> bool {
    &&& c.contains(t)
    &&& l.source == c.source
    &&& l.alpha == c.alpha(t)
    &&& l.source_time == c.source_time(t)
    &&& exists|j: int, w: u32, h: u32| #[trigger]
        sized(sizes, j, c.source, w, h) && l.rect == canvas.place(
            Single::from_u64(w as u64),
            Single::from_u64(h as u64),
            c.transform,
        )
}

/// Whether the first entry for a source is the `j`-th, and says that its picture is `w` by `h`.
pub open spec fn sized(sizes: Seq<SourceSize>, j: int, source: SourceId, w: u32, h: u32) -> bool {
    &&& 0 <= j < sizes.len()
    &&& sizes[j] == (SourceSize { source, size: Some((w, h)) })
    &&& forall|k: int| 0 <= k < j ==> (#[trigger] sizes[k]).source != source
}

/// A size that is found is that of the first entry for the source.
proof fn lemma_size_is_listed(sizes: Seq<SourceSize>, source: SourceId, from: int) -> (j: int)
    requires
        0 <= from,
        forall|k: int| 0 <= k < from && k < sizes.len() ==> (#[trigger] sizes[k]).source != source,
    ensures
        size_from(sizes, source, from) matches Some((w, h)) ==> sized(sizes, j, source, w, h),
    decreases sizes.len() - from,
{
    if from < sizes.len() && sizes[from].source != source {
        lemma_size_is_listed(sizes, source, from + 1)
    } else {
        from
    }
}

/// What is painted is the clips under the playhead: every layer is a clip of a video lane that
/// covers the time, those of higher lanes above those of lower ones, and every such lane whose
/// clip shows enough and has a picture is there.
pub proof fn lemma_what_is_painted_lies_under_the_playhead(
    tracks: Seq<Lane>,
    t: Double,
    canvas: Canvas,
    sizes: Seq<SourceSize>,
) -> (from: Seq<int>)
    ensures
        ({
            let ls = layers(tracks, t, canvas, sizes);
            &&& from.len() == ls.len()
            &&& forall|a: int, b: int| 0 <= a < b < from.len() ==> from[a] < from[b]
            &&& forall|a: int|
                0 <= a < from.len() ==> {
                    let lane = tracks[#[trigger] from[a]];
                    &&& 0 <= from[a] < tracks.len()
                    &&& lane.kind == TrackKind::Video
                    &&& exists|i: int|
                        0 <= i < lane.clips.len() && #[trigger] shows(
                            ls[a],
                            lane.clips[i],
                            t,
                            canvas,
                            sizes,
                        )
                }
            &&& forall|k: int|
                0 <= k < tracks.len() && #[trigger] painted_at(tracks[k], t, sizes)
                    ==> from.contains(k)
        }),
    decreases tracks.len(),
{
    if tracks.len() == 0 {
        Seq::empty()
    } else {
        let below = tracks.drop_last();
        let lane = tracks.last();
        let n = tracks.len() - 1;
        let under = lemma_what_is_painted_lies_under_the_playhead(below, t, canvas, sizes);
        let ls = layers(tracks, t, canvas, sizes);
        let lower_ls = layers(below, t, canvas, sizes);
        lemma_first_covering(lane.clips, t, 0);
        let from = match lane_layer(lane, t, canvas, sizes) {
            Some(l) => under.push(n),
            None => under,
        };
        assert forall|a: int| 0 <= a < from.len() implies {
            let lane = tracks[#[trigger] from[a]];
            &&& 0 <= from[a] < tracks.len()
            &&& lane.kind == TrackKind::Video
            &&& exists|i: int|
                0 <= i < lane.clips.len() && #[trigger] shows(
                            ls[a],
                            lane.clips[i],
                            t,
                            canvas,
                            sizes,
                        )
        } by {
            if a < under.len() {
                assert(from[a] == under[a]);
                assert(below[under[a]] == tracks[under[a]]);
                assert(ls[a] == lower_ls[a]);
            } else {
                let i = lane.active(t)->0 as int;
                let j = lemma_size_is_listed(sizes, lane.clips[i].source, 0);
                assert(shows(
                            ls[a],
                            lane.clips[i],
                            t,
                            canvas,
                            sizes,
                        ));
            }
        }
        assert forall|k: int|
            0 <= k < tracks.len() && #[trigger] painted_at(tracks[k], t, sizes) implies from.contains(
            k,
        ) by {
            if k < n {
                assert(below[k] == tracks[k]);
                assert(under.contains(k));
                let j = choose|j: int| 0 <= j < under.len() && under[j] == k;
                assert(from[j] == k);
            } else {
                assert(from[under.len() as int] == k);
            }
        }
        from
    }
}

/// Whether a lane has something to paint: it carries video, the first clip that covers the
/// time shows enough, and its source has a picture.
pub open spec fn painted_at(lane: Lane, t: Double, sizes: Seq<SourceSize>) -> bool {
    &&& lane.kind == TrackKind::Video
    &&& exists|i: int| #[trigger]
        first_under(lane.clips, t, i) && !lane.clips[i].alpha(t).lt(single(MIN_VISIBLE_ALPHA))
            && size_from(sizes, lane.clips[i].source, 0) is Some
}

/// Whether a clip is the first of a lane that covers a time.
pub open spec fn first_under(clips: Seq<Clip>, t: Double, i: int) -> bool {
    &&& 0 <= i < clips.len()
    &&& clips[i].contains(t)
    &&& forall|k: int| 0 <= k < i ==> !(#[trigger] clips[k]).contains(t)
}

/// A level that is brought towards another: as far as it should go, to the nearest level.
proof fn lemma_blended_near(d: u8, s: u8, a: int)
    requires
        0 <= a <= 256,
    ensures
        0 <= blended(d, s, a) <= 255,
        -128 <= 256 * blended(d, s, a) - ((256 - a) * d + a * s) <= 128,
{
    crate::raster::lemma_blend_ends(d, s, a);
    assert(d * (256 - a) == (256 - a) * d && s * a == a * s) by (nonlinear_arith);
}

/// Whether a plane is another with a third laid on it at row `dy` and column `dx`: where that
/// one lies, `a` parts in 256 of it and the rest of what was there, to the nearest level; what
/// was there, everywhere else.
pub open spec fn lies_at(dst: &Plane, new: &Plane, src: &Plane, dx: int, dy: int, a: int) -> bool {
    &&& forall|i: int, j: int|
        0 <= i < src.rows && 0 <= j < src.width && #[trigger] new.spans(dy + i, dx + j) ==> {
            let was = dst.at(dy + i, dx + j);
            -128 <= 256 * new.at(dy + i, dx + j) - ((256 - a) * was + a * src.at(i, j)) <= 128
        }
    &&& forall|r: int, c: int| #[trigger]
        new.spans(r, c) && !(dy <= r < dy + src.rows && dx <= c < dx + src.width) ==> new.at(r, c)
            == dst.at(r, c)
}

/// One plane of a picture.
proof fn lemma_a_plane_is_laid(dst: &Plane, new: &Plane, src: &Plane, dx: int, dy: int, a: int)
    requires
        0 <= a <= 256,
        0 <= dx,
        0 <= dy,
        new.same_shape(dst),
        forall|r: int, c: int| #[trigger]
            new.spans(r, c) ==> new.at(r, c) == laid(dst, src, dx, dy, a, r, c),
    ensures
        lies_at(dst, new, src, dx, dy, a),
{
    assert forall|i: int, j: int|
        0 <= i < src.rows && 0 <= j < src.width && #[trigger] new.spans(dy + i, dx + j) implies {
        let was = dst.at(dy + i, dx + j);
        -128 <= 256 * new.at(dy + i, dx + j) - ((256 - a) * was + a * src.at(i, j)) <= 128
    } by {
        lemma_blended_near(dst.at(dy + i, dx + j), src.at(i, j), a);
        assert(new.at(dy + i, dx + j) == laid(dst, src, dx, dy, a, dy + i, dx + j));
    }
}

/// A picture is laid with its corner at the place it is given, at half of that in the planes
/// at half resolution, and leaves the rest alone.
pub proof fn lemma_a_picture_is_laid_at_its_corner(
    dst: &Frame,
    new: &Frame,
    src: &Frame,
    x: u32,
    y: u32,
    a: int,
)
    requires
        0 <= a <= 256,
        new.same_shape(dst),
        frame_laid(dst, new, src, x, y, a),
    ensures
        lies_at(&dst.y, &new.y, &src.y, x as int, y as int, a),
        lies_at(&dst.u, &new.u, &src.u, x as int / 2, y as int / 2, a),
        lies_at(&dst.v, &new.v, &src.v, x as int / 2, y as int / 2, a),
{
    lemma_a_plane_is_laid(&dst.y, &new.y, &src.y, x as int, y as int, a);
    lemma_a_plane_is_laid(&dst.u, &new.u, &src.u, x as int / 2, y as int / 2, a);
    lemma_a_plane_is_laid(&dst.v, &new.v, &src.v, x as int / 2, y as int / 2, a);
}

/// The whole number nearest to a multiple of a share.
proof fn lemma_share_to_whole(share: Single, whole: Single, n: int)
    requires
        share.is_finite(),
        0 <= units(share@) <= pixel(),
        whole.is_finite(),
        0 < n <= 256,
        units(whole@) == n * pixel(),
    ensures
        ({
            let r = share.times(whole).round();
            let k = r.to_i32();
            &&& 0 <= k <= n
            &&& r.is_finite()
            &&& units(r@) == k * pixel()
            &&& 64 * gap_of(k * pixel(), n * units(share@)) <= 33 * pixel()
        }),
{
    let p = pow2(149);
    let u = units(share@);
    let x = share.times(whole);
    let k = x.round().to_i32();
    lemma_pow2_pos(149);
    lemma2_to64();
    lemma_pow2_adds(8, 149);
    lemma_pow2_adds(17, 132);
    lemma_pow2_pos(132);
    assert(0 <= u * (n * p) <= pow2(157) * p) by (nonlinear_arith)
        requires
            0 <= u <= p,
            0 < n <= 256,
            pow2(157) == 256 * p,
            p > 0,
    ;
    lemma_single_times_near(share, whole, 157);
    let e = pow2(132);
    assert(gap_of(units(x@), n * u) <= e) by (nonlinear_arith)
        requires
            -(e * p) <= units(x@) * p - u * (n * p) <= e * p,
            p > 0,
    ;
    assert(0 <= n * u <= n * p) by (nonlinear_arith)
        requires
            0 <= u <= p,
            0 < n,
    ;
    assert(n * p <= 256 * p) by (nonlinear_arith)
        requires
            n <= 256,
            p > 0,
    ;
    lemma_single_to_whole(x);
    assert(64 * gap_of(k * p, n * u) <= 33 * p);
    assert(0 <= k <= n) by (nonlinear_arith)
        requires
            64 * gap_of(k * p, n * u) <= 33 * p,
            0 <= n * u <= n * p,
            p > 0,
    ;
}

/// `256` as a single.
proof fn lemma_whole_alpha()
    ensures
        single(WHOLE_ALPHA).is_finite(),
        units(single(WHOLE_ALPHA)@) == 256 * pixel(),
{
    lemma_single_literal(WHOLE_ALPHA, 134, 0x80_0000);
    lemma_pow2_adds(8, 149);
    lemma_pow2_adds(23, 134);
    lemma2_to64();
}

/// As much of a picture shows as its alpha says: that share of 256 parts, to the nearest part.
/// What is below nothing counts as nothing, and what is above all as all.
pub proof fn lemma_an_alpha_lets_its_share_through(alpha: Single)
    requires
        alpha.is_finite(),
    ensures
        0 <= parts_of(alpha) <= 256,
        0 <= units(alpha@) <= pixel() ==> 64 * gap_of(
            parts_of(alpha) * pixel(),
            256 * units(alpha@),
        ) <= 33 * pixel(),
        units(alpha@) <= 0 ==> parts_of(alpha) == 0,
        units(alpha@) >= pixel() ==> parts_of(alpha) == 256,
{
    let p = pow2(149);
    let a = alpha.clamp(single(0), single(0x3f80_0000));
    lemma_single_zero();
    lemma_single_one();
    lemma_whole_alpha();
    lemma_pow2_pos(149);
    lemma_share_to_whole(a, single(WHOLE_ALPHA), 256);
    let k = parts_of(alpha);
    if units(alpha@) <= 0 {
        assert(k == 0) by (nonlinear_arith)
            requires
                64 * (k * p) <= 33 * p,
                k >= 0,
                p > 0,
        ;
    } else if units(alpha@) >= p {
        assert(k == 256) by (nonlinear_arith)
            requires
                64 * (256 * p - k * p) <= 33 * p,
                k <= 256,
                p > 0,
        ;
    }
}

/// A level that is moved towards another: as far as it should go, to the nearest level.
proof fn lemma_mixed_near(d: u8, s: u8, k: int)
    requires
        0 <= k <= 255,
    ensures
        0 <= mixed(d, s, k) <= 255,
        -127 <= 255 * mixed(d, s, k) - ((255 - k) * d + k * s) <= 127,
{
    crate::raster::lemma_mix_ends(d, s, k);
    assert(d * (255 - k) == (255 - k) * d && s * k == k * s) by (nonlinear_arith);
}

/// How many parts in 255 of a colour show: the share of the coverage that the alpha says, what
/// is less than a part dropped.
proof fn lemma_a_coverage_shows_its_share(n: u64, alpha: Single)
    requires
        n <= 255,
        alpha.is_finite(),
        0 <= units(alpha@) <= pixel(),
    ensures
        0 <= shown(n as int, alpha) <= n,
        64 * (shown(n as int, alpha) * pixel()) <= 64 * (n * units(alpha@)) + pixel(),
        64 * (n * units(alpha@)) <= 64 * (shown(n as int, alpha) * pixel()) + 65 * pixel(),
{
    let p = pow2(149);
    let u = units(alpha@);
    let w = Single::from_u64(n);
    let x = w.times(alpha);
    lemma_single_zero();
    lemma_single_one();
    lemma_single_small(n);
    lemma_pow2_pos(149);
    lemma2_to64();
    lemma_pow2_adds(8, 149);
    lemma_pow2_adds(17, 132);
    lemma_pow2_pos(132);
    crate::ieee::facts::lemma_single_share(n, alpha);
    assert(0 <= (n * p) * u <= pow2(157) * p) by (nonlinear_arith)
        requires
            0 <= u <= p,
            n <= 255,
            pow2(157) == 256 * p,
            p > 0,
    ;
    lemma_single_times_near(w, alpha, 157);
    let e = pow2(132);
    assert(gap_of(units(x@), n * u) <= e) by (nonlinear_arith)
        requires
            -(e * p) <= units(x@) * p - (n * p) * u <= e * p,
            p > 0,
    ;
    assert(0 <= n * u <= n * p) by (nonlinear_arith)
        requires
            0 <= u <= p,
            n >= 0,
    ;
    lemma_nothing_is_taken_back(n, alpha);
    lemma_single_cut(x);
    let k = x.to_i32();
    assert(k <= n) by (nonlinear_arith)
        requires
            k * p <= units(x@),
            units(x@) <= n * p,
            p > 0,
    ;
}

/// Taking a share of a count gives nothing negative, and no more than the count.
proof fn lemma_nothing_is_taken_back(n: u64, alpha: Single)
    requires
        n <= 255,
        alpha.is_finite(),
        0 <= units(alpha@) <= pixel(),
    ensures
        0 <= units(Single::from_u64(n).times(alpha)@) <= n * pixel(),
{
    let p = pow2(149);
    let w = Single::from_u64(n);
    let f = single_format();
    lemma_single_small(n);
    lemma_single_bits();
    lemma_single_has(w);
    lemma_single_times(w, alpha);
    lemma_pow2_pos(149);
    match (w@, alpha@) {
        (Num::Fin { neg: _, mag: a }, Num::Fin { neg, mag: b }) => {
            assert(a * b <= a * p) by (nonlinear_arith)
                requires
                    b <= p,
            ;
            lemma_round_le(f, a * b, p, a);
            if b == 0 {
                assert(a * b == 0) by (nonlinear_arith)
                    requires
                        b == 0,
                ;
                lemma_holds_zero(f);
                lemma_round_le(f, 0, p, 0);
            }
        },
        _ => {},
    }
}

/// Whether a plane is another with a colour painted on it through a mask, at row `dy` and
/// column `dx`: where the mask lies, as many parts in 255 of the colour as that much of the
/// coverage there makes, and the rest of what was there, to the nearest level; what was there,
/// everywhere else.
pub open spec fn tinted(
    dst: &Plane,
    new: &Plane,
    cover: spec_fn(int, int) -> int,
    rows: int,
    width: int,
    dx: int,
    dy: int,
    value: u8,
    alpha: Single,
) -> bool {
    &&& forall|i: int, j: int|
        0 <= i < rows && 0 <= j < width && 0 <= dx + j < dst.width && #[trigger] new.spans(
            dy + i,
            dx + j,
        ) ==> exists|k: int| #[trigger]
            tint(dst.at(dy + i, dx + j), new.at(dy + i, dx + j), value, k) && 64 * (k * pixel())
                <= 64 * (cover(i, j) * units(alpha@)) + pixel() && 64 * (cover(i, j) * units(alpha@))
                <= 64 * (k * pixel()) + 65 * pixel()
    &&& forall|r: int, c: int| #[trigger]
        new.spans(r, c) && !(dy <= r < dy + rows && dx <= c < dx + width) ==> new.at(r, c)
            == dst.at(r, c)
}

/// Whether a level is another with `k` parts in 255 of a third in it.
pub open spec fn tint(was: u8, is: u8, value: u8, k: int) -> bool {
    0 <= k <= 255 && -127 <= 255 * is - ((255 - k) * was + k * value) <= 127
}

/// One plane that a colour is painted on.
proof fn lemma_a_plane_is_tinted(
    dst: &Plane,
    new: &Plane,
    mask: &Plane,
    half: bool,
    x: int,
    y: int,
    value: u8,
    alpha: Single,
)
    requires
        alpha.is_finite(),
        0 <= units(alpha@) <= pixel(),
        0 <= x,
        0 <= y,
        new.same_shape(dst),
        forall|r: int, c: int| #[trigger]
            new.spans(r, c) ==> new.at(r, c) == painted(dst, mask, half, x, y, value, alpha, r, c),
    ensures
        !half ==> tinted(
            dst,
            new,
            |i: int, j: int| mask.at(i, j) as int,
            mask.rows as int,
            mask.width as int,
            x,
            y,
            value,
            alpha,
        ),
        half ==> tinted(
            dst,
            new,
            |i: int, j: int| mean_of_four(mask, i, j),
            mask.rows as int / 2,
            mask.width as int / 2,
            x / 2,
            y / 2,
            value,
            alpha,
        ),
{
    let (dx, dy, rows, width) = if half {
        (x / 2, y / 2, mask.rows as int / 2, mask.width as int / 2)
    } else {
        (x, y, mask.rows as int, mask.width as int)
    };
    assert forall|i: int, j: int|
        0 <= i < rows && 0 <= j < width && 0 <= dx + j < dst.width && #[trigger] new.spans(
            dy + i,
            dx + j,
        ) implies exists|k: int| #[trigger]
        tint(dst.at(dy + i, dx + j), new.at(dy + i, dx + j), value, k) && 64 * (k * pixel()) <= 64
            * (coverage(mask, half, i, j) * units(alpha@)) + pixel() && 64 * (coverage(
            mask,
            half,
            i,
            j,
        ) * units(alpha@)) <= 64 * (k * pixel()) + 65 * pixel() by {
        let n = coverage(mask, half, i, j);
        let k = shown(n, alpha);
        lemma_a_coverage_shows_its_share(n as u64, alpha);
        lemma_mixed_near(dst.at(dy + i, dx + j), value, k);
        assert(tint(dst.at(dy + i, dx + j), new.at(dy + i, dx + j), value, k));
    }
}

/// The mean of the four samples of a mask that one sample at half resolution stands for.
pub open spec fn mean_of_four(mask: &Plane, i: int, j: int) -> int {
    (mask.at(2 * i, 2 * j) + mask.at(2 * i, 2 * j + 1) + mask.at(2 * i + 1, 2 * j) + mask.at(
        2 * i + 1,
        2 * j + 1,
    )) / 4
}

/// A colour is painted through its mask with the mask's corner at the place it is given, and
/// leaves the rest alone. A sample at half resolution takes the mean of the four that it stands
/// for.
pub proof fn lemma_a_colour_is_painted_through_its_mask(
    dst: &Frame,
    new: &Frame,
    mask: &Plane,
    x: u32,
    y: u32,
    color: Yuv,
    alpha: Single,
)
    requires
        alpha.is_finite(),
        0 < units(alpha@) <= pixel(),
        new.same_shape(dst),
        color_laid(dst, new, mask, x, y, color, alpha),
    ensures
        tinted(
            &dst.y,
            &new.y,
            |i: int, j: int| mask.at(i, j) as int,
            mask.rows as int,
            mask.width as int,
            x as int,
            y as int,
            color.y,
            alpha,
        ),
        tinted(
            &dst.u,
            &new.u,
            |i: int, j: int| mean_of_four(mask, i, j),
            mask.rows as int / 2,
            mask.width as int / 2,
            x as int / 2,
            y as int / 2,
            color.u,
            alpha,
        ),
        tinted(
            &dst.v,
            &new.v,
            |i: int, j: int| mean_of_four(mask, i, j),
            mask.rows as int / 2,
            mask.width as int / 2,
            x as int / 2,
            y as int / 2,
            color.v,
            alpha,
        ),
{
    lemma_single_zero();
    lemma_single_one();
    assert(alpha.clamp(single(0), single(0x3f80_0000)) == alpha);
    lemma_a_plane_is_tinted(&dst.y, &new.y, mask, false, x as int, y as int, color.y, alpha);
    lemma_a_plane_is_tinted(&dst.u, &new.u, mask, true, x as int, y as int, color.u, alpha);
    lemma_a_plane_is_tinted(&dst.v, &new.v, mask, true, x as int, y as int, color.v, alpha);
}

/// `255` as a single.
proof fn lemma_full_byte()
    ensures
        single(FULL_BYTE).is_finite(),
        units(single(FULL_BYTE)@) == 255 * pixel(),
{
    lemma_single_literal(FULL_BYTE, 133, 0xff_0000);
    lemma_pow2_adds(16, 133);
    lemma2_to64();
}

/// A channel of a colour is that share of 255, to the nearest level.
pub proof fn lemma_a_channel_is_its_share(v: Single)
    requires
        v.is_finite(),
        0 <= units(v@) <= pixel(),
    ensures
        64 * gap_of(channel_byte(v) * pixel(), 255 * units(v@)) <= 33 * pixel(),
{
    let p = pow2(149);
    let a = v.clamp(single(0), single(0x3f80_0000));
    let x = a.times(single(FULL_BYTE));
    lemma_single_zero();
    lemma_single_one();
    lemma_full_byte();
    lemma_pow2_pos(149);
    lemma_share_to_whole(a, single(FULL_BYTE), 255);
    let k = x.round().to_i32();
    assert(k * p < 0x80_0000 * p && 0 <= k * p) by (nonlinear_arith)
        requires
            0 <= k <= 255,
            p > 0,
    ;
    lemma_single_cut(x.round());
}

/// A part of a picture is copied from the place it is given on: every sample from as far down
/// and as far right of it as it goes to.
pub proof fn lemma_a_part_is_copied_from_its_corner(
    dst: &Plane,
    src: &Plane,
    sx: int,
    sy: int,
    i: int,
    j: int,
)
    requires
        0 <= sx,
        0 <= sy,
        0 <= i < dst.rows,
        0 <= j < dst.width,
    ensures
        sy + i < src.rows && sx + j < src.stride ==> cropped(dst, src, sx, sy, i, j) == src.at(
            sy + i,
            sx + j,
        ),
        sy + i >= src.rows || sx + j >= src.stride ==> cropped(dst, src, sx, sy, i, j) == dst.at(i, j),
{
}

/// One edge of a placement.
proof fn lemma_an_edge_lands(v: Single)
    requires
        v.is_finite(),
        0 <= units(v@) < 0x8000 * pixel(),
    ensures
        0 <= nearest_even(v) <= 0x8000,
        gap_of(nearest_even(v) * pixel(), units(v@)) <= pixel(),
{
    let p = pow2(149);
    let u = units(v@);
    lemma_single_zero();
    lemma_pow2_pos(149);
    lemma_single_bits();
    if let Num::Fin { neg: _, mag } = v@ {
        let q = mag / p;
        lemma_fundamental_div_mod(mag as int, p as int);
        lemma_mod_bound(mag as int, p as int);
        let k = q as int + q as int % 2;
        assert(p * q == q * p) by (nonlinear_arith);
        assert((q + 1) * p == q * p + p) by (nonlinear_arith);
        crate::raster::lemma_an_edge_goes_to_the_nearest_even_sample(v, k);
        let e = nearest_even(v);
        assert(0 <= e <= 0x8000) by (nonlinear_arith)
            requires
                gap_of(e * p, u) <= p,
                0 <= u < 0x8000 * p,
                e % 2 == 0,
                p > 0,
        ;
    }
}

/// A placement covers what shows of its layer: each of its edges lies within a pixel or so of
/// where the layer begins or ends on the canvas, and the far ones no further than the canvas
/// goes.
pub proof fn lemma_a_placement_covers_what_shows(layer: Layer, width: u32, height: u32)
    requires
        2 <= width <= 0x4000,
        2 <= height <= 0x4000,
        width % 2 == 0,
        height % 2 == 0,
        single_upto(layer.rect.x, 167),
        single_upto(layer.rect.y, 167),
        single_upto(layer.rect.w, 167),
        single_upto(layer.rect.h, 167),
    ensures
        layer.visible_rect(width, height) matches Some(v) ==> (placement(layer, width, height)
            matches Some(q) ==> {
            let p = pixel();
            &&& gap_of(q.x * p, units(v.x@)) <= p
            &&& gap_of(q.y * p, units(v.y@)) <= p
            &&& 16 * gap_of((q.x + q.w) * p, units(v.x@) + units(v.w@)) <= 17 * p
            &&& 16 * gap_of((q.y + q.h) * p, units(v.y@) + units(v.h@)) <= 17 * p
        }),
{
    let p = pow2(149);
    lemma_visible_axis(layer.rect.x, layer.rect.w, width);
    lemma_visible_axis(layer.rect.y, layer.rect.h, height);
    if let Some(v) = layer.visible_rect(width, height) {
        if let Some(q) = placement(layer, width, height) {
            lemma_far_edge(v.x, v.w, width);
            lemma_far_edge(v.y, v.h, height);
            lemma_an_edge_lands(v.x);
            lemma_an_edge_lands(v.y);
        }
    }
}

/// Where what shows ends.
proof fn lemma_far_edge(x: Single, w: Single, n: u32)
    requires
        2 <= n <= 0x4000,
        n % 2 == 0,
        x.is_finite(),
        w.is_finite(),
        0 <= units(x@),
        0 <= units(w@),
        32 * (units(x@) + units(w@)) <= 32 * (n * pixel()) + pixel(),
    ensures
        16 * gap_of(nearest_inside(x.plus(w), n) * pixel(), units(x@) + units(w@)) <= 17 * pixel(),
        nearest_inside(x.plus(w), n) <= n,
{
    let p = pow2(149);
    let s = units(x@) + units(w@);
    lemma_pow2_pos(149);
    lemma2_to64();
    lemma_pow2_adds(15, 149);
    lemma_pow2_adds(10, 139);
    lemma_pow2_pos(139);
    assert(n * p <= 0x4000 * p) by (nonlinear_arith)
        requires
            n <= 0x4000,
            p > 0,
    ;
    lemma_single_plus_near(x, w, 164);
    lemma_single_keeps_sign(x, w);
    let y = x.plus(w);
    lemma_an_edge_lands(y);
    let e = nearest_even(y);
    if e > n {
        assert(e * p >= n * p + p) by (nonlinear_arith)
            requires
                e >= n + 1,
                p > 0,
        ;
    }
}

} // verus!
