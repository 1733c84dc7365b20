//! Where a layer lands in the output frame, and the plane arithmetic that puts it
//! there.

use crate::compose::Layer;
use crate::ieee::facts::{
    lemma_single_one, lemma_single_share, lemma_single_twice_rounded_half, lemma_single_zero,
};
use crate::ieee::model::{single_format, Num};
use crate::ieee::{single, Double, Single};
use crate::ui::{Color, Rect};
use vstd::arithmetic::power2::{lemma_pow2_pos, pow2};
use vstd::prelude::*;

verus! {

/// Limited-range black, luma.
pub const BLACK_Y: u8 = 16;

/// Limited-range black, chroma.
pub const BLACK_UV: u8 = 128;

/// One, as a single.
pub const ONE: u32 = 0x3f80_0000;

/// One half, as a single.
pub const HALF: u32 = 0x3f00_0000;

/// `256`, as a single.
pub const WHOLE_ALPHA: u32 = 0x4380_0000;

/// The even number at or below `v`.
pub open spec fn below_even(v: int) -> int {
    v - v % 2
}

/// The even number at or below `v`.
pub fn even(v: u32) -> (r: u32)
    ensures
        r == below_even(v as int),
{
    v - v % 2
}

/// The even number at or below `v`.
pub fn even_down(v: u32) -> (r: u32)
    ensures
        r == below_even(v as int),
{
    v - v % 2
}

/// The even number at or above `v`; the largest even number where there is none.
pub open spec fn above_even(v: int) -> int {
    if v >= u32::MAX {
        u32::MAX - 1
    } else {
        v + v % 2
    }
}

/// The even number at or above `v`; the largest even number where there is none.
pub fn even_up(v: u32) -> (r: u32)
    ensures
        r == above_even(v as int),
{
    if v == u32::MAX {
        u32::MAX - 1
    } else {
        v + v % 2
    }
}

/// Where a whole source lands in the output, in samples.
#[derive(Clone, Copy, Debug, PartialEq, Eq, Structural)]
pub struct FitRect {
    pub x: u32,
    pub y: u32,
    pub w: u32,
    pub h: u32,
}

/// The factor at which a source fits the output, a missing side taken as one.
pub open spec fn fit_scale(src_w: u32, src_h: u32, out_w: u32, out_h: u32) -> Double {
    let sw = if src_w < 1 {
        1u32
    } else {
        src_w
    };
    let sh = if src_h < 1 {
        1u32
    } else {
        src_h
    };
    Double::from_u64(out_w as u64).over(Double::from_u64(sw as u64)).min(
        Double::from_u64(out_h as u64).over(Double::from_u64(sh as u64)),
    )
}

/// A side after scaling: whole samples, at least 2, at most the output's, even.
pub open spec fn fit_side(side: u32, scale: Double, out: u32) -> int {
    let s = Double::from_u64(side as u64).times(scale).round().to_u32();
    below_even(
        if s < 2 {
            2
        } else if s > out {
            out as int
        } else {
            s as int
        },
    )
}

/// A side after scaling: whole samples, at least 2, at most the output's, even.
fn fitted_side(side: u32, scale: Double, out: u32) -> (r: u32)
    requires
        out >= 2,
    ensures
        r == fit_side(side, scale, out),
        r <= out,
{
    let s: u32 = Double::from_u64(side as u64).times(scale).round().to_u32();
    let c: u32 = if s < 2 {
        2
    } else if s > out {
        out
    } else {
        s
    };
    even(c)
}

/// Where a source's picture lands in the output: its shape kept, centred, every
/// number even.
pub fn fit(src_w: u32, src_h: u32, out_w: u32, out_h: u32) -> (r: FitRect)
    requires
        out_w >= 2,
        out_h >= 2,
    ensures
        ({
            let scale = fit_scale(src_w, src_h, out_w, out_h);
            &&& r.w == fit_side(src_w, scale, out_w)
            &&& r.h == fit_side(src_h, scale, out_h)
            &&& r.x == below_even((out_w - r.w) / 2)
            &&& r.y == below_even((out_h - r.h) / 2)
        }),
        r.x + r.w <= out_w,
        r.y + r.h <= out_h,
        -3 <= 2 * r.x + r.w - out_w <= 0,
        -3 <= 2 * r.y + r.h - out_h <= 0,
        r.x % 2 == 0 && r.y % 2 == 0 && r.w % 2 == 0 && r.h % 2 == 0,
{
    let sw: u32 = if src_w < 1 {
        1
    } else {
        src_w
    };
    let sh: u32 = if src_h < 1 {
        1
    } else {
        src_h
    };
    let scale: Double = Double::from_u64(out_w as u64).over(Double::from_u64(sw as u64)).min(
        Double::from_u64(out_h as u64).over(Double::from_u64(sh as u64)),
    );
    let w: u32 = fitted_side(src_w, scale, out_w);
    let h: u32 = fitted_side(src_h, scale, out_h);
    FitRect { x: even((out_w - w) / 2), y: even((out_h - h) / 2), w, h }
}

/// A part of a picture, in fractions of its sides.
#[derive(Clone, Copy, Debug, PartialEq)]
pub struct Part {
    pub u0: Single,
    pub v0: Single,
    pub u1: Single,
    pub v1: Single,
}

/// A layer's landing place in the output, in whole samples, with the part of its
/// picture that fills it.
#[derive(Clone, Copy, Debug, PartialEq)]
pub struct Placement {
    pub x: u32,
    pub y: u32,
    pub w: u32,
    pub h: u32,
    pub src: Part,
}

/// How far along `origin .. origin + extent` the sample `edge` lies, from 0 to 1.
pub open spec fn along(edge: int, origin: Single, extent: Single) -> Single {
    Single::from_u64(edge as u64).minus(origin).over(extent).clamp(single(0), single(ONE))
}

/// How far along `origin .. origin + extent` the sample `edge` lies, from 0 to 1.
fn fraction_along(edge: u32, origin: Single, extent: Single) -> (r: Single)
    ensures
        r == along(edge as int, origin, extent),
{
    proof {
        lemma_single_zero();
        lemma_single_one();
    }
    Single::from_u64(edge as u64).minus(origin).over(extent).clamp(single(0), single(ONE))
}

/// The even sample nearest to an edge at `v`: twice the rounded half of it.
pub open spec fn nearest_even(v: Single) -> int {
    2 * v.times(single(HALF)).round().to_u32()
}

/// The even sample nearest to an edge at `v`, inside an output of `out`.
pub open spec fn nearest_inside(v: Single, out: u32) -> int {
    least(nearest_even(v), below_even(out as int))
}

/// Where a layer lands on the even samples of the output; none where nothing of it
/// survives.
pub open spec fn placement(layer: Layer, out_w: u32, out_h: u32) -> Option<Placement> {
    let l = layer.rect;
    if l.w.le(single(0)) || l.h.le(single(0)) {
        None
    } else {
        match layer.visible_rect(out_w, out_h) {
            None => None,
            Some(v) => {
                let x0 = nearest_even(v.x);
                let y0 = nearest_even(v.y);
                let x1 = nearest_inside(v.x.plus(v.w), out_w);
                let y1 = nearest_inside(v.y.plus(v.h), out_h);
                if x1 <= x0 || y1 <= y0 {
                    None
                } else {
                    Some(
                        Placement {
                            x: x0 as u32,
                            y: y0 as u32,
                            w: (x1 - x0) as u32,
                            h: (y1 - y0) as u32,
                            src: Part {
                                u0: along(x0, l.x, l.w),
                                v0: along(y0, l.y, l.h),
                                u1: along(x1, l.x, l.w),
                                v1: along(y1, l.y, l.h),
                            },
                        },
                    )
                }
            },
        }
    }
}

/// The even sample nearest to an edge at `v`.
fn snapped(v: Single) -> (r: u64)
    ensures
        r == nearest_even(v),
{
    2 * (v.times(single(HALF)).round().to_u32() as u64)
}

/// The even sample nearest to an edge at `v`, inside an output of `out`.
fn snapped_inside(v: Single, out: u32) -> (r: u32)
    ensures
        r == nearest_inside(v, out),
{
    let e: u64 = snapped(v);
    let o: u32 = even_down(out);
    if e < o as u64 {
        e as u32
    } else {
        o
    }
}

/// Snaps a layer onto the even samples of the output; none where nothing of it
/// survives.
pub fn place_even(layer: &Layer, out_w: u32, out_h: u32) -> (r: Option<Placement>)
    ensures
        r == placement(*layer, out_w, out_h),
{
    let l: Rect = layer.rect;
    if l.w.le(single(0)) || l.h.le(single(0)) {
        return None;
    }
    match layer.visible_rect(out_w, out_h) {
        None => None,
        Some(v) => {
            let left: u64 = snapped(v.x);
            let top: u64 = snapped(v.y);
            let x1: u32 = snapped_inside(v.x.plus(v.w), out_w);
            let y1: u32 = snapped_inside(v.y.plus(v.h), out_h);
            if x1 as u64 <= left || y1 as u64 <= top {
                return None;
            }
            let x0: u32 = left as u32;
            let y0: u32 = top as u32;
            Some(
                Placement {
                    x: x0,
                    y: y0,
                    w: x1 - x0,
                    h: y1 - y0,
                    src: Part {
                        u0: fraction_along(x0, l.x, l.w),
                        v0: fraction_along(y0, l.y, l.h),
                        u1: fraction_along(x1, l.x, l.w),
                        v1: fraction_along(y1, l.y, l.h),
                    },
                },
            )
        },
    }
}

/// How far an edge at `mag` units lies from sample `k`, in units.
pub open spec fn reach(mag: nat, k: int) -> int {
    let d = k * pow2(single_format().unit) - mag;
    if d < 0 {
        -d
    } else {
        d
    }
}

/// An edge goes to an even sample, and no even sample is nearer to it.
pub proof fn lemma_an_edge_goes_to_the_nearest_even_sample(v: Single, k: int)
    requires
        single(0).le(v),
        v@ matches Num::Fin { neg: _, mag } && mag < 0x2_0000_0000 * pow2(single_format().unit),
        k % 2 == 0,
    ensures
        nearest_even(v) % 2 == 0,
        v@ matches Num::Fin { neg: _, mag } && reach(mag, nearest_even(v)) <= reach(mag, k),
{
    lemma_single_twice_rounded_half(v);
    let e = nearest_even(v);
    let one = pow2(single_format().unit);
    lemma_pow2_pos(single_format().unit);
    if k > e {
        assert(k * one >= e * one + 2 * one) by (nonlinear_arith)
            requires
                k >= e + 2,
                one > 0,
        ;
    } else if k < e {
        assert(k * one + 2 * one <= e * one) by (nonlinear_arith)
            requires
                k + 2 <= e,
                one > 0,
        ;
    }
}

/// A placement stands on even samples inside the output and covers at least one
/// chroma sample.
pub proof fn lemma_placement_is_even_and_inside(layer: Layer, out_w: u32, out_h: u32)
    ensures
        placement(layer, out_w, out_h) matches Some(p) ==> {
            &&& p.x % 2 == 0 && p.y % 2 == 0 && p.w % 2 == 0 && p.h % 2 == 0
            &&& p.w >= 2 && p.h >= 2
            &&& p.x + p.w <= out_w
            &&& p.y + p.h <= out_h
        },
{
}

/// One plane of samples: `rows` rows of `stride` bytes, of which the first `width`
/// are picture.
pub struct Plane {
    pub width: usize,
    pub rows: usize,
    pub stride: usize,
    pub data: Vec<u8>,
}

/// Where row `r`, column `c` stands in the bytes of a plane.
pub open spec fn offset(stride: int, r: int, c: int) -> int {
    r * stride + c
}

/// Rows do not overlap and do not run past the end.
pub proof fn lemma_offset(stride: int, rows: int, r: int, c: int)
    requires
        0 <= r < rows,
        0 <= c < stride,
    ensures
        0 <= offset(stride, r, c) < rows * stride,
        r * stride <= rows * stride,
        (r + 1) * stride <= rows * stride,
        (r + 1) * stride == r * stride + stride,
{
    assert(0 <= r * stride + c < rows * stride && r * stride <= rows * stride && (r + 1) * stride
        <= rows * stride && (r + 1) * stride == r * stride + stride) by (nonlinear_arith)
        requires
            0 <= r < rows,
            0 <= c < stride,
    ;
}

/// Two places that share an offset are one place.
pub proof fn lemma_offset_injective(stride: int, r: int, c: int, r2: int, c2: int)
    requires
        0 <= c < stride,
        0 <= c2 < stride,
        offset(stride, r, c) == offset(stride, r2, c2),
    ensures
        r == r2,
        c == c2,
{
    assert(r == r2) by (nonlinear_arith)
        requires
            0 <= c < stride,
            0 <= c2 < stride,
            r * stride + c == r2 * stride + c2,
    ;
}

impl Plane {
    /// The bytes match the dimensions.
    pub open spec fn sound(&self) -> bool {
        self.width <= self.stride && self.data.len() == self.rows * self.stride
    }

    /// The sample at row `r`, column `c`.
    pub open spec fn at(&self, r: int, c: int) -> u8 {
        self.data@[offset(self.stride as int, r, c)]
    }

    /// Whether row `r`, column `c` is in the plane, the padding counted in.
    pub open spec fn spans(&self, r: int, c: int) -> bool {
        0 <= r < self.rows && 0 <= c < self.stride
    }

    /// Whether the two have the same dimensions.
    pub open spec fn same_shape(&self, o: &Plane) -> bool {
        self.width == o.width && self.rows == o.rows && self.stride == o.stride
    }

    /// A plane without padding, every sample `value`.
    pub fn flat(width: usize, rows: usize, value: u8) -> (p: Plane)
        requires
            width * rows <= usize::MAX,
        ensures
            p.sound(),
            p.width == width && p.stride == width && p.rows == rows,
            forall|r: int, c: int| #[trigger] p.spans(r, c) ==> p.at(r, c) == value,
    {
        proof {
            assert(rows * width == width * rows) by (nonlinear_arith);
        }
        let mut data: Vec<u8> = Vec::new();
        let n: usize = rows * width;
        let mut i: usize = 0;
        while i < n
            invariant
                i <= n,
                data.len() == i,
                forall|k: int| 0 <= k < i ==> data@[k] == value,
            decreases n - i,
        {
            data.push(value);
            i += 1;
        }
        let p: Plane = Plane { width, rows, stride: width, data };
        proof {
            assert forall|r: int, c: int| #[trigger] p.spans(r, c) implies p.at(r, c) == value by {
                lemma_offset(p.stride as int, p.rows as int, r, c);
            }
        }
        p
    }

    /// Reads the sample at row `r`, column `c`.
    pub fn get(&self, r: usize, c: usize) -> (v: u8)
        requires
            self.sound(),
            self.spans(r as int, c as int),
        ensures
            v == self.at(r as int, c as int),
    {
        proof {
            lemma_offset(self.stride as int, self.rows as int, r as int, c as int);
        }
        self.data[r * self.stride + c]
    }

    /// Writes the sample at row `r`, column `c`.
    pub fn put(&mut self, r: usize, c: usize, v: u8)
        requires
            old(self).sound(),
            old(self).spans(r as int, c as int),
        ensures
            final(self).sound(),
            final(self).same_shape(old(self)),
            forall|i: int, j: int| #[trigger]
                final(self).spans(i, j) ==> final(self).at(i, j) == (if i == r && j == c {
                    v
                } else {
                    old(self).at(i, j)
                }),
    {
        proof {
            lemma_offset(self.stride as int, self.rows as int, r as int, c as int);
        }
        let at: usize = r * self.stride + c;
        self.data.set(at, v);
        proof {
            assert forall|i: int, j: int| #[trigger] self.spans(i, j) implies self.at(i, j) == (
            if i == r && j == c {
                v
            } else {
                old(self).at(i, j)
            }) by {
                lemma_offset(self.stride as int, self.rows as int, i, j);
                if offset(self.stride as int, i, j) == at {
                    lemma_offset_injective(self.stride as int, i, j, r as int, c as int);
                }
            }
        }
    }

    /// Sets every byte.
    pub fn fill(&mut self, value: u8)
        requires
            old(self).sound(),
        ensures
            final(self).sound(),
            final(self).same_shape(old(self)),
            forall|i: int, j: int| #[trigger]
                final(self).spans(i, j) ==> final(self).at(i, j) == value,
    {
        let n: usize = self.data.len();
        let mut i: usize = 0;
        while i < n
            invariant
                i <= n,
                n == self.data.len(),
                self.sound(),
                self.same_shape(old(self)),
                forall|k: int| 0 <= k < i ==> self.data@[k] == value,
            decreases n - i,
        {
            self.data.set(i, value);
            i += 1;
        }
        proof {
            assert forall|i: int, j: int| #[trigger] self.spans(i, j) implies self.at(i, j)
                == value by {
                lemma_offset(self.stride as int, self.rows as int, i, j);
            }
        }
    }
}

/// `d` brought `a` parts in 256 towards `s`, rounded to the nearest level.
pub open spec fn blended(d: u8, s: u8, a: int) -> int {
    (d * (256 - a) + s * a + 128) / 256
}

/// `d` brought `a` parts in 256 towards `s`, rounded to the nearest level.
fn blend(d: u8, s: u8, a: u32) -> (r: u8)
    requires
        a <= 256,
    ensures
        r == blended(d, s, a as int),
{
    let (x, y): (u32, u32) = (d as u32, s as u32);
    proof {
        assert(x * (256 - a) <= 255 * (256 - a) && y * a <= 255 * a && x * (256 - a) >= 0 && y * a
            >= 0) by (nonlinear_arith)
            requires
                x <= 255,
                y <= 255,
                a <= 256,
        ;
    }
    ((x * (256 - a) + y * a + 128) / 256) as u8
}

/// Nothing of the source leaves the level alone, all of it replaces the level, and
/// whatever lies between stays between the two.
pub proof fn lemma_blend_ends(d: u8, s: u8, a: int)
    requires
        0 <= a <= 256,
    ensures
        blended(d, s, 0) == d,
        blended(d, s, 256) == s,
        d <= s ==> d <= blended(d, s, a) <= s,
        s <= d ==> s <= blended(d, s, a) <= d,
{
    let x = d * (256 - a) + s * a;
    if d <= s {
        assert(256 * d <= x <= 256 * s) by (nonlinear_arith)
            requires
                x == d * (256 - a) + s * a,
                d <= s,
                0 <= a <= 256,
        ;
    } else {
        assert(256 * s <= x <= 256 * d) by (nonlinear_arith)
            requires
                x == d * (256 - a) + s * a,
                s <= d,
                0 <= a <= 256,
        ;
    }
}

/// `d` moved `a` parts in 255 of the way to `s`, rounded to the nearest level.
pub open spec fn mixed(d: u8, s: u8, a: int) -> int {
    (d * (255 - a) + s * a + 127) / 255
}

/// `d` moved `a` of the way to `s`, where `a` is `0 ..= 255`. Full coverage reaches
/// `s` exactly.
pub fn mix(d: u8, s: u8, a: i32) -> (r: u8)
    requires
        0 <= a <= 255,
    ensures
        r == mixed(d, s, a as int),
{
    let (x, y, w): (u32, u32, u32) = (d as u32, s as u32, a as u32);
    proof {
        assert(x * (255 - w) <= 255 * (255 - w) && y * w <= 255 * w && x * (255 - w) >= 0 && y * w
            >= 0) by (nonlinear_arith)
            requires
                x <= 255,
                y <= 255,
                w <= 255,
        ;
    }
    ((x * (255 - w) + y * w + 127) / 255) as u8
}

/// No coverage leaves the level alone, full coverage reaches the colour, and whatever
/// lies between stays between the two.
pub proof fn lemma_mix_ends(d: u8, s: u8, a: int)
    requires
        0 <= a <= 255,
    ensures
        mixed(d, s, 0) == d,
        mixed(d, s, 255) == s,
        d <= s ==> d <= mixed(d, s, a) <= s,
        s <= d ==> s <= mixed(d, s, a) <= d,
{
    let x = d * (255 - a) + s * a;
    if d <= s {
        assert(255 * d <= x <= 255 * s) by (nonlinear_arith)
            requires
                x == d * (255 - a) + s * a,
                d <= s,
                0 <= a <= 255,
        ;
    } else {
        assert(255 * s <= x <= 255 * d) by (nonlinear_arith)
            requires
                x == d * (255 - a) + s * a,
                s <= d,
                0 <= a <= 255,
        ;
    }
}

/// A rectangle of samples shared by two planes: `rows x width` samples from
/// `(dy, dx)` of one and `(sy, sx)` of the other.
pub struct Overlap {
    pub dx: usize,
    pub dy: usize,
    pub sx: usize,
    pub sy: usize,
    pub width: usize,
    pub rows: usize,
}

impl Overlap {
    /// Whether row `r`, column `c` of the plane painted on is in it.
    pub open spec fn covers(&self, r: int, c: int) -> bool {
        self.dy <= r < self.dy + self.rows && self.dx <= c < self.dx + self.width
    }

    /// It lies in both planes.
    pub open spec fn lies_in(&self, dst: &Plane, src: &Plane) -> bool {
        &&& self.rows > 0 ==> self.dy + self.rows <= dst.rows && self.sy + self.rows <= src.rows
        &&& self.width > 0 ==> self.dx + self.width <= dst.stride && self.sx + self.width
            <= src.stride
    }
}

/// Whether the sample at `(r, c)` has been reached by a walk that stands before
/// `(row, col)`.
pub open spec fn reached(o: &Overlap, r: int, c: int, row: int, col: int) -> bool {
    o.covers(r, c) && (r < o.dy + row || (r == o.dy + row && c < o.dx + col))
}

/// Brings a rectangle of `dst` `a` parts in 256 towards `src`.
fn blend_overlap(dst: &mut Plane, src: &Plane, o: &Overlap, a: u32)
    requires
        old(dst).sound(),
        src.sound(),
        o.lies_in(old(dst), src),
        a <= 256,
    ensures
        final(dst).sound(),
        final(dst).same_shape(old(dst)),
        forall|r: int, c: int| #[trigger]
            final(dst).spans(r, c) ==> final(dst).at(r, c) == (if o.covers(r, c) {
                blended(
                    old(dst).at(r, c),
                    src.at(r - o.dy + o.sy, c - o.dx + o.sx),
                    a as int,
                ) as u8
            } else {
                old(dst).at(r, c)
            }),
{
    let mut row: usize = 0;
    while row < o.rows
        invariant
            row <= o.rows,
            a <= 256,
            dst.sound(),
            src.sound(),
            dst.same_shape(old(dst)),
            o.lies_in(old(dst), src),
            forall|r: int, c: int| #[trigger]
                dst.spans(r, c) ==> dst.at(r, c) == (if reached(o, r, c, row as int, 0) {
                    blended(
                        old(dst).at(r, c),
                        src.at(r - o.dy + o.sy, c - o.dx + o.sx),
                        a as int,
                    ) as u8
                } else {
                    old(dst).at(r, c)
                }),
        decreases o.rows - row,
    {
        let mut col: usize = 0;
        while col < o.width
            invariant
                row < o.rows,
                col <= o.width,
                a <= 256,
                dst.sound(),
                src.sound(),
                dst.same_shape(old(dst)),
                o.lies_in(old(dst), src),
                forall|r: int, c: int| #[trigger]
                    dst.spans(r, c) ==> dst.at(r, c) == (if reached(o, r, c, row as int, col as int) {
                        blended(
                            old(dst).at(r, c),
                            src.at(r - o.dy + o.sy, c - o.dx + o.sx),
                            a as int,
                        ) as u8
                    } else {
                        old(dst).at(r, c)
                    }),
            decreases o.width - col,
        {
            assert(dst.spans((o.dy + row) as int, (o.dx + col) as int));
            let d: u8 = dst.get(o.dy + row, o.dx + col);
            let s: u8 = src.get(o.sy + row, o.sx + col);
            let ghost before = *dst;
            dst.put(o.dy + row, o.dx + col, blend(d, s, a));
            proof {
                assert forall|r: int, c: int| #[trigger] dst.spans(r, c) implies dst.at(r, c) == (
                if reached(o, r, c, row as int, col + 1) {
                    blended(
                        old(dst).at(r, c),
                        src.at(r - o.dy + o.sy, c - o.dx + o.sx),
                        a as int,
                    ) as u8
                } else {
                    old(dst).at(r, c)
                }) by {
                    assert(before.spans(r, c));
                }
            }
            col += 1;
        }
        row += 1;
    }
}

/// A picture of three planes, the last two at half resolution both ways.
pub struct Frame {
    pub width: u32,
    pub height: u32,
    pub y: Plane,
    pub u: Plane,
    pub v: Plane,
}

impl Frame {
    /// Every plane's bytes match its dimensions.
    pub open spec fn sound(&self) -> bool {
        self.y.sound() && self.u.sound() && self.v.sound()
    }

    /// Whether the two have planes of the same dimensions.
    pub open spec fn same_shape(&self, o: &Frame) -> bool {
        &&& self.width == o.width && self.height == o.height
        &&& self.y.same_shape(&o.y) && self.u.same_shape(&o.u) && self.v.same_shape(&o.v)
    }

    /// A frame of one colour.
    pub fn flat(width: u32, height: u32, y: u8, u: u8, v: u8) -> (f: Frame)
        requires
            width * height <= usize::MAX,
        ensures
            f.sound(),
            f.width == width && f.height == height,
            f.y.width == width && f.y.stride == width && f.y.rows == height,
            f.u.width == (width + 1) / 2 && f.u.stride == f.u.width && f.u.rows == (height + 1) / 2,
            f.v.same_shape(&f.u),
            forall|r: int, c: int| #[trigger] f.y.spans(r, c) ==> f.y.at(r, c) == y,
            forall|r: int, c: int| #[trigger] f.u.spans(r, c) ==> f.u.at(r, c) == u,
            forall|r: int, c: int| #[trigger] f.v.spans(r, c) ==> f.v.at(r, c) == v,
    {
        let cw: usize = width as usize / 2 + width as usize % 2;
        let ch: usize = height as usize / 2 + height as usize % 2;
        proof {
            assert(cw * ch <= width * height) by (nonlinear_arith)
                requires
                    0 <= cw <= width,
                    0 <= ch <= height,
            ;
        }
        Frame {
            width,
            height,
            y: Plane::flat(width as usize, height as usize, y),
            u: Plane::flat(cw, ch, u),
            v: Plane::flat(cw, ch, v),
        }
    }
}

/// Sets a whole frame to black.
pub fn fill_black(f: &mut Frame)
    requires
        old(f).sound(),
    ensures
        final(f).sound(),
        final(f).same_shape(old(f)),
        forall|r: int, c: int| #[trigger]
            final(f).y.spans(r, c) ==> final(f).y.at(r, c) == BLACK_Y,
        forall|r: int, c: int| #[trigger]
            final(f).u.spans(r, c) ==> final(f).u.at(r, c) == BLACK_UV,
        forall|r: int, c: int| #[trigger]
            final(f).v.spans(r, c) ==> final(f).v.at(r, c) == BLACK_UV,
{
    f.y.fill(BLACK_Y);
    f.u.fill(BLACK_UV);
    f.v.fill(BLACK_UV);
}

/// The smaller of two numbers.
pub open spec fn least(a: int, b: int) -> int {
    if a < b {
        a
    } else {
        b
    }
}

/// What of `total` is left from `from` on.
pub open spec fn left(total: int, from: int) -> int {
    if total > from {
        total - from
    } else {
        0
    }
}

/// What of `total` is left from `from` on.
fn remaining(total: usize, from: usize) -> (r: usize)
    ensures
        r == left(total as int, from as int),
{
    if total > from {
        total - from
    } else {
        0
    }
}

/// The smaller of two numbers.
fn smaller(a: usize, b: usize) -> (r: usize)
    ensures
        r == least(a as int, b as int),
{
    if a < b {
        a
    } else {
        b
    }
}

/// The sample at `(r, c)` of a plane after `src` was laid on it at `(dx, dy)`.
pub open spec fn laid(dst: &Plane, src: &Plane, dx: int, dy: int, a: int, r: int, c: int) -> u8 {
    if dy <= r < dy + least(src.rows as int, left(dst.rows as int, dy)) && dx <= c < dx + least(
        src.width as int,
        left(dst.stride as int, dx),
    ) {
        blended(dst.at(r, c), src.at(r - dy, c - dx), a) as u8
    } else {
        dst.at(r, c)
    }
}

/// Lays one plane on another at `(dx, dy)`, trimmed to the samples they share.
fn lay_plane(dst: &mut Plane, src: &Plane, dx: usize, dy: usize, a: u32)
    requires
        old(dst).sound(),
        src.sound(),
        a <= 256,
    ensures
        final(dst).sound(),
        final(dst).same_shape(old(dst)),
        forall|r: int, c: int| #[trigger]
            final(dst).spans(r, c) ==> final(dst).at(r, c) == laid(
                old(dst),
                src,
                dx as int,
                dy as int,
                a as int,
                r,
                c,
            ),
{
    let o: Overlap = Overlap {
        dx,
        dy,
        sx: 0,
        sy: 0,
        width: smaller(src.width, remaining(dst.stride, dx)),
        rows: smaller(src.rows, remaining(dst.rows, dy)),
    };
    blend_overlap(dst, src, &o, a);
}

/// Lays `src` on `dst` at `(x, y)`, plane by plane, `a` parts in 256 of it showing.
fn for_each_plane(dst: &mut Frame, src: &Frame, x: u32, y: u32, a: u32)
    requires
        old(dst).sound(),
        src.sound(),
        a <= 256,
    ensures
        final(dst).sound(),
        final(dst).same_shape(old(dst)),
        frame_laid(old(dst), final(dst), src, x, y, a as int),
{
    lay_plane(&mut dst.y, &src.y, x as usize, y as usize, a);
    lay_plane(&mut dst.u, &src.u, (x / 2) as usize, (y / 2) as usize, a);
    lay_plane(&mut dst.v, &src.v, (x / 2) as usize, (y / 2) as usize, a);
}

/// Every sample of `new` is that of `dst` with `src` laid on it at `(x, y)`: the first
/// plane at the offset, the other two at half of it.
pub open spec fn frame_laid(dst: &Frame, new: &Frame, src: &Frame, x: u32, y: u32, a: int) -> bool {
    &&& forall|r: int, c: int| #[trigger]
        new.y.spans(r, c) ==> new.y.at(r, c) == laid(&dst.y, &src.y, x as int, y as int, a, r, c)
    &&& forall|r: int, c: int| #[trigger]
        new.u.spans(r, c) ==> new.u.at(r, c) == laid(
            &dst.u,
            &src.u,
            x as int / 2,
            y as int / 2,
            a,
            r,
            c,
        )
    &&& forall|r: int, c: int| #[trigger]
        new.v.spans(r, c) ==> new.v.at(r, c) == laid(
            &dst.v,
            &src.v,
            x as int / 2,
            y as int / 2,
            a,
            r,
            c,
        )
}

/// Copies `src` into `dst` at `(x, y)`.
pub fn blit(dst: &mut Frame, src: &Frame, x: u32, y: u32)
    requires
        old(dst).sound(),
        src.sound(),
    ensures
        final(dst).sound(),
        final(dst).same_shape(old(dst)),
        frame_laid(old(dst), final(dst), src, x, y, 256),
{
    for_each_plane(dst, src, x, y, 256);
}

/// How many parts in 256 an alpha lets through.
pub open spec fn parts_of(alpha: Single) -> int {
    alpha.clamp(single(0), single(ONE)).times(single(WHOLE_ALPHA)).round().to_i32() as int
}

/// Every sample of `new` is that of `dst` with as much of `src` at `(x, y)` as `alpha` lets
/// through.
pub open spec fn picture_laid(
    dst: &Frame,
    new: &Frame,
    src: &Frame,
    x: u32,
    y: u32,
    alpha: Single,
) -> bool {
    if parts_of(alpha) <= 0 {
        *new == *dst
    } else {
        frame_laid(dst, new, src, x, y, least(parts_of(alpha), 256))
    }
}

/// Paints `src` onto `dst` at `(x, y)`, letting `alpha` of it through.
pub fn compose(dst: &mut Frame, src: &Frame, x: u32, y: u32, alpha: Single)
    requires
        old(dst).sound(),
        src.sound(),
    ensures
        final(dst).sound(),
        final(dst).same_shape(old(dst)),
        picture_laid(old(dst), final(dst), src, x, y, alpha),
{
    proof {
        lemma_single_zero();
        lemma_single_one();
    }
    let a: i32 = alpha.clamp(single(0), single(ONE)).times(single(WHOLE_ALPHA)).round().to_i32();
    if a >= 256 {
        blit(dst, src, x, y);
        return;
    }
    if a <= 0 {
        return;
    }
    for_each_plane(dst, src, x, y, a as u32);
}

/// The sample at `(r, c)` of the part of `src` from `(sx, sy)` on, copied into `dst`.
pub open spec fn cropped(dst: &Plane, src: &Plane, sx: int, sy: int, r: int, c: int) -> u8 {
    if r < least(dst.rows as int, left(src.rows as int, sy)) && c < least(
        dst.width as int,
        left(src.stride as int, sx),
    ) {
        src.at(r + sy, c + sx)
    } else {
        dst.at(r, c)
    }
}

/// Copies the part of a plane from `(sx, sy)` on that is the size of `dst`.
pub fn crop_gray8(dst: &mut Plane, src: &Plane, x: u32, y: u32)
    requires
        old(dst).sound(),
        src.sound(),
    ensures
        final(dst).sound(),
        final(dst).same_shape(old(dst)),
        forall|r: int, c: int| #[trigger]
            final(dst).spans(r, c) ==> final(dst).at(r, c) == cropped(
                old(dst),
                src,
                x as int,
                y as int,
                r,
                c,
            ),
{
    let o: Overlap = Overlap {
        dx: 0,
        dy: 0,
        sx: x as usize,
        sy: y as usize,
        width: smaller(dst.width, remaining(src.stride, x as usize)),
        rows: smaller(dst.rows, remaining(src.rows, y as usize)),
    };
    blend_overlap(dst, src, &o, 256);
    proof {
        assert forall|r: int, c: int| #[trigger] dst.spans(r, c) implies dst.at(r, c) == cropped(
            old(dst),
            src,
            x as int,
            y as int,
            r,
            c,
        ) by {
            if o.covers(r, c) {
                lemma_blend_ends(old(dst).at(r, c), src.at(r - o.dy + o.sy, c - o.dx + o.sx), 0);
            }
        }
    }
}

/// Copies the part of `src` from `(x, y)` on that is the size of `dst`, the planes at
/// half resolution from half the offset.
pub fn crop_yuv420p(dst: &mut Frame, src: &Frame, x: u32, y: u32)
    requires
        old(dst).sound(),
        src.sound(),
    ensures
        final(dst).sound(),
        final(dst).same_shape(old(dst)),
        forall|r: int, c: int| #[trigger]
            final(dst).y.spans(r, c) ==> final(dst).y.at(r, c) == cropped(
                &old(dst).y,
                &src.y,
                x as int,
                y as int,
                r,
                c,
            ),
        forall|r: int, c: int| #[trigger]
            final(dst).u.spans(r, c) ==> final(dst).u.at(r, c) == cropped(
                &old(dst).u,
                &src.u,
                x as int / 2,
                y as int / 2,
                r,
                c,
            ),
        forall|r: int, c: int| #[trigger]
            final(dst).v.spans(r, c) ==> final(dst).v.at(r, c) == cropped(
                &old(dst).v,
                &src.v,
                x as int / 2,
                y as int / 2,
                r,
                c,
            ),
{
    crop_gray8(&mut dst.y, &src.y, x, y);
    crop_gray8(&mut dst.u, &src.u, x / 2, y / 2);
    crop_gray8(&mut dst.v, &src.v, x / 2, y / 2);
}

/// A colour in the output's planes.
#[derive(Clone, Copy, Debug, PartialEq, Eq, Structural)]
pub struct Yuv {
    pub y: u8,
    pub u: u8,
    pub v: u8,
}

/// How much of the colour a coverage lets through under `alpha`.
pub open spec fn shown(coverage: int, alpha: Single) -> int {
    Single::from_u64(coverage as u64).times(alpha).to_i32() as int
}

/// How much of the colour a coverage lets through under `alpha`.
fn show(coverage: u64, alpha: Single) -> (r: i32)
    requires
        coverage <= 255,
        alpha.is_nan() || (single(0).le(alpha) && alpha.le(single(ONE))),
    ensures
        r == shown(coverage as int, alpha),
        0 <= r <= 255,
{
    proof {
        lemma_single_share(coverage, alpha);
    }
    Single::from_u64(coverage).times(alpha).to_i32()
}

/// The mean coverage of the block of four at `(r, c)`.
pub open spec fn block_mean(mask: &Plane, r: int, c: int) -> int {
    (mask.at(r * 2, c * 2) + mask.at(r * 2, c * 2 + 1) + mask.at(r * 2 + 1, c * 2) + mask.at(
        r * 2 + 1,
        c * 2 + 1,
    )) / 4
}

/// The coverage at `(r, c)` of a plane at full resolution, or at half.
pub open spec fn coverage(mask: &Plane, half: bool, r: int, c: int) -> int {
    if half {
        block_mean(mask, r, c)
    } else {
        mask.at(r, c) as int
    }
}

/// `n`, or half of it for a plane at half resolution.
pub open spec fn scaled(n: int, half: bool) -> int {
    if half {
        n / 2
    } else {
        n
    }
}

/// The sample at `(r, c)` of a plane after `value` was painted through `mask` at
/// `(x, y)`.
pub open spec fn painted(
    dst: &Plane,
    mask: &Plane,
    half: bool,
    x: int,
    y: int,
    value: u8,
    alpha: Single,
    r: int,
    c: int,
) -> u8 {
    let (dx, dy) = (scaled(x, half), scaled(y, half));
    if dy <= r < dy + least(scaled(mask.rows as int, half), left(dst.rows as int, dy)) && dx <= c
        < dx + least(scaled(mask.width as int, half), left(dst.width as int, dx)) {
        mixed(dst.at(r, c), value, shown(coverage(mask, half, r - dy, c - dx), alpha)) as u8
    } else {
        dst.at(r, c)
    }
}

/// The coverage at `(r, c)` of a plane at full resolution, or at half.
fn coverage_at(mask: &Plane, half: bool, r: usize, c: usize) -> (v: u64)
    requires
        mask.sound(),
        half ==> r < mask.rows / 2 && c < mask.width / 2,
        !half ==> r < mask.rows && c < mask.width,
    ensures
        v == coverage(mask, half, r as int, c as int),
        v <= 255,
{
    if half {
        let a: u64 = mask.get(r * 2, c * 2) as u64;
        let b: u64 = mask.get(r * 2, c * 2 + 1) as u64;
        let d: u64 = mask.get(r * 2 + 1, c * 2) as u64;
        let e: u64 = mask.get(r * 2 + 1, c * 2 + 1) as u64;
        (a + b + d + e) / 4
    } else {
        mask.get(r, c) as u64
    }
}

/// Paints one plane through a mask.
fn paint_plane(
    dst: &mut Plane,
    mask: &Plane,
    half: bool,
    x: u32,
    y: u32,
    value: u8,
    alpha: Single,
)
    requires
        old(dst).sound(),
        mask.sound(),
        alpha.is_nan() || (single(0).le(alpha) && alpha.le(single(ONE))),
    ensures
        final(dst).sound(),
        final(dst).same_shape(old(dst)),
        forall|r: int, c: int| #[trigger]
            final(dst).spans(r, c) ==> final(dst).at(r, c) == painted(
                old(dst),
                mask,
                half,
                x as int,
                y as int,
                value,
                alpha,
                r,
                c,
            ),
{
    let (dx, dy, mw, mh): (usize, usize, usize, usize) = if half {
        ((x / 2) as usize, (y / 2) as usize, mask.width / 2, mask.rows / 2)
    } else {
        (x as usize, y as usize, mask.width, mask.rows)
    };
    let o: Overlap = Overlap {
        dx,
        dy,
        sx: 0,
        sy: 0,
        width: smaller(mw, remaining(dst.width, dx)),
        rows: smaller(mh, remaining(dst.rows, dy)),
    };
    let mut row: usize = 0;
    while row < o.rows
        invariant
            row <= o.rows,
            dst.sound(),
            mask.sound(),
            alpha.is_nan() || (single(0).le(alpha) && alpha.le(single(ONE))),
            dst.same_shape(old(dst)),
            dx == scaled(x as int, half) && dy == scaled(y as int, half),
            o.dx == dx && o.dy == dy,
            o.width == least(scaled(mask.width as int, half), left(dst.width as int, dx as int)),
            o.rows == least(scaled(mask.rows as int, half), left(dst.rows as int, dy as int)),
            forall|r: int, c: int| #[trigger]
                dst.spans(r, c) ==> dst.at(r, c) == (if reached(&o, r, c, row as int, 0) {
                    painted(old(dst), mask, half, x as int, y as int, value, alpha, r, c)
                } else {
                    old(dst).at(r, c)
                }),
        decreases o.rows - row,
    {
        let mut col: usize = 0;
        while col < o.width
            invariant
                row < o.rows,
                col <= o.width,
                dst.sound(),
                mask.sound(),
                alpha.is_nan() || (single(0).le(alpha) && alpha.le(single(ONE))),
                dst.same_shape(old(dst)),
                dx == scaled(x as int, half) && dy == scaled(y as int, half),
                o.dx == dx && o.dy == dy,
                o.width == least(
                    scaled(mask.width as int, half),
                    left(dst.width as int, dx as int),
                ),
                o.rows == least(scaled(mask.rows as int, half), left(dst.rows as int, dy as int)),
                forall|r: int, c: int| #[trigger]
                    dst.spans(r, c) ==> dst.at(r, c) == (if reached(&o, r, c, row as int, col as int) {
                        painted(old(dst), mask, half, x as int, y as int, value, alpha, r, c)
                    } else {
                        old(dst).at(r, c)
                    }),
            decreases o.width - col,
        {
            assert(dst.spans((dy + row) as int, (dx + col) as int));
            let d: u8 = dst.get(dy + row, dx + col);
            let cov: u64 = coverage_at(mask, half, row, col);
            let m: u8 = mix(d, value, show(cov, alpha));
            let ghost before = *dst;
            dst.put(dy + row, dx + col, m);
            proof {
                assert forall|r: int, c: int| #[trigger] dst.spans(r, c) implies dst.at(r, c) == (
                if reached(&o, r, c, row as int, col + 1) {
                    painted(old(dst), mask, half, x as int, y as int, value, alpha, r, c)
                } else {
                    old(dst).at(r, c)
                }) by {
                    assert(before.spans(r, c));
                }
            }
            col += 1;
        }
        row += 1;
    }
}

/// Every sample of `new` is that of `dst` with a colour painted on it through `mask` at
/// `(x, y)`, as far as `alpha` allows.
pub open spec fn color_laid(
    dst: &Frame,
    new: &Frame,
    mask: &Plane,
    x: u32,
    y: u32,
    color: Yuv,
    alpha: Single,
) -> bool {
    let a = alpha.clamp(single(0), single(ONE));
    let (px, py) = (x as int, y as int);
    if a.le(single(0)) {
        *new == *dst
    } else {
        &&& forall|r: int, c: int| #[trigger]
            new.y.spans(r, c) ==> new.y.at(r, c) == painted(
                &dst.y,
                mask,
                false,
                px,
                py,
                color.y,
                a,
                r,
                c,
            )
        &&& forall|r: int, c: int| #[trigger]
            new.u.spans(r, c) ==> new.u.at(r, c) == painted(
                &dst.u,
                mask,
                true,
                px,
                py,
                color.u,
                a,
                r,
                c,
            )
        &&& forall|r: int, c: int| #[trigger]
            new.v.spans(r, c) ==> new.v.at(r, c) == painted(
                &dst.v,
                mask,
                true,
                px,
                py,
                color.v,
                a,
                r,
                c,
            )
    }
}

/// Paints a flat colour onto `dst` at `(x, y)`, as much of it at each pixel as `mask`
/// says and `alpha` allows.
pub fn compose_color(dst: &mut Frame, mask: &Plane, x: u32, y: u32, color: Yuv, alpha: Single)
    requires
        old(dst).sound(),
        mask.sound(),
    ensures
        final(dst).sound(),
        final(dst).same_shape(old(dst)),
        color_laid(old(dst), final(dst), mask, x, y, color, alpha),
{
    proof {
        lemma_single_zero();
        lemma_single_one();
    }
    let a: Single = alpha.clamp(single(0), single(ONE));
    if a.le(single(0)) {
        return;
    }
    paint_plane(&mut dst.y, mask, false, x, y, color.y, a);
    paint_plane(&mut dst.u, mask, true, x, y, color.u, a);
    paint_plane(&mut dst.v, mask, true, x, y, color.v, a);
}

/// `255`, as a single.
pub const FULL_BYTE: u32 = 0x437f_0000;

/// A channel of a colour as a byte.
pub open spec fn channel_byte(v: Single) -> u8 {
    v.clamp(single(0), single(ONE)).times(single(FULL_BYTE)).round().to_u8()
}

/// A channel of a colour as a byte.
fn byte_of(v: Single) -> (r: u8)
    ensures
        r == channel_byte(v),
{
    proof {
        lemma_single_zero();
        lemma_single_one();
    }
    v.clamp(single(0), single(ONE)).times(single(FULL_BYTE)).round().to_u8()
}

/// A colour as the bytes of an opaque pixel: red, green, blue, alpha.
pub fn color_bytes(c: Color) -> (r: [u8; 4])
    ensures
        r@ == seq![channel_byte(c.r), channel_byte(c.g), channel_byte(c.b), 255u8],
{
    [byte_of(c.r), byte_of(c.g), byte_of(c.b), 255]
}

/// The rows of a picture without what pads them: the first `row_len` bytes of each.
pub fn packed_rows(data: &Vec<u8>, stride: usize, row_len: usize, rows: usize) -> (r: Vec<u8>)
    requires
        row_len <= stride,
        rows * stride <= data.len(),
    ensures
        r.len() == rows * row_len,
        forall|y: int, x: int|
            0 <= y < rows && 0 <= x < row_len ==> #[trigger] r@[offset(row_len as int, y, x)]
                == data@[offset(stride as int, y, x)],
{
    let mut out: Vec<u8> = Vec::new();
    let mut y: usize = 0;
    while y < rows
        invariant
            y <= rows,
            row_len <= stride,
            rows * stride <= data.len(),
            out.len() == y * row_len,
            forall|j: int, x: int|
                0 <= j < y && 0 <= x < row_len ==> #[trigger] out@[offset(row_len as int, j, x)]
                    == data@[offset(stride as int, j, x)],
        decreases rows - y,
    {
        let ghost before = out@;
        proof {
            assert(y * stride + stride <= rows * stride) by (nonlinear_arith)
                requires
                    y + 1 <= rows,
            ;
        }
        let start: usize = y * stride;
        let mut x: usize = 0;
        while x < row_len
            invariant
                x <= row_len,
                row_len <= stride,
                start == y * stride,
                start + stride <= data.len(),
                before.len() == y * row_len,
                out.len() == before.len() + x,
                forall|k: int| 0 <= k < before.len() ==> out@[k] == before[k],
                forall|k: int|
                    0 <= k < x ==> #[trigger] out@[before.len() + k] == data@[start + k],
            decreases row_len - x,
        {
            out.push(data[start + x]);
            x += 1;
        }
        proof {
            assert((y + 1) * row_len == y * row_len + row_len) by (nonlinear_arith);
            assert forall|j: int, k: int| 0 <= j < y + 1 && 0 <= k < row_len implies #[trigger] out@[offset(
                row_len as int,
                j,
                k,
            )] == data@[offset(stride as int, j, k)] by {
                if j < y {
                    assert(j * row_len + k < y * row_len && j * row_len + k >= 0) by (nonlinear_arith)
                        requires
                            j + 1 <= y,
                            0 <= k < row_len,
                            0 <= j,
                    ;
                    assert(before[offset(row_len as int, j, k)] == data@[offset(
                        stride as int,
                        j,
                        k,
                    )]);
                } else {
                    assert(out@[before.len() + k] == data@[start + k]);
                }
            }
        }
        y += 1;
    }
    out
}

} // verus!
