//! Where the ink of a title goes.

use crate::ieee::facts::{
    lemma_single_one, lemma_single_small, lemma_single_weights, lemma_single_zero,
};
use crate::ieee::model::{single_format, units};
use crate::ieee::near::{
    gap_of, lemma_half_near, lemma_single_minus_near, lemma_single_plus_near,
    lemma_single_small_signed, lemma_single_times_near, lemma_single_to_whole, single_upto, within,
};
use crate::ieee::numbers::lemma_single_bits;
use crate::ieee::{single, Single};
use crate::placing::pixel;
use crate::timeline::UNITY;
use crate::title::{
    first_baseline, line_height, line_start, line_width, with_glyph, with_line, with_lines, Glyph,
    LINE_GAP,
};
use vstd::arithmetic::div_mod::lemma_fundamental_div_mod_converse;
use vstd::arithmetic::power2::{
    lemma2_to64, lemma_pow2_adds, lemma_pow2_pos, lemma_pow2_unfold, pow2,
};
use vstd::prelude::*;

verus! {

/// Where the pen stands before glyph `j` of a line that was begun at `start`.
pub open spec fn pen_at(start: Single, glyphs: Seq<Glyph>, j: int) -> Single
    decreases j,
{
    if j <= 0 {
        start
    } else {
        pen_at(start, glyphs, j - 1).plus(glyphs[j - 1].advance)
    }
}

/// The baseline of line `i` of a block whose first line stands on `first`.
pub open spec fn baseline_at(first: Single, line_h: Single, i: int) -> Single
    decreases i,
{
    if i <= 0 {
        first
    } else {
        baseline_at(first, line_h, i - 1).plus(line_h)
    }
}

/// The column that a glyph's box begins in, for a pen.
pub open spec fn left_of(g: Glyph, pen: Single) -> int {
    pen.plus(Single::from_i64(g.xmin as i64)).round().to_i32() as int
}

/// The row that a glyph's box begins in, for a baseline.
pub open spec fn top_of(g: Glyph, baseline: Single) -> int {
    baseline.minus(Single::from_i64((g.ymin + g.height) as i64)).round().to_i32() as int
}

/// The ink that a glyph puts on pixel `k` of a mask of some width, its box beginning at
/// column `x` and row `y`; none outside its box.
pub open spec fn ink(g: Glyph, x: int, y: int, width: int, k: int) -> u8 {
    let (r, c) = (k / width, k % width);
    if y <= r < y + g.height && x <= c < x + g.width {
        g.bitmap@[(r - y) * g.width + (c - x)]
    } else {
        0
    }
}

/// A pen moved on is a pen begun later.
proof fn lemma_pen_shift(start: Single, glyphs: Seq<Glyph>, j: int)
    requires
        0 <= j < glyphs.len(),
    ensures
        pen_at(start.plus(glyphs[0].advance), glyphs.skip(1), j) == pen_at(start, glyphs, j + 1),
    decreases j,
{
    if j > 0 {
        lemma_pen_shift(start, glyphs, j - 1);
        assert(glyphs.skip(1)[j - 1] == glyphs[j]);
    } else {
        reveal_with_fuel(pen_at, 2);
    }
}

/// A baseline moved on is a block begun later.
proof fn lemma_baseline_shift(first: Single, line_h: Single, i: int)
    requires
        0 <= i,
    ensures
        baseline_at(first.plus(line_h), line_h, i) == baseline_at(first, line_h, i + 1),
    decreases i,
{
    if i > 0 {
        lemma_baseline_shift(first, line_h, i - 1);
    } else {
        reveal_with_fuel(baseline_at, 2);
    }
}

/// The ink of glyph `j` of a line.
pub open spec fn line_ink(
    glyphs: Seq<Glyph>,
    j: int,
    start: Single,
    baseline: Single,
    width: int,
    k: int,
) -> u8 {
    ink(
        glyphs[j],
        left_of(glyphs[j], pen_at(start, glyphs, j)),
        top_of(glyphs[j], baseline),
        width,
        k,
    )
}

/// A line inks a pixel as its strongest glyph there does.
proof fn lemma_line_ink(
    cover: Seq<u8>,
    width: int,
    glyphs: Seq<Glyph>,
    start: Single,
    baseline: Single,
    k: int,
)
    requires
        0 <= k < cover.len(),
    ensures
        ({
            let out = with_line(cover, width, glyphs, start, baseline);
            &&& out.len() == cover.len()
            &&& cover[k] <= out[k]
            &&& forall|j: int|
                0 <= j < glyphs.len() ==> #[trigger] line_ink(glyphs, j, start, baseline, width, k)
                    <= out[k]
            &&& out[k] == cover[k] || exists|j: int|
                0 <= j < glyphs.len() && out[k] == #[trigger] line_ink(
                    glyphs,
                    j,
                    start,
                    baseline,
                    width,
                    k,
                )
        }),
    decreases glyphs.len(),
{
    if glyphs.len() > 0 {
        let g = glyphs[0];
        let mid = with_glyph(cover, width, g, start, baseline);
        let rest = glyphs.skip(1);
        let next = start.plus(g.advance);
        let out = with_line(cover, width, glyphs, start, baseline);
        assert(mid.len() == cover.len());
        assert(pen_at(start, glyphs, 0) == start);
        let first = line_ink(glyphs, 0, start, baseline, width, k);
        assert(cover[k] <= mid[k] && first <= mid[k] && (mid[k] == cover[k] || mid[k] == first));
        lemma_line_ink(mid, width, rest, next, baseline, k);
        assert forall|j: int| 0 < j < glyphs.len() implies #[trigger] line_ink(
            glyphs,
            j,
            start,
            baseline,
            width,
            k,
        ) == line_ink(rest, j - 1, next, baseline, width, k) by {
            lemma_pen_shift(start, glyphs, j - 1);
            assert(rest[j - 1] == glyphs[j]);
        }
        assert forall|j: int| 0 <= j < glyphs.len() implies #[trigger] line_ink(
            glyphs,
            j,
            start,
            baseline,
            width,
            k,
        ) <= out[k] by {
            if j > 0 {
                assert(line_ink(rest, j - 1, next, baseline, width, k) <= out[k]);
            }
        }
        if out[k] != cover[k] {
            if out[k] == mid[k] {
                assert(out[k] == line_ink(glyphs, 0, start, baseline, width, k));
            } else {
                let j = choose|j: int|
                    0 <= j < rest.len() && out[k] == #[trigger] line_ink(
                        rest,
                        j,
                        next,
                        baseline,
                        width,
                        k,
                    );
                assert(out[k] == line_ink(glyphs, j + 1, start, baseline, width, k));
            }
        }
    }
}

/// The ink of glyph `j` of line `i` of a title: the line begun so that it stands in the
/// middle, on its own baseline.
pub open spec fn title_ink(
    lines: Seq<Vec<Glyph>>,
    i: int,
    j: int,
    first: Single,
    line_h: Single,
    width: u32,
    k: int,
) -> u8 {
    line_ink(
        lines[i]@,
        j,
        line_start(width, lines[i]@),
        baseline_at(first, line_h, i),
        width as int,
        k,
    )
}

/// A title inks every pixel as strongly as the strongest of its glyphs there, each in its
/// place: line after line, glyph after glyph.
pub proof fn lemma_a_title_is_the_ink_of_its_glyphs(
    cover: Seq<u8>,
    width: u32,
    lines: Seq<Vec<Glyph>>,
    first: Single,
    line_h: Single,
    k: int,
)
    requires
        0 <= k < cover.len(),
    ensures
        ({
            let out = with_lines(cover, width, lines, first, line_h);
            &&& out.len() == cover.len()
            &&& cover[k] <= out[k]
            &&& forall|i: int, j: int|
                0 <= i < lines.len() && 0 <= j < lines[i]@.len() ==> #[trigger] title_ink(
                    lines,
                    i,
                    j,
                    first,
                    line_h,
                    width,
                    k,
                ) <= out[k]
            &&& out[k] == cover[k] || exists|i: int, j: int|
                0 <= i < lines.len() && 0 <= j < lines[i]@.len() && out[k] == #[trigger] title_ink(
                    lines,
                    i,
                    j,
                    first,
                    line_h,
                    width,
                    k,
                )
        }),
    decreases lines.len(),
{
    if lines.len() > 0 {
        let start = line_start(width, lines[0]@);
        let mid = with_line(cover, width as int, lines[0]@, start, first);
        let rest = lines.skip(1);
        let next = first.plus(line_h);
        let out = with_lines(cover, width, lines, first, line_h);
        lemma_line_ink(cover, width as int, lines[0]@, start, first, k);
        lemma_a_title_is_the_ink_of_its_glyphs(mid, width, rest, next, line_h, k);
        assert(baseline_at(first, line_h, 0) == first);
        assert forall|i: int, j: int| 0 < i < lines.len() implies #[trigger] title_ink(
            lines,
            i,
            j,
            first,
            line_h,
            width,
            k,
        ) == title_ink(rest, i - 1, j, next, line_h, width, k) by {
            lemma_baseline_shift(first, line_h, i - 1);
            assert(rest[i - 1] == lines[i]);
        }
        assert forall|i: int, j: int|
            0 <= i < lines.len() && 0 <= j < lines[i]@.len() implies #[trigger] title_ink(
            lines,
            i,
            j,
            first,
            line_h,
            width,
            k,
        ) <= out[k] by {
            if i > 0 {
                assert(rest[i - 1] == lines[i]);
                assert(title_ink(rest, i - 1, j, next, line_h, width, k) <= out[k]);
            } else {
                assert(line_ink(lines[0]@, j, start, first, width as int, k) <= mid[k]);
            }
        }
        if out[k] != cover[k] {
            if out[k] == mid[k] {
                let j = choose|j: int|
                    0 <= j < lines[0]@.len() && mid[k] == #[trigger] line_ink(
                        lines[0]@,
                        j,
                        start,
                        first,
                        width as int,
                        k,
                    );
                assert(out[k] == title_ink(lines, 0, j, first, line_h, width, k));
            } else {
                let (i, j) = choose|i: int, j: int|
                    0 <= i < rest.len() && 0 <= j < rest[i]@.len() && out[k] == #[trigger] title_ink(
                        rest,
                        i,
                        j,
                        next,
                        line_h,
                        width,
                        k,
                    );
                assert(rest[i] == lines[i + 1]);
                assert(out[k] == title_ink(lines, i + 1, j, first, line_h, width, k));
            }
        }
    }
}

/// Lines are set downwards: each a line height below the one before, to within a thousandth of
/// a pixel a line. So where a line is at least a pixel high, a later line stands lower.
pub proof fn lemma_lines_are_set_downwards(first: Single, line_h: Single, i: int)
    requires
        single_upto(first, 162),
        line_h.is_finite(),
        0 <= i <= 0x4000,
        -pow2(162) <= i * units(line_h@) <= pow2(162),
    ensures
        baseline_at(first, line_h, i).is_finite(),
        1024 * gap_of(units(baseline_at(first, line_h, i)@), units(first@) + i * units(line_h@))
            <= i * pixel(),
        0 < i && pixel() <= units(line_h@) ==> units(baseline_at(first, line_h, i - 1)@) < units(
            baseline_at(first, line_h, i)@,
        ),
    decreases i,
{
    if i > 0 {
        let h = units(line_h@);
        let before = baseline_at(first, line_h, i - 1);
        assert(-pow2(162) <= (i - 1) * h <= pow2(162)) by (nonlinear_arith)
            requires
                -pow2(162) <= i * h <= pow2(162),
                0 < i,
        ;
        assert(-pow2(162) <= h <= pow2(162)) by (nonlinear_arith)
            requires
                -pow2(162) <= i * h <= pow2(162),
                0 < i,
        ;
        lemma_lines_are_set_downwards(first, line_h, i - 1);
        assert((i - 1) * h + h == i * h) by (nonlinear_arith);
        let p = pixel();
        assert((i - 1) * p + p == i * p && 0 <= i * p <= 0x4000 * p) by (nonlinear_arith)
            requires
                0 <= i <= 0x4000,
                p >= 0,
        ;
        lemma_pow2_pos(149);
        lemma2_to64();
        lemma_pow2_adds(13, 149);
        lemma_pow2_adds(10, 139);
        lemma_pow2_unfold(163);
        lemma_pow2_unfold(164);
        lemma_single_plus_near(before, line_h, 164);
    } else {
        assert(i * units(line_h@) == 0 && i * pixel() == 0) by (nonlinear_arith)
            requires
                i == 0,
        ;
    }
}

/// A line is as high as ascent and descent and fifteen parts in a hundred more, to within a
/// three-hundredth of a pixel.
pub proof fn lemma_a_line_leaves_a_gap(ascent: Single, descent: Single)
    requires
        single_upto(ascent, 161),
        single_upto(descent, 161),
    ensures
        single_upto(line_height(ascent, descent), 163),
        16 * gap_of(
            20 * units(line_height(ascent, descent)@),
            23 * (units(ascent@) - units(descent@)),
        ) <= pixel(),
{
    let p = pow2(149);
    let d = ascent.minus(descent);
    let k = single(UNITY).plus(single(LINE_GAP));
    lemma2_to64();
    lemma_pow2_pos(149);
    lemma_pow2_unfold(162);
    lemma_pow2_unfold(163);
    lemma_single_minus_near(ascent, descent, 162);
    lemma_spread();
    let (ud, uk) = (units(d@), units(k@));
    let t = pow2(163);
    lemma_pow2_adds(13, 149);
    lemma_pow2_adds(14, 149);
    lemma_pow2_adds(23, 126);
    assert(0 < uk <= 2 * p);
    assert(-(t * p) <= ud * uk <= t * p) by (nonlinear_arith)
        requires
            -pow2(162) <= ud <= pow2(162),
            0 < uk <= 2 * p,
            t == 2 * pow2(162),
    ;
    lemma_single_times_near(d, k, 163);
    let h = units(line_height(ascent, descent)@);
    let (e, z) = (pow2(138), pow2(126));
    lemma_pow2_adds(12, 126);
    lemma_pow2_adds(1, 137);
    lemma_pow2_adds(11, 138);
    // h p ~ d k by e p; 20 k ~ 23 p by 16 z
    let x = h * p - ud * uk;
    let y = 20 * uk - 23 * p;
    assert((20 * h - 23 * ud) * p == 20 * x + ud * y) by (nonlinear_arith)
        requires
            x == h * p - ud * uk,
            y == 20 * uk - 23 * p,
    ;
    assert(-(e * p) <= x <= e * p);
    assert(-(16 * z) <= y <= 16 * z);
    let top = pow2(162);
    assert(-(top * (16 * z)) <= ud * y <= top * (16 * z)) by (nonlinear_arith)
        requires
            -top <= ud <= top,
            -(16 * z) <= y <= 16 * z,
            z >= 0,
    ;
    assert(top * (16 * z) == (0x2_0000 * z) * p) by (nonlinear_arith)
        requires
            top == 0x2000 * p,
    ;
    let b = 20 * e + 0x2_0000 * z;
    assert(-b <= 20 * h - 23 * ud <= b) by (nonlinear_arith)
        requires
            (20 * h - 23 * ud) * p == 20 * x + ud * y,
            -(e * p) <= x <= e * p,
            -((0x2_0000 * z) * p) <= ud * y <= (0x2_0000 * z) * p,
            b == 20 * e + 0x2_0000 * z,
            p > 0,
    ;
}

/// What a line height is of ascent and descent.
proof fn lemma_spread()
    ensures
        ({
            let k = single(UNITY).plus(single(LINE_GAP));
            &&& k.is_finite()
            &&& gap_of(20 * units(k@), 23 * pixel()) <= 16 * pow2(126)
        }),
{
    let z = pow2(123);
    let k = single(UNITY).plus(single(LINE_GAP));
    lemma_single_one();
    lemma_gap_of_a_line();
    lemma2_to64();
    lemma_pow2_adds(26, 123);
    lemma_pow2_adds(27, 123);
    lemma_pow2_adds(3, 123);
    lemma_pow2_adds(2, 123);
    lemma_pow2_pos(123);
    assert(pow2(149) == 0x400_0000 * z && pow2(150) == 0x800_0000 * z);
    assert(pow2(125) == 4 * z && pow2(126) == 8 * z);
    lemma_single_plus_near(single(UNITY), single(LINE_GAP), 150);
    let u = units(k@);
    assert(-(4 * z) <= u - (0x400_0000 * z + 0x99_999a * z) <= 4 * z);
}

/// The pattern of the gap, as a number.
proof fn lemma_gap_of_a_line()
    ensures
        single(LINE_GAP).is_finite(),
        units(single(LINE_GAP)@) == 0x99_999a * pow2(123),
{
    let f = single_format();
    lemma_single_bits();
    lemma_single_weights();
    lemma2_to64();
    reveal(Single::num);
    lemma_fundamental_div_mod_converse(LINE_GAP as int, f.hidden() as int, 124, 0x19_999a);
}

/// The block of lines stands in the middle: its first line begins as far below the top as its
/// last one ends above the bottom, and stands an ascent below where it begins, to within a
/// hundredth of a pixel.
pub proof fn lemma_the_block_stands_in_the_middle(
    height: u32,
    n: nat,
    ascent: Single,
    descent: Single,
)
    requires
        1 <= height <= 0x4000,
        n <= 0x1000,
        single_upto(ascent, 161),
        single_upto(descent, 161),
        ({
            let h = units(line_height(ascent, descent)@);
            -pow2(163) <= n * h <= pow2(163)
        }),
    ensures
        ({
            let b = first_baseline(height, n, ascent, descent);
            let h = units(line_height(ascent, descent)@);
            &&& b.is_finite()
            &&& 128 * gap_of(2 * (units(b@) - units(ascent@)) + n * h, height * pixel()) <= pixel()
        }),
{
    let p = pow2(149);
    let lh = line_height(ascent, descent);
    let h = units(lh@);
    let c = Single::from_u64(height as u64);
    let m = Single::from_u64(n as u64);
    lemma_a_line_leaves_a_gap(ascent, descent);
    lemma_single_small(height as u64);
    lemma_single_small(n as u64);
    lemma_pow2_pos(149);
    lemma2_to64();
    lemma_pow2_adds(14, 149);
    lemma_pow2_unfold(162);
    lemma_pow2_unfold(163);
    lemma_pow2_unfold(164);
    lemma_pow2_unfold(139);
    lemma_pow2_adds(11, 138);
    lemma_pow2_adds(25, 138);
    let t = pow2(163);
    assert(-(t * p) <= h * (n * p) <= t * p) by (nonlinear_arith)
        requires
            -t <= n * h <= t,
            p > 0,
    ;
    lemma_single_times_near(lh, m, 163);
    let block = lh.times(m);
    let ub = units(block@);
    let e = pow2(138);
    assert(h * (n * p) == (n * h) * p) by (nonlinear_arith);
    assert(within(ub, n * h, e as int)) by (nonlinear_arith)
        requires
            -(e * p) <= ub * p - (n * h) * p <= e * p,
            p > 0,
    ;
    assert(0 < height * p <= 0x4000 * p) by (nonlinear_arith)
        requires
            1 <= height <= 0x4000,
            p > 0,
    ;
    lemma_single_minus_near(c, block, 164);
    lemma_half_near(c.minus(block), 164);
    lemma_single_plus_near(c.minus(block).times(single(0x3f00_0000)), ascent, 164);
}

/// A line stands in the middle: as much is left before it as after it, to within a hundredth
/// of a pixel.
pub proof fn lemma_a_line_stands_in_the_middle(width: u32, glyphs: Seq<Glyph>)
    requires
        1 <= width <= 0x4000,
        single_upto(line_width(glyphs), 163),
    ensures
        line_start(width, glyphs).is_finite(),
        256 * gap_of(
            2 * units(line_start(width, glyphs)@) + units(line_width(glyphs)@),
            width * pixel(),
        ) <= pixel(),
{
    let p = pow2(149);
    let c = Single::from_u64(width as u64);
    lemma_single_small(width as u64);
    lemma_pow2_pos(149);
    lemma2_to64();
    lemma_pow2_adds(14, 149);
    lemma_pow2_unfold(164);
    lemma_pow2_adds(10, 139);
    assert(0 < width * p <= 0x4000 * p) by (nonlinear_arith)
        requires
            1 <= width <= 0x4000,
            p > 0,
    ;
    lemma_single_minus_near(c, line_width(glyphs), 164);
    lemma_half_near(c.minus(line_width(glyphs)), 164);
}

/// How far the first `j` glyphs of a line take the pen, in units.
pub open spec fn run(glyphs: Seq<Glyph>, j: int) -> int
    decreases j,
{
    if j <= 0 {
        0
    } else {
        run(glyphs, j - 1) + units(glyphs[j - 1].advance@)
    }
}

/// A line whose pen only moves on, and not too far.
pub open spec fn settable(glyphs: Seq<Glyph>) -> bool {
    &&& glyphs.len() <= 0x4000
    &&& run(glyphs, glyphs.len() as int) <= pow2(162)
    &&& forall|j: int|
        0 <= j < glyphs.len() ==> (#[trigger] glyphs[j]).advance.is_finite() && 0 <= units(
            glyphs[j].advance@,
        )
}

/// Runs only grow.
proof fn lemma_run(glyphs: Seq<Glyph>, j: int, n: int)
    requires
        0 <= j <= n <= glyphs.len(),
        forall|j: int| 0 <= j < glyphs.len() ==> 0 <= units((#[trigger] glyphs[j]).advance@),
    ensures
        0 <= run(glyphs, j) <= run(glyphs, n),
    decreases n,
{
    if j < n {
        lemma_run(glyphs, j, n - 1);
        assert(0 <= units(glyphs[n - 1].advance@));
    } else if n > 0 {
        lemma_run(glyphs, n - 1, n - 1);
        assert(0 <= units(glyphs[n - 1].advance@));
    }
}

/// Glyphs are set one after another: the pen stands before a glyph as far from where the line
/// began as the glyphs before it advance it, to within a thousandth of a pixel a glyph.
pub proof fn lemma_glyphs_are_set_one_after_another(start: Single, glyphs: Seq<Glyph>, j: int)
    requires
        settable(glyphs),
        single_upto(start, 163),
        0 <= j <= glyphs.len(),
    ensures
        pen_at(start, glyphs, j).is_finite(),
        1024 * gap_of(units(pen_at(start, glyphs, j)@), units(start@) + run(glyphs, j)) <= j
            * pixel(),
    decreases j,
{
    if j > 0 {
        let p = pixel();
        lemma_glyphs_are_set_one_after_another(start, glyphs, j - 1);
        lemma_run(glyphs, j - 1, glyphs.len() as int);
        lemma_run(glyphs, j, glyphs.len() as int);
        assert(0 <= units(glyphs[j - 1].advance@));
        assert((j - 1) * p + p == j * p && 0 <= j * p <= 0x4000 * p) by (nonlinear_arith)
            requires
                0 <= j <= 0x4000,
                p >= 0,
        ;
        lemma_pow2_pos(149);
        lemma2_to64();
        lemma_pow2_adds(13, 149);
        lemma_pow2_adds(10, 139);
        lemma_pow2_unfold(163);
        lemma_pow2_unfold(164);
        lemma_single_plus_near(pen_at(start, glyphs, j - 1), glyphs[j - 1].advance, 164);
    }
}

/// A line is as wide as its glyphs advance the pen, to within a thousandth of a pixel a glyph.
pub proof fn lemma_a_line_is_as_wide_as_its_glyphs(glyphs: Seq<Glyph>)
    requires
        settable(glyphs),
    ensures
        line_width(glyphs).is_finite(),
        1024 * gap_of(units(line_width(glyphs)@), run(glyphs, glyphs.len() as int))
            <= glyphs.len() * pixel(),
{
    let n = glyphs.len() as int;
    lemma_width_is_a_pen(glyphs, n);
    assert(glyphs.take(n) =~= glyphs);
    lemma_single_zero();
    lemma_pow2_pos(163);
    lemma_glyphs_are_set_one_after_another(single(0), glyphs, n);
}

/// The width of a line is where its pen ends up.
proof fn lemma_width_is_a_pen(glyphs: Seq<Glyph>, n: int)
    requires
        0 <= n <= glyphs.len(),
    ensures
        line_width(glyphs.take(n)) == pen_at(single(0), glyphs, n),
    decreases n,
{
    if n > 0 {
        lemma_width_is_a_pen(glyphs, n - 1);
        assert(glyphs.take(n).drop_last() =~= glyphs.take(n - 1));
        assert(glyphs.take(n).last() == glyphs[n - 1]);
    }
}

/// A glyph's box begins right of the pen by its own offset, and its lower edge lies above the
/// baseline by its own, each to the nearest pixel.
pub proof fn lemma_a_glyph_stands_on_the_baseline(g: Glyph, pen: Single, baseline: Single)
    requires
        single_upto(pen, 163),
        single_upto(baseline, 163),
        -0x1000 <= g.xmin <= 0x1000,
        -0x1000 <= g.ymin + g.height <= 0x1000,
    ensures
        256 * gap_of((left_of(g, pen) - g.xmin) * pixel(), units(pen@)) <= 129 * pixel(),
        256 * gap_of(
            (top_of(g, baseline) + g.height + g.ymin) * pixel(),
            units(baseline@),
        ) <= 129 * pixel(),
{
    let p = pow2(149);
    let (a, b) = (g.xmin as int, g.ymin + g.height);
    lemma_single_small_signed(a as i64);
    lemma_single_small_signed(b as i64);
    lemma_pow2_pos(149);
    lemma2_to64();
    lemma_pow2_adds(14, 149);
    lemma_pow2_adds(10, 139);
    lemma_pow2_unfold(164);
    assert(-(0x1000 * p) <= a * p <= 0x1000 * p && -(0x1000 * p) <= b * p <= 0x1000 * p)
        by (nonlinear_arith)
        requires
            -0x1000 <= a <= 0x1000,
            -0x1000 <= b <= 0x1000,
            p > 0,
    ;
    let x = pen.plus(Single::from_i64(a as i64));
    let y = baseline.minus(Single::from_i64(b as i64));
    lemma_single_plus_near(pen, Single::from_i64(a as i64), 164);
    lemma_single_minus_near(baseline, Single::from_i64(b as i64), 164);
    lemma_single_to_whole(x);
    lemma_single_to_whole(y);
    let (l, t) = (left_of(g, pen), top_of(g, baseline));
    assert((l - a) * p == l * p - a * p) by (nonlinear_arith);
    assert((t + b) * p == t * p + b * p) by (nonlinear_arith);
}

} // verus!
