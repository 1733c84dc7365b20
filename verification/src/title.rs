//! Titles: text as a source of pictures.

use crate::canvas::HALF;
use crate::ieee::{single, Single};
use crate::raster::{lemma_offset, offset};
use crate::strings::{lines, lines_of, texts, trim, trimmed};
use crate::timeline::UNITY;
use crate::ui::Color;
use vstd::arithmetic::div_mod::{
    lemma_fundamental_div_mod, lemma_fundamental_div_mod_converse, lemma_mod_bound,
};
use vstd::prelude::*;

verus! {

/// Height of a new title, `0.12` of the canvas height.
pub const DEFAULT_SIZE: u32 = 0x3df5_c28f;

/// How long a title lands on the timeline, `5` seconds.
pub const DEFAULT_DURATION: u64 = 0x4014_0000_0000_0000;

/// The longest a title clip can be trimmed to, `3600` seconds.
pub const MAX_DURATION: u64 = 0x40ac_2000_0000_0000;

/// What is left between lines, `0.15` of the line height.
pub const LINE_GAP: u32 = 0x3e19_999a;

/// Stands in for the text cursor: a full block.
pub const CARET: char = '\u{2588}';

/// What a title says before anything was typed into it.
pub open spec fn placeholder() -> Seq<char> {
    "Title"@
}

/// A generated picture: some words, at a size, in a colour.
#[derive(Debug, PartialEq)]
pub struct Title {
    pub text: String,
    /// Height as a fraction of the canvas height.
    pub size: Single,
    pub color: Color,
}

/// What a title is.
#[verifier::ext_equal]
pub struct Words {
    pub text: Seq<char>,
    pub size: Single,
    pub color: Color,
}

impl View for Title {
    type V = Words;

    open spec fn view(&self) -> Words {
        Words { text: self.text@, size: self.size, color: self.color }
    }
}

impl Color {
    /// Whether the two are the same colour, number by number.
    pub open spec fn alike(self, o: Color) -> bool {
        self.r.same(o.r) && self.g.same(o.g) && self.b.same(o.b) && self.a.same(o.a)
    }

    /// Whether the two are the same colour, number by number.
    pub fn same(&self, o: &Color) -> (r: bool)
        ensures
            r == self.alike(*o),
    {
        self.r.same(o.r) && self.g.same(o.g) && self.b.same(o.b) && self.a.same(o.a)
    }
}

impl Words {
    /// Whether the two titles are the same, number by number.
    pub open spec fn alike(self, o: Words) -> bool {
        self.text == o.text && self.size.same(o.size) && self.color.alike(o.color)
    }

    /// The name in the media pool: the first line, or the placeholder where that is
    /// blank.
    pub open spec fn pool_name(self) -> Seq<char> {
        let ls = lines_of(self.text);
        let first = if ls.len() > 0 {
            trimmed(ls[0])
        } else {
            trimmed(Seq::empty())
        };
        if first.len() == 0 {
            placeholder()
        } else {
            first
        }
    }
}

impl Default for Title {
    fn default() -> (r: Title)
        ensures
            r@ == (Words {
                text: placeholder(),
                size: single(DEFAULT_SIZE),
                color: Color {
                    r: single(UNITY),
                    g: single(UNITY),
                    b: single(UNITY),
                    a: single(UNITY),
                },
            }),
    {
        Title {
            text: "Title".to_owned(),
            size: single(DEFAULT_SIZE),
            color: Color {
                r: single(UNITY),
                g: single(UNITY),
                b: single(UNITY),
                a: single(UNITY),
            },
        }
    }
}

impl Title {
    /// A copy.
    pub fn copy(&self) -> (r: Title)
        ensures
            r@ == self@,
    {
        Title { text: self.text.clone(), size: self.size, color: self.color }
    }

    /// Whether the two titles are the same, number by number.
    pub fn same(&self, o: &Title) -> (r: bool)
        ensures
            r == self@.alike(o@),
    {
        self.text == o.text && self.size.same(o.size) && self.color.same(&o.color)
    }

    /// The name in the media pool: the first line, or the placeholder where that is
    /// blank.
    pub fn pool_name(&self) -> (r: String)
        ensures
            r@ == self@.pool_name(),
    {
        let ls: Vec<String> = lines(self.text.as_str());
        let first: String = if ls.len() > 0 {
            proof {
                assert(texts(ls@)[0] == ls@[0]@);
            }
            trim(ls[0].as_str())
        } else {
            let none: String = String::new();
            trim(none.as_str())
        };
        if first.as_str().is_empty() {
            "Title".to_owned()
        } else {
            first
        }
    }

    /// The title with the caret after its last character.
    pub fn with_caret(&self) -> (r: Title)
        ensures
            r@ == (Words { text: self@.text.push(CARET), ..self@ }),
    {
        let mut text: String = self.text.clone();
        text.push(CARET);
        Title { text, size: self.size, color: self.color }
    }

    /// The glyph size in pixels on a canvas of this height.
    pub fn pixels(&self, height: u32) -> (r: Single)
        ensures
            r == self.size.times(Single::from_u64(height as u64)).max(single(UNITY)),
    {
        self.size.times(Single::from_u64(height as u64)).max(single(UNITY))
    }
}

/// How much of the title's colour reaches each pixel, row by row.
#[derive(Debug, PartialEq)]
pub struct Mask {
    pub width: u32,
    pub height: u32,
    pub coverage: Vec<u8>,
}

impl Mask {
    /// There is a coverage for every pixel.
    pub open spec fn sound(&self) -> bool {
        self.coverage.len() == self.height as int * self.width as int
    }

    /// A mask that covers nothing.
    pub fn clear(width: u32, height: u32) -> (m: Mask)
        requires
            height as int * width as int <= usize::MAX,
        ensures
            m.sound(),
            m.width == width && m.height == height,
            m.coverage@ == Seq::new((height as int * width as int) as nat, |k: int| 0u8),
    {
        let n: usize = height as usize * width as usize;
        let mut coverage: Vec<u8> = Vec::new();
        let mut i: usize = 0;
        while i < n
            invariant
                i <= n,
                coverage@ =~= Seq::new(i as nat, |k: int| 0u8),
            decreases n - i,
        {
            coverage.push(0);
            i += 1;
        }
        Mask { width, height, coverage }
    }
}

/// The coverage at `(r, c)` after a glyph of `w x h` was laid in at `(x, y)`.
pub open spec fn stronger(
    old_cover: u8,
    bitmap: Seq<u8>,
    w: int,
    h: int,
    x: int,
    y: int,
    r: int,
    c: int,
) -> u8 {
    if y <= r < y + h && x <= c < x + w {
        let g = bitmap[offset(w, r - y, c - x)];
        if g > old_cover {
            g
        } else {
            old_cover
        }
    } else {
        old_cover
    }
}

/// A mask of width `width` after a glyph was laid in.
pub open spec fn stamped(
    cover: Seq<u8>,
    width: int,
    bitmap: Seq<u8>,
    w: int,
    h: int,
    x: int,
    y: int,
) -> Seq<u8> {
    Seq::new(
        cover.len(),
        |k: int| stronger(cover[k], bitmap, w, h, x, y, k / width, k % width),
    )
}

/// Whether a walk over a glyph that stands before `(row, col)` has passed `(r, c)`.
pub open spec fn passed(x: int, y: int, r: int, c: int, row: int, col: int) -> bool {
    r < y + row || (r == y + row && c < x + col)
}

/// Lays a glyph's coverage into the mask at `(x, y)`, keeping whichever of the two is
/// stronger. What falls outside the mask is cut off.
pub fn stamp(mask: &mut Mask, bitmap: &Vec<u8>, w: u32, h: u32, x: i32, y: i32)
    requires
        old(mask).sound(),
        bitmap.len() >= h as int * w as int,
    ensures
        final(mask).sound(),
        final(mask).width == old(mask).width && final(mask).height == old(mask).height,
        final(mask).coverage@ == stamped(
            old(mask).coverage@,
            old(mask).width as int,
            bitmap@,
            w as int,
            h as int,
            x as int,
            y as int,
        ),
{
    let ghost cover = mask.coverage@;
    let ghost mw = mask.width as int;
    let mut row: u32 = 0;
    while row < h
        invariant
            row <= h,
            mask.sound(),
            mask.width == old(mask).width && mask.height == old(mask).height,
            bitmap.len() >= h as int * w as int,
            cover == old(mask).coverage@,
            mw == mask.width,
            mask.coverage@.len() == cover.len(),
            forall|k: int|
                0 <= k < cover.len() ==> #[trigger] mask.coverage@[k] == (if passed(
                    x as int,
                    y as int,
                    k / mw,
                    k % mw,
                    row as int,
                    0,
                ) {
                    stronger(
                        cover[k],
                        bitmap@,
                        w as int,
                        h as int,
                        x as int,
                        y as int,
                        k / mw,
                        k % mw,
                    )
                } else {
                    cover[k]
                }),
        decreases h - row,
    {
        let dy: i64 = y as i64 + row as i64;
        let mut col: u32 = 0;
        while col < w
            invariant
                row < h,
                col <= w,
                dy == y + row,
                mask.sound(),
                mask.width == old(mask).width && mask.height == old(mask).height,
                bitmap.len() >= h as int * w as int,
                cover == old(mask).coverage@,
                mw == mask.width,
                mask.coverage@.len() == cover.len(),
                forall|k: int|
                    0 <= k < cover.len() ==> #[trigger] mask.coverage@[k] == (if passed(
                        x as int,
                        y as int,
                        k / mw,
                        k % mw,
                        row as int,
                        col as int,
                    ) {
                        stronger(
                            cover[k],
                            bitmap@,
                            w as int,
                            h as int,
                            x as int,
                            y as int,
                            k / mw,
                            k % mw,
                        )
                    } else {
                        cover[k]
                    }),
            decreases w - col,
        {
            let dx: i64 = x as i64 + col as i64;
            if dy >= 0 && dy < mask.height as i64 && dx >= 0 && dx < mask.width as i64 {
                proof {
                    lemma_offset(w as int, h as int, row as int, col as int);
                    lemma_offset(mw, mask.height as int, dy as int, dx as int);
                }
                let src: u8 = bitmap[row as usize * w as usize + col as usize];
                let at: usize = dy as usize * mask.width as usize + dx as usize;
                proof {
                    lemma_fundamental_div_mod_converse(at as int, mw, dy as int, dx as int);
                }
                let was: u8 = mask.coverage[at];
                if src > was {
                    mask.coverage.set(at, src);
                }
                proof {
                    assert forall|k: int| #![trigger mask.coverage@[k]]
                        0 <= k < cover.len() && k != at implies !(k / mw == dy && k % mw == dx) by {
                        lemma_fundamental_div_mod(k, mw);
                        if k / mw == dy && k % mw == dx {
                            assert(mw * dy == dy * mw) by (nonlinear_arith);
                        }
                    }
                }
            } else {
                proof {
                    assert forall|k: int| #![trigger mask.coverage@[k]]
                        0 <= k < cover.len() implies !(k / mw == dy && k % mw == dx) by {
                        lemma_cell_inside(k, mw, mask.height as int);
                    }
                }
            }
            col += 1;
        }
        proof {
            assert forall|k: int| #![trigger mask.coverage@[k]]
                0 <= k < cover.len() implies 0 <= k % mw < mw && 0 <= k / mw by {
                lemma_cell_inside(k, mw, mask.height as int);
            }
        }
        row += 1;
    }
    proof {
        assert(mask.coverage@ =~= stamped(
            cover,
            mw,
            bitmap@,
            w as int,
            h as int,
            x as int,
            y as int,
        ));
    }
}

/// Every place of a mask has a row and a column.
proof fn lemma_cell_inside(k: int, width: int, height: int)
    requires
        0 <= k < height * width,
        0 <= width,
        0 <= height,
    ensures
        width > 0,
        0 <= k / width < height,
        0 <= k % width < width,
{
    if width == 0 {
        assert(height * width == 0) by (nonlinear_arith)
            requires
                width == 0,
        ;
    }
    lemma_fundamental_div_mod(k, width);
    lemma_mod_bound(k, width);
    let q = k / width;
    assert(0 <= q < height) by (nonlinear_arith)
        requires
            k == width * q + k % width,
            0 <= k % width < width,
            0 <= k < height * width,
            width > 0,
    ;
}

/// A glyph as the rasterizer hands it over.
pub struct Glyph {
    pub width: u32,
    pub height: u32,
    /// Where its box begins, right of the pen and above the baseline.
    pub xmin: i32,
    pub ymin: i32,
    /// How far the pen moves on.
    pub advance: Single,
    /// Coverage, row by row.
    pub bitmap: Vec<u8>,
}

impl Glyph {
    /// There is a coverage for every pixel of the box, and the box is not absurd.
    pub open spec fn sound(&self) -> bool {
        &&& self.bitmap.len() >= self.height as int * self.width as int
        &&& i32::MIN <= self.ymin + self.height <= i32::MAX
    }
}

/// The width of a line: its advances, one after another.
pub open spec fn line_width(glyphs: Seq<Glyph>) -> Single
    decreases glyphs.len(),
{
    if glyphs.len() == 0 {
        single(0)
    } else {
        line_width(glyphs.drop_last()).plus(glyphs.last().advance)
    }
}

/// A mask after one glyph was set with the pen at `pen` on `baseline`.
pub open spec fn with_glyph(
    cover: Seq<u8>,
    width: int,
    g: Glyph,
    pen: Single,
    baseline: Single,
) -> Seq<u8> {
    if g.width > 0 && g.height > 0 {
        stamped(
            cover,
            width,
            g.bitmap@,
            g.width as int,
            g.height as int,
            pen.plus(Single::from_i64(g.xmin as i64)).round().to_i32() as int,
            baseline.minus(
                Single::from_i64((g.ymin + g.height) as i64),
            ).round().to_i32() as int,
        )
    } else {
        cover
    }
}

/// A mask after a line was set from `pen` on `baseline`.
pub open spec fn with_line(
    cover: Seq<u8>,
    width: int,
    glyphs: Seq<Glyph>,
    pen: Single,
    baseline: Single,
) -> Seq<u8>
    decreases glyphs.len(),
{
    if glyphs.len() == 0 {
        cover
    } else {
        with_line(
            with_glyph(cover, width, glyphs[0], pen, baseline),
            width,
            glyphs.skip(1),
            pen.plus(glyphs[0].advance),
            baseline,
        )
    }
}

/// Where the pen starts on a line: the line centred.
pub open spec fn line_start(width: u32, glyphs: Seq<Glyph>) -> Single {
    Single::from_u64(width as u64).minus(line_width(glyphs)).times(single(HALF))
}

/// A mask after lines were set, the first on `baseline`.
pub open spec fn with_lines(
    cover: Seq<u8>,
    width: u32,
    lines: Seq<Vec<Glyph>>,
    baseline: Single,
    line_h: Single,
) -> Seq<u8>
    decreases lines.len(),
{
    if lines.len() == 0 {
        cover
    } else {
        with_lines(
            with_line(
                cover,
                width as int,
                lines[0]@,
                line_start(width, lines[0]@),
                baseline,
            ),
            width,
            lines.skip(1),
            baseline.plus(line_h),
            line_h,
        )
    }
}

/// The height of a line: ascent and descent, and the gap.
pub open spec fn line_height(ascent: Single, descent: Single) -> Single {
    ascent.minus(descent).times(single(UNITY).plus(single(LINE_GAP)))
}

/// The first baseline: the block of `n` lines centred, then down by one ascent.
pub open spec fn first_baseline(height: u32, n: nat, ascent: Single, descent: Single) -> Single {
    Single::from_u64(height as u64).minus(
        line_height(ascent, descent).times(Single::from_u64(n as u64)),
    ).times(single(HALF)).plus(ascent)
}

/// The width of a line: its advances, one after another.
fn width_of(glyphs: &Vec<Glyph>) -> (r: Single)
    ensures
        r == line_width(glyphs@),
{
    let mut w: Single = single(0);
    let mut i: usize = 0;
    while i < glyphs.len()
        invariant
            i <= glyphs.len(),
            w == line_width(glyphs@.take(i as int)),
        decreases glyphs.len() - i,
    {
        proof {
            assert(glyphs@.take(i + 1).drop_last() =~= glyphs@.take(i as int));
        }
        w = w.plus(glyphs[i].advance);
        i += 1;
    }
    proof {
        assert(glyphs@.take(glyphs.len() as int) =~= glyphs@);
    }
    w
}

/// Sets one line.
fn set_line(mask: &mut Mask, glyphs: &Vec<Glyph>, baseline: Single)
    requires
        old(mask).sound(),
        forall|i: int| 0 <= i < glyphs.len() ==> (#[trigger] glyphs@[i]).sound(),
    ensures
        final(mask).sound(),
        final(mask).width == old(mask).width && final(mask).height == old(mask).height,
        final(mask).coverage@ == with_line(
            old(mask).coverage@,
            old(mask).width as int,
            glyphs@,
            line_start(old(mask).width, glyphs@),
            baseline,
        ),
{
    let mut pen: Single = Single::from_u64(mask.width as u64).minus(width_of(glyphs)).times(
        single(HALF),
    );
    let ghost want = with_line(mask.coverage@, mask.width as int, glyphs@, pen, baseline);
    let mut i: usize = 0;
    proof {
        assert(glyphs@.skip(0) =~= glyphs@);
    }
    while i < glyphs.len()
        invariant
            i <= glyphs.len(),
            mask.sound(),
            mask.width == old(mask).width && mask.height == old(mask).height,
            forall|i: int| 0 <= i < glyphs.len() ==> (#[trigger] glyphs@[i]).sound(),
            want == with_line(
                mask.coverage@,
                mask.width as int,
                glyphs@.skip(i as int),
                pen,
                baseline,
            ),
        decreases glyphs.len() - i,
    {
        let g: &Glyph = &glyphs[i];
        proof {
            assert(glyphs@.skip(i as int)[0] == *g);
            assert(glyphs@.skip(i as int).skip(1) =~= glyphs@.skip(i + 1));
            assert(glyphs@[i as int].sound());
        }
        if g.width > 0 && g.height > 0 {
            let x: i32 = pen.plus(Single::from_i64(g.xmin as i64)).round().to_i32();
            let y: i32 = baseline.minus(
                Single::from_i64(g.ymin as i64 + g.height as i64),
            ).round().to_i32();
            stamp(mask, &g.bitmap, g.width, g.height, x, y);
        }
        pen = pen.plus(g.advance);
        i += 1;
    }
    proof {
        assert(glyphs@.skip(i as int) =~= Seq::empty());
    }
}

/// Draws lines of glyphs into a mask: lines centred against each other, the block
/// centred in the frame. `ascent` and `descent` are those of the face.
pub fn rasterize(
    lines: &Vec<Vec<Glyph>>,
    ascent: Single,
    descent: Single,
    width: u32,
    height: u32,
) -> (m: Mask)
    requires
        height as int * width as int <= usize::MAX,
        forall|i: int, j: int|
            0 <= i < lines.len() && 0 <= j < lines@[i].len() ==> (#[trigger] lines@[i]@[j]).sound(),
    ensures
        m.sound(),
        m.width == width && m.height == height,
        m.coverage@ == (if width == 0 || height == 0 {
            Seq::empty()
        } else {
            with_lines(
                Seq::new((height as int * width as int) as nat, |k: int| 0u8),
                width,
                lines@,
                first_baseline(height, lines@.len(), ascent, descent),
                line_height(ascent, descent),
            )
        }),
{
    let mut mask: Mask = Mask::clear(width, height);
    if width == 0 || height == 0 {
        proof {
            assert(height as int * width as int == 0) by (nonlinear_arith)
                requires
                    width == 0 || height == 0,
            ;
            assert(mask.coverage@ =~= Seq::empty());
        }
        return mask;
    }
    let line_h: Single = ascent.minus(descent).times(single(UNITY).plus(single(LINE_GAP)));
    let mut baseline: Single = Single::from_u64(height as u64).minus(
        line_h.times(Single::from_u64(lines.len() as u64)),
    ).times(single(HALF)).plus(ascent);
    let ghost want = with_lines(mask.coverage@, width, lines@, baseline, line_h);
    let mut i: usize = 0;
    proof {
        assert(lines@.skip(0) =~= lines@);
    }
    while i < lines.len()
        invariant
            i <= lines.len(),
            mask.sound(),
            mask.width == width && mask.height == height,
            forall|i: int, j: int|
                0 <= i < lines.len() && 0 <= j < lines@[i].len() ==> (
                #[trigger] lines@[i]@[j]).sound(),
            want == with_lines(mask.coverage@, width, lines@.skip(i as int), baseline, line_h),
        decreases lines.len() - i,
    {
        proof {
            assert(lines@.skip(i as int).skip(1) =~= lines@.skip(i + 1));
            assert(lines@.skip(i as int)[0] == lines@[i as int]);
        }
        set_line(&mut mask, &lines[i], baseline);
        baseline = baseline.plus(line_h);
        i += 1;
    }
    proof {
        assert(lines@.skip(i as int) =~= Seq::empty());
    }
    mask
}

/// A glyph only adds to what a mask covers.
pub proof fn lemma_stamp_only_adds(
    cover: Seq<u8>,
    width: int,
    bitmap: Seq<u8>,
    w: int,
    h: int,
    x: int,
    y: int,
)
    ensures
        stamped(cover, width, bitmap, w, h, x, y).len() == cover.len(),
        forall|k: int|
            0 <= k < cover.len() ==> cover[k] <= #[trigger] stamped(
                cover,
                width,
                bitmap,
                w,
                h,
                x,
                y,
            )[k],
{
}

/// Laying the same glyph in twice is laying it in once.
pub proof fn lemma_stamp_twice(
    cover: Seq<u8>,
    width: int,
    bitmap: Seq<u8>,
    w: int,
    h: int,
    x: int,
    y: int,
)
    ensures
        ({
            let once = stamped(cover, width, bitmap, w, h, x, y);
            stamped(once, width, bitmap, w, h, x, y) == once
        }),
{
    let once = stamped(cover, width, bitmap, w, h, x, y);
    assert(stamped(once, width, bitmap, w, h, x, y) =~= once);
}

/// A title without lines leaves the mask clear.
pub proof fn lemma_no_lines_no_ink(cover: Seq<u8>, width: u32, baseline: Single, line_h: Single)
    ensures
        with_lines(cover, width, Seq::empty(), baseline, line_h) == cover,
{
}

} // verus!
