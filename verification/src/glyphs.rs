//! Where glyphs go: in the atlas, and along a line of text.

use crate::ieee::{single, Single};
use crate::theme::ONE_PT;
use crate::ui::Rect;
use vstd::prelude::*;

verus! {

/// The side of the atlas.
pub const ATLAS_SIZE: u32 = 2048;

/// Room between glyphs.
pub const GLYPH_PAD: u32 = 1;

/// The first character of the icon face.
pub const PUA_FIRST: char = '\u{E000}';

/// The last character of the icon face.
pub const PUA_LAST: char = '\u{F8FF}';

/// Whether a character comes from the icon face.
pub fn is_icon(ch: char) -> (r: bool)
    ensures
        r == (PUA_FIRST <= ch && ch <= PUA_LAST),
{
    PUA_FIRST <= ch && ch <= PUA_LAST
}

/// Where the packer of the atlas stands: the next place on the current shelf.
#[derive(Clone, Copy, Debug, PartialEq, Eq, Structural)]
pub struct Packer {
    pub cursor_x: u32,
    pub cursor_y: u32,
    pub shelf_height: u32,
}

/// A glyph's place in the atlas.
#[derive(Clone, Copy, Debug, PartialEq, Eq, Structural)]
pub struct Cell {
    pub x: u32,
    pub y: u32,
    pub w: u32,
    pub h: u32,
}

impl Cell {
    /// Whether two places share no pixel.
    pub open spec fn apart(self, o: Cell) -> bool {
        self.x + self.w <= o.x || o.x + o.w <= self.x || self.y + self.h <= o.y || o.y + o.h
            <= self.y
    }

    /// The part of the atlas, in fractions of its sides: left, top, right, bottom.
    pub fn uv(&self) -> (r: (Single, Single, Single, Single))
        requires
            self.x + self.w <= ATLAS_SIZE,
            self.y + self.h <= ATLAS_SIZE,
        ensures
            ({
                let n = Single::from_u64(ATLAS_SIZE as u64);
                r == (
                    Single::from_u64(self.x as u64).over(n),
                    Single::from_u64(self.y as u64).over(n),
                    Single::from_u64((self.x + self.w) as u64).over(n),
                    Single::from_u64((self.y + self.h) as u64).over(n),
                )
            }),
    {
        let n: Single = Single::from_u64(ATLAS_SIZE as u64);
        (
            Single::from_u64(self.x as u64).over(n),
            Single::from_u64(self.y as u64).over(n),
            Single::from_u64((self.x + self.w) as u64).over(n),
            Single::from_u64((self.y + self.h) as u64).over(n),
        )
    }
}

impl Packer {
    /// The packer stands inside the atlas.
    pub open spec fn sound(self) -> bool {
        self.cursor_x <= ATLAS_SIZE && self.cursor_y + self.shelf_height <= ATLAS_SIZE
    }

    /// At the start of an empty atlas.
    pub fn new() -> (r: Packer)
        ensures
            r.sound(),
            r == (Packer { cursor_x: 0, cursor_y: 0, shelf_height: 0 }),
    {
        Packer { cursor_x: 0, cursor_y: 0, shelf_height: 0 }
    }

    /// Where the packer stands for a glyph of this width: on the next shelf where the
    /// current one has no room for it.
    pub open spec fn shelved(self, w: u32) -> Packer {
        if self.cursor_x + w + GLYPH_PAD > ATLAS_SIZE {
            Packer {
                cursor_x: 0,
                cursor_y: (self.cursor_y + self.shelf_height) as u32,
                shelf_height: 0,
            }
        } else {
            self
        }
    }

    /// Whether a glyph of this size still fits.
    pub open spec fn room_for(self, w: u32, h: u32) -> bool {
        w < ATLAS_SIZE && h < ATLAS_SIZE && self.shelved(w).cursor_y + h + GLYPH_PAD <= ATLAS_SIZE
    }

    /// Whether a glyph of this size still fits.
    pub fn fits(&self, w: u32, h: u32) -> (r: bool)
        requires
            self.sound(),
        ensures
            r == self.room_for(w, h),
    {
        if w >= ATLAS_SIZE || h >= ATLAS_SIZE {
            return false;
        }
        let y: u32 = if self.cursor_x + w + GLYPH_PAD > ATLAS_SIZE {
            self.cursor_y + self.shelf_height
        } else {
            self.cursor_y
        };
        y + h + GLYPH_PAD <= ATLAS_SIZE
    }

    /// The place a glyph of this size gets, with its padding.
    pub open spec fn cell(self, w: u32, h: u32) -> Cell {
        Cell {
            x: self.shelved(w).cursor_x,
            y: self.shelved(w).cursor_y,
            w: (w + GLYPH_PAD) as u32,
            h: (h + GLYPH_PAD) as u32,
        }
    }

    /// Where the packer stands after a glyph of this size.
    pub open spec fn after(self, w: u32, h: u32) -> Packer {
        let s = self.shelved(w);
        Packer {
            cursor_x: (s.cursor_x + w + GLYPH_PAD) as u32,
            cursor_y: s.cursor_y,
            shelf_height: if h + GLYPH_PAD > s.shelf_height {
                (h + GLYPH_PAD) as u32
            } else {
                s.shelf_height
            },
        }
    }

    /// Gives a glyph of this size a place.
    pub fn allocate(&mut self, w: u32, h: u32) -> (r: (u32, u32))
        requires
            old(self).sound(),
            old(self).room_for(w, h),
        ensures
            r == (old(self).cell(w, h).x, old(self).cell(w, h).y),
            *final(self) == old(self).after(w, h),
            final(self).sound(),
    {
        let padded_w: u32 = w + GLYPH_PAD;
        let padded_h: u32 = h + GLYPH_PAD;
        if self.cursor_x + padded_w > ATLAS_SIZE {
            self.cursor_x = 0;
            self.cursor_y = self.cursor_y + self.shelf_height;
            self.shelf_height = 0;
        }
        let pos: (u32, u32) = (self.cursor_x, self.cursor_y);
        self.cursor_x = self.cursor_x + padded_w;
        if padded_h > self.shelf_height {
            self.shelf_height = padded_h;
        }
        pos
    }

    /// Whether a place lies where the packer has been: on a shelf above, or to the left on
    /// the current one.
    pub open spec fn behind(self, c: Cell) -> bool {
        c.y + c.h <= self.cursor_y || (c.y == self.cursor_y && c.x + c.w <= self.cursor_x && c.h
            <= self.shelf_height)
    }
}

/// No two glyphs share a pixel of the atlas: a place that the packer has left behind stays
/// behind it, the new place is behind it too, and the two are apart.
pub proof fn lemma_glyphs_never_overlap(p: Packer, w: u32, h: u32, c: Cell)
    requires
        p.sound(),
        p.room_for(w, h),
        p.behind(c),
    ensures
        p.after(w, h).behind(c),
        p.after(w, h).behind(p.cell(w, h)),
        p.cell(w, h).apart(c),
        p.cell(w, h).x + p.cell(w, h).w <= ATLAS_SIZE,
        p.cell(w, h).y + p.cell(w, h).h <= ATLAS_SIZE,
{
}

/// What a face says of a glyph, in pixels.
#[derive(Clone, Copy, Debug, PartialEq)]
pub struct GlyphMetrics {
    pub width: Single,
    pub height: Single,
    pub xmin: Single,
    pub ymin: Single,
    pub advance: Single,
}

/// The pen of a line of text, in pixels.
#[derive(Clone, Copy, Debug, PartialEq)]
pub struct Pen {
    pub x: Single,
    pub baseline: Single,
    /// Pixels per point.
    pub scale: Single,
}

impl Pen {
    /// At the start of a line at a point; the baseline on a whole pixel.
    pub fn start(x: Single, y: Single, scale: Single) -> (r: Pen)
        ensures
            r == (Pen { x: x.times(scale), baseline: y.times(scale).round(), scale }),
    {
        Pen { x: x.times(scale), baseline: y.times(scale).round(), scale }
    }

    /// Where a glyph is drawn, in points: on whole pixels; none for one without ink.
    pub open spec fn glyph_rect(self, g: GlyphMetrics) -> Option<Rect> {
        if single(0).lt(g.width) && single(0).lt(g.height) {
            let inv = single(ONE_PT).over(self.scale);
            let x = self.x.plus(g.xmin).round();
            let y = self.baseline.minus(g.ymin.plus(g.height)).round();
            Some(
                Rect {
                    x: x.times(inv),
                    y: y.times(inv),
                    w: g.width.times(inv),
                    h: g.height.times(inv),
                },
            )
        } else {
            None
        }
    }

    /// Draws a glyph and moves on behind it.
    pub fn glyph(&mut self, g: GlyphMetrics) -> (r: Option<Rect>)
        ensures
            r == old(self).glyph_rect(g),
            *final(self) == (Pen { x: old(self).x.plus(g.advance), ..*old(self) }),
    {
        let r: Option<Rect> = if single(0).lt(g.width) && single(0).lt(g.height) {
            let inv: Single = single(ONE_PT).over(self.scale);
            let x: Single = self.x.plus(g.xmin).round();
            let y: Single = self.baseline.minus(g.ymin.plus(g.height)).round();
            Some(
                Rect {
                    x: x.times(inv),
                    y: y.times(inv),
                    w: g.width.times(inv),
                    h: g.height.times(inv),
                },
            )
        } else {
            None
        };
        self.x = self.x.plus(g.advance);
        r
    }
}

/// A coverage as pixels: white, with the coverage for alpha.
pub fn white_pixels(coverage: &Vec<u8>) -> (r: Vec<u8>)
    requires
        4 * coverage.len() <= usize::MAX,
    ensures
        r.len() == 4 * coverage.len(),
        forall|i: int|
            0 <= i < r.len() ==> #[trigger] r@[i] == (if i % 4 == 3 {
                coverage@[i / 4]
            } else {
                255
            }),
{
    let mut out: Vec<u8> = Vec::new();
    let mut k: usize = 0;
    while k < coverage.len()
        invariant
            k <= coverage.len(),
            out.len() == 4 * k,
            forall|i: int|
                0 <= i < out.len() ==> #[trigger] out@[i] == (if i % 4 == 3 {
                    coverage@[i / 4]
                } else {
                    255
                }),
        decreases coverage.len() - k,
    {
        out.push(255);
        out.push(255);
        out.push(255);
        out.push(coverage[k]);
        k += 1;
    }
    out
}

} // verus!
