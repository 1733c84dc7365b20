//! Drawing the preview: the canvas, and the pictures composed onto it.

use crate::canvas::Canvas;
use crate::compose::{layers, layers_at, Layer, SourceSize};
use crate::ieee::{single, Double, Single};
use crate::raster::Part;
use crate::scene::{Mark, Sheet, Stroke};
use crate::session::{Desk, Session, Sitting};
use crate::theme::{paint, CANVAS_COLOR, HALF_PT, TRANSPORT_BAR_H};
use crate::timeline::{Lane, SourceId, TrackKind};
use crate::ui::Rect;
use vstd::prelude::*;

verus! {

/// How many points a canvas pixel comes out as in a panel.
pub open spec fn canvas_scale(c: Canvas, w: Single, h: Single) -> Single {
    w.over(c.w()).min(h.over(c.h())).max(single(0))
}

/// Where the canvas is in a panel of this size: as large as fits, in the middle.
pub open spec fn canvas_rect(c: Canvas, x: Single, w: Single, h: Single) -> Rect {
    let s = canvas_scale(c, w, h);
    let cw = c.w().times(s).round();
    let ch = c.h().times(s).round();
    Rect {
        x: x.plus(w.minus(cw).times(single(HALF_PT))).round(),
        y: h.minus(ch).times(single(HALF_PT)).round(),
        w: cw,
        h: ch,
    }
}

/// How far along a side a position lies, as a share of the side.
pub open spec fn share(p: Single, origin: Single, extent: Single) -> Single {
    p.minus(origin).over(extent)
}

/// A layer on the canvas as drawn: the part of it on the canvas, in points. Nothing where
/// no part is.
pub open spec fn picture(l: Layer, c: Canvas, at: Rect, s: Single) -> Seq<Stroke> {
    match l.visible_rect(c.width, c.height) {
        None => Seq::empty(),
        Some(v) => seq![
            Stroke::Picture {
                rect: Rect {
                    x: at.x.plus(v.x.times(s)),
                    y: at.y.plus(v.y.times(s)),
                    w: v.w.times(s),
                    h: v.h.times(s),
                },
                part: Part {
                    u0: share(v.x, l.rect.x, l.rect.w),
                    v0: share(v.y, l.rect.y, l.rect.h),
                    u1: share(v.x.plus(v.w), l.rect.x, l.rect.w),
                    v1: share(v.y.plus(v.h), l.rect.y, l.rect.h),
                },
                source: l.source,
                at: l.source_time,
                alpha: l.alpha,
            },
        ],
    }
}

/// The layers from `i` on as drawn, bottom layer first.
pub open spec fn pictures(ls: Seq<Layer>, c: Canvas, at: Rect, s: Single, i: int) -> Seq<Stroke>
    decreases ls.len() - i,
{
    if i < 0 || i >= ls.len() {
        Seq::empty()
    } else {
        picture(ls[i], c, at, s) + pictures(ls, c, at, s, i + 1)
    }
}

/// The source of the highest of the first `n` lanes that shows a picture at `t`.
pub open spec fn uppermost(tracks: Seq<Lane>, t: Double, n: int) -> Option<SourceId>
    decreases n,
{
    if n <= 0 || n > tracks.len() {
        None
    } else if tracks[n - 1].shows(t) {
        Some(tracks[n - 1].clips[tracks[n - 1].active(t)->0].source)
    } else {
        uppermost(tracks, t, n - 1)
    }
}

impl Desk {
    /// How wide the preview is.
    pub open spec fn spec_preview_w(&self) -> Single {
        self.width.minus(self.media_pool_w())
    }

    /// How wide the preview is.
    #[verifier::when_used_as_spec(spec_preview_w)]
    pub fn preview_w(&self) -> (r: Single)
        requires
            self.divides(),
        ensures
            r == self.spec_preview_w(),
    {
        self.width.minus(self.media_pool_w())
    }

    /// How high the preview is: what the transport bar leaves.
    pub open spec fn spec_preview_h(&self) -> Single {
        self.timeline_top().minus(single(TRANSPORT_BAR_H)).max(single(0))
    }

    /// How high the preview is: what the transport bar leaves.
    #[verifier::when_used_as_spec(spec_preview_h)]
    pub fn preview_h(&self) -> (r: Single)
        requires
            self.divides(),
        ensures
            r == self.spec_preview_h(),
    {
        self.timeline_top().minus(single(TRANSPORT_BAR_H)).max(single(0))
    }
}

impl Sitting {
    /// Where the canvas is drawn.
    pub open spec fn frame(self) -> Rect {
        canvas_rect(
            self.canvas(),
            self.desk.media_pool_w(),
            self.desk.preview_w(),
            self.desk.preview_h(),
        )
    }

    /// How many points a canvas pixel comes out as.
    pub open spec fn frame_scale(self) -> Single {
        canvas_scale(self.canvas(), self.desk.preview_w(), self.desk.preview_h())
    }

    /// The preview at `t`: the canvas, and on it everything that shows.
    #[verifier::opaque]
    pub open spec fn preview(self, t: Double) -> Seq<Stroke> {
        let c = self.canvas();
        seq![Stroke::Fill { rect: self.frame(), color: paint(CANVAS_COLOR) }] + pictures(
            layers(self.reel.tracks, t, c, self.pool.sizes(c)),
            c,
            self.frame(),
            self.frame_scale(),
            0,
        )
    }

    /// With what the preview recorded: where the canvas is, and what plays.
    #[verifier::opaque]
    pub open spec fn previewed(self, t: Double) -> Sitting {
        Sitting {
            desk: Desk {
                preview_canvas: self.frame(),
                preview_canvas_scale: self.frame_scale(),
                last_playing_source: uppermost(
                    self.reel.tracks,
                    t,
                    self.reel.tracks.len() as int,
                ),
                ..self.desk
            },
            ..self
        }
    }
}

/// Draws a layer.
fn draw_picture(sheet: &mut Sheet, l: &Layer, c: &Canvas, at: Rect, s: Single)
    ensures
        final(sheet)@ == old(sheet)@ + picture(*l, *c, at, s),
{
    if let Some(v) = l.visible_rect(c.width, c.height) {
        sheet.add_mark(
            Mark::Picture {
                rect: Rect {
                    x: at.x.plus(v.x.times(s)),
                    y: at.y.plus(v.y.times(s)),
                    w: v.w.times(s),
                    h: v.h.times(s),
                },
                part: Part {
                    u0: v.x.minus(l.rect.x).over(l.rect.w),
                    v0: v.y.minus(l.rect.y).over(l.rect.h),
                    u1: v.x.plus(v.w).minus(l.rect.x).over(l.rect.w),
                    v1: v.y.plus(v.h).minus(l.rect.y).over(l.rect.h),
                },
                source: l.source,
                at: l.source_time,
                alpha: l.alpha,
            },
        );
    }
    proof {
        assert(sheet@ =~= old(sheet)@ + picture(*l, *c, at, s));
    }
}

impl Session {
    /// The layers that the preview paints at `t`.
    pub fn frame_layers(&self, t: Double, canvas: Canvas) -> (r: Vec<Layer>)
        requires
            self@.pool.sound(),
        ensures
            r@ == layers(self@.reel.tracks, t, canvas, self@.pool.sizes(canvas)),
    {
        let sizes: Vec<SourceSize> = self.media.sizes(canvas);
        layers_at(&self.timeline.tracks, t, canvas, &sizes)
    }

    /// The source that shows on top at `t`.
    fn playing_source(&self, t: Double) -> (r: Option<SourceId>)
        ensures
            r == uppermost(self@.reel.tracks, t, self@.reel.tracks.len() as int),
    {
        let mut n: usize = self.timeline.tracks.len();
        while n > 0
            invariant
                n <= self.timeline.tracks.len(),
                uppermost(self@.reel.tracks, t, self@.reel.tracks.len() as int) == uppermost(
                    self@.reel.tracks,
                    t,
                    n as int,
                ),
            decreases n,
        {
            proof {
                assert(self@.reel.tracks[n - 1] == self.timeline.tracks@[n - 1]@);
            }
            if self.timeline.tracks[n - 1].kind == TrackKind::Video {
                if let Some(c) = self.timeline.tracks[n - 1].active_clip(t) {
                    return Some(c.source);
                }
            }
            n -= 1;
        }
        None
    }

    /// Draws the preview at `t`, and records where the canvas came out and what plays.
    /// The canvas is fitted into the panel and the pictures onto the canvas, so the
    /// preview is a scale model of the export.
    pub fn draw_preview(&mut self, sheet: &mut Sheet, t: Double)
        requires
            old(self)@.desk.divides(),
            old(self)@.pool.sound(),
        ensures
            final(self)@ == old(self)@.previewed(t),
            final(sheet)@ == old(sheet)@ + old(self)@.preview(t),
    {
        proof {
            reveal(Sitting::preview);
            reveal(Sitting::previewed);
        }
        let c: Canvas = self.canvas();
        let (x, w, h): (Single, Single, Single) = (
            self.desk.media_pool_w(),
            self.desk.preview_w(),
            self.desk.preview_h(),
        );
        let s: Single = w.over(c.w()).min(h.over(c.h())).max(single(0));
        let cw: Single = c.w().times(s).round();
        let ch: Single = c.h().times(s).round();
        let at: Rect = Rect {
            x: x.plus(w.minus(cw).times(single(HALF_PT))).round(),
            y: h.minus(ch).times(single(HALF_PT)).round(),
            w: cw,
            h: ch,
        };
        proof {
            assert(at == self@.frame());
            assert(s == self@.frame_scale());
        }
        sheet.add_mark(Mark::Fill { rect: at, color: paint(CANVAS_COLOR) });
        let ls: Vec<Layer> = self.frame_layers(t, c);
        let ghost start = sheet@;
        let ghost all = pictures(ls@, c, at, s, 0);
        let mut i: usize = 0;
        while i < ls.len()
            invariant
                i <= ls.len(),
                start + all == sheet@ + pictures(ls@, c, at, s, i as int),
            decreases ls.len() - i,
        {
            let ghost before = sheet@;
            let ghost rest = pictures(ls@, c, at, s, i as int);
            let ghost tail = pictures(ls@, c, at, s, i + 1);
            draw_picture(sheet, &ls[i], &c, at, s);
            proof {
                assert(before + rest =~= sheet@ + tail);
            }
            i += 1;
        }
        proof {
            assert(sheet@ + Seq::<Stroke>::empty() =~= sheet@);
            assert(sheet@ =~= old(sheet)@ + old(self)@.preview(t));
        }
        let playing: Option<SourceId> = self.playing_source(t);
        self.desk.preview_canvas = at;
        self.desk.preview_canvas_scale = s;
        self.desk.last_playing_source = playing;
    }
}

} // verus!
