//! What the canvas looks like at one instant, as a list of placed pictures.

use crate::canvas::Canvas;
use crate::ieee::{single, Double, Single};
use crate::timeline::{first_clip_at, lanes, Clip, Lane, SourceId, Track, TrackKind};
use crate::ui::Rect;
use vstd::prelude::*;

verus! {

/// Below this alpha, `0.002`, a layer shows nothing an 8-bit channel can hold.
pub const MIN_VISIBLE_ALPHA: u32 = 0x3b03_126f;

/// One picture to paint: placed, and told how much of it shows.
#[derive(Copy, Clone, Debug, PartialEq)]
pub struct Layer {
    pub source: SourceId,
    /// What to show of the source.
    pub source_time: Double,
    /// Where it goes, in canvas pixels; it may run off the canvas.
    pub rect: Rect,
    pub alpha: Single,
}

impl Layer {
    /// The part of the layer inside a `width x height` canvas; none where there is
    /// no such part.
    pub open spec fn spec_visible_rect(&self, width: u32, height: u32) -> Option<Rect> {
        let x0 = self.rect.x.max(single(0));
        let y0 = self.rect.y.max(single(0));
        let x1 = self.rect.x.plus(self.rect.w).min(Single::from_u64(width as u64));
        let y1 = self.rect.y.plus(self.rect.h).min(Single::from_u64(height as u64));
        if x1.le(x0) || y1.le(y0) {
            None
        } else {
            Some(Rect { x: x0, y: y0, w: x1.minus(x0), h: y1.minus(y0) })
        }
    }

    /// The part of the layer inside a `width x height` canvas; none where there is
    /// no such part.
    #[verifier::when_used_as_spec(spec_visible_rect)]
    pub fn visible_rect(&self, width: u32, height: u32) -> (r: Option<Rect>)
        ensures
            r == self.spec_visible_rect(width, height),
    {
        let x0: Single = self.rect.x.max(single(0));
        let y0: Single = self.rect.y.max(single(0));
        let x1: Single = self.rect.x.plus(self.rect.w).min(Single::from_u64(width as u64));
        let y1: Single = self.rect.y.plus(self.rect.h).min(Single::from_u64(height as u64));
        if x1.le(x0) || y1.le(y0) {
            return None;
        }
        Some(Rect { x: x0, y: y0, w: x1.minus(x0), h: y1.minus(y0) })
    }
}

/// The pixel size of a source's picture, where it has one.
#[derive(Copy, Clone, Debug, PartialEq)]
pub struct SourceSize {
    pub source: SourceId,
    pub size: Option<(u32, u32)>,
}

/// The first size listed for `source` from `from` on.
pub open spec fn size_from(sizes: Seq<SourceSize>, source: SourceId, from: int) -> Option<(u32, u32)>
    decreases sizes.len() - from,
{
    if from < 0 || from >= sizes.len() {
        None
    } else if sizes[from].source == source {
        sizes[from].size
    } else {
        size_from(sizes, source, from + 1)
    }
}

/// The first size listed for `source`.
pub fn size_of(sizes: &Vec<SourceSize>, source: SourceId) -> (r: Option<(u32, u32)>)
    ensures
        r == size_from(sizes@, source, 0),
{
    let mut i: usize = 0;
    while i < sizes.len()
        invariant
            i <= sizes.len(),
            size_from(sizes@, source, 0) == size_from(sizes@, source, i as int),
        decreases sizes.len() - i,
    {
        if sizes[i].source == source {
            return sizes[i].size;
        }
        i += 1;
    }
    None
}

/// What a clip paints at `t`; nothing where too little shows or its source has no
/// picture.
pub open spec fn layer_of(
    c: Clip,
    t: Double,
    canvas: Canvas,
    sizes: Seq<SourceSize>,
) -> Option<Layer> {
    if c.alpha(t).lt(single(MIN_VISIBLE_ALPHA)) {
        None
    } else {
        match size_from(sizes, c.source, 0) {
            None => None,
            Some((sw, sh)) => Some(
                Layer {
                    source: c.source,
                    source_time: c.source_time(t),
                    rect: canvas.place(
                        Single::from_u64(sw as u64),
                        Single::from_u64(sh as u64),
                        c.transform,
                    ),
                    alpha: c.alpha(t),
                },
            ),
        }
    }
}

/// What a lane paints at `t`: the first of its clips there, where it carries video.
pub open spec fn lane_layer(
    lane: Lane,
    t: Double,
    canvas: Canvas,
    sizes: Seq<SourceSize>,
) -> Option<Layer> {
    if lane.kind != TrackKind::Video {
        None
    } else {
        match lane.active(t) {
            None => None,
            Some(i) => layer_of(lane.clips[i], t, canvas, sizes),
        }
    }
}

/// What the lanes paint at `t`, bottom layer first.
pub open spec fn layers(
    tracks: Seq<Lane>,
    t: Double,
    canvas: Canvas,
    sizes: Seq<SourceSize>,
) -> Seq<Layer>
    decreases tracks.len(),
{
    if tracks.len() == 0 {
        Seq::empty()
    } else {
        let under = layers(tracks.drop_last(), t, canvas, sizes);
        match lane_layer(tracks.last(), t, canvas, sizes) {
            Some(l) => under.push(l),
            None => under,
        }
    }
}

/// What a clip paints at `t`.
fn clip_layer(c: &Clip, t: Double, canvas: Canvas, sizes: &Vec<SourceSize>) -> (r: Option<Layer>)
    ensures
        r == layer_of(*c, t, canvas, sizes@),
{
    let alpha: Single = c.alpha(t);
    if alpha.lt(single(MIN_VISIBLE_ALPHA)) {
        return None;
    }
    match size_of(sizes, c.source) {
        None => None,
        Some((sw, sh)) => Some(
            Layer {
                source: c.source,
                source_time: c.source_time(t),
                rect: canvas.place(
                    Single::from_u64(sw as u64),
                    Single::from_u64(sh as u64),
                    c.transform,
                ),
                alpha,
            },
        ),
    }
}

/// Every picture that shows at `t`, bottom layer first. `sizes` gives the pixel
/// sizes of the sources; one that is not there is left out.
pub fn layers_at(
    tracks: &Vec<Track>,
    t: Double,
    canvas: Canvas,
    sizes: &Vec<SourceSize>,
) -> (r: Vec<Layer>)
    ensures
        r@ == layers(lanes(tracks@), t, canvas, sizes@),
{
    let mut out: Vec<Layer> = Vec::new();
    let mut i: usize = 0;
    let ghost ls = lanes(tracks@);
    proof {
        assert(ls.take(0) =~= Seq::empty());
    }
    while i < tracks.len()
        invariant
            i <= tracks.len(),
            ls == lanes(tracks@),
            out@ == layers(ls.take(i as int), t, canvas, sizes@),
        decreases tracks.len() - i,
    {
        proof {
            assert(ls.take(i + 1).drop_last() =~= ls.take(i as int));
        }
        if tracks[i].kind == TrackKind::Video {
            if let Some(k) = first_clip_at(&tracks[i].clips, t) {
                if let Some(l) = clip_layer(&tracks[i].clips[k], t, canvas, sizes) {
                    out.push(l);
                }
            }
        }
        i += 1;
    }
    proof {
        assert(ls.take(ls.len() as int) =~= ls);
    }
    out
}

} // verus!
