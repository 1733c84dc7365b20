//! The project canvas: the picture every clip is composed onto.

use crate::ieee::{double, single, Double, Single};
use crate::media::{MediaPool, Pool};
use crate::project::Setting;
use crate::raster::{below_even, even};
use crate::timeline::{Clip, Lane, SourceId, Timeline, TrackKind, Transform, ZERO};
use crate::ui::Rect;
use vstd::prelude::*;

verus! {

/// A half, as a single.
pub const HALF: u32 = 0x3f00_0000;

/// The picture every clip is composed onto, and the format an export has.
#[derive(Copy, Clone, Debug, PartialEq)]
pub struct Canvas {
    pub width: u32,
    pub height: u32,
    pub fps: Double,
}

impl Canvas {
    /// The width as a number.
    pub open spec fn spec_w(&self) -> Single {
        Single::from_u64(self.width as u64)
    }

    /// The width as a number.
    #[verifier::when_used_as_spec(spec_w)]
    pub fn w(&self) -> (r: Single)
        ensures
            r == self.spec_w(),
    {
        Single::from_u64(self.width as u64)
    }

    /// The height as a number.
    pub open spec fn spec_h(&self) -> Single {
        Single::from_u64(self.height as u64)
    }

    /// The height as a number.
    #[verifier::when_used_as_spec(spec_h)]
    pub fn h(&self) -> (r: Single)
        ensures
            r == self.spec_h(),
    {
        Single::from_u64(self.height as u64)
    }

    /// Where a `sw x sh` picture lands by itself: as large as fits with its shape
    /// kept, centred; all of the canvas for a picture without a size.
    pub open spec fn spec_fit(&self, sw: Single, sh: Single) -> Rect {
        if sw.le(single(0)) || sh.le(single(0)) {
            Rect { x: single(0), y: single(0), w: self.w(), h: self.h() }
        } else {
            let scale = self.w().over(sw).min(self.h().over(sh));
            let w = sw.times(scale);
            let h = sh.times(scale);
            Rect {
                x: self.w().minus(w).times(single(HALF)),
                y: self.h().minus(h).times(single(HALF)),
                w,
                h,
            }
        }
    }

    /// Where a `sw x sh` picture lands by itself: as large as fits with its shape
    /// kept, centred; all of the canvas for a picture without a size.
    #[verifier::when_used_as_spec(spec_fit)]
    pub fn fit(&self, sw: Single, sh: Single) -> (r: Rect)
        ensures
            r == self.spec_fit(sw, sh),
    {
        if sw.le(single(0)) || sh.le(single(0)) {
            return Rect { x: single(0), y: single(0), w: self.w(), h: self.h() };
        }
        let scale: Single = self.w().over(sw).min(self.h().over(sh));
        let w: Single = sw.times(scale);
        let h: Single = sh.times(scale);
        Rect {
            x: self.w().minus(w).times(single(HALF)),
            y: self.h().minus(h).times(single(HALF)),
            w,
            h,
        }
    }

    /// Where a `sw x sh` picture lands under a transform: scaled about the centre of
    /// its fit, then moved by fractions of the canvas.
    pub open spec fn spec_place(&self, sw: Single, sh: Single, transform: Transform) -> Rect {
        let f = self.fit(sw, sh);
        let w = f.w.times(transform.scale);
        let h = f.h.times(transform.scale);
        Rect {
            x: f.x.plus(f.w.minus(w).times(single(HALF))).plus(transform.x.times(self.w())),
            y: f.y.plus(f.h.minus(h).times(single(HALF))).plus(transform.y.times(self.h())),
            w,
            h,
        }
    }

    /// Where a `sw x sh` picture lands under a transform: scaled about the centre of
    /// its fit, then moved by fractions of the canvas.
    #[verifier::when_used_as_spec(spec_place)]
    pub fn place(&self, sw: Single, sh: Single, transform: Transform) -> (r: Rect)
        ensures
            r == self.spec_place(sw, sh, transform),
    {
        let f: Rect = self.fit(sw, sh);
        let w: Single = f.w.times(transform.scale);
        let h: Single = f.h.times(transform.scale);
        Rect {
            x: f.x.plus(f.w.minus(w).times(single(HALF))).plus(transform.x.times(self.w())),
            y: f.y.plus(f.h.minus(h).times(single(HALF))).plus(transform.y.times(self.h())),
            w,
            h,
        }
    }
}

/// The canvas size where nothing says otherwise.
pub const EXPORT_FALLBACK_WIDTH: u32 = 1920;

/// The canvas size where nothing says otherwise.
pub const EXPORT_FALLBACK_HEIGHT: u32 = 1080;

/// The frame rate where nothing says otherwise, `30`.
pub const EXPORT_FALLBACK_FPS: u64 = 0x403e_0000_0000_0000;

/// A setting of the canvas that can be chosen.
#[derive(Copy, Clone, Debug, PartialEq)]
pub enum ProjectChoice {
    Resolution(Setting<(u32, u32)>),
    Fps(Setting<Double>),
}

/// The clips among some that show footage, in order.
pub open spec fn with_footage(clips: Seq<Clip>, pool: Pool) -> Seq<Clip>
    decreases clips.len(),
{
    if clips.len() == 0 {
        Seq::empty()
    } else {
        let before = with_footage(clips.drop_last(), pool);
        if pool.has(clips.last().source) && pool.item(clips.last().source).video is Some {
            before.push(clips.last())
        } else {
            before
        }
    }
}

/// The clips of the video lanes that show footage, lane by lane.
pub open spec fn footage_in(tracks: Seq<Lane>, pool: Pool) -> Seq<Clip>
    decreases tracks.len(),
{
    if tracks.len() == 0 {
        Seq::empty()
    } else {
        let before = footage_in(tracks.drop_last(), pool);
        match tracks.last().kind {
            TrackKind::Video => before + with_footage(tracks.last().clips, pool),
            TrackKind::Audio => before,
        }
    }
}

/// The clip that begins soonest, the first of them where several do.
pub open spec fn soonest(clips: Seq<Clip>) -> Option<Clip>
    decreases clips.len(),
{
    if clips.len() == 0 {
        None
    } else {
        match soonest(clips.drop_last()) {
            None => Some(clips.last()),
            Some(b) => if clips.last().timeline_start.lt(b.timeline_start) {
                Some(clips.last())
            } else {
                Some(b)
            },
        }
    }
}

/// The clip whose format a canvas follows that nobody pinned.
pub open spec fn reference_clip(tracks: Seq<Lane>, pool: Pool) -> Option<Clip> {
    soonest(footage_in(tracks, pool))
}

/// The canvas that the settings and the footage make: pinned numbers where there are
/// some, those of the footage else; even sides, and a rate above zero.
pub open spec fn canvas_for(
    tracks: Seq<Lane>,
    pool: Pool,
    res: Setting<(u32, u32)>,
    fps: Setting<Double>,
) -> Canvas {
    let v = match reference_clip(tracks, pool) {
        Some(c) => pool.item(c.source).video,
        None => None,
    };
    let (w, h) = match res {
        Setting::Fixed(size) => size,
        Setting::Auto => match v {
            Some(v) => (v.width, v.height),
            None => (EXPORT_FALLBACK_WIDTH, EXPORT_FALLBACK_HEIGHT),
        },
    };
    let rate = match fps {
        Setting::Fixed(f) => f,
        Setting::Auto => match v {
            Some(v) => v.frame_rate,
            None => double(ZERO),
        },
    };
    Canvas {
        width: at_least_two(w),
        height: at_least_two(h),
        fps: if double(ZERO).lt(rate) {
            rate
        } else {
            double(EXPORT_FALLBACK_FPS)
        },
    }
}

/// A side brought down to an even number that can be encoded.
pub open spec fn at_least_two(v: u32) -> u32 {
    if below_even(v as int) < 2 {
        2
    } else {
        below_even(v as int) as u32
    }
}

/// A side brought down to an even number that can be encoded.
fn encodable(v: u32) -> (r: u32)
    ensures
        r == at_least_two(v),
{
    let e: u32 = even(v);
    if e < 2 {
        2
    } else {
        e
    }
}

/// A canvas can always be encoded: its sides are even and not zero, its rate is above
/// zero.
pub proof fn lemma_canvas_can_be_encoded(
    tracks: Seq<Lane>,
    pool: Pool,
    res: Setting<(u32, u32)>,
    fps: Setting<Double>,
)
    ensures
        ({
            let c = canvas_for(tracks, pool, res, fps);
            &&& c.width >= 2 && c.width % 2 == 0
            &&& c.height >= 2 && c.height % 2 == 0
            &&& double(ZERO).lt(c.fps)
        }),
{
    crate::ieee::facts::lemma_double_positive(double(EXPORT_FALLBACK_FPS));
}

/// The clip whose format a canvas follows that nobody pinned: the video clip with
/// footage that begins soonest. Titles are passed over, they have no format.
fn reference_of(timeline: &Timeline, media: &MediaPool) -> (r: Option<Clip>)
    ensures
        r == reference_clip(timeline@.tracks, media@),
        r matches Some(c) ==> media@.has(c.source),
{
    let ghost ls = timeline@.tracks;
    let ghost pool = media@;
    let mut best: Option<Clip> = None;
    let mut t: usize = 0;
    proof {
        assert(ls.take(0) =~= Seq::empty());
    }
    while t < timeline.tracks.len()
        invariant
            t <= timeline.tracks.len(),
            ls == timeline@.tracks,
            pool == media@,
            best == soonest(footage_in(ls.take(t as int), pool)),
            best matches Some(c) ==> pool.has(c.source),
        decreases timeline.tracks.len() - t,
    {
        let ghost lane = ls[t as int];
        let ghost before = footage_in(ls.take(t as int), pool);
        proof {
            assert(lane == timeline.tracks@[t as int]@);
            assert(ls.take(t + 1).drop_last() =~= ls.take(t as int));
            assert(ls.take(t + 1).last() == lane);
        }
        if timeline.tracks[t].kind == TrackKind::Video {
            let mut i: usize = 0;
            proof {
                assert(lane.clips.take(0) =~= Seq::empty());
                assert(before + with_footage(lane.clips.take(0), pool) =~= before);
            }
            while i < timeline.tracks[t].clips.len()
                invariant
                    t < timeline.tracks.len(),
                    i <= timeline.tracks@[t as int].clips.len(),
                    lane == timeline.tracks@[t as int]@,
                    pool == media@,
                    best == soonest(before + with_footage(lane.clips.take(i as int), pool)),
                    best matches Some(c) ==> pool.has(c.source),
                decreases timeline.tracks@[t as int].clips.len() - i,
            {
                let c: Clip = timeline.tracks[t].clips[i];
                let ghost was = before + with_footage(lane.clips.take(i as int), pool);
                proof {
                    assert(lane.clips.take(i + 1).drop_last() =~= lane.clips.take(i as int));
                    assert(lane.clips.take(i + 1).last() == c);
                }
                let shown: bool = match media.get(c.source) {
                    Some(s) => s.video.is_some(),
                    None => false,
                };
                if shown {
                    proof {
                        assert(before + with_footage(lane.clips.take(i + 1), pool) =~= was.push(c));
                        assert(was.push(c).drop_last() =~= was);
                    }
                    best = match best {
                        None => Some(c),
                        Some(b) => if c.timeline_start.lt(b.timeline_start) {
                            Some(c)
                        } else {
                            Some(b)
                        },
                    };
                }
                i += 1;
            }
            proof {
                assert(lane.clips.take(lane.clips.len() as int) =~= lane.clips);
            }
        }
        t += 1;
    }
    proof {
        assert(ls.take(ls.len() as int) =~= ls);
    }
    best
}

/// The source whose format a canvas follows that nobody pinned.
pub fn reference_video_source(timeline: &Timeline, media: &MediaPool) -> (r: Option<SourceId>)
    ensures
        r == (match reference_clip(timeline@.tracks, media@) {
            Some(c) => Some(c.source),
            None => None,
        }),
{
    match reference_of(timeline, media) {
        Some(c) => Some(c.source),
        None => None,
    }
}

/// The canvas that the settings and the footage make.
pub fn canvas(
    timeline: &Timeline,
    media: &MediaPool,
    res: Setting<(u32, u32)>,
    fps: Setting<Double>,
) -> (r: Canvas)
    ensures
        r == canvas_for(timeline@.tracks, media@, res, fps),
{
    let v: Option<crate::media::Footage> = match reference_of(timeline, media) {
        Some(c) => match media.get(c.source) {
            Some(s) => s.video,
            None => None,
        },
        None => None,
    };
    let (w, h): (u32, u32) = match res {
        Setting::Fixed(size) => size,
        Setting::Auto => match v {
            Some(v) => (v.width, v.height),
            None => (EXPORT_FALLBACK_WIDTH, EXPORT_FALLBACK_HEIGHT),
        },
    };
    let rate: Double = match fps {
        Setting::Fixed(f) => f,
        Setting::Auto => match v {
            Some(v) => v.frame_rate,
            None => double(ZERO),
        },
    };
    Canvas {
        width: encodable(w),
        height: encodable(h),
        fps: if double(ZERO).lt(rate) {
            rate
        } else {
            double(EXPORT_FALLBACK_FPS)
        },
    }
}

impl Setting<Double> {
    /// Whether the two settings say the same.
    pub open spec fn alike(self, o: Setting<Double>) -> bool {
        match (self, o) {
            (Setting::Auto, Setting::Auto) => true,
            (Setting::Fixed(a), Setting::Fixed(b)) => a.same(b),
            _ => false,
        }
    }

    /// Whether the two settings say the same.
    pub fn same(&self, o: &Setting<Double>) -> (r: bool)
        ensures
            r == self.alike(*o),
    {
        match (self, o) {
            (Setting::Auto, Setting::Auto) => true,
            (Setting::Fixed(a), Setting::Fixed(b)) => a.same(*b),
            _ => false,
        }
    }
}

impl Setting<(u32, u32)> {
    /// Whether the two settings say the same.
    pub fn same_size(&self, o: &Setting<(u32, u32)>) -> (r: bool)
        ensures
            r == (*self == *o),
    {
        match (self, o) {
            (Setting::Auto, Setting::Auto) => true,
            (Setting::Fixed(a), Setting::Fixed(b)) => a.0 == b.0 && a.1 == b.1,
            _ => false,
        }
    }
}

} // verus!
