//! The edit itself: clips on tracks, and the operations that keep it consistent.

use crate::ieee::facts::{lemma_double_max_zero, lemma_double_minus_nonneg, lemma_double_zero};
use crate::ieee::{double, single, Double, Single};
use vstd::prelude::*;

verus! {

/// Zero, as a double.
pub const ZERO: u64 = 0;

/// One, as a double.
pub const ONE: u64 = 0x3ff0_0000_0000_0000;

/// One, as a single: unity gain, full opacity, natural size.
pub const UNITY: u32 = 0x3f80_0000;

/// Slack when testing whether the playhead is already on a boundary: `1e-6`
/// seconds. A position that went through the audio clock may be off by that much.
pub const EDIT_POINT_EPS: u64 = 0x3eb0_c6f7_a0b5_ed8d;

/// The bottom of the level line, `-40` decibels.
pub const MIN_GAIN_DB: u32 = 0xc220_0000;

/// The top of the level line, `6` decibels.
pub const MAX_GAIN_DB: u32 = 0x40c0_0000;

/// The least opacity of a clip, `0`.
pub const MIN_OPACITY: u32 = 0;

/// The full opacity of a clip, `1`.
pub const MAX_OPACITY: u32 = 0x3f80_0000;

/// The smallest scale of a picture on the canvas, `0.05`.
pub const MIN_SCALE: u32 = 0x3d4c_cccd;

/// The largest scale of a picture on the canvas, `8`.
pub const MAX_SCALE: u32 = 0x4100_0000;

/// Which end of a clip a fade hangs off.
#[derive(Copy, Clone, Debug, PartialEq, Eq, Structural)]
pub enum FadeSide {
    In,
    Out,
}

/// The name of a source in the media pool.
#[derive(Copy, Clone, Debug, PartialEq, Eq, Hash, Structural)]
pub struct SourceId(pub u32);

/// What a track carries.
#[derive(Copy, Clone, Debug, PartialEq, Eq, Structural)]
pub enum TrackKind {
    Video,
    Audio,
}

/// Where a picture sits on the canvas: an offset in fractions of the canvas, and
/// a factor on the size at which it fits.
#[derive(Copy, Clone, Debug, PartialEq)]
pub struct Transform {
    pub x: Single,
    pub y: Single,
    pub scale: Single,
}

impl Transform {
    /// Centred, at the size that fits.
    pub open spec fn neutral() -> Transform {
        Transform { x: single(0), y: single(0), scale: single(UNITY) }
    }

    /// Whether the two place a picture alike, number by number.
    pub open spec fn alike(self, o: Transform) -> bool {
        self.x.same(o.x) && self.y.same(o.y) && self.scale.same(o.scale)
    }

    /// Whether the two place a picture alike, number by number.
    pub fn same(&self, o: &Transform) -> (r: bool)
        ensures
            r == self.alike(*o),
    {
        self.x.same(o.x) && self.y.same(o.y) && self.scale.same(o.scale)
    }
}

impl Default for Transform {
    fn default() -> (r: Transform)
        ensures
            r == Transform::neutral(),
    {
        Transform { x: single(0), y: single(0), scale: single(UNITY) }
    }
}

/// A stretch of a source placed on the timeline.
#[derive(Copy, Clone, Debug, PartialEq)]
pub struct Clip {
    /// A stable name, unlike the position in the track.
    pub id: u32,
    pub source: SourceId,
    /// Where in the source the clip begins, in seconds.
    pub source_in: Double,
    /// Where in the source the clip ends, in seconds.
    pub source_out: Double,
    /// Where on the timeline the clip begins, in seconds.
    pub timeline_start: Double,
    /// Clips that share a link move, trim and split together.
    pub link: Option<u32>,
    /// Linear level of the clip's audio.
    pub gain: Single,
    /// Length of the fade at the head, in seconds.
    pub fade_in: Double,
    /// Length of the fade at the tail, in seconds.
    pub fade_out: Double,
    /// How much of the picture shows.
    pub opacity: Single,
    pub transform: Transform,
}

impl Default for Clip {
    /// The neutral clip: unity level, fully opaque, no fades.
    fn default() -> (r: Clip)
        ensures
            r == Clip::neutral(),
    {
        Clip {
            id: 0,
            source: SourceId(0),
            source_in: double(ZERO),
            source_out: double(ZERO),
            timeline_start: double(ZERO),
            link: None,
            gain: single(UNITY),
            fade_in: double(ZERO),
            fade_out: double(ZERO),
            opacity: single(UNITY),
            transform: Transform { x: single(0), y: single(0), scale: single(UNITY) },
        }
    }
}

impl Clip {
    /// Unity level, fully opaque, no fades, of no length.
    pub open spec fn neutral() -> Clip {
        Clip {
            id: 0,
            source: SourceId(0),
            source_in: double(ZERO),
            source_out: double(ZERO),
            timeline_start: double(ZERO),
            link: None,
            gain: single(UNITY),
            fade_in: double(ZERO),
            fade_out: double(ZERO),
            opacity: single(UNITY),
            transform: Transform::neutral(),
        }
    }

    /// How long the clip runs; never negative.
    pub open spec fn spec_duration(&self) -> Double {
        self.source_out.minus(self.source_in).max(double(ZERO))
    }

    /// How long the clip runs; never negative.
    #[verifier::when_used_as_spec(spec_duration)]
    pub fn duration(&self) -> (r: Double)
        ensures
            r == self.spec_duration(),
            double(ZERO).le(r),
    {
        proof {
            lemma_double_max_zero(self.source_out.minus(self.source_in));
        }
        self.source_out.minus(self.source_in).max(double(ZERO))
    }

    /// Where on the timeline the clip ends.
    pub open spec fn spec_timeline_end(&self) -> Double {
        self.timeline_start.plus(self.duration())
    }

    /// Where on the timeline the clip ends.
    #[verifier::when_used_as_spec(spec_timeline_end)]
    pub fn timeline_end(&self) -> (r: Double)
        ensures
            r == self.spec_timeline_end(),
    {
        self.timeline_start.plus(self.duration())
    }

    /// Whether the clip covers `t`: its start counts, its end does not.
    pub open spec fn spec_contains(&self, t: Double) -> bool {
        self.timeline_start.le(t) && t.lt(self.timeline_end())
    }

    /// Whether the clip covers `t`: its start counts, its end does not.
    #[verifier::when_used_as_spec(spec_contains)]
    pub fn contains(&self, t: Double) -> (r: bool)
        ensures
            r == self.spec_contains(t),
    {
        self.timeline_start.le(t) && t.lt(self.timeline_end())
    }

    /// The time in the source that shows at `t`.
    pub open spec fn spec_source_time(&self, t: Double) -> Double {
        self.source_in.plus(t.minus(self.timeline_start).max(double(ZERO)))
    }

    /// The time in the source that shows at `t`.
    #[verifier::when_used_as_spec(spec_source_time)]
    pub fn source_time(&self, t: Double) -> (r: Double)
        ensures
            r == self.spec_source_time(t),
    {
        self.source_in.plus(t.minus(self.timeline_start).max(double(ZERO)))
    }

    /// How far the ramp at the head has come at `t`, from 0 to 1.
    pub open spec fn head(self, t: Double) -> Double {
        t.minus(self.timeline_start).over(self.fade_in).clamp(double(ZERO), double(ONE))
    }

    /// How much of the ramp at the tail is left at `t`, from 1 to 0.
    pub open spec fn tail(self, t: Double) -> Double {
        self.timeline_end().minus(t).over(self.fade_out).clamp(double(ZERO), double(ONE))
    }

    /// What the fades leave at `t`: the product of the ramps that the clip has.
    pub open spec fn taper(self, t: Double) -> Double {
        let one = double(ONE);
        let a = if double(ZERO).lt(self.fade_in) {
            one.times(self.head(t))
        } else {
            one
        };
        if double(ZERO).lt(self.fade_out) {
            a.times(self.tail(t))
        } else {
            a
        }
    }

    /// Whether the clip has no fade at all.
    pub open spec fn plain(self) -> bool {
        self.fade_in.le(double(ZERO)) && self.fade_out.le(double(ZERO))
    }

    /// What the fades leave at `t`.
    fn tapered(&self, t: Double) -> (r: Double)
        ensures
            r == self.taper(t),
    {
        proof {
            lemma_zero_le_one();
        }
        let mut f: Double = double(ONE);
        if double(ZERO).lt(self.fade_in) {
            f = f.times(
                t.minus(self.timeline_start).over(self.fade_in).clamp(double(ZERO), double(ONE)),
            );
        }
        if double(ZERO).lt(self.fade_out) {
            f = f.times(
                self.timeline_end().minus(t).over(self.fade_out).clamp(double(ZERO), double(ONE)),
            );
        }
        f
    }

    /// The level at `t`: the gain, tapered by whichever fades reach `t`.
    pub open spec fn spec_level(&self, t: Double) -> Single {
        if self.plain() {
            self.gain
        } else {
            self.gain.times(self.taper(t).to_single())
        }
    }

    /// The level at `t`: the gain, tapered by whichever fades reach `t`.
    #[verifier::when_used_as_spec(spec_level)]
    pub fn level(&self, t: Double) -> (r: Single)
        ensures
            r == self.spec_level(t),
    {
        if self.fade_in.le(double(ZERO)) && self.fade_out.le(double(ZERO)) {
            return self.gain;
        }
        self.gain.times(self.tapered(t).to_single())
    }

    /// The opacity at `t`, tapered by whichever fades reach `t`.
    pub open spec fn spec_alpha(&self, t: Double) -> Single {
        if self.plain() {
            self.opacity
        } else {
            self.opacity.times(self.taper(t).to_single())
        }
    }

    /// The opacity at `t`, tapered by whichever fades reach `t`.
    #[verifier::when_used_as_spec(spec_alpha)]
    pub fn alpha(&self, t: Double) -> (r: Single)
        ensures
            r == self.spec_alpha(t),
    {
        if self.fade_in.le(double(ZERO)) && self.fade_out.le(double(ZERO)) {
            return self.opacity;
        }
        self.opacity.times(self.tapered(t).to_single())
    }

    /// The clip with its fades pulled inside it and off each other: the head first,
    /// the tail takes what is left.
    pub open spec fn with_fades_clamped(self) -> Clip {
        let dur = self.duration();
        let head = self.fade_in.clamp(double(ZERO), dur);
        Clip {
            fade_in: head,
            fade_out: self.fade_out.clamp(double(ZERO), dur.minus(head)),
            ..self
        }
    }

    /// Whether the fades can be pulled inside the clip: what the head leaves of its
    /// length is a length.
    pub open spec fn clampable(self) -> bool {
        let dur = self.duration();
        double(ZERO).le(dur.minus(self.fade_in.clamp(double(ZERO), dur)))
    }

    /// Whether the fades can be pulled inside the clip.
    pub fn is_clampable(&self) -> (r: bool)
        ensures
            r == self.clampable(),
    {
        let dur: Double = self.duration();
        double(ZERO).le(dur.minus(self.fade_in.clamp(double(ZERO), dur)))
    }

    /// Pulls the fades back inside the clip, and off each other.
    pub fn clamp_fades(&mut self)
        requires
            old(self).clampable(),
        ensures
            *final(self) == old(self).with_fades_clamped(),
    {
        let dur: Double = self.duration();
        self.fade_in = self.fade_in.clamp(double(ZERO), dur);
        self.fade_out = self.fade_out.clamp(double(ZERO), dur.minus(self.fade_in));
    }

    /// Whether the two clips are the same, number by number.
    pub open spec fn alike(self, o: Clip) -> bool {
        &&& self.id == o.id
        &&& self.source == o.source
        &&& self.source_in.same(o.source_in)
        &&& self.source_out.same(o.source_out)
        &&& self.timeline_start.same(o.timeline_start)
        &&& self.link == o.link
        &&& self.gain.same(o.gain)
        &&& self.fade_in.same(o.fade_in)
        &&& self.fade_out.same(o.fade_out)
        &&& self.opacity.same(o.opacity)
        &&& self.transform.alike(o.transform)
    }

    /// Whether the two clips are the same, number by number.
    pub fn same(&self, o: &Clip) -> (r: bool)
        ensures
            r == self.alike(*o),
    {
        let linked_alike: bool = match (self.link, o.link) {
            (None, None) => true,
            (Some(a), Some(b)) => a == b,
            _ => false,
        };
        linked_alike && self.id == o.id && self.source.0 == o.source.0 && self.source_in.same(
            o.source_in,
        ) && self.source_out.same(o.source_out) && self.timeline_start.same(o.timeline_start)
            && self.gain.same(o.gain) && self.fade_in.same(o.fade_in) && self.fade_out.same(
            o.fade_out,
        ) && self.opacity.same(o.opacity) && self.transform.same(&o.transform)
    }
}

/// Zero is not above one.
pub proof fn lemma_zero_le_one()
    ensures
        double(ZERO).le(double(ONE)),
{
    crate::ieee::facts::lemma_double_positive(double(ONE));
}

/// A finite fade at the head can always be pulled inside the clip.
pub proof fn lemma_finite_fade_is_clampable(c: Clip)
    requires
        c.fade_in.is_finite(),
    ensures
        c.clampable(),
        c.with_fades_clamped().fade_in.is_finite(),
{
    let dur = c.duration();
    lemma_double_max_zero(c.source_out.minus(c.source_in));
    lemma_double_zero();
    lemma_double_minus_nonneg(dur, c.fade_in.clamp(double(ZERO), dur));
}

/// After clamping, both fades lie inside the clip: the head within its length, the
/// tail within what the head leaves.
pub proof fn lemma_clamped_fades_fit(c: Clip)
    requires
        c.clampable(),
        !c.fade_in.is_nan(),
        !c.fade_out.is_nan(),
    ensures
        ({
            let r = c.with_fades_clamped();
            &&& r.duration() == c.duration()
            &&& double(ZERO).le(r.fade_in)
            &&& r.fade_in.le(r.duration())
            &&& double(ZERO).le(r.fade_out)
            &&& r.fade_out.le(r.duration().minus(r.fade_in))
        }),
{
    lemma_double_max_zero(c.source_out.minus(c.source_in));
    lemma_double_zero();
}

/// Clamping fades that were clamped changes nothing.
pub proof fn lemma_clamping_settles(c: Clip)
    requires
        c.clampable(),
        !c.fade_in.is_nan(),
        !c.fade_out.is_nan(),
    ensures
        c.with_fades_clamped().with_fades_clamped() == c.with_fades_clamped(),
{
    lemma_clamped_fades_fit(c);
}

/// A lane of the timeline.
#[derive(Debug, PartialEq)]
pub struct Track {
    pub kind: TrackKind,
    pub clips: Vec<Clip>,
}

/// What a track is: its kind and its clips in order.
#[verifier::ext_equal]
pub struct Lane {
    pub kind: TrackKind,
    pub clips: Seq<Clip>,
}

impl View for Track {
    type V = Lane;

    open spec fn view(&self) -> Lane {
        Lane { kind: self.kind, clips: self.clips@ }
    }
}

/// The tracks as lanes.
pub open spec fn lanes(tracks: Seq<Track>) -> Seq<Lane> {
    Seq::new(tracks.len(), |i: int| tracks[i]@)
}

impl Lane {
    /// The first clip that covers `t`, as its position.
    pub open spec fn active(self, t: Double) -> Option<int> {
        first_covering(self.clips, t, 0)
    }
}

/// The first position from `from` on whose clip covers `t`.
pub open spec fn first_covering(clips: Seq<Clip>, t: Double, from: int) -> Option<int>
    decreases clips.len() - from,
{
    if from < 0 || from >= clips.len() {
        None
    } else if clips[from].contains(t) {
        Some(from)
    } else {
        first_covering(clips, t, from + 1)
    }
}

/// The first clip that covers `t`, as its position.
pub fn first_clip_at(clips: &Vec<Clip>, t: Double) -> (r: Option<usize>)
    ensures
        match r {
            Some(i) => first_covering(clips@, t, 0) == Some(i as int) && i < clips.len(),
            None => first_covering(clips@, t, 0) is None,
        },
{
    let mut i: usize = 0;
    while i < clips.len()
        invariant
            i <= clips.len(),
            first_covering(clips@, t, 0) == first_covering(clips@, t, i as int),
        decreases clips.len() - i,
    {
        if clips[i].contains(t) {
            return Some(i);
        }
        i += 1;
    }
    None
}

impl Track {
    /// An empty track.
    pub fn new(kind: TrackKind) -> (r: Track)
        ensures
            r@ == (Lane { kind, clips: Seq::empty() }),
    {
        Track { kind, clips: Vec::new() }
    }

    /// The first clip that covers `t`.
    pub fn active_clip(&self, t: Double) -> (r: Option<&Clip>)
        ensures
            match self@.active(t) {
                Some(i) => 0 <= i < self.clips.len() && r == Some(&self.clips@[i]),
                None => r is None,
            },
    {
        match first_clip_at(&self.clips, t) {
            Some(i) => Some(&self.clips[i]),
            None => None,
        }
    }
}

/// A copy of a list of clips.
pub fn copy_clips(clips: &Vec<Clip>) -> (r: Vec<Clip>)
    ensures
        r@ == clips@,
{
    let mut out: Vec<Clip> = Vec::new();
    let mut i: usize = 0;
    while i < clips.len()
        invariant
            i <= clips.len(),
            out@ == clips@.take(i as int),
        decreases clips.len() - i,
    {
        out.push(clips[i]);
        i += 1;
    }
    out
}

/// A copy of a list of tracks.
pub fn copy_tracks(tracks: &Vec<Track>) -> (r: Vec<Track>)
    ensures
        lanes(r@) == lanes(tracks@),
{
    let mut out: Vec<Track> = Vec::new();
    let mut i: usize = 0;
    while i < tracks.len()
        invariant
            i <= tracks.len(),
            lanes(out@) =~= lanes(tracks@).take(i as int),
        decreases tracks.len() - i,
    {
        let t: Track = Track { kind: tracks[i].kind, clips: copy_clips(&tracks[i].clips) };
        let ghost before = out@;
        out.push(t);
        proof {
            assert(t@ =~= tracks@[i as int]@);
            assert(lanes(out@) =~= lanes(before).push(t@));
            assert(lanes(tracks@).take(i + 1) =~= lanes(tracks@).take(i as int).push(t@));
        }
        i += 1;
    }
    out
}

/// The tracks of an edit, and the counters that name its clips and links.
pub struct Timeline {
    pub tracks: Vec<Track>,
    pub next_link: u32,
    pub next_clip: u32,
}

/// A complete copy of a timeline.
#[derive(Debug, PartialEq)]
pub struct TimelineSnapshot {
    pub tracks: Vec<Track>,
    pub next_link: u32,
    pub next_clip: u32,
}

/// What a timeline is.
#[verifier::ext_equal]
pub struct Reel {
    pub tracks: Seq<Lane>,
    pub next_link: u32,
    pub next_clip: u32,
}

impl View for Timeline {
    type V = Reel;

    open spec fn view(&self) -> Reel {
        Reel {
            tracks: lanes(self.tracks@),
            next_link: self.next_link,
            next_clip: self.next_clip,
        }
    }
}

impl View for TimelineSnapshot {
    type V = Reel;

    open spec fn view(&self) -> Reel {
        Reel {
            tracks: lanes(self.tracks@),
            next_link: self.next_link,
            next_clip: self.next_clip,
        }
    }
}

/// Whether two lists of clips are the same, number by number.
pub open spec fn clips_alike(a: Seq<Clip>, b: Seq<Clip>) -> bool {
    a.len() == b.len() && forall|i: int| 0 <= i < a.len() ==> (#[trigger] a[i]).alike(b[i])
}

impl Reel {
    /// Whether there is a clip at this position.
    pub open spec fn has(self, track: int, idx: int) -> bool {
        0 <= track < self.tracks.len() && 0 <= idx < self.tracks[track].clips.len()
    }

    /// The clip at a position.
    pub open spec fn clip(self, track: int, idx: int) -> Clip {
        self.tracks[track].clips[idx]
    }

    /// The reel with one clip replaced.
    pub open spec fn with_clip(self, track: int, idx: int, c: Clip) -> Reel {
        Reel {
            tracks: self.tracks.update(
                track,
                Lane {
                    kind: self.tracks[track].kind,
                    clips: self.tracks[track].clips.update(idx, c),
                },
            ),
            ..self
        }
    }

    /// Whether two reels are the same, number by number.
    pub open spec fn alike(self, o: Reel) -> bool {
        &&& self.next_link == o.next_link
        &&& self.next_clip == o.next_clip
        &&& self.tracks.len() == o.tracks.len()
        &&& forall|i: int|
            0 <= i < self.tracks.len() ==> (#[trigger] self.tracks[i]).kind == o.tracks[i].kind
                && clips_alike(self.tracks[i].clips, o.tracks[i].clips)
    }

    /// Every clip has a name below the counter, and no two share one.
    pub open spec fn named(self) -> bool {
        &&& forall|t: int, i: int| #[trigger]
            self.has(t, i) ==> self.clip(t, i).id < self.next_clip
        &&& forall|t: int, i: int, u: int, j: int|
            #![trigger self.has(t, i), self.has(u, j)]
            self.has(t, i) && self.has(u, j) && self.clip(t, i).id == self.clip(u, j).id ==> t == u
                && i == j
    }

    /// Every link lies below the counter.
    pub open spec fn linked(self) -> bool {
        forall|t: int, i: int| #[trigger]
            self.has(t, i) ==> (self.clip(t, i).link matches Some(l) ==> l < self.next_link)
    }
}

/// All the clips of some lanes, lane by lane.
pub open spec fn clips_of(tracks: Seq<Lane>) -> Seq<Clip>
    decreases tracks.len(),
{
    if tracks.len() == 0 {
        Seq::empty()
    } else {
        clips_of(tracks.drop_last()) + tracks.last().clips
    }
}

/// The latest of a starting time and the ends of some clips.
pub open spec fn latest_end(clips: Seq<Clip>) -> Double
    decreases clips.len(),
{
    if clips.len() == 0 {
        double(ZERO)
    } else {
        latest_end(clips.drop_last()).max(clips.last().timeline_end())
    }
}

/// Zero, then the start and the end of every clip.
pub open spec fn boundaries(clips: Seq<Clip>) -> Seq<Double>
    decreases clips.len(),
{
    if clips.len() == 0 {
        seq![double(ZERO)]
    } else {
        boundaries(clips.drop_last()).push(clips.last().timeline_start).push(
            clips.last().timeline_end(),
        )
    }
}

/// The clips that do not come from `source`, in order.
pub open spec fn without_source(clips: Seq<Clip>, source: SourceId) -> Seq<Clip>
    decreases clips.len(),
{
    if clips.len() == 0 {
        Seq::empty()
    } else if clips.last().source == source {
        without_source(clips.drop_last(), source)
    } else {
        without_source(clips.drop_last(), source).push(clips.last())
    }
}

/// The latest of some times before a limit.
pub open spec fn latest_before(pts: Seq<Double>, limit: Double) -> Option<Double>
    decreases pts.len(),
{
    if pts.len() == 0 {
        None
    } else {
        let so_far = latest_before(pts.drop_last(), limit);
        if pts.last().lt(limit) {
            Some(
                match so_far {
                    Some(b) => b.max(pts.last()),
                    None => pts.last(),
                },
            )
        } else {
            so_far
        }
    }
}

/// The earliest of some times after a limit.
pub open spec fn earliest_after(pts: Seq<Double>, limit: Double) -> Option<Double>
    decreases pts.len(),
{
    if pts.len() == 0 {
        None
    } else {
        let so_far = earliest_after(pts.drop_last(), limit);
        if limit.lt(pts.last()) {
            Some(
                match so_far {
                    Some(b) => b.min(pts.last()),
                    None => pts.last(),
                },
            )
        } else {
            so_far
        }
    }
}

impl Reel {
    /// The boundary that going back or on from a time leads to.
    pub open spec fn edit_point(self, t: Double, forward: bool) -> Option<Double> {
        let pts = boundaries(clips_of(self.tracks));
        if forward {
            earliest_after(pts, t.plus(double(EDIT_POINT_EPS)))
        } else {
            latest_before(pts, t.minus(double(EDIT_POINT_EPS)))
        }
    }
}

/// One more lane, clip by clip.
pub proof fn lemma_clips_of_step(tracks: Seq<Lane>, i: int, j: int)
    requires
        0 <= i < tracks.len(),
        0 <= j < tracks[i].clips.len(),
    ensures
        (clips_of(tracks.take(i)) + tracks[i].clips.take(j)).push(tracks[i].clips[j])
            == clips_of(tracks.take(i)) + tracks[i].clips.take(j + 1),
{
    assert((clips_of(tracks.take(i)) + tracks[i].clips.take(j)).push(tracks[i].clips[j])
        =~= clips_of(tracks.take(i)) + tracks[i].clips.take(j + 1));
}

/// A lane that was walked to its end.
pub proof fn lemma_clips_of_lane(tracks: Seq<Lane>, i: int)
    requires
        0 <= i < tracks.len(),
    ensures
        clips_of(tracks.take(i + 1)) == clips_of(tracks.take(i)) + tracks[i].clips,
        tracks[i].clips.take(tracks[i].clips.len() as int) == tracks[i].clips,
        clips_of(tracks.take(i)) + tracks[i].clips.take(0) == clips_of(tracks.take(i)),
{
    assert(tracks.take(i + 1).drop_last() =~= tracks.take(i));
    assert(tracks[i].clips.take(tracks[i].clips.len() as int) =~= tracks[i].clips);
    assert(clips_of(tracks.take(i)) + tracks[i].clips.take(0) =~= clips_of(tracks.take(i)));
}

/// Walking on by one clip.
proof fn lemma_walk_push(clips: Seq<Clip>, c: Clip)
    ensures
        latest_end(clips.push(c)) == latest_end(clips).max(c.timeline_end()),
        boundaries(clips.push(c)) == boundaries(clips).push(c.timeline_start).push(
            c.timeline_end(),
        ),
{
    assert(clips.push(c).drop_last() =~= clips);
}

impl Timeline {
    /// A timeline without tracks.
    pub fn new() -> (r: Timeline)
        ensures
            r@ == (Reel { tracks: Seq::empty(), next_link: 0, next_clip: 0 }),
    {
        let r: Timeline = Timeline { tracks: Vec::new(), next_link: 0, next_clip: 0 };
        proof {
            assert(r@.tracks =~= Seq::empty());
        }
        r
    }

    /// A name for a clip that no clip has had.
    pub fn new_clip_id(&mut self) -> (id: u32)
        requires
            old(self).next_clip < u32::MAX,
        ensures
            id == old(self).next_clip,
            final(self)@ == (Reel { next_clip: (id + 1) as u32, ..old(self)@ }),
            final(self).tracks == old(self).tracks,
    {
        let id: u32 = self.next_clip;
        self.next_clip = self.next_clip + 1;
        id
    }

    /// A name for a linked group that no group has had.
    pub fn new_link_id(&mut self) -> (id: u32)
        requires
            old(self).next_link < u32::MAX,
        ensures
            id == old(self).next_link,
            final(self)@ == (Reel { next_link: (id + 1) as u32, ..old(self)@ }),
            final(self).tracks == old(self).tracks,
    {
        let id: u32 = self.next_link;
        self.next_link = self.next_link + 1;
        id
    }

    /// The position of the first clip called `id`, lane by lane; none once it has
    /// been deleted.
    pub fn find(&self, id: u32) -> (r: Option<(usize, usize)>)
        ensures
            match r {
                Some((t, i)) => {
                    &&& self@.has(t as int, i as int)
                    &&& self@.clip(t as int, i as int).id == id
                    &&& forall|u: int, j: int| #[trigger]
                        self@.has(u, j) && (u < t || (u == t && j < i)) ==> self@.clip(u, j).id
                            != id
                },
                None => forall|u: int, j: int| #[trigger]
                    self@.has(u, j) ==> self@.clip(u, j).id != id,
            },
    {
        let mut t: usize = 0;
        while t < self.tracks.len()
            invariant
                t <= self.tracks.len(),
                forall|u: int, j: int| #[trigger]
                    self@.has(u, j) && u < t ==> self@.clip(u, j).id != id,
            decreases self.tracks.len() - t,
        {
            let mut i: usize = 0;
            while i < self.tracks[t].clips.len()
                invariant
                    t < self.tracks.len(),
                    i <= self.tracks@[t as int].clips.len(),
                    forall|u: int, j: int| #[trigger]
                        self@.has(u, j) && (u < t || (u == t && j < i)) ==> self@.clip(u, j).id
                            != id,
                decreases self.tracks@[t as int].clips.len() - i,
            {
                if self.tracks[t].clips[i].id == id {
                    return Some((t, i));
                }
                i += 1;
            }
            t += 1;
        }
        None
    }

    /// A complete copy.
    pub fn snapshot(&self) -> (r: TimelineSnapshot)
        ensures
            r@ == self@,
    {
        TimelineSnapshot {
            tracks: copy_tracks(&self.tracks),
            next_link: self.next_link,
            next_clip: self.next_clip,
        }
    }

    /// Becomes what the snapshot was taken of.
    pub fn restore(&mut self, snap: &TimelineSnapshot)
        ensures
            final(self)@ == snap@,
    {
        self.tracks = copy_tracks(&snap.tracks);
        self.next_link = snap.next_link;
        self.next_clip = snap.next_clip;
    }

    /// Appends an empty track, and returns its position.
    pub fn push_track(&mut self, kind: TrackKind) -> (at: usize)
        ensures
            at == old(self)@.tracks.len(),
            final(self)@ == (Reel {
                tracks: old(self)@.tracks.push(Lane { kind, clips: Seq::empty() }),
                ..old(self)@
            }),
    {
        self.tracks.push(Track::new(kind));
        proof {
            assert(self@.tracks =~= old(self)@.tracks.push(Lane { kind, clips: Seq::empty() }));
        }
        self.tracks.len() - 1
    }

    /// The latest end of any clip; zero where there is none.
    pub fn duration(&self) -> (r: Double)
        ensures
            r == latest_end(clips_of(self@.tracks)),
    {
        let mut last: Double = double(ZERO);
        let mut t: usize = 0;
        let ghost ls = self@.tracks;
        proof {
            assert(ls.take(0) =~= Seq::empty());
        }
        while t < self.tracks.len()
            invariant
                t <= self.tracks.len(),
                ls == self@.tracks,
                last == latest_end(clips_of(ls.take(t as int))),
            decreases self.tracks.len() - t,
        {
            let mut i: usize = 0;
            proof {
                lemma_clips_of_lane(ls, t as int);
            }
            while i < self.tracks[t].clips.len()
                invariant
                    t < self.tracks.len(),
                    ls == self@.tracks,
                    i <= self.tracks@[t as int].clips.len(),
                    last == latest_end(
                        clips_of(ls.take(t as int)) + ls[t as int].clips.take(i as int),
                    ),
                decreases self.tracks@[t as int].clips.len() - i,
            {
                last = last.max(self.tracks[t].clips[i].timeline_end());
                proof {
                    lemma_clips_of_step(ls, t as int, i as int);
                    lemma_walk_push(
                        clips_of(ls.take(t as int)) + ls[t as int].clips.take(i as int),
                        ls[t as int].clips[i as int],
                    );
                }
                i += 1;
            }
            proof {
                lemma_clips_of_lane(ls, t as int);
            }
            t += 1;
        }
        proof {
            assert(ls.take(ls.len() as int) =~= ls);
        }
        last
    }

    /// Zero, then the start and the end of every clip, lane by lane.
    pub fn edit_points(&self) -> (r: Vec<Double>)
        ensures
            r@ == boundaries(clips_of(self@.tracks)),
    {
        let mut pts: Vec<Double> = Vec::new();
        pts.push(double(ZERO));
        let mut t: usize = 0;
        let ghost ls = self@.tracks;
        proof {
            assert(ls.take(0) =~= Seq::empty());
        }
        while t < self.tracks.len()
            invariant
                t <= self.tracks.len(),
                ls == self@.tracks,
                pts@ == boundaries(clips_of(ls.take(t as int))),
            decreases self.tracks.len() - t,
        {
            let mut i: usize = 0;
            proof {
                lemma_clips_of_lane(ls, t as int);
            }
            while i < self.tracks[t].clips.len()
                invariant
                    t < self.tracks.len(),
                    ls == self@.tracks,
                    i <= self.tracks@[t as int].clips.len(),
                    pts@ == boundaries(
                        clips_of(ls.take(t as int)) + ls[t as int].clips.take(i as int),
                    ),
                decreases self.tracks@[t as int].clips.len() - i,
            {
                pts.push(self.tracks[t].clips[i].timeline_start);
                pts.push(self.tracks[t].clips[i].timeline_end());
                proof {
                    lemma_clips_of_step(ls, t as int, i as int);
                    lemma_walk_push(
                        clips_of(ls.take(t as int)) + ls[t as int].clips.take(i as int),
                        ls[t as int].clips[i as int],
                    );
                }
                i += 1;
            }
            proof {
                lemma_clips_of_lane(ls, t as int);
            }
            t += 1;
        }
        proof {
            assert(ls.take(ls.len() as int) =~= ls);
        }
        pts
    }

    /// The nearest boundary before `t`, beyond the slack; zero counts as one.
    pub fn prev_edit_point(&self, t: Double) -> (r: Option<Double>)
        ensures
            r == self@.edit_point(t, false),
            ({
                let limit = t.minus(double(EDIT_POINT_EPS));
                let pts = boundaries(clips_of(self@.tracks));
                match r {
                    Some(p) => {
                        &&& pts.contains(p)
                        &&& p.lt(limit)
                        &&& forall|i: int|
                            0 <= i < pts.len() && (#[trigger] pts[i]).lt(limit) ==> pts[i].le(p)
                    },
                    None => forall|i: int| 0 <= i < pts.len() ==> !(#[trigger] pts[i]).lt(limit),
                }
            }),
    {
        let pts: Vec<Double> = self.edit_points();
        let limit: Double = t.minus(double(EDIT_POINT_EPS));
        let mut best: Option<Double> = None;
        let mut i: usize = 0;
        proof {
            assert(pts@.take(0) =~= Seq::empty());
        }
        while i < pts.len()
            invariant
                i <= pts.len(),
                best == latest_before(pts@.take(i as int), limit),
                match best {
                    Some(p) => {
                        &&& pts@.contains(p)
                        &&& p.lt(limit)
                        &&& forall|j: int|
                            0 <= j < i && (#[trigger] pts@[j]).lt(limit) ==> pts@[j].le(p)
                    },
                    None => forall|j: int| 0 <= j < i ==> !(#[trigger] pts@[j]).lt(limit),
                },
            decreases pts.len() - i,
        {
            let p: Double = pts[i];
            proof {
                assert(pts@.take(i + 1).drop_last() =~= pts@.take(i as int));
                assert(pts@.take(i + 1).last() == p);
            }
            if p.lt(limit) {
                best = Some(
                    match best {
                        Some(b) => b.max(p),
                        None => p,
                    },
                );
            }
            i += 1;
        }
        proof {
            assert(pts@.take(pts.len() as int) =~= pts@);
        }
        best
    }

    /// The nearest boundary after `t`, beyond the slack; zero counts as one.
    pub fn next_edit_point(&self, t: Double) -> (r: Option<Double>)
        ensures
            r == self@.edit_point(t, true),
            ({
                let limit = t.plus(double(EDIT_POINT_EPS));
                let pts = boundaries(clips_of(self@.tracks));
                match r {
                    Some(p) => {
                        &&& pts.contains(p)
                        &&& limit.lt(p)
                        &&& forall|i: int|
                            0 <= i < pts.len() && limit.lt(#[trigger] pts[i]) ==> p.le(pts[i])
                    },
                    None => forall|i: int| 0 <= i < pts.len() ==> !limit.lt(#[trigger] pts[i]),
                }
            }),
    {
        let pts: Vec<Double> = self.edit_points();
        let limit: Double = t.plus(double(EDIT_POINT_EPS));
        let mut best: Option<Double> = None;
        let mut i: usize = 0;
        proof {
            assert(pts@.take(0) =~= Seq::empty());
        }
        while i < pts.len()
            invariant
                i <= pts.len(),
                best == earliest_after(pts@.take(i as int), limit),
                match best {
                    Some(p) => {
                        &&& pts@.contains(p)
                        &&& limit.lt(p)
                        &&& forall|j: int|
                            0 <= j < i && limit.lt(#[trigger] pts@[j]) ==> p.le(pts@[j])
                    },
                    None => forall|j: int| 0 <= j < i ==> !limit.lt(#[trigger] pts@[j]),
                },
            decreases pts.len() - i,
        {
            let p: Double = pts[i];
            proof {
                assert(pts@.take(i + 1).drop_last() =~= pts@.take(i as int));
                assert(pts@.take(i + 1).last() == p);
            }
            if limit.lt(p) {
                best = Some(
                    match best {
                        Some(b) => b.min(p),
                        None => p,
                    },
                );
            }
            i += 1;
        }
        proof {
            assert(pts@.take(pts.len() as int) =~= pts@);
        }
        best
    }
}

/// Whether some clip runs over any of `start .. end`.
pub open spec fn busy(clips: Seq<Clip>, start: Double, end: Double) -> bool {
    exists|i: int|
        0 <= i < clips.len() && (#[trigger] clips[i]).timeline_start.lt(end) && start.lt(
            clips[i].timeline_end(),
        )
}

impl Lane {
    /// An audio lane with nothing over `start .. end`.
    pub open spec fn free(self, start: Double, end: Double) -> bool {
        self.kind == TrackKind::Audio && !busy(self.clips, start, end)
    }

    /// A video lane with a clip at `t`.
    pub open spec fn shows(self, t: Double) -> bool {
        self.kind == TrackKind::Video && self.active(t) is Some
    }
}

/// The first lane from `from` on that is free over `start .. end`.
pub open spec fn first_free(tracks: Seq<Lane>, start: Double, end: Double, from: int) -> Option<
    usize,
>
    decreases tracks.len() - from,
{
    if from < 0 || from >= tracks.len() {
        None
    } else if tracks[from].free(start, end) {
        Some(from as usize)
    } else {
        first_free(tracks, start, end, from + 1)
    }
}

/// A position that `first_covering` gives lies in the list and covers the time.
pub proof fn lemma_first_covering(clips: Seq<Clip>, t: Double, from: int)
    requires
        0 <= from,
    ensures
        first_covering(clips, t, from) matches Some(i) ==> from <= i < clips.len()
            && clips[i].contains(t) && forall|j: int|
            from <= j < i ==> !(#[trigger] clips[j]).contains(t),
        first_covering(clips, t, from) is None ==> forall|j: int|
            from <= j < clips.len() ==> !(#[trigger] clips[j]).contains(t),
    decreases clips.len() - from,
{
    if from < clips.len() && !clips[from].contains(t) {
        lemma_first_covering(clips, t, from + 1);
    }
}

impl Timeline {
    /// Whether some clip of the track runs over any of `start .. end`.
    fn is_busy(&self, track: usize, start: Double, end: Double) -> (r: bool)
        requires
            track < self.tracks.len(),
        ensures
            r == busy(self@.tracks[track as int].clips, start, end),
    {
        let mut i: usize = 0;
        while i < self.tracks[track].clips.len()
            invariant
                track < self.tracks.len(),
                i <= self.tracks@[track as int].clips.len(),
                forall|j: int|
                    0 <= j < i ==> !((#[trigger] self@.tracks[track as int].clips[j]).timeline_start.lt(
                        end,
                    ) && start.lt(self@.tracks[track as int].clips[j].timeline_end())),
            decreases self.tracks@[track as int].clips.len() - i,
        {
            let c: &Clip = &self.tracks[track].clips[i];
            if c.timeline_start.lt(end) && start.lt(c.timeline_end()) {
                proof {
                    let ghost cs = self@.tracks[track as int].clips;
                    assert(cs[i as int].timeline_start.lt(end));
                }
                return true;
            }
            i += 1;
        }
        false
    }

    /// The first audio track with nothing over `start .. end`.
    pub fn free_audio_track(&self, start: Double, end: Double) -> (r: Option<usize>)
        ensures
            r == first_free(self@.tracks, start, end, 0),
            match r {
                Some(i) => {
                    &&& i < self@.tracks.len()
                    &&& self@.tracks[i as int].free(start, end)
                    &&& forall|j: int| 0 <= j < i ==> !(#[trigger] self@.tracks[j]).free(start, end)
                },
                None => forall|j: int|
                    0 <= j < self@.tracks.len() ==> !(#[trigger] self@.tracks[j]).free(start, end),
            },
    {
        let mut i: usize = 0;
        while i < self.tracks.len()
            invariant
                i <= self.tracks.len(),
                first_free(self@.tracks, start, end, 0) == first_free(
                    self@.tracks,
                    start,
                    end,
                    i as int,
                ),
                forall|j: int| 0 <= j < i ==> !(#[trigger] self@.tracks[j]).free(start, end),
            decreases self.tracks.len() - i,
        {
            if self.tracks[i].kind == TrackKind::Audio && !self.is_busy(i, start, end) {
                return Some(i);
            }
            i += 1;
        }
        None
    }

    /// Drops every clip that comes from `source`.
    pub fn remove_source(&mut self, source: SourceId)
        ensures
            final(self)@ == old(self)@.less_source(source),
    {
        let mut out: Vec<Track> = Vec::new();
        let mut i: usize = 0;
        while i < self.tracks.len()
            invariant
                i <= self.tracks.len(),
                *self == *old(self),
                lanes(out@) =~= self@.less_source(source).tracks.take(i as int),
            decreases self.tracks.len() - i,
        {
            let t: Track = Track {
                kind: self.tracks[i].kind,
                clips: clips_without(&self.tracks[i].clips, source),
            };
            let ghost before = out@;
            out.push(t);
            proof {
                assert(t@ =~= self@.less_source(source).tracks[i as int]);
                assert(lanes(out@) =~= lanes(before).push(t@));
                assert(self@.less_source(source).tracks.take(i + 1)
                    =~= self@.less_source(source).tracks.take(i as int).push(t@));
            }
            i += 1;
        }
        self.tracks = out;
        proof {
            assert(self@.tracks =~= old(self)@.less_source(source).tracks);
        }
    }

    /// The clip that covers `t` on the highest video track that has one, with its
    /// track.
    pub fn topmost_video_clip(&self, t: Double) -> (r: Option<(usize, &Clip)>)
        ensures
            match r {
                Some((i, c)) => {
                    &&& i < self@.tracks.len()
                    &&& self@.tracks[i as int].kind == TrackKind::Video
                    &&& (self@.tracks[i as int].active(t) matches Some(k)
                        && self@.tracks[i as int].clips[k] == *c)
                    &&& forall|j: int|
                        i < j < self@.tracks.len() ==> !(#[trigger] self@.tracks[j]).shows(t)
                },
                None => forall|j: int|
                    0 <= j < self@.tracks.len() ==> !(#[trigger] self@.tracks[j]).shows(t),
            },
    {
        let mut i: usize = self.tracks.len();
        while i > 0
            invariant
                i <= self.tracks.len(),
                forall|j: int|
                    i <= j < self@.tracks.len() ==> !(#[trigger] self@.tracks[j]).shows(t),
            decreases i,
        {
            i -= 1;
            if self.tracks[i].kind == TrackKind::Video {
                if let Some(k) = first_clip_at(&self.tracks[i].clips, t) {
                    return Some((i, &self.tracks[i].clips[k]));
                }
            }
        }
        None
    }

    /// Sets the counters just above every name and link in use.
    pub fn reseed_counters(&mut self)
        requires
            forall|t: int, i: int| #[trigger]
                old(self)@.has(t, i) ==> old(self)@.clip(t, i).id < u32::MAX && (old(self)@.clip(
                    t,
                    i,
                ).link matches Some(l) ==> l < u32::MAX),
        ensures
            final(self)@.tracks == old(self)@.tracks,
            final(self)@.next_clip == past_ids(clips_of(old(self)@.tracks)),
            final(self)@.next_link == past_links(clips_of(old(self)@.tracks)),
    {
        let mut clip: u32 = 0;
        let mut link: u32 = 0;
        let ghost ls = self@.tracks;
        let mut t: usize = 0;
        proof {
            assert(ls.take(0) =~= Seq::empty());
        }
        while t < self.tracks.len()
            invariant
                t <= self.tracks.len(),
                *self == *old(self),
                ls == self@.tracks,
                forall|t: int, i: int| #[trigger]
                    self@.has(t, i) ==> self@.clip(t, i).id < u32::MAX && (self@.clip(
                        t,
                        i,
                    ).link matches Some(l) ==> l < u32::MAX),
                clip == past_ids(clips_of(ls.take(t as int))),
                link == past_links(clips_of(ls.take(t as int))),
            decreases self.tracks.len() - t,
        {
            let mut i: usize = 0;
            proof {
                lemma_clips_of_lane(ls, t as int);
            }
            while i < self.tracks[t].clips.len()
                invariant
                    t < self.tracks.len(),
                    *self == *old(self),
                    ls == self@.tracks,
                    i <= self.tracks@[t as int].clips.len(),
                    forall|t: int, i: int| #[trigger]
                        self@.has(t, i) ==> self@.clip(t, i).id < u32::MAX && (self@.clip(
                            t,
                            i,
                        ).link matches Some(l) ==> l < u32::MAX),
                    clip == past_ids(
                        clips_of(ls.take(t as int)) + ls[t as int].clips.take(i as int),
                    ),
                    link == past_links(
                        clips_of(ls.take(t as int)) + ls[t as int].clips.take(i as int),
                    ),
                decreases self.tracks@[t as int].clips.len() - i,
            {
                proof {
                    assert(self@.has(t as int, i as int));
                    lemma_clips_of_step(ls, t as int, i as int);
                    lemma_past_push(
                        clips_of(ls.take(t as int)) + ls[t as int].clips.take(i as int),
                        ls[t as int].clips[i as int],
                    );
                }
                let c: &Clip = &self.tracks[t].clips[i];
                if c.id + 1 > clip {
                    clip = c.id + 1;
                }
                if let Some(l) = c.link {
                    if l + 1 > link {
                        link = l + 1;
                    }
                }
                i += 1;
            }
            proof {
                lemma_clips_of_lane(ls, t as int);
            }
            t += 1;
        }
        proof {
            assert(ls.take(ls.len() as int) =~= ls);
        }
        self.next_clip = clip;
        self.next_link = link;
    }
}

/// One past the largest name; zero where there is no clip.
pub open spec fn past_ids(clips: Seq<Clip>) -> int
    decreases clips.len(),
{
    if clips.len() == 0 {
        0
    } else {
        let before = past_ids(clips.drop_last());
        if clips.last().id + 1 > before {
            clips.last().id + 1
        } else {
            before
        }
    }
}

/// One past the largest link; zero where nothing is linked.
pub open spec fn past_links(clips: Seq<Clip>) -> int
    decreases clips.len(),
{
    if clips.len() == 0 {
        0
    } else {
        let before = past_links(clips.drop_last());
        match clips.last().link {
            Some(l) => if l + 1 > before {
                l + 1
            } else {
                before
            },
            None => before,
        }
    }
}

/// One more clip.
proof fn lemma_past_push(clips: Seq<Clip>, c: Clip)
    ensures
        past_ids(clips.push(c)) == (if c.id + 1 > past_ids(clips) {
            c.id + 1
        } else {
            past_ids(clips)
        }),
        past_links(clips.push(c)) == (match c.link {
            Some(l) => if l + 1 > past_links(clips) {
                l + 1
            } else {
                past_links(clips)
            },
            None => past_links(clips),
        }),
        past_ids(clips) >= 0,
        past_links(clips) >= 0,
    decreases clips.len(),
{
    assert(clips.push(c).drop_last() =~= clips);
    if clips.len() > 0 {
        lemma_past_push(clips.drop_last(), clips.last());
        assert(clips.drop_last().push(clips.last()) =~= clips);
    }
}

impl Reel {
    /// The reel without the clips of `source`.
    pub open spec fn less_source(self, source: SourceId) -> Reel {
        Reel {
            tracks: Seq::new(
                self.tracks.len(),
                |i: int|
                    Lane {
                        kind: self.tracks[i].kind,
                        clips: without_source(self.tracks[i].clips, source),
                    },
            ),
            ..self
        }
    }
}

/// The clips that do not come from `source`, in order.
fn clips_without(clips: &Vec<Clip>, source: SourceId) -> (r: Vec<Clip>)
    ensures
        r@ == without_source(clips@, source),
{
    let mut out: Vec<Clip> = Vec::new();
    let mut i: usize = 0;
    while i < clips.len()
        invariant
            i <= clips.len(),
            out@ == without_source(clips@.take(i as int), source),
        decreases clips.len() - i,
    {
        proof {
            assert(clips@.take(i + 1).drop_last() =~= clips@.take(i as int));
        }
        if clips[i].source != source {
            out.push(clips[i]);
        }
        i += 1;
    }
    proof {
        assert(clips@.take(clips.len() as int) =~= clips@);
    }
    out
}

impl TimelineSnapshot {
    /// Whether the two are copies of the same timeline, number by number.
    pub fn same(&self, o: &TimelineSnapshot) -> (r: bool)
        ensures
            r == self@.alike(o@),
    {
        if self.next_link != o.next_link || self.next_clip != o.next_clip || self.tracks.len()
            != o.tracks.len() {
            return false;
        }
        let mut t: usize = 0;
        while t < self.tracks.len()
            invariant
                t <= self.tracks.len(),
                self.tracks.len() == o.tracks.len(),
                forall|i: int|
                    0 <= i < t ==> (#[trigger] self@.tracks[i]).kind == o@.tracks[i].kind
                        && clips_alike(self@.tracks[i].clips, o@.tracks[i].clips),
            decreases self.tracks.len() - t,
        {
            if self.tracks[t].kind != o.tracks[t].kind || !same_clips(
                &self.tracks[t].clips,
                &o.tracks[t].clips,
            ) {
                proof {
                    let lane = self@.tracks[t as int];
                    assert(lane == self.tracks@[t as int]@);
                }
                return false;
            }
            t += 1;
        }
        true
    }
}

/// Whether two lists of clips are the same, number by number.
fn same_clips(a: &Vec<Clip>, b: &Vec<Clip>) -> (r: bool)
    ensures
        r == clips_alike(a@, b@),
{
    if a.len() != b.len() {
        return false;
    }
    let mut i: usize = 0;
    while i < a.len()
        invariant
            i <= a.len(),
            a.len() == b.len(),
            forall|j: int| 0 <= j < i ==> (#[trigger] a@[j]).alike(b@[j]),
        decreases a.len() - i,
    {
        if !a[i].same(&b[i]) {
            return false;
        }
        i += 1;
    }
    true
}

} // verus!
