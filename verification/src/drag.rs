//! A gesture on its way, and how it ends.

use crate::canvas::Canvas;
use crate::edit::{
    canvas_reach, canvas_snap_threshold, offset_latched, opacities, scale_latched, scaled_about,
    snap_scale_about, snap_transform_offset, transform_scaled_about, Magnet, Point,
};
use crate::ieee::facts::lemma_single_positive;
use crate::ieee::{double, single, Double, Single};
use crate::input::{DragMode, Tone};
use crate::layout::{
    lemma_every_size_divides, resolve_split, y_to_db, y_to_opacity, Splitter, TimelineLayout,
};
use crate::media::MediaPool;
use crate::session::{Desk, Session, Sitting};
use crate::theme::{ONE_PT, POOL_MIN_W, PREVIEW_MIN_W, TIMELINE_MIN_H, TOP_MIN_H};
use crate::timeline::{Clip, FadeSide, SourceId, Timeline, TrackKind, Transform, ZERO};
use vstd::prelude::*;

verus! {

impl Desk {
    /// With a divider under the cursor, as far as the panels allow.
    pub open spec fn divided(self, s: Splitter) -> Desk {
        match s {
            Splitter::TopBottom => {
                let h = self.height.max(single(ONE_PT));
                let y = resolve_split(
                    self.cursor.y.over(h),
                    h,
                    single(TOP_MIN_H),
                    single(TIMELINE_MIN_H),
                );
                Desk { split_top_bottom: y.over(h), ..self }
            },
            Splitter::PoolPreview => {
                let w = self.width.max(single(ONE_PT));
                let x = resolve_split(
                    self.cursor.x.over(w),
                    w,
                    single(POOL_MIN_W),
                    single(PREVIEW_MIN_W),
                );
                Desk { split_pool_preview: x.over(w), ..self }
            },
        }
    }

    /// Moves a divider under the cursor, as far as the panels allow.
    fn divide(&mut self, s: Splitter)
        ensures
            *final(self) == old(self).divided(s),
    {
        proof {
            lemma_single_positive(single(ONE_PT));
            lemma_single_positive(single(TOP_MIN_H));
            lemma_single_positive(single(TIMELINE_MIN_H));
            lemma_single_positive(single(POOL_MIN_W));
            lemma_single_positive(single(PREVIEW_MIN_W));
        }
        match s {
            Splitter::TopBottom => {
                let h: Single = self.height.max(single(ONE_PT));
                proof {
                    lemma_every_size_divides(h, single(TOP_MIN_H), single(TIMELINE_MIN_H));
                }
                let y: Single = resolve_split(
                    self.cursor.y.over(h),
                    h,
                    single(TOP_MIN_H),
                    single(TIMELINE_MIN_H),
                );
                self.split_top_bottom = y.over(h);
            },
            Splitter::PoolPreview => {
                let w: Single = self.width.max(single(ONE_PT));
                proof {
                    lemma_every_size_divides(w, single(POOL_MIN_W), single(PREVIEW_MIN_W));
                }
                let x: Single = resolve_split(
                    self.cursor.x.over(w),
                    w,
                    single(POOL_MIN_W),
                    single(PREVIEW_MIN_W),
                );
                self.split_pool_preview = x.over(w);
            },
        }
    }
}

impl Timeline {
    /// Takes a clip to the end of another lane.
    fn relocate(&mut self, track: usize, idx: usize, to: usize) -> (at: usize)
        requires
            old(self)@.has(track as int, idx as int),
            to < old(self)@.tracks.len(),
            to != track,
        ensures
            final(self)@ == old(self)@.relocated(track as int, idx as int, to as int),
            at == old(self)@.tracks[to as int].clips.len(),
            final(self)@.has(to as int, at as int),
            final(self)@.clip(to as int, at as int) == old(self)@.clip(track as int, idx as int),
    {
        let c: Clip = self.tracks[track].clips.remove(idx);
        let at: usize = self.tracks[to].clips.len();
        self.tracks[to].clips.push(c);
        proof {
            let a = self@.tracks;
            let b = old(self)@.relocated(track as int, idx as int, to as int).tracks;
            assert forall|i: int| 0 <= i < a.len() implies a[i] == b[i] by {
                assert(a[i].clips =~= b[i].clips);
            }
            assert(a =~= b);
        }
        at
    }

    /// Adds a clip of a source at the end of a lane, under the next name.
    fn add_clip(
        &mut self,
        track: usize,
        source: SourceId,
        length: Double,
        at: Double,
        link: Option<u32>,
    )
        requires
            track < old(self)@.tracks.len(),
            old(self)@.next_clip < u32::MAX,
        ensures
            final(self)@ == old(self)@.with_new(track as int, source, length, at, link),
            final(self)@.tracks.len() == old(self)@.tracks.len(),
            final(self)@.next_clip == old(self)@.next_clip + 1,
            final(self)@.next_link == old(self)@.next_link,
    {
        let id: u32 = self.new_clip_id();
        let ghost r = self@;
        let mut c: Clip = Clip::default();
        c.id = id;
        c.source = source;
        c.source_out = length;
        c.timeline_start = at;
        c.link = link;
        self.tracks[track].clips.push(c);
        proof {
            let a = self@.tracks;
            let b = r.appended(track as int, c).tracks;
            assert forall|i: int| 0 <= i < a.len() implies a[i] == b[i] by {
                assert(a[i].clips =~= b[i].clips);
            }
            assert(a =~= b);
        }
    }

    /// The audio lane for sound that a drop brings along: the first with room, or a fresh
    /// one.
    fn sound_track(&mut self, start: Double, end: Double) -> (lane: usize)
        ensures
            (lane as int, final(self)@) == old(self)@.sound_lane(start, end),
            lane < final(self)@.tracks.len(),
            final(self)@.tracks.len() >= old(self)@.tracks.len(),
            final(self)@.next_clip == old(self)@.next_clip,
            final(self)@.next_link == old(self)@.next_link,
    {
        match self.free_audio_track(start, end) {
            Some(i) => i,
            None => self.push_track(TrackKind::Audio),
        }
    }

    /// Whether there are names left for what a drop of a source on a lane adds.
    pub fn is_droppable(&self, media: &MediaPool, source: SourceId, track: usize) -> (r: bool)
        requires
            track < self@.tracks.len(),
        ensures
            r == self@.can_drop(media@, source, track as int),
    {
        let heard: bool = media.audio_duration(source).is_some();
        let n: u32 = match self.tracks[track].kind {
            TrackKind::Video => if !media.has_video(source) {
                0
            } else if heard {
                2
            } else {
                1
            },
            TrackKind::Audio => if heard {
                1
            } else {
                0
            },
        };
        self.next_clip <= u32::MAX - n && (n != 2 || self.next_link < u32::MAX)
    }

    /// Drops a source on a lane at a time.
    pub fn drop_source(&mut self, media: &MediaPool, source: SourceId, track: usize, at: Double)
        requires
            track < old(self)@.tracks.len(),
            old(self)@.can_drop(media@, source, track as int),
        ensures
            final(self)@ == old(self)@.dropped(media@, source, track as int, at),
    {
        match self.tracks[track].kind {
            TrackKind::Video => {
                if !media.has_video(source) {
                    return;
                }
                let dur: Double = media.drop_duration(source);
                match media.audio_duration(source) {
                    None => {
                        self.add_clip(track, source, dur, at, None);
                    },
                    Some(adur) => {
                        let lane: usize = self.sound_track(at, at.plus(adur));
                        let link: u32 = self.new_link_id();
                        self.add_clip(track, source, dur, at, Some(link));
                        self.add_clip(lane, source, adur, at, Some(link));
                    },
                }
            },
            TrackKind::Audio => {
                if let Some(adur) = media.audio_duration(source) {
                    self.add_clip(track, source, adur, at, None);
                }
            },
        }
    }
}

impl Sitting {
    /// The lane that a clip being moved is over, where it can go there.
    pub open spec fn lane_over(self, track: int) -> Option<int> {
        match self.track_at(self.desk.cursor.y) {
            Some(h) => if h != track && self.reel.tracks[h as int].kind
                == self.reel.tracks[track].kind {
                Some(h as int)
            } else {
                None
            },
            None => None,
        }
    }

    /// With a clip and those linked to it moved under the cursor, onto the lane there where
    /// it can go.
    #[verifier::opaque]
    pub open spec fn moved_clip(self, track: int, idx: int, grab: Double) -> Sitting {
        let l = self.layout();
        let magnet = Magnet {
            enabled: self.desk.snap_enabled,
            px_per_sec: l.px_per_sec(),
            playhead: self.desk.clock.position,
        };
        let wanted = l.cursor_to_t(self.desk.cursor.x).minus(grab);
        match self.lane_over(track) {
            Some(h) => {
                let r = self.reel.relocated(track, idx, h);
                let i = self.reel.tracks[h].clips.len() as int;
                Sitting {
                    reel: r.moved(h, i, wanted.minus(r.clip(h, i).timeline_start), magnet),
                    desk: Desk {
                        drag: DragMode::ClipMove {
                            track: h as usize,
                            idx: i as usize,
                            grab_t_offset: grab,
                        },
                        ..self.desk
                    },
                    ..self
                }
            },
            None => Sitting {
                reel: self.reel.moved(
                    track,
                    idx,
                    wanted.minus(self.reel.clip(track, idx).timeline_start),
                    magnet,
                ),
                ..self
            },
        }
    }

    /// How far the start of a clip is from the cursor.
    pub open spec fn head_gap(self, track: int, idx: int) -> Double {
        self.layout().cursor_to_t(self.desk.cursor.x).minus(
            self.reel.clip(track, idx).timeline_start,
        )
    }

    /// How far the end of a clip is from the cursor.
    pub open spec fn tail_gap(self, track: int, idx: int) -> Double {
        self.layout().cursor_to_t(self.desk.cursor.x).minus(
            self.reel.clip(track, idx).timeline_end(),
        )
    }

    /// How long a fade is that ends under the cursor.
    pub open spec fn fade_len(self, track: int, idx: int, side: FadeSide) -> Double {
        let t = self.layout().cursor_to_t(self.desk.cursor.x);
        let c = self.reel.clip(track, idx);
        match side {
            FadeSide::In => t.minus(c.timeline_start),
            FadeSide::Out => c.timeline_end().minus(t),
        }
    }

    /// Where a picture is moved to on the canvas; none where the preview has no size.
    #[verifier::opaque]
    pub open spec fn canvas_move(self, track: int, idx: int, start: Transform, grab: Point) -> Option<
        Transform,
    > {
        let s = self.desk.preview_canvas_scale;
        if s.le(single(0)) {
            None
        } else {
            let canvas = self.canvas();
            let wanted = Transform {
                x: start.x.plus(self.desk.cursor.x.minus(grab.x).over(s).over(canvas.w())),
                y: start.y.plus(self.desk.cursor.y.minus(grab.y).over(s).over(canvas.h())),
                ..start
            };
            Some(
                match self.pool.picture_size(self.reel.clip(track, idx).source, canvas) {
                    Some(size) => offset_latched(
                        canvas,
                        size,
                        wanted,
                        canvas_reach(self.desk.snap_enabled, s),
                    ),
                    None => wanted,
                },
            )
        }
    }

    /// Where a picture is scaled to on the canvas: by how far the cursor went from the pinned
    /// corner along the line it was grabbed on. None where there is no such line.
    #[verifier::opaque]
    pub open spec fn canvas_scale(
        self,
        track: int,
        idx: int,
        start: Transform,
        grab: Point,
        anchor: Point,
        corner: Point,
    ) -> Option<Transform> {
        match self.desk.cursor_on_canvas() {
            None => None,
            Some(cursor) => {
                let (v0x, v0y) = (grab.x.minus(anchor.x), grab.y.minus(anchor.y));
                let (vx, vy) = (cursor.x.minus(anchor.x), cursor.y.minus(anchor.y));
                let den = v0x.times(v0x).plus(v0y.times(v0y));
                if den.lt(single(ONE_PT)) {
                    None
                } else {
                    let factor = vx.times(v0x).plus(vy.times(v0y)).over(den);
                    let canvas = self.canvas();
                    match self.pool.picture_size(self.reel.clip(track, idx).source, canvas) {
                        None => None,
                        Some(size) => {
                            let scale = scale_latched(
                                canvas,
                                size,
                                anchor,
                                corner,
                                start.scale.times(factor),
                                canvas_reach(
                                    self.desk.snap_enabled,
                                    self.desk.preview_canvas_scale,
                                ),
                            );
                            Some(scaled_about(canvas, size, anchor, corner, scale))
                        },
                    }
                }
            },
        }
    }

    /// With the picture of a clip placed, where there is a place for it.
    pub open spec fn placing(self, track: int, idx: int, to: Option<Transform>) -> Sitting {
        match to {
            None => self,
            Some(t) => Sitting {
                reel: self.reel.with_clip(track, idx, self.reel.clip(track, idx).placed(t)),
                ..self
            },
        }
    }

    /// With the level of a clip under the cursor: a gain on an audio lane, an opacity on a
    /// video one.
    #[verifier::opaque]
    pub open spec fn levelled(self, track: int, idx: int, tone: Tone) -> Sitting {
        let c = self.reel.clip(track, idx);
        let n = match self.reel.tracks[track].kind {
            TrackKind::Audio => Clip { gain: tone.gains.kept(tone.gain), ..c },
            TrackKind::Video => Clip {
                opacity: opacities().kept(
                    y_to_opacity(self.top_of(track), self.layout().lane_h, self.desk.cursor.y),
                ),
                ..c
            },
        };
        Sitting { reel: self.reel.with_clip(track, idx, n), ..self }
    }

    /// What moving the pointer does to the gesture in flight.
    pub open spec fn dragged(self, tone: Tone) -> Sitting {
        match self.desk.drag {
            DragMode::Idle => self,
            DragMode::PoolDrag { source: _ } => self,
            DragMode::Scrub => self.scrubbed(),
            DragMode::Splitter(s) => Sitting { desk: self.desk.divided(s), ..self },
            DragMode::ClipMove { track, idx, grab_t_offset } => self.moved_clip(
                track as int,
                idx as int,
                grab_t_offset,
            ),
            DragMode::ClipTrimLeft { track, idx } => Sitting {
                reel: self.reel.trimmed_left(
                    track as int,
                    idx as int,
                    self.head_gap(track as int, idx as int),
                ),
                ..self
            },
            DragMode::ClipTrimRight { track, idx } => Sitting {
                reel: self.reel.trimmed_right(
                    self.pool,
                    track as int,
                    idx as int,
                    self.tail_gap(track as int, idx as int),
                ),
                ..self
            },
            DragMode::ClipFade { track, idx, side } => Sitting {
                reel: self.reel.with_clip(
                    track as int,
                    idx as int,
                    self.reel.clip(track as int, idx as int).with_fade(
                        side,
                        self.fade_len(track as int, idx as int, side),
                    ).with_fades_clamped(),
                ),
                ..self
            },
            DragMode::ClipMoveOnCanvas { track, idx, start, grab } => self.placing(
                track as int,
                idx as int,
                self.canvas_move(track as int, idx as int, start, grab),
            ),
            DragMode::ClipScaleOnCanvas { track, idx, start, grab, anchor, corner } => self.placing(
                track as int,
                idx as int,
                self.canvas_scale(track as int, idx as int, start, grab, anchor, corner),
            ),
            DragMode::Scrollbar { grab_dx } => self.scrolled(grab_dx),
            DragMode::ClipLevel { track, idx } => self.levelled(track as int, idx as int, tone),
        }
    }

    /// Whether the gesture in flight can follow the pointer: what it holds is still there,
    /// and the bounds it keeps to are in order.
    pub open spec fn draggable(self, tone: Tone) -> bool {
        &&& self.desk.drag.on_timeline() ==> self.laid()
        &&& tone.gains.sound()
        &&& match self.desk.drag {
            DragMode::ClipMove { track, idx, grab_t_offset: _ } => self.reel.has(
                track as int,
                idx as int,
            ),
            DragMode::ClipTrimLeft { track, idx } => self.reel.has(track as int, idx as int)
                && self.reel.can_trim_left(
                track as int,
                idx as int,
                self.head_gap(track as int, idx as int),
            ),
            DragMode::ClipTrimRight { track, idx } => self.reel.has(track as int, idx as int)
                && self.reel.can_trim_right(
                self.pool,
                track as int,
                idx as int,
                self.tail_gap(track as int, idx as int),
            ),
            DragMode::ClipFade { track, idx, side } => self.reel.has(track as int, idx as int)
                && self.reel.clip(track as int, idx as int).with_fade(
                side,
                self.fade_len(track as int, idx as int, side),
            ).clampable(),
            DragMode::ClipMoveOnCanvas { track, idx, start: _, grab: _ } => self.reel.has(
                track as int,
                idx as int,
            ),
            DragMode::ClipScaleOnCanvas {
                track,
                idx,
                start: _,
                grab: _,
                anchor: _,
                corner: _,
            } => self.reel.has(track as int, idx as int),
            DragMode::ClipLevel { track, idx } => self.reel.has(track as int, idx as int),
            _ => true,
        }
    }

    /// The level, in decibels, that the cursor asks for, where a gesture sets one.
    pub open spec fn level_in_hand(self) -> Option<Single> {
        match self.desk.drag {
            DragMode::ClipLevel { track, idx: _ } => if track < self.reel.tracks.len()
                && self.reel.tracks[track as int].kind == TrackKind::Audio {
                Some(
                    y_to_db(
                        self.top_of(track as int),
                        self.layout().lane_h,
                        self.desk.cursor.y,
                    ),
                )
            } else {
                None
            },
            _ => None,
        }
    }

    /// Whether a row of the pool that is on its way can be dropped: there is a timeline to
    /// drop it on, and where there is a lane under the cursor, there are names left for what
    /// it adds there.
    pub open spec fn landable(self) -> bool {
        self.desk.drag matches DragMode::PoolDrag { source } ==> {
            &&& self.laid()
            &&& self.track_at(self.desk.cursor.y) matches Some(t) ==> self.depth < u32::MAX
                && self.reel.can_drop(self.pool, source, t as int)
        }
    }

    /// What letting go of the pointer does: a row of the pool lands on the lane under it,
    /// and the edit that the gesture made is closed.
    #[verifier::opaque]
    pub open spec fn released(self) -> Sitting {
        self.landed().committed().holding(DragMode::Idle)
    }

    /// With a row of the pool that is on its way dropped on the lane under the cursor.
    #[verifier::opaque]
    pub open spec fn landed(self) -> Sitting {
        match self.desk.drag {
            DragMode::PoolDrag { source } => match self.track_at(self.desk.cursor.y) {
                Some(t) => {
                    let b = self.begun();
                    Sitting {
                        reel: b.reel.dropped(
                            b.pool,
                            source,
                            t as int,
                            self.layout().cursor_to_t(self.desk.cursor.x).max(double(ZERO)),
                        ),
                        ..b
                    }
                },
                None => self,
            },
            _ => self,
        }
    }
}

impl Session {
    /// Moves a clip and those linked to it under the cursor.
    fn drag_move(&mut self, track: usize, idx: usize, grab: Double)
        requires
            old(self)@.sound(),
            old(self)@.laid(),
            old(self)@.reel.has(track as int, idx as int),
        ensures
            final(self)@ == old(self)@.moved_clip(track as int, idx as int, grab),
            final(self)@.pool == old(self)@.pool,
    {
        proof {
            reveal(Sitting::moved_clip);
        }
        let layout: TimelineLayout = self.timeline_layout();
        let magnet: Magnet = Magnet {
            enabled: self.desk.snap_enabled,
            px_per_sec: layout.px_per_sec(),
            playhead: self.desk.clock.position,
        };
        let wanted: Double = layout.cursor_to_t(self.desk.cursor.x).minus(grab);
        if let Some(hover) = self.track_at_y(self.desk.cursor.y, &layout) {
            if hover != track && self.timeline.tracks[hover].kind
                == self.timeline.tracks[track].kind {
                let at: usize = self.timeline.relocate(track, idx, hover);
                self.desk.drag = DragMode::ClipMove { track: hover, idx: at, grab_t_offset: grab };
                let start: Double = self.timeline.tracks[hover].clips[at].timeline_start;
                self.timeline.apply_move_delta(hover, at, wanted.minus(start), magnet);
                return;
            }
        }
        let start: Double = self.timeline.tracks[track].clips[idx].timeline_start;
        self.timeline.apply_move_delta(track, idx, wanted.minus(start), magnet);
    }

    /// Where a picture is moved to on the canvas.
    fn move_on_canvas(&self, track: usize, idx: usize, start: Transform, grab: Point) -> (r: Option<
        Transform,
    >)
        requires
            self@.reel.has(track as int, idx as int),
        ensures
            r == self@.canvas_move(track as int, idx as int, start, grab),
    {
        proof {
            reveal(Sitting::canvas_move);
        }
        let s: Single = self.desk.preview_canvas_scale;
        if s.le(single(0)) {
            return None;
        }
        let canvas: Canvas = self.canvas();
        let wanted: Transform = Transform {
            x: start.x.plus(self.desk.cursor.x.minus(grab.x).over(s).over(canvas.w())),
            y: start.y.plus(self.desk.cursor.y.minus(grab.y).over(s).over(canvas.h())),
            scale: start.scale,
        };
        let source: SourceId = self.timeline.tracks[track].clips[idx].source;
        Some(
            match self.media.source_size(source, canvas) {
                Some(size) => snap_transform_offset(
                    canvas,
                    size,
                    wanted,
                    canvas_snap_threshold(self.desk.snap_enabled, s),
                ),
                None => wanted,
            },
        )
    }

    /// Where a picture is scaled to on the canvas.
    fn scale_on_canvas(
        &self,
        track: usize,
        idx: usize,
        start: Transform,
        grab: Point,
        anchor: Point,
        corner: Point,
    ) -> (r: Option<Transform>)
        requires
            self@.reel.has(track as int, idx as int),
        ensures
            r == self@.canvas_scale(track as int, idx as int, start, grab, anchor, corner),
    {
        proof {
            reveal(Sitting::canvas_scale);
        }
        let cursor: Point = match self.desk.cursor_on_canvas() {
            None => {
                return None;
            },
            Some(c) => c,
        };
        let (v0x, v0y): (Single, Single) = (grab.x.minus(anchor.x), grab.y.minus(anchor.y));
        let (vx, vy): (Single, Single) = (cursor.x.minus(anchor.x), cursor.y.minus(anchor.y));
        let den: Single = v0x.times(v0x).plus(v0y.times(v0y));
        if den.lt(single(ONE_PT)) {
            return None;
        }
        let factor: Single = vx.times(v0x).plus(vy.times(v0y)).over(den);
        let canvas: Canvas = self.canvas();
        let source: SourceId = self.timeline.tracks[track].clips[idx].source;
        match self.media.source_size(source, canvas) {
            None => None,
            Some(size) => {
                let scale: Single = snap_scale_about(
                    canvas,
                    size,
                    anchor,
                    corner,
                    start.scale.times(factor),
                    canvas_snap_threshold(
                        self.desk.snap_enabled,
                        self.desk.preview_canvas_scale,
                    ),
                );
                Some(transform_scaled_about(canvas, size, anchor, corner, scale))
            },
        }
    }

    /// Places the picture of a clip.
    fn place_picture(&mut self, track: usize, idx: usize, to: Option<Transform>)
        requires
            old(self)@.reel.has(track as int, idx as int),
        ensures
            final(self)@ == old(self)@.placing(track as int, idx as int, to),
            final(self)@.pool == old(self)@.pool,
    {
        if let Some(t) = to {
            self.timeline.set_clip_transform(track, idx, t);
        }
    }

    /// Sets the level of a clip under the cursor.
    fn drag_level(&mut self, track: usize, idx: usize, tone: Tone)
        requires
            old(self)@.laid(),
            old(self)@.reel.has(track as int, idx as int),
            tone.gains.sound(),
        ensures
            final(self)@ == old(self)@.levelled(track as int, idx as int, tone),
            final(self)@.pool == old(self)@.pool,
    {
        proof {
            reveal(Sitting::levelled);
        }
        match self.timeline.tracks[track].kind {
            TrackKind::Audio => {
                self.timeline.set_clip_gain(track, idx, tone.gain, tone.gains);
            },
            TrackKind::Video => {
                let layout: TimelineLayout = self.timeline_layout();
                let lane: Single = self.lane_top(track, &layout);
                let opacity: Single = y_to_opacity(lane, layout.lane_h, self.desk.cursor.y);
                self.timeline.set_clip_opacity(track, idx, opacity);
            },
        }
    }

    /// Whether a row of the pool that is on its way can be dropped.
    pub fn is_landable(&self) -> (r: bool)
        ensures
            r == self@.landable(),
    {
        match self.desk.drag {
            DragMode::PoolDrag { source } => {
                if !self.is_laid() {
                    return false;
                }
                let layout: TimelineLayout = self.timeline_layout();
                match self.track_at_y(self.desk.cursor.y, &layout) {
                    Some(track) => self.edit_depth < u32::MAX && self.timeline.is_droppable(
                        &self.media,
                        source,
                        track,
                    ),
                    None => true,
                }
            },
            _ => true,
        }
    }

    /// The level, in decibels, that the cursor asks for, where a gesture sets one.
    pub fn level_asked(&self) -> (r: Option<Single>)
        requires
            self@.laid(),
        ensures
            r == self@.level_in_hand(),
    {
        match self.desk.drag {
            DragMode::ClipLevel { track, idx: _ } => {
                if track < self.timeline.tracks.len() && self.timeline.tracks[track].kind
                    == TrackKind::Audio {
                    let layout: TimelineLayout = self.timeline_layout();
                    let lane: Single = self.lane_top(track, &layout);
                    Some(y_to_db(lane, layout.lane_h, self.desk.cursor.y))
                } else {
                    None
                }
            },
            _ => None,
        }
    }

    /// Whether the gesture in flight can follow the pointer.
    pub fn is_draggable(&self, tone: Tone) -> (r: bool)
        ensures
            r == self@.draggable(tone),
    {
        if !tone.gains.lo.le(tone.gains.hi) {
            return false;
        }
        match self.desk.drag {
            DragMode::Scrub => self.is_laid(),
            DragMode::Scrollbar { grab_dx: _ } => self.is_laid(),
            DragMode::ClipMove { track, idx, grab_t_offset: _ } => self.is_laid() && self.holds(
                track,
                idx,
            ),
            DragMode::ClipTrimLeft { track, idx } => {
                if !self.is_laid() || !self.holds(track, idx) {
                    return false;
                }
                let t: Double = self.timeline_layout().cursor_to_t(self.desk.cursor.x);
                let start: Double = self.timeline.tracks[track].clips[idx].timeline_start;
                self.timeline.trims_left(track, idx, t.minus(start))
            },
            DragMode::ClipTrimRight { track, idx } => {
                if !self.is_laid() || !self.holds(track, idx) {
                    return false;
                }
                let t: Double = self.timeline_layout().cursor_to_t(self.desk.cursor.x);
                let end: Double = self.timeline.tracks[track].clips[idx].timeline_end();
                self.timeline.trims_right(&self.media, track, idx, t.minus(end))
            },
            DragMode::ClipFade { track, idx, side } => {
                if !self.is_laid() || !self.holds(track, idx) {
                    return false;
                }
                let t: Double = self.timeline_layout().cursor_to_t(self.desk.cursor.x);
                let mut c: Clip = self.timeline.tracks[track].clips[idx];
                match side {
                    FadeSide::In => {
                        let l: Double = t.minus(c.timeline_start).max(double(ZERO));
                        c.fade_in = l.min(c.duration().minus(c.fade_out));
                    },
                    FadeSide::Out => {
                        let l: Double = c.timeline_end().minus(t).max(double(ZERO));
                        c.fade_out = l.min(c.duration().minus(c.fade_in));
                    },
                }
                c.is_clampable()
            },
            DragMode::ClipMoveOnCanvas { track, idx, start: _, grab: _ } => self.holds(track, idx),
            DragMode::ClipScaleOnCanvas {
                track,
                idx,
                start: _,
                grab: _,
                anchor: _,
                corner: _,
            } => self.holds(track, idx),
            DragMode::ClipLevel { track, idx } => self.is_laid() && self.holds(track, idx),
            _ => true,
        }
    }

    /// Whether there is a clip at a place.
    fn holds(&self, track: usize, idx: usize) -> (r: bool)
        ensures
            r == self@.reel.has(track as int, idx as int),
    {
        track < self.timeline.tracks.len() && idx < self.timeline.tracks[track].clips.len()
    }

    /// Lets the gesture in flight follow the pointer.
    pub fn update_drag(&mut self, tone: Tone)
        requires
            old(self)@.sound(),
            old(self)@.draggable(tone),
        ensures
            final(self)@ == old(self)@.dragged(tone),
            final(self)@.sound(),
    {
        match self.desk.drag {
            DragMode::Idle => {},
            DragMode::PoolDrag { source: _ } => {},
            DragMode::Scrub => {
                self.apply_scrub();
            },
            DragMode::Splitter(s) => {
                self.desk.divide(s);
            },
            DragMode::ClipMove { track, idx, grab_t_offset } => {
                self.drag_move(track, idx, grab_t_offset);
            },
            DragMode::ClipTrimLeft { track, idx } => {
                let t: Double = self.timeline_layout().cursor_to_t(self.desk.cursor.x);
                let start: Double = self.timeline.tracks[track].clips[idx].timeline_start;
                self.timeline.apply_trim_left_delta(track, idx, t.minus(start));
            },
            DragMode::ClipTrimRight { track, idx } => {
                let t: Double = self.timeline_layout().cursor_to_t(self.desk.cursor.x);
                let end: Double = self.timeline.tracks[track].clips[idx].timeline_end();
                self.timeline.apply_trim_right_delta(&self.media, track, idx, t.minus(end));
            },
            DragMode::ClipFade { track, idx, side } => {
                let t: Double = self.timeline_layout().cursor_to_t(self.desk.cursor.x);
                let c: Clip = self.timeline.tracks[track].clips[idx];
                let len: Double = match side {
                    FadeSide::In => t.minus(c.timeline_start),
                    FadeSide::Out => c.timeline_end().minus(t),
                };
                self.timeline.set_clip_fade(track, idx, side, len);
            },
            DragMode::ClipMoveOnCanvas { track, idx, start, grab } => {
                let to: Option<Transform> = self.move_on_canvas(track, idx, start, grab);
                self.place_picture(track, idx, to);
            },
            DragMode::ClipScaleOnCanvas { track, idx, start, grab, anchor, corner } => {
                let to: Option<Transform> = self.scale_on_canvas(
                    track,
                    idx,
                    start,
                    grab,
                    anchor,
                    corner,
                );
                self.place_picture(track, idx, to);
            },
            DragMode::Scrollbar { grab_dx } => {
                let layout: TimelineLayout = self.timeline_layout();
                self.desk.view_start = layout.scroll_x_to_view_start(
                    self.desk.cursor.x.minus(grab_dx),
                );
            },
            DragMode::ClipLevel { track, idx } => {
                self.drag_level(track, idx, tone);
            },
        }
    }

    /// Drops a row of the pool that is on its way on the lane under the cursor.
    fn land(&mut self)
        requires
            old(self)@.sound(),
            old(self)@.landable(),
        ensures
            final(self)@ == old(self)@.landed(),
            final(self)@.sound(),
    {
        proof {
            reveal(Sitting::landed);
        }
        if let DragMode::PoolDrag { source } = self.desk.drag {
            let layout: TimelineLayout = self.timeline_layout();
            if let Some(track) = self.track_at_y(self.desk.cursor.y, &layout) {
                let at: Double = layout.cursor_to_t(self.desk.cursor.x).max(double(ZERO));
                self.begin_edit();
                self.timeline.drop_source(&self.media, source, track, at);
            }
        }
    }

    /// Lets go of the pointer: a row of the pool lands, and the edit that the gesture made
    /// is closed.
    pub fn end_drag(&mut self)
        requires
            old(self)@.sound(),
            old(self)@.landable(),
        ensures
            final(self)@ == old(self)@.released(),
            final(self)@.sound(),
    {
        proof {
            reveal(Sitting::released);
        }
        self.land();
        self.commit_edit();
        self.desk.drag = DragMode::Idle;
    }
}

} // verus!
