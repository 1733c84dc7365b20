//! The geometry of a session: its panels, its lanes, and what the cursor is over.

use crate::canvas::{canvas, canvas_for, Canvas};
use crate::edit::{Place, Point, INFINITY};
use crate::ieee::{double, single, Double, Single};
use crate::input::DragMode;
use crate::layout::{
    compute_lane_height, corner_at, corner_box, db_to_y, divisible, fade_handle_rect, lane_y,
    opacity_to_y, pool_row_close_rect, resolve_split, resolve_view, topmost_lane_top,
    transform_handle_rects, viewable, PreviewHit, Splitter, TimelineHit, TimelineLayout,
    MIN_CONTENT_SPAN, PAN_STEP_FRAC, VIEW_FOLLOW_LEAD,
};
use crate::session::{Desk, Session, Sitting};
use crate::theme::{
    CLIP_EDGE_GRAB_PX, CLIP_LEVEL_GRAB_PX, HALF_PT, LABEL_PAD, ONE_PT, POOL_LIST_TOP, POOL_MIN_W,
    POOL_ROW_GAP, POOL_ROW_HEIGHT, PREVIEW_MIN_W, SPLITTER_GRAB_PX, TIMELINE_MIN_H,
    TIMELINE_RULER_H, TIMELINE_SCROLLBAR_H, TIMELINE_TOP_PAD, TOP_MIN_H, TRACK_HEADER_WIDTH,
    TRACK_LANE_GAP, TWO_PT,
};
use crate::timeline::{Clip, FadeSide, Lane, Reel, SourceId, Timeline, TrackKind, ZERO};
use crate::ui::Rect;
use vstd::prelude::*;

verus! {

impl Desk {
    /// Whether the window can be divided into its panels.
    #[verifier::opaque]
    pub open spec fn spec_divides(&self) -> bool {
        divisible(self.height, single(TOP_MIN_H), single(TIMELINE_MIN_H)) && divisible(
            self.width,
            single(POOL_MIN_W),
            single(PREVIEW_MIN_W),
        )
    }

    /// Whether the window can be divided into its panels.
    #[verifier::when_used_as_spec(spec_divides)]
    pub fn divides(&self) -> (r: bool)
        ensures
            r == self.spec_divides(),
    {
        proof {
            reveal(divisible);
            reveal(Desk::spec_divides);
        }
        let (a, b): (Single, Single) = (single(TOP_MIN_H), single(TIMELINE_MIN_H));
        let (c, d): (Single, Single) = (single(POOL_MIN_W), single(PREVIEW_MIN_W));
        (self.height.le(a.plus(b)) || a.le(self.height.minus(b))) && (self.width.le(c.plus(d))
            || c.le(self.width.minus(d)))
    }

    /// Where the timeline begins.
    #[verifier::opaque]
    pub open spec fn spec_timeline_top(&self) -> Single {
        resolve_split(
            self.split_top_bottom,
            self.height,
            single(TOP_MIN_H),
            single(TIMELINE_MIN_H),
        )
    }

    /// Where the timeline begins.
    #[verifier::when_used_as_spec(spec_timeline_top)]
    pub fn timeline_top(&self) -> (r: Single)
        requires
            self.divides(),
        ensures
            r == self.spec_timeline_top(),
    {
        proof {
            reveal(Desk::spec_divides);
            reveal(Desk::spec_timeline_top);
        }
        resolve_split(
            self.split_top_bottom,
            self.height,
            single(TOP_MIN_H),
            single(TIMELINE_MIN_H),
        )
    }

    /// How wide the media pool is.
    #[verifier::opaque]
    pub open spec fn spec_media_pool_w(&self) -> Single {
        resolve_split(
            self.split_pool_preview,
            self.width,
            single(POOL_MIN_W),
            single(PREVIEW_MIN_W),
        )
    }

    /// How wide the media pool is.
    #[verifier::when_used_as_spec(spec_media_pool_w)]
    pub fn media_pool_w(&self) -> (r: Single)
        requires
            self.divides(),
        ensures
            r == self.spec_media_pool_w(),
    {
        proof {
            reveal(Desk::spec_divides);
            reveal(Desk::spec_media_pool_w);
        }
        resolve_split(
            self.split_pool_preview,
            self.width,
            single(POOL_MIN_W),
            single(PREVIEW_MIN_W),
        )
    }

    /// Which divider is close enough to be taken hold of.
    #[verifier::opaque]
    pub open spec fn spec_splitter_at(&self, p: Point) -> Option<Splitter> {
        let top = self.timeline_top();
        if p.y.minus(top).abs().le(single(SPLITTER_GRAB_PX)) {
            Some(Splitter::TopBottom)
        } else if p.y.lt(top) && p.x.minus(self.media_pool_w()).abs().le(single(SPLITTER_GRAB_PX)) {
            Some(Splitter::PoolPreview)
        } else {
            None
        }
    }

    /// Which divider is close enough to be taken hold of.
    #[verifier::when_used_as_spec(spec_splitter_at)]
    pub fn splitter_at(&self, p: Point) -> (r: Option<Splitter>)
        requires
            self.divides(),
        ensures
            r == self.spec_splitter_at(p),
    {
        proof {
            reveal(Desk::spec_splitter_at);
        }
        let top: Single = self.timeline_top();
        if p.y.minus(top).abs().le(single(SPLITTER_GRAB_PX)) {
            Some(Splitter::TopBottom)
        } else if p.y.lt(top) && p.x.minus(self.media_pool_w()).abs().le(single(SPLITTER_GRAB_PX)) {
            Some(Splitter::PoolPreview)
        } else {
            None
        }
    }

    /// The cursor in canvas pixels; none before the preview was drawn at a size.
    #[verifier::opaque]
    pub open spec fn spec_cursor_on_canvas(&self) -> Option<Point> {
        let s = self.preview_canvas_scale;
        if !s.is_finite() || s.le(single(0)) {
            None
        } else {
            Some(
                Point {
                    x: self.cursor.x.minus(self.preview_canvas.x).over(s),
                    y: self.cursor.y.minus(self.preview_canvas.y).over(s),
                },
            )
        }
    }

    /// The cursor in canvas pixels; none before the preview was drawn at a size.
    #[verifier::when_used_as_spec(spec_cursor_on_canvas)]
    pub fn cursor_on_canvas(&self) -> (r: Option<Point>)
        ensures
            r == self.spec_cursor_on_canvas(),
    {
        proof {
            reveal(Desk::spec_cursor_on_canvas);
        }
        let s: Single = self.preview_canvas_scale;
        if !s.is_finite() || s.le(single(0)) {
            None
        } else {
            Some(
                Point {
                    x: self.cursor.x.minus(self.preview_canvas.x).over(s),
                    y: self.cursor.y.minus(self.preview_canvas.y).over(s),
                },
            )
        }
    }
}

/// How many of the first `n` lanes carry `kind`.
pub open spec fn lanes_of(tracks: Seq<Lane>, kind: TrackKind, n: int) -> nat
    decreases n,
{
    if n <= 0 || n > tracks.len() {
        0
    } else {
        lanes_of(tracks, kind, n - 1) + if tracks[n - 1].kind == kind {
            1nat
        } else {
            0nat
        }
    }
}

/// The lane that is number `k` among those of `kind` from `from` on.
pub open spec fn nth_lane(tracks: Seq<Lane>, kind: TrackKind, k: int, from: int) -> Option<usize>
    decreases tracks.len() - from,
{
    if from < 0 || from >= tracks.len() {
        None
    } else if tracks[from].kind != kind {
        nth_lane(tracks, kind, k, from + 1)
    } else if k == 0 {
        Some(from as usize)
    } else {
        nth_lane(tracks, kind, k - 1, from + 1)
    }
}

/// No more lanes of a kind than lanes.
pub proof fn lemma_lanes_of_bound(tracks: Seq<Lane>, kind: TrackKind, n: int)
    ensures
        lanes_of(tracks, kind, n) <= if n < 0 {
            0
        } else {
            n
        },
    decreases n,
{
    if 0 < n <= tracks.len() {
        lemma_lanes_of_bound(tracks, kind, n - 1);
    }
}

impl Timeline {
    /// How many of the first `n` tracks carry `kind`.
    pub fn count_kind(&self, kind: TrackKind, n: usize) -> (r: usize)
        requires
            n <= self@.tracks.len(),
        ensures
            r == lanes_of(self@.tracks, kind, n as int),
    {
        let mut count: usize = 0;
        let mut i: usize = 0;
        while i < n
            invariant
                i <= n <= self@.tracks.len(),
                count <= i,
                count == lanes_of(self@.tracks, kind, i as int),
            decreases n - i,
        {
            if self.tracks[i].kind == kind {
                count += 1;
            }
            i += 1;
        }
        count
    }

    /// The track that is number `k` among those of `kind`.
    pub fn nth_of(&self, kind: TrackKind, k: usize) -> (r: Option<usize>)
        ensures
            r == nth_lane(self@.tracks, kind, k as int, 0),
            r matches Some(i) ==> i < self@.tracks.len() && self@.tracks[i as int].kind == kind,
    {
        let mut left: usize = k;
        let mut i: usize = 0;
        while i < self.tracks.len()
            invariant
                i <= self.tracks.len(),
                nth_lane(self@.tracks, kind, k as int, 0) == nth_lane(
                    self@.tracks,
                    kind,
                    left as int,
                    i as int,
                ),
            decreases self.tracks.len() - i,
        {
            if self.tracks[i].kind == kind {
                if left == 0 {
                    return Some(i);
                }
                left -= 1;
            }
            i += 1;
        }
        None
    }
}

impl Sitting {
    /// The canvas of the session.
    pub open spec fn canvas(self) -> Canvas {
        canvas_for(self.reel.tracks, self.pool, self.res, self.fps)
    }

    /// How much timeline there is to look at. A row on its way from the pool counts.
    pub open spec fn content(self) -> Double {
        let incoming = match self.desk.drag {
            DragMode::PoolDrag { source } => self.pool.duration(source),
            _ => double(ZERO),
        };
        self.reel.length().max(incoming).max(double(MIN_CONTENT_SPAN))
    }

    /// Whether the session can be laid out: its window divides, its timeline has a view.
    pub open spec fn laid(self) -> bool {
        self.desk.divides() && viewable(self.desk.view_dur, self.content())
    }

    /// The stretch of timeline that shows: its start and its span.
    pub open spec fn window(self) -> (Double, Double) {
        resolve_view(self.desk.view_start, self.desk.view_dur, self.content())
    }

    /// The geometry of the timeline panel.
    #[verifier::opaque]
    pub open spec fn layout(self) -> TimelineLayout {
        let top = self.desk.timeline_top();
        let tracks_top = top.plus(single(TIMELINE_TOP_PAD));
        let area = self.desk.height.minus(tracks_top).minus(single(TIMELINE_SCROLLBAR_H)).max(
            single(0),
        );
        TimelineLayout {
            top,
            clips_x: single(TRACK_HEADER_WIDTH),
            clips_w: self.desk.width.minus(single(TRACK_HEADER_WIDTH)).max(single(ONE_PT)),
            center_y: tracks_top.plus(area.times(single(HALF_PT))).round(),
            lane_h: compute_lane_height(area, self.reel.tracks.len() as usize),
            bottom: self.desk.height,
            view_start: self.window().0,
            view_dur: self.window().1,
            content: self.content(),
        }
    }

    /// The number of a track among those of its kind.
    pub open spec fn visual(self, track: int) -> usize {
        lanes_of(self.reel.tracks, self.reel.tracks[track].kind, track) as usize
    }

    /// The top of a track's lane.
    pub open spec fn top_of(self, track: int) -> Single {
        lane_y(
            self.layout().center_y,
            self.layout().lane_h,
            self.visual(track),
            self.reel.tracks[track].kind,
        )
    }

    /// The top of the highest video lane.
    pub open spec fn topmost(self) -> Single {
        topmost_lane_top(
            self.layout().center_y,
            self.layout().lane_h,
            lanes_of(self.reel.tracks, TrackKind::Video, self.reel.tracks.len() as int) as usize,
        )
    }

    /// The track whose lane is at a height; gaps belong to a lane.
    pub open spec fn track_at(self, y: Single) -> Option<usize> {
        let l = self.layout();
        if y.lt(self.topmost()) {
            None
        } else {
            let stride = l.lane_h.plus(single(TRACK_LANE_GAP));
            let half_gap = single(TRACK_LANE_GAP).times(single(HALF_PT));
            if y.lt(l.center_y) {
                let dy = l.center_y.minus(y).minus(half_gap).max(single(0));
                nth_lane(
                    self.reel.tracks,
                    TrackKind::Video,
                    dy.over(stride).floor().to_usize() as int,
                    0,
                )
            } else {
                let dy = y.minus(l.center_y).minus(half_gap).max(single(0));
                nth_lane(
                    self.reel.tracks,
                    TrackKind::Audio,
                    dy.over(stride).floor().to_usize() as int,
                    0,
                )
            }
        }
    }

    /// What a press on one clip takes hold of: a fade handle, an edge, the level line of
    /// the selected clip, or the clip. `db` is the level of the selected clip.
    pub open spec fn grip(self, track: int, i: int, p: Point, db: Single) -> Option<TimelineHit> {
        let l = self.layout();
        let c = self.reel.clip(track, i);
        let lane = self.top_of(track);
        let x0 = l.t_to_x(c.timeline_start);
        let x1 = l.t_to_x(c.timeline_end());
        let grab = single(CLIP_EDGE_GRAB_PX);
        let (t, k) = (track as usize, i as usize);
        if fade_handle_rect(l.t_to_x(c.timeline_start.plus(c.fade_in)), x0, x1, lane).contains(
            p.x,
            p.y,
        ) {
            Some(TimelineHit::ClipFade { track: t, idx: k, side: FadeSide::In })
        } else if fade_handle_rect(
            l.t_to_x(c.timeline_end().minus(c.fade_out)),
            x0,
            x1,
            lane,
        ).contains(p.x, p.y) {
            Some(TimelineHit::ClipFade { track: t, idx: k, side: FadeSide::Out })
        } else if x0.minus(grab).le(p.x) && p.x.le(x0.plus(grab)) {
            Some(TimelineHit::ClipTrimLeft { track: t, idx: k })
        } else if x1.minus(grab).le(p.x) && p.x.le(x1.plus(grab)) {
            Some(TimelineHit::ClipTrimRight { track: t, idx: k })
        } else if x0.le(p.x) && p.x.le(x1) {
            let level_y = match self.reel.tracks[track].kind {
                TrackKind::Audio => db_to_y(lane, l.lane_h, db),
                TrackKind::Video => opacity_to_y(lane, l.lane_h, c.opacity),
            };
            if self.desk.selected == Some(c.id) && p.y.minus(level_y).abs().le(
                single(CLIP_LEVEL_GRAB_PX),
            ) {
                Some(TimelineHit::ClipLevel { track: t, idx: k })
            } else {
                Some(
                    TimelineHit::ClipBody {
                        track: t,
                        idx: k,
                        grab_t_offset: l.cursor_to_t(p.x).minus(c.timeline_start),
                    },
                )
            }
        } else {
            None
        }
    }

    /// What a press on a lane takes hold of: the first clip from `i` on that it grips.
    pub open spec fn first_grip(self, track: int, i: int, p: Point, db: Single) -> TimelineHit
        decreases self.reel.tracks[track].clips.len() - i,
    {
        if i < 0 || i >= self.reel.tracks[track].clips.len() {
            TimelineHit::Lane
        } else {
            match self.grip(track, i, p, db) {
                Some(h) => h,
                None => self.first_grip(track, i + 1, p, db),
            }
        }
    }

    /// What a press at a point of the timeline takes hold of.
    #[verifier::opaque]
    pub open spec fn hit(self, p: Point, db: Single) -> TimelineHit {
        let l = self.layout();
        if p.y.lt(l.top) {
            TimelineHit::Nothing
        } else if self.topmost().minus(single(TIMELINE_RULER_H)).le(p.y) && p.y.lt(self.topmost())
            && l.clips_x.le(p.x) {
            TimelineHit::Ruler
        } else {
            match self.track_at(p.y) {
                None => TimelineHit::Nothing,
                Some(t) => if p.x.lt(l.clips_x) {
                    TimelineHit::Nothing
                } else {
                    self.first_grip(t as int, 0, p, db)
                },
            }
        }
    }

    /// Whether every clip has a position on the panel.
    pub open spec fn graspable(self) -> bool {
        forall|t: int, i: int| #[trigger]
            self.reel.has(t, i) ==> !self.layout().t_to_x(
                self.reel.clip(t, i).timeline_start,
            ).is_nan()
    }

    /// The selected clip on the canvas: where it is, and where its picture was drawn. None
    /// unless it is a video clip under the playhead.
    pub open spec fn target(self) -> Option<(Place, Rect)> {
        match self.chosen() {
            None => None,
            Some(p) => {
                let (t, i) = (p.track as int, p.idx as int);
                let c = self.reel.clip(t, i);
                if self.reel.tracks[t].kind != TrackKind::Video || !c.contains(
                    self.desk.clock.position,
                ) {
                    None
                } else {
                    match self.pool.picture_size(c.source, self.canvas()) {
                        None => None,
                        Some((sw, sh)) => {
                            let r = self.canvas().place(
                                Single::from_u64(sw as u64),
                                Single::from_u64(sh as u64),
                                c.transform,
                            );
                            let s = self.desk.preview_canvas_scale;
                            Some(
                                (
                                    p,
                                    Rect {
                                        x: self.desk.preview_canvas.x.plus(r.x.times(s)),
                                        y: self.desk.preview_canvas.y.plus(r.y.times(s)),
                                        w: r.w.times(s),
                                        h: r.h.times(s),
                                    },
                                ),
                            )
                        },
                    }
                }
            },
        }
    }

    /// The first corner box from `i` on that holds a point.
    pub open spec fn corner_hit(rect: Rect, p: Point, i: int) -> Option<(Single, Single)>
        decreases 4 - i,
    {
        if i < 0 || i >= 4 {
            None
        } else if corner_box(rect, corner_at(i).0, corner_at(i).1).contains(p.x, p.y) {
            Some(corner_at(i))
        } else {
            Sitting::corner_hit(rect, p, i + 1)
        }
    }

    /// What a press on the preview takes hold of: a corner, or the picture inside the
    /// canvas.
    #[verifier::opaque]
    pub open spec fn on_preview(self, p: Point) -> Option<(Place, PreviewHit)> {
        match self.target() {
            None => None,
            Some((at, rect)) => match Sitting::corner_hit(rect, p, 0) {
                Some((cx, cy)) => Some((at, PreviewHit::Scale { cx, cy })),
                None => if rect.contains(p.x, p.y) && self.desk.preview_canvas.contains(p.x, p.y) {
                    Some((at, PreviewHit::Move))
                } else {
                    None
                },
            },
        }
    }

    /// The row of the pool at a point.
    pub open spec fn row_at(self, p: Point) -> Option<SourceId> {
        let stride = single(POOL_ROW_HEIGHT).plus(single(POOL_ROW_GAP));
        let rel = p.y.minus(single(POOL_LIST_TOP));
        let i = rel.over(stride).floor().to_usize();
        if p.x.lt(single(0)) || self.desk.media_pool_w().lt(p.x) || p.y.lt(single(POOL_LIST_TOP))
            || self.desk.timeline_top().lt(p.y) {
            None
        } else if single(POOL_ROW_HEIGHT).lt(
            rel.minus(Single::from_u64(i as u64).times(stride)),
        ) {
            None
        } else if i < self.pool.order.len() {
            Some(self.pool.order[i as int])
        } else {
            None
        }
    }

    /// The box that removes row `i`.
    pub open spec fn close_box(self, i: int) -> Rect {
        pool_row_close_rect(
            single(LABEL_PAD),
            single(POOL_LIST_TOP).plus(
                Single::from_u64(i as u64).times(
                    single(POOL_ROW_HEIGHT).plus(single(POOL_ROW_GAP)),
                ),
            ),
            self.desk.media_pool_w().minus(single(LABEL_PAD).times(single(TWO_PT))).max(
                single(ONE_PT),
            ),
        )
    }

    /// The first row from `i` on whose box holds a point.
    pub open spec fn closed_at(self, p: Point, i: int) -> Option<SourceId>
        decreases self.pool.order.len() - i,
    {
        if i < 0 || i >= self.pool.order.len() {
            None
        } else if self.close_box(i).contains(p.x, p.y) {
            Some(self.pool.order[i])
        } else {
            self.closed_at(p, i + 1)
        }
    }

    /// Whether the view can be zoomed by `shrink`: the timeline has a view of that span.
    pub open spec fn zoomable(self, shrink: Double) -> bool {
        let want = self.window().1.over(shrink);
        viewable(
            if self.content().le(want) {
                double(INFINITY)
            } else {
                want
            },
            self.content(),
        )
    }

    /// With the timeline zoomed about a position. `shrink` is what the span is divided by.
    pub open spec fn zoomed(self, shrink: Double, anchor_x: Single) -> Sitting {
        let l = self.layout();
        let want = l.view_dur.over(shrink);
        let wide = Sitting {
            desk: Desk {
                view_dur: if self.content().le(want) {
                    double(INFINITY)
                } else {
                    want
                },
                ..self.desk
            },
            ..self
        };
        Sitting {
            desk: Desk {
                view_start: l.cursor_to_t(anchor_x).minus(l.along(anchor_x).times(wide.window().1)),
                ..wide.desk
            },
            ..wide
        }
    }

    /// With the view slid by some notches.
    pub open spec fn panned(self, notches: Double) -> Sitting {
        Sitting {
            desk: Desk {
                view_start: self.window().0.plus(
                    notches.times(double(PAN_STEP_FRAC)).times(self.window().1),
                ),
                ..self.desk
            },
            ..self
        }
    }

    /// With the view brought along where the playhead ran out of it.
    pub open spec fn followed(self, t: Double) -> Sitting {
        let (start, dur) = self.window();
        if !self.desk.clock.playing || (start.le(t) && t.lt(start.plus(dur))) {
            self
        } else {
            Sitting {
                desk: Desk {
                    view_start: t.minus(dur.times(double(VIEW_FOLLOW_LEAD))),
                    ..self.desk
                },
                ..self
            }
        }
    }
}

impl Session {
    /// The canvas of the session.
    pub fn canvas(&self) -> (r: Canvas)
        ensures
            r == self@.canvas(),
    {
        canvas(&self.timeline, &self.media, self.canvas_res, self.canvas_fps)
    }

    /// How much timeline there is to look at. A row on its way from the pool counts.
    pub fn content_duration(&self) -> (r: Double)
        ensures
            r == self@.content(),
    {
        let incoming: Double = match self.desk.drag {
            DragMode::PoolDrag { source } => self.media.duration(source),
            _ => double(ZERO),
        };
        self.timeline.duration().max(incoming).max(double(MIN_CONTENT_SPAN))
    }

    /// Whether the session can be laid out.
    pub fn is_laid(&self) -> (r: bool)
        ensures
            r == self@.laid(),
    {
        self.desk.divides() && viewable(self.desk.view_dur, self.content_duration())
    }

    /// The stretch of timeline that shows: its start and its span.
    pub fn view_window(&self) -> (r: (Double, Double))
        requires
            self@.laid(),
        ensures
            r == self@.window(),
    {
        resolve_view(self.desk.view_start, self.desk.view_dur, self.content_duration())
    }

    /// The geometry of the timeline panel.
    pub fn timeline_layout(&self) -> (r: TimelineLayout)
        requires
            self@.laid(),
        ensures
            r == self@.layout(),
    {
        proof {
            reveal(Sitting::layout);
        }
        let top: Single = self.desk.timeline_top();
        let tracks_top: Single = top.plus(single(TIMELINE_TOP_PAD));
        let area: Single = self.desk.height.minus(tracks_top).minus(
            single(TIMELINE_SCROLLBAR_H),
        ).max(single(0));
        let (view_start, view_dur): (Double, Double) = self.view_window();
        TimelineLayout {
            top,
            clips_x: single(TRACK_HEADER_WIDTH),
            clips_w: self.desk.width.minus(single(TRACK_HEADER_WIDTH)).max(single(ONE_PT)),
            center_y: tracks_top.plus(area.times(single(HALF_PT))).round(),
            lane_h: compute_lane_height(area, self.timeline.tracks.len()),
            bottom: self.desk.height,
            view_start,
            view_dur,
            content: self.content_duration(),
        }
    }

    /// The number of a track among those of its kind.
    pub fn visual_index(&self, track: usize) -> (r: usize)
        requires
            track < self@.reel.tracks.len(),
        ensures
            r == self@.visual(track as int),
    {
        self.timeline.count_kind(self.timeline.tracks[track].kind, track)
    }

    /// The top of a track's lane.
    pub fn lane_top(&self, track: usize, layout: &TimelineLayout) -> (r: Single)
        requires
            track < self@.reel.tracks.len(),
            *layout == self@.layout(),
        ensures
            r == self@.top_of(track as int),
    {
        lane_y(
            layout.center_y,
            layout.lane_h,
            self.visual_index(track),
            self.timeline.tracks[track].kind,
        )
    }

    /// How many video tracks there are.
    pub fn n_video_tracks(&self) -> (r: usize)
        ensures
            r == lanes_of(self@.reel.tracks, TrackKind::Video, self@.reel.tracks.len() as int),
    {
        self.timeline.count_kind(TrackKind::Video, self.timeline.tracks.len())
    }

    /// The track whose lane is at a height.
    pub fn track_at_y(&self, y: Single, layout: &TimelineLayout) -> (r: Option<usize>)
        requires
            *layout == self@.layout(),
        ensures
            r == self@.track_at(y),
            r matches Some(t) ==> t < self@.reel.tracks.len(),
    {
        let topmost: Single = topmost_lane_top(
            layout.center_y,
            layout.lane_h,
            self.n_video_tracks(),
        );
        if y.lt(topmost) {
            return None;
        }
        let stride: Single = layout.lane_h.plus(single(TRACK_LANE_GAP));
        let half_gap: Single = single(TRACK_LANE_GAP).times(single(HALF_PT));
        if y.lt(layout.center_y) {
            let dy: Single = layout.center_y.minus(y).minus(half_gap).max(single(0));
            self.timeline.nth_of(TrackKind::Video, dy.over(stride).floor().to_usize())
        } else {
            let dy: Single = y.minus(layout.center_y).minus(half_gap).max(single(0));
            self.timeline.nth_of(TrackKind::Audio, dy.over(stride).floor().to_usize())
        }
    }

    /// What a press on one clip takes hold of.
    fn grip_of(&self, track: usize, i: usize, p: Point, db: Single, l: &TimelineLayout) -> (r: Option<
        TimelineHit,
    >)
        requires
            *l == self@.layout(),
            self@.graspable(),
            self@.reel.has(track as int, i as int),
        ensures
            r == self@.grip(track as int, i as int, p, db),
    {
        let c: Clip = self.timeline.tracks[track].clips[i];
        proof {
            assert(c == self@.reel.clip(track as int, i as int));
        }
        let kind: TrackKind = self.timeline.tracks[track].kind;
        let lane: Single = self.lane_top(track, l);
        let x0: Single = l.t_to_x(c.timeline_start);
        let x1: Single = l.t_to_x(c.timeline_end());
        let grab: Single = single(CLIP_EDGE_GRAB_PX);
        let head: Rect = fade_handle_rect(
            l.t_to_x(c.timeline_start.plus(c.fade_in)),
            x0,
            x1,
            lane,
        );
        if head.contains(p.x, p.y) {
            return Some(TimelineHit::ClipFade { track, idx: i, side: FadeSide::In });
        }
        let tail: Rect = fade_handle_rect(
            l.t_to_x(c.timeline_end().minus(c.fade_out)),
            x0,
            x1,
            lane,
        );
        if tail.contains(p.x, p.y) {
            return Some(TimelineHit::ClipFade { track, idx: i, side: FadeSide::Out });
        }
        if x0.minus(grab).le(p.x) && p.x.le(x0.plus(grab)) {
            return Some(TimelineHit::ClipTrimLeft { track, idx: i });
        }
        if x1.minus(grab).le(p.x) && p.x.le(x1.plus(grab)) {
            return Some(TimelineHit::ClipTrimRight { track, idx: i });
        }
        if x0.le(p.x) && p.x.le(x1) {
            let level_y: Single = match kind {
                TrackKind::Audio => db_to_y(lane, l.lane_h, db),
                TrackKind::Video => opacity_to_y(lane, l.lane_h, c.opacity),
            };
            let selected: bool = match self.desk.selected {
                Some(id) => id == c.id,
                None => false,
            };
            if selected && p.y.minus(level_y).abs().le(single(CLIP_LEVEL_GRAB_PX)) {
                return Some(TimelineHit::ClipLevel { track, idx: i });
            }
            return Some(
                TimelineHit::ClipBody {
                    track,
                    idx: i,
                    grab_t_offset: l.cursor_to_t(p.x).minus(c.timeline_start),
                },
            );
        }
        None
    }

    /// What a press at a point of the timeline takes hold of. `db` is the level of the
    /// selected clip, in decibels.
    pub fn timeline_hit(&self, p: Point, db: Single) -> (r: TimelineHit)
        requires
            self@.laid(),
            self@.graspable(),
        ensures
            r == self@.hit(p, db),
            in_reach(self@.reel, r),
    {
        proof {
            reveal(Sitting::hit);
        }
        let layout: TimelineLayout = self.timeline_layout();
        if p.y.lt(layout.top) {
            return TimelineHit::Nothing;
        }
        let topmost: Single = topmost_lane_top(
            layout.center_y,
            layout.lane_h,
            self.n_video_tracks(),
        );
        if topmost.minus(single(TIMELINE_RULER_H)).le(p.y) && p.y.lt(topmost) && layout.clips_x.le(
            p.x,
        ) {
            return TimelineHit::Ruler;
        }
        let track: usize = match self.track_at_y(p.y, &layout) {
            None => {
                return TimelineHit::Nothing;
            },
            Some(t) => t,
        };
        if p.x.lt(layout.clips_x) {
            return TimelineHit::Nothing;
        }
        let mut i: usize = 0;
        while i < self.timeline.tracks[track].clips.len()
            invariant
                track < self.timeline.tracks.len(),
                i <= self.timeline.tracks@[track as int].clips.len(),
                layout == self@.layout(),
                self@.graspable(),
                self@.hit(p, db) == self@.first_grip(track as int, i as int, p, db),
            decreases self.timeline.tracks@[track as int].clips.len() - i,
        {
            proof {
                assert(self@.reel.has(track as int, i as int));
            }
            if let Some(h) = self.grip_of(track, i, p, db, &layout) {
                return h;
            }
            i += 1;
        }
        TimelineHit::Lane
    }

    /// Whether every clip has a position on the panel.
    pub fn is_graspable(&self) -> (r: bool)
        requires
            self@.laid(),
        ensures
            r == self@.graspable(),
    {
        let layout: TimelineLayout = self.timeline_layout();
        let mut t: usize = 0;
        while t < self.timeline.tracks.len()
            invariant
                t <= self.timeline.tracks.len(),
                layout == self@.layout(),
                forall|u: int, j: int| #[trigger]
                    self@.reel.has(u, j) && u < t ==> !self@.layout().t_to_x(
                        self@.reel.clip(u, j).timeline_start,
                    ).is_nan(),
            decreases self.timeline.tracks.len() - t,
        {
            let mut i: usize = 0;
            while i < self.timeline.tracks[t].clips.len()
                invariant
                    t < self.timeline.tracks.len(),
                    i <= self.timeline.tracks@[t as int].clips.len(),
                    layout == self@.layout(),
                    forall|u: int, j: int| #[trigger]
                        self@.reel.has(u, j) && (u < t || (u == t && j < i))
                            ==> !self@.layout().t_to_x(
                            self@.reel.clip(u, j).timeline_start,
                        ).is_nan(),
                decreases self.timeline.tracks@[t as int].clips.len() - i,
            {
                if layout.t_to_x(self.timeline.tracks[t].clips[i].timeline_start).is_nan() {
                    proof {
                        assert(self@.reel.has(t as int, i as int));
                    }
                    return false;
                }
                i += 1;
            }
            t += 1;
        }
        true
    }

    /// The selected clip on the canvas: where it is, and where its picture was drawn.
    pub fn preview_transform_target(&self) -> (r: Option<(Place, Rect)>)
        ensures
            r == self@.target(),
            r matches Some((p, _)) ==> self@.reel.has(p.track as int, p.idx as int),
    {
        let p: Place = match self.selected_place() {
            None => {
                return None;
            },
            Some(p) => p,
        };
        if self.timeline.tracks[p.track].kind != TrackKind::Video {
            return None;
        }
        let c: Clip = self.timeline.tracks[p.track].clips[p.idx];
        if !c.contains(self.desk.clock.position) {
            return None;
        }
        let canvas: Canvas = self.canvas();
        match self.media.source_size(c.source, canvas) {
            None => None,
            Some((sw, sh)) => {
                let r: Rect = canvas.place(
                    Single::from_u64(sw as u64),
                    Single::from_u64(sh as u64),
                    c.transform,
                );
                let s: Single = self.desk.preview_canvas_scale;
                Some(
                    (
                        p,
                        Rect {
                            x: self.desk.preview_canvas.x.plus(r.x.times(s)),
                            y: self.desk.preview_canvas.y.plus(r.y.times(s)),
                            w: r.w.times(s),
                            h: r.h.times(s),
                        },
                    ),
                )
            },
        }
    }

    /// What a press on the preview takes hold of.
    pub fn preview_hit(&self, p: Point) -> (r: Option<(Place, PreviewHit)>)
        ensures
            r == self@.on_preview(p),
            r matches Some((at, _)) ==> self@.reel.has(at.track as int, at.idx as int),
    {
        proof {
            reveal(Sitting::on_preview);
        }
        match self.preview_transform_target() {
            None => None,
            Some((at, rect)) => {
                let boxes: Vec<Rect> = transform_handle_rects(rect);
                let mut i: usize = 0;
                while i < 4
                    invariant
                        i <= 4,
                        boxes.len() == 4,
                        forall|k: int|
                            0 <= k < 4 ==> #[trigger] boxes@[k] == corner_box(
                                rect,
                                corner_at(k).0,
                                corner_at(k).1,
                            ),
                        self@.target() == Some((at, rect)),
                        self@.reel.has(at.track as int, at.idx as int),
                        Sitting::corner_hit(rect, p, 0) == Sitting::corner_hit(rect, p, i as int),
                    decreases 4 - i,
                {
                    if boxes[i].contains(p.x, p.y) {
                        proof {
                            reveal(Sitting::on_preview);
                        }
                        let cx: Single = if i % 2 == 1 {
                            single(ONE_PT)
                        } else {
                            single(0)
                        };
                        let cy: Single = if i >= 2 {
                            single(ONE_PT)
                        } else {
                            single(0)
                        };
                        return Some((at, PreviewHit::Scale { cx, cy }));
                    }
                    i += 1;
                }
                if rect.contains(p.x, p.y) && self.desk.preview_canvas.contains(p.x, p.y) {
                    Some((at, PreviewHit::Move))
                } else {
                    None
                }
            },
        }
    }

    /// The row of the pool at a point.
    pub fn pool_hit(&self, p: Point) -> (r: Option<SourceId>)
        requires
            self@.desk.divides(),
        ensures
            r == self@.row_at(p),
    {
        if p.x.lt(single(0)) || self.desk.media_pool_w().lt(p.x) || p.y.lt(single(POOL_LIST_TOP))
            || self.desk.timeline_top().lt(p.y) {
            return None;
        }
        let stride: Single = single(POOL_ROW_HEIGHT).plus(single(POOL_ROW_GAP));
        let rel: Single = p.y.minus(single(POOL_LIST_TOP));
        let i: usize = rel.over(stride).floor().to_usize();
        if single(POOL_ROW_HEIGHT).lt(rel.minus(Single::from_u64(i as u64).times(stride))) {
            return None;
        }
        if i < self.media.order.len() {
            Some(self.media.order[i])
        } else {
            None
        }
    }

    /// The row of the pool whose box to remove it is at a point.
    pub fn pool_close_hit(&self, p: Point) -> (r: Option<SourceId>)
        requires
            self@.desk.divides(),
        ensures
            r == self@.closed_at(p, 0),
    {
        let row_w: Single = self.desk.media_pool_w().minus(
            single(LABEL_PAD).times(single(TWO_PT)),
        ).max(single(ONE_PT));
        let mut i: usize = 0;
        while i < self.media.order.len()
            invariant
                i <= self.media.order.len(),
                self@.desk.divides(),
                row_w == self@.desk.media_pool_w().minus(
                    single(LABEL_PAD).times(single(TWO_PT)),
                ).max(single(ONE_PT)),
                self@.closed_at(p, 0) == self@.closed_at(p, i as int),
            decreases self.media.order.len() - i,
        {
            let row_y: Single = single(POOL_LIST_TOP).plus(
                Single::from_u64(i as u64).times(
                    single(POOL_ROW_HEIGHT).plus(single(POOL_ROW_GAP)),
                ),
            );
            if pool_row_close_rect(single(LABEL_PAD), row_y, row_w).contains(p.x, p.y) {
                return Some(self.media.order[i]);
            }
            i += 1;
        }
        None
    }

    /// Whether the view can be zoomed by `shrink`.
    pub fn is_zoomable(&self, shrink: Double) -> (r: bool)
        requires
            self@.laid(),
        ensures
            r == self@.zoomable(shrink),
    {
        let content: Double = self.content_duration();
        let want: Double = self.view_window().1.over(shrink);
        viewable(
            if content.le(want) {
                double(INFINITY)
            } else {
                want
            },
            content,
        )
    }

    /// Zooms the timeline about a position, so that the time there stays there. `shrink`
    /// is what the span is divided by.
    pub fn zoom_timeline(&mut self, shrink: Double, anchor_x: Single)
        requires
            old(self)@.laid(),
            old(self)@.zoomable(shrink),
        ensures
            final(self)@ == old(self)@.zoomed(shrink, anchor_x),
    {
        let layout: TimelineLayout = self.timeline_layout();
        let content: Double = self.content_duration();
        let anchor_t: Double = layout.cursor_to_t(anchor_x);
        let along: Double = layout.along(anchor_x);
        let want: Double = layout.view_dur.over(shrink);
        self.desk.view_dur = if content.le(want) {
            double(INFINITY)
        } else {
            want
        };
        proof {
            reveal(Sitting::layout);
            reveal(Desk::spec_divides);
            assert(self@.content() == old(self)@.content());
        }
        let dur: Double = self.view_window().1;
        self.desk.view_start = anchor_t.minus(along.times(dur));
    }

    /// Slides the view by some notches.
    pub fn pan_timeline(&mut self, notches: Double)
        requires
            old(self)@.laid(),
        ensures
            final(self)@ == old(self)@.panned(notches),
    {
        let (start, dur): (Double, Double) = self.view_window();
        self.desk.view_start = start.plus(notches.times(double(PAN_STEP_FRAC)).times(dur));
    }

    /// Shows all of the timeline.
    pub fn zoom_timeline_to_fit(&mut self)
        ensures
            final(self)@ == (Sitting {
                desk: Desk {
                    view_start: double(ZERO),
                    view_dur: double(INFINITY),
                    ..old(self)@.desk
                },
                ..old(self)@
            }),
    {
        self.desk.view_start = double(ZERO);
        self.desk.view_dur = double(INFINITY);
    }

    /// Brings the view along where playback ran the playhead out of it.
    pub fn follow_playhead(&mut self, t: Double)
        requires
            old(self)@.laid(),
        ensures
            final(self)@ == old(self)@.followed(t),
    {
        if !self.desk.clock.playing {
            return;
        }
        let (start, dur): (Double, Double) = self.view_window();
        if start.le(t) && t.lt(start.plus(dur)) {
            return;
        }
        self.desk.view_start = t.minus(dur.times(double(VIEW_FOLLOW_LEAD)));
    }
}

/// Whether what a press took hold of is a clip of the timeline.
pub open spec fn in_reach(r: Reel, h: TimelineHit) -> bool {
    match h {
        TimelineHit::ClipBody { track, idx, grab_t_offset: _ } => r.has(track as int, idx as int),
        TimelineHit::ClipTrimLeft { track, idx } => r.has(track as int, idx as int),
        TimelineHit::ClipTrimRight { track, idx } => r.has(track as int, idx as int),
        TimelineHit::ClipFade { track, idx, side: _ } => r.has(track as int, idx as int),
        TimelineHit::ClipLevel { track, idx } => r.has(track as int, idx as int),
        _ => true,
    }
}

} // verus!
