//! Everything that is neither a gesture nor a command: the wheel, the pointer's shape, the
//! end of playback, and the export button.

use crate::canvas::Canvas;
use crate::edit::Point;
use crate::export::{Outcome, VideoSpec};
use crate::ieee::facts::{lemma_single_plus_grows, lemma_single_positive, lemma_single_zero};
use crate::ieee::{double, single, Double, Single};
use crate::input::DragMode;
use crate::layout::{PreviewHit, Splitter, TimelineHit, TimelineLayout};
use crate::media::{entries, lists, Pool, Source};
use crate::project::{MediaPath, Route};
use crate::session::{Clock, Desk, Session, Sitting};
use crate::theme::{ONE_PT, TRACK_HEADER_WIDTH};
use crate::timeline::{
    clips_of, lemma_clips_of_lane, lemma_clips_of_step, Clip, SourceId, TrackKind, ZERO,
};
use crate::title::{Title, Words};
use vstd::prelude::*;
use vstd::string::StringExecFns;

verus! {

/// The shape of the pointer.
#[derive(Clone, Copy, Debug, PartialEq, Eq, Structural)]
pub enum CursorIcon {
    Default,
    RowResize,
    ColResize,
    Grab,
    Grabbing,
    NwseResize,
    NeswResize,
}

/// The pointer of a divider.
pub open spec fn splitter_icon(s: Splitter) -> CursorIcon {
    match s {
        Splitter::TopBottom => CursorIcon::RowResize,
        Splitter::PoolPreview => CursorIcon::ColResize,
    }
}

/// The pointer of a divider.
fn splitter_cursor(s: Splitter) -> (r: CursorIcon)
    ensures
        r == splitter_icon(s),
{
    match s {
        Splitter::TopBottom => CursorIcon::RowResize,
        Splitter::PoolPreview => CursorIcon::ColResize,
    }
}

/// The pointer of a corner: along the diagonal that it travels.
pub open spec fn corner_icon(cx: Single, cy: Single) -> CursorIcon {
    if cx.same(cy) {
        CursorIcon::NwseResize
    } else {
        CursorIcon::NeswResize
    }
}

/// The pointer of a corner: along the diagonal that it travels.
fn corner_cursor(cx: Single, cy: Single) -> (r: CursorIcon)
    ensures
        r == corner_icon(cx, cy),
{
    if cx.same(cy) {
        CursorIcon::NwseResize
    } else {
        CursorIcon::NeswResize
    }
}

/// Points of touchpad travel that stand in for one notch of a wheel, `40`.
pub const PIXELS_PER_NOTCH: u32 = 0x4220_0000;

/// How many notches of a wheel a travel on the touchpad stands in for.
pub fn notches(travel: Single) -> (r: Single)
    ensures
        r == travel.over(single(PIXELS_PER_NOTCH)),
{
    travel.over(single(PIXELS_PER_NOTCH))
}

impl Sitting {
    /// The pointer over what is under the cursor.
    pub open spec fn hover_icon(self, db: Single) -> CursorIcon {
        let p = self.desk.cursor;
        if self.desk.project_menu_open {
            CursorIcon::Default
        } else if self.desk.splitter_at(p) is Some {
            splitter_icon(self.desk.splitter_at(p)->0)
        } else {
            match self.on_preview(p) {
                Some((_, PreviewHit::Scale { cx, cy })) => corner_icon(cx, cy),
                Some((_, PreviewHit::Move)) => CursorIcon::Grab,
                None => if self.layout().scrollbar_rect().contains(p.x, p.y) {
                    CursorIcon::Default
                } else {
                    match self.hit(p, db) {
                        TimelineHit::ClipLevel { track: _, idx: _ } => CursorIcon::RowResize,
                        TimelineHit::ClipTrimLeft { track: _, idx: _ } => CursorIcon::ColResize,
                        TimelineHit::ClipTrimRight { track: _, idx: _ } => CursorIcon::ColResize,
                        TimelineHit::ClipFade { track: _, idx: _, side: _ } => CursorIcon::ColResize,
                        _ => CursorIcon::Default,
                    }
                },
            }
        }
    }

    /// The pointer: that of the gesture in flight, or of what is under the cursor.
    pub open spec fn icon(self, db: Single) -> CursorIcon {
        match self.desk.drag {
            DragMode::Splitter(s) => splitter_icon(s),
            DragMode::ClipLevel { track: _, idx: _ } => CursorIcon::RowResize,
            DragMode::ClipTrimLeft { track: _, idx: _ } => CursorIcon::ColResize,
            DragMode::ClipTrimRight { track: _, idx: _ } => CursorIcon::ColResize,
            DragMode::ClipFade { track: _, idx: _, side: _ } => CursorIcon::ColResize,
            DragMode::ClipMoveOnCanvas { track: _, idx: _, start: _, grab: _ } =>
                CursorIcon::Grabbing,
            DragMode::ClipScaleOnCanvas {
                track: _,
                idx: _,
                start: _,
                grab: _,
                anchor: _,
                corner,
            } => corner_icon(corner.x, corner.y),
            DragMode::Idle => self.hover_icon(db),
            _ => CursorIcon::Default,
        }
    }

    /// With the wheel turned by some notches. `shrink` is what zooming by `dy` divides the
    /// span by.
    pub open spec fn wheeled(self, dx: Single, dy: Single, shift: bool, shrink: Double) -> Sitting {
        if self.desk.cursor.y.lt(self.desk.timeline_top()) {
            self
        } else {
            let s = self.panned_across(dx);
            if dy.same(single(0)) {
                s
            } else if shift {
                s.panned(dy.negate().to_double())
            } else {
                s.zoomed(shrink, s.desk.cursor.x)
            }
        }
    }

    /// Whether the wheel can be turned: the window can be divided; where the cursor is on the
    /// timeline, that can be laid out, and where the turn zooms, it has a view of that span.
    pub open spec fn turnable(self, dy: Single, shift: bool, shrink: Double) -> bool {
        &&& self.desk.divides()
        &&& !self.desk.cursor.y.lt(self.desk.timeline_top()) ==> self.laid() && (dy.same(
            single(0),
        ) || shift || self.zoomable(shrink))
    }

    /// With the view slid by the sideways part of a turn of the wheel.
    pub open spec fn panned_across(self, dx: Single) -> Sitting {
        if dx.same(single(0)) {
            self
        } else {
            self.panned(dx.to_double())
        }
    }

    /// Where zooming by the keyboard is anchored: at the playhead, on the panel.
    pub open spec fn playhead_anchor(self) -> Single {
        let l = self.layout();
        l.t_to_x(self.desk.clock.position).clamp(l.clips_x, l.clips_right())
    }

    /// With the playhead inside the timeline; past its end playback stops there.
    pub open spec fn parked(self) -> Sitting {
        let d = self.reel.length();
        let c = self.desk.clock;
        if d.le(double(ZERO)) {
            self.clocked(c.switched(false).jumped(double(ZERO)))
        } else if d.le(c.position) {
            self.clocked(c.switched(false).jumped(d))
        } else {
            self
        }
    }

    /// The picture of an export: that of the canvas, where there is any clip on a video
    /// track.
    pub open spec fn export_picture(self) -> Option<VideoSpec> {
        if exists|t: int|
            0 <= t < self.reel.tracks.len() && (#[trigger] self.reel.tracks[t]).kind
                == TrackKind::Video && self.reel.tracks[t].clips.len() > 0 {
            let c = self.canvas();
            Some(VideoSpec { width: c.width, height: c.height, fps: c.fps })
        } else {
            None
        }
    }
}

/// What the export button does.
#[derive(Clone, Copy, Debug, PartialEq, Eq, Structural)]
pub enum ExportStep {
    /// An export runs: it is told to stop.
    Cancel,
    /// There is nothing to export.
    NothingThere,
    /// A file is asked for.
    AskWhere,
}

/// How a status is meant.
#[derive(Clone, Copy, Debug, PartialEq, Eq, Structural)]
pub enum Mood {
    Good,
    Bad,
    Plain,
}

/// A status line.
#[derive(Debug, PartialEq)]
pub struct Notice {
    pub text: String,
    pub mood: Mood,
}

/// What is said once an export has ended. `name` is that of the file.
pub fn export_notice(outcome: &Outcome, name: &str) -> (r: Notice)
    ensures
        match *outcome {
            Outcome::Done(_) => r.text@ == "Exported "@ + name@ && r.mood == Mood::Good,
            Outcome::Cancelled => r.text@ == "Export cancelled"@ && r.mood == Mood::Plain,
            Outcome::Failed(e) => r.text@ == "Export failed: "@ + e@ && r.mood == Mood::Bad,
        },
{
    match outcome {
        Outcome::Done(_) => {
            let a: String = "Exported ".to_owned();
            Notice { text: a.concat(name), mood: Mood::Good }
        },
        Outcome::Cancelled => Notice { text: "Export cancelled".to_owned(), mood: Mood::Plain },
        Outcome::Failed(e) => {
            let a: String = "Export failed: ".to_owned();
            Notice { text: a.concat(e.as_str()), mood: Mood::Bad }
        },
    }
}

/// The sources of some clips that are in the pool, each once, in order.
pub open spec fn used_sources(clips: Seq<Clip>, pool: Pool) -> Seq<SourceId>
    decreases clips.len(),
{
    if clips.len() == 0 {
        Seq::empty()
    } else {
        let so_far = used_sources(clips.drop_last(), pool);
        let id = clips.last().source;
        if !pool.has(id) || so_far.contains(id) {
            so_far
        } else {
            so_far.push(id)
        }
    }
}

/// The files behind some sources, those that are no titles, in order.
pub open spec fn files_among(ids: Seq<SourceId>, pool: Pool) -> Seq<(SourceId, Route)>
    decreases ids.len(),
{
    if ids.len() == 0 {
        Seq::empty()
    } else {
        let before = files_among(ids.drop_last(), pool);
        let id = ids.last();
        if pool.item(id).title is None {
            before.push((id, pool.item(id).path))
        } else {
            before
        }
    }
}

/// What the titles among some sources say, in order.
pub open spec fn titles_among(ids: Seq<SourceId>, pool: Pool) -> Seq<(SourceId, Words)>
    decreases ids.len(),
{
    if ids.len() == 0 {
        Seq::empty()
    } else {
        let before = titles_among(ids.drop_last(), pool);
        let id = ids.last();
        match pool.item(id).title {
            Some(w) => before.push((id, w)),
            None => before,
        }
    }
}

/// The views of some files.
pub open spec fn routes(v: Seq<(SourceId, MediaPath)>) -> Seq<(SourceId, Route)> {
    Seq::new(v.len(), |i: int| (v[i].0, v[i].1@))
}

/// What an export takes along from the pool, so that the session can go on changing.
pub struct Luggage {
    pub files: Vec<(SourceId, MediaPath)>,
    pub titles: Vec<(SourceId, Title)>,
}

impl Session {
    /// The pointer over what is under the cursor. `db` is the level of the selected clip.
    fn hover_cursor(&self, db: Single) -> (r: CursorIcon)
        requires
            self@.laid(),
            self@.graspable(),
        ensures
            r == self@.hover_icon(db),
    {
        let p: Point = self.desk.cursor;
        if self.desk.project_menu_open {
            return CursorIcon::Default;
        }
        if let Some(s) = self.desk.splitter_at(p) {
            return splitter_cursor(s);
        }
        if let Some((_, hit)) = self.preview_hit(p) {
            return match hit {
                PreviewHit::Scale { cx, cy } => corner_cursor(cx, cy),
                PreviewHit::Move => CursorIcon::Grab,
            };
        }
        if self.timeline_layout().scrollbar_rect().contains(p.x, p.y) {
            return CursorIcon::Default;
        }
        match self.timeline_hit(p, db) {
            TimelineHit::ClipLevel { track: _, idx: _ } => CursorIcon::RowResize,
            TimelineHit::ClipTrimLeft { track: _, idx: _ } => CursorIcon::ColResize,
            TimelineHit::ClipTrimRight { track: _, idx: _ } => CursorIcon::ColResize,
            TimelineHit::ClipFade { track: _, idx: _, side: _ } => CursorIcon::ColResize,
            _ => CursorIcon::Default,
        }
    }

    /// The pointer: that of the gesture in flight, or of what is under the cursor.
    pub fn desired_cursor(&self, db: Single) -> (r: CursorIcon)
        requires
            self@.laid(),
            self@.graspable(),
        ensures
            r == self@.icon(db),
    {
        match self.desk.drag {
            DragMode::Splitter(s) => splitter_cursor(s),
            DragMode::ClipLevel { track: _, idx: _ } => CursorIcon::RowResize,
            DragMode::ClipTrimLeft { track: _, idx: _ } => CursorIcon::ColResize,
            DragMode::ClipTrimRight { track: _, idx: _ } => CursorIcon::ColResize,
            DragMode::ClipFade { track: _, idx: _, side: _ } => CursorIcon::ColResize,
            DragMode::ClipMoveOnCanvas { track: _, idx: _, start: _, grab: _ } =>
                CursorIcon::Grabbing,
            DragMode::ClipScaleOnCanvas {
                track: _,
                idx: _,
                start: _,
                grab: _,
                anchor: _,
                corner,
            } => corner_cursor(corner.x, corner.y),
            DragMode::Idle => self.hover_cursor(db),
            _ => CursorIcon::Default,
        }
    }

    /// Whether the wheel can be turned.
    pub fn is_turnable(&self, dy: Single, shift: bool, shrink: Double) -> (r: bool)
        ensures
            r == self@.turnable(dy, shift, shrink),
    {
        self.desk.divides() && (self.desk.cursor.y.lt(self.desk.timeline_top()) || (self.is_laid()
            && (dy.same(single(0)) || shift || self.is_zoomable(shrink))))
    }

    /// Turns the wheel over the timeline: sideways it slides the view, else it zooms about
    /// the cursor, or slides with Shift.
    pub fn wheel(&mut self, dx: Single, dy: Single, shift: bool, shrink: Double)
        requires
            old(self)@.turnable(dy, shift, shrink),
        ensures
            final(self)@ == old(self)@.wheeled(dx, dy, shift, shrink),
    {
        if self.desk.cursor.y.lt(self.desk.timeline_top()) {
            return;
        }
        if !dx.same(single(0)) {
            self.pan_timeline(dx.to_double());
        }
        proof {
            reveal(Desk::spec_divides);
            reveal(crate::layout::spec_resolve_view);
            assert(self@.content() == old(self)@.content());
        }
        if !dy.same(single(0)) {
            if shift {
                self.pan_timeline(dy.negate().to_double());
            } else {
                self.zoom_timeline(shrink, self.desk.cursor.x);
            }
        }
    }

    /// Zooms about the playhead.
    pub fn zoom_at_playhead(&mut self, shrink: Double)
        requires
            old(self)@.laid(),
            old(self)@.zoomable(shrink),
        ensures
            final(self)@ == old(self)@.zoomed(shrink, old(self)@.playhead_anchor()),
    {
        let layout: TimelineLayout = self.timeline_layout();
        proof {
            reveal(Sitting::layout);
            reveal(TimelineLayout::spec_clips_right);
            lemma_single_positive(single(TRACK_HEADER_WIDTH));
            lemma_single_positive(single(ONE_PT));
            lemma_single_zero();
            lemma_single_plus_grows(layout.clips_x, layout.clips_w);
        }
        let x: Single = layout.t_to_x(self.desk.clock.position).clamp(
            layout.clips_x,
            layout.clips_right(),
        );
        self.zoom_timeline(shrink, x);
    }

    /// Keeps the playhead inside the timeline; past its end playback stops there.
    pub fn park_playhead(&mut self)
        ensures
            final(self)@ == old(self)@.parked(),
    {
        let d: Double = self.timeline.duration();
        let c: Clock = self.desk.clock;
        if d.le(double(ZERO)) {
            self.desk.clock = c.switched(false).jumped(double(ZERO));
        } else if d.le(c.position) {
            self.desk.clock = c.switched(false).jumped(d);
        }
    }

    /// Whether an export can be started.
    pub fn can_export(&self) -> (r: bool)
        ensures
            r == (!self@.desk.exporting && double(ZERO).lt(self@.reel.length())),
    {
        !self.desk.exporting && double(ZERO).lt(self.timeline.duration())
    }

    /// What the export button does.
    pub fn export_step(&self) -> (r: ExportStep)
        ensures
            r == if self@.desk.exporting {
                ExportStep::Cancel
            } else if self@.reel.length().le(double(ZERO)) {
                ExportStep::NothingThere
            } else {
                ExportStep::AskWhere
            },
    {
        if self.desk.exporting {
            return ExportStep::Cancel;
        }
        if self.timeline.duration().le(double(ZERO)) {
            return ExportStep::NothingThere;
        }
        ExportStep::AskWhere
    }

    /// The picture of an export; none where nothing is on a video track.
    pub fn export_video_spec(&self) -> (r: Option<VideoSpec>)
        ensures
            r == self@.export_picture(),
    {
        let mut t: usize = 0;
        while t < self.timeline.tracks.len()
            invariant
                t <= self.timeline.tracks.len(),
                forall|u: int|
                    0 <= u < t ==> !((#[trigger] self@.reel.tracks[u]).kind == TrackKind::Video
                        && self@.reel.tracks[u].clips.len() > 0),
            decreases self.timeline.tracks.len() - t,
        {
            if self.timeline.tracks[t].kind == TrackKind::Video
                && self.timeline.tracks[t].clips.len() > 0 {
                proof {
                    assert(self@.reel.tracks[t as int] == self.timeline.tracks@[t as int]@);
                }
                let c: Canvas = self.canvas();
                return Some(VideoSpec { width: c.width, height: c.height, fps: c.fps });
            }
            t += 1;
        }
        None
    }

    /// The sources that an export needs: those of the clips that are in the pool, each once.
    pub fn export_sources(&self) -> (r: Vec<SourceId>)
        ensures
            r@ == used_sources(clips_of(self@.reel.tracks), self@.pool),
    {
        let ghost ls = self@.reel.tracks;
        let ghost pool = self@.pool;
        let mut ids: Vec<SourceId> = Vec::new();
        let mut t: usize = 0;
        proof {
            assert(ls.take(0) =~= Seq::empty());
        }
        while t < self.timeline.tracks.len()
            invariant
                t <= self.timeline.tracks.len(),
                ls == self.timeline@.tracks,
                pool == self.media@,
                ids@ == used_sources(clips_of(ls.take(t as int)), pool),
            decreases self.timeline.tracks.len() - t,
        {
            let mut i: usize = 0;
            proof {
                lemma_clips_of_lane(ls, t as int);
            }
            while i < self.timeline.tracks[t].clips.len()
                invariant
                    t < self.timeline.tracks.len(),
                    ls == self.timeline@.tracks,
                    pool == self.media@,
                    i <= self.timeline.tracks@[t as int].clips.len(),
                    ids@ == used_sources(
                        clips_of(ls.take(t as int)) + ls[t as int].clips.take(i as int),
                        pool,
                    ),
                decreases self.timeline.tracks@[t as int].clips.len() - i,
            {
                let id: SourceId = self.timeline.tracks[t].clips[i].source;
                proof {
                    lemma_clips_of_step(ls, t as int, i as int);
                    let was = clips_of(ls.take(t as int)) + ls[t as int].clips.take(i as int);
                    assert(was.push(ls[t as int].clips[i as int]).drop_last() =~= was);
                }
                if self.media.get(id).is_some() && !lists(&ids, id) {
                    ids.push(id);
                }
                i += 1;
            }
            proof {
                lemma_clips_of_lane(ls, t as int);
            }
            t += 1;
        }
        proof {
            assert(ls.take(ls.len() as int) =~= ls);
        }
        ids
    }

    /// The files and the titles that an export needs.
    pub fn export_luggage(&self) -> (r: Luggage)
        ensures
            ({
                let ids = used_sources(clips_of(self@.reel.tracks), self@.pool);
                &&& routes(r.files@) == files_among(ids, self@.pool)
                &&& entries(r.titles@) == titles_among(ids, self@.pool)
            }),
    {
        let ids: Vec<SourceId> = self.export_sources();
        proof {
            lemma_used_are_there(clips_of(self@.reel.tracks), self@.pool);
        }
        let mut files: Vec<(SourceId, MediaPath)> = Vec::new();
        let mut titles: Vec<(SourceId, Title)> = Vec::new();
        let mut i: usize = 0;
        proof {
            assert(ids@.take(0) =~= Seq::empty());
            assert(routes(files@) =~= Seq::empty());
            assert(entries(titles@) =~= Seq::empty());
        }
        while i < ids.len()
            invariant
                i <= ids.len(),
                forall|k: int| 0 <= k < ids.len() ==> self@.pool.has(#[trigger] ids@[k]),
                routes(files@) == files_among(ids@.take(i as int), self@.pool),
                entries(titles@) == titles_among(ids@.take(i as int), self@.pool),
            decreases ids.len() - i,
        {
            let id: SourceId = ids[i];
            let ghost (f, t) = (files@, titles@);
            proof {
                assert(ids@.take(i + 1).drop_last() =~= ids@.take(i as int));
                assert(self@.pool.has(id));
            }
            let source: &Source = &self.media.sources[id.0 as usize];
            match &source.title {
                Some(title) => {
                    let copy: Title = title.copy();
                    let ghost w = copy@;
                    titles.push((id, copy));
                    proof {
                        assert(entries(titles@) =~= entries(t).push((id, w)));
                    }
                },
                None => {
                    let copy: MediaPath = source.path.copy();
                    let ghost p = copy@;
                    files.push((id, copy));
                    proof {
                        assert(routes(files@) =~= routes(f).push((id, p)));
                    }
                },
            }
            i += 1;
        }
        proof {
            assert(ids@.take(ids.len() as int) =~= ids@);
        }
        Luggage { files, titles }
    }
}

/// The sources that some clips use and the pool has are in the pool.
proof fn lemma_used_are_there(clips: Seq<Clip>, pool: Pool)
    ensures
        forall|k: int|
            0 <= k < used_sources(clips, pool).len() ==> pool.has(
                #[trigger] used_sources(clips, pool)[k],
            ),
    decreases clips.len(),
{
    if clips.len() > 0 {
        let before = used_sources(clips.drop_last(), pool);
        lemma_used_are_there(clips.drop_last(), pool);
        assert forall|k: int| 0 <= k < used_sources(clips, pool).len() implies pool.has(
            #[trigger] used_sources(clips, pool)[k],
        ) by {
            if k < before.len() {
                assert(pool.has(before[k]));
            }
        }
    }
}

} // verus!
