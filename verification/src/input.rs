//! Pointer gestures and playhead navigation.

use crate::canvas::Canvas;
use crate::edit::{Place, Point, Range};
use crate::ieee::{double, single, Double, Single};
use crate::layout::{viewable, PreviewHit, Splitter, TimelineHit, TimelineLayout, MIN_CONTENT_SPAN};
use crate::media::Pool;
use crate::session::{Buttons, Clock, Desk, MenuItem, Session, Sitting};
use crate::theme::ONE_PT;
use crate::timeline::{
    first_free, Clip, FadeSide, Lane, Reel, SourceId, TrackKind, Transform, ONE, ZERO,
};
use crate::ui::Rect;
use vstd::prelude::*;

verus! {

/// The gesture in flight.
#[derive(Copy, Clone, Debug, PartialEq)]
pub enum DragMode {
    Idle,
    Scrub,
    /// A row of the pool on its way to the timeline.
    PoolDrag { source: SourceId },
    ClipMove { track: usize, idx: usize, grab_t_offset: Double },
    ClipTrimLeft { track: usize, idx: usize },
    ClipTrimRight { track: usize, idx: usize },
    ClipFade { track: usize, idx: usize, side: FadeSide },
    ClipLevel { track: usize, idx: usize },
    /// A picture moved on the canvas, measured from where it was grabbed.
    ClipMoveOnCanvas { track: usize, idx: usize, start: Transform, grab: Point },
    /// A picture scaled by a corner. The corner across from it stays at `anchor`.
    ClipScaleOnCanvas {
        track: usize,
        idx: usize,
        start: Transform,
        grab: Point,
        anchor: Point,
        corner: Point,
    },
    /// The thumb of the scrollbar, held this far along it.
    Scrollbar { grab_dx: Single },
    Splitter(Splitter),
}

impl DragMode {
    /// Whether the gesture reads the geometry of the timeline.
    pub open spec fn on_timeline(self) -> bool {
        match self {
            DragMode::Scrub => true,
            DragMode::ClipMove { track: _, idx: _, grab_t_offset: _ } => true,
            DragMode::ClipTrimLeft { track: _, idx: _ } => true,
            DragMode::ClipTrimRight { track: _, idx: _ } => true,
            DragMode::ClipFade { track: _, idx: _, side: _ } => true,
            DragMode::ClipLevel { track: _, idx: _ } => true,
            DragMode::Scrollbar { grab_dx: _ } => true,
            _ => false,
        }
    }
}

/// What a press asks for beyond the session.
#[derive(Copy, Clone, Debug, PartialEq, Eq, Structural)]
pub enum Effect {
    Nothing,
    PickMedia,
    StartExport,
    OpenProject,
    SaveProject,
}

/// What a gesture needs to know about levels: the gain under the cursor, and the range that
/// gains stay in.
#[derive(Copy, Clone, Debug, PartialEq)]
pub struct Tone {
    pub gain: Single,
    pub gains: Range,
}

/// The first row of the menu from `i` on that holds a point.
pub open spec fn choice_at(menu: Seq<MenuItem>, p: Point, i: int) -> Option<MenuItem>
    decreases menu.len() - i,
{
    if i < 0 || i >= menu.len() {
        None
    } else if menu[i].rect.contains(p.x, p.y) {
        Some(menu[i])
    } else {
        choice_at(menu, p, i + 1)
    }
}

impl Reel {
    /// With a clip taken to the end of another lane.
    pub open spec fn relocated(self, track: int, idx: int, to: int) -> Reel {
        let c = self.clip(track, idx);
        let out = Lane {
            kind: self.tracks[track].kind,
            clips: self.tracks[track].clips.remove(idx),
        };
        let into = Lane { kind: self.tracks[to].kind, clips: self.tracks[to].clips.push(c) };
        Reel { tracks: self.tracks.update(track, out).update(to, into), ..self }
    }

    /// With a new clip at the end of a lane.
    pub open spec fn appended(self, track: int, c: Clip) -> Reel {
        Reel {
            tracks: self.tracks.update(
                track,
                Lane {
                    kind: self.tracks[track].kind,
                    clips: self.tracks[track].clips.push(c),
                },
            ),
            ..self
        }
    }

    /// With a new clip of a source at the end of a lane, under the next name.
    pub open spec fn with_new(
        self,
        track: int,
        source: SourceId,
        length: Double,
        at: Double,
        link: Option<u32>,
    ) -> Reel {
        let c = Clip {
            id: self.next_clip,
            source,
            source_out: length,
            timeline_start: at,
            link,
            ..Clip::neutral()
        };
        Reel { next_clip: (self.next_clip + 1) as u32, ..self }.appended(track, c)
    }

    /// The audio lane for sound that a drop brings along, and the reel that has it: the
    /// first with room, or a fresh one.
    pub open spec fn sound_lane(self, start: Double, end: Double) -> (int, Reel) {
        match first_free(self.tracks, start, end, 0) {
            Some(i) => (i as int, self),
            None => (
                self.tracks.len() as int,
                Reel {
                    tracks: self.tracks.push(Lane { kind: TrackKind::Audio, clips: Seq::empty() }),
                    ..self
                },
            ),
        }
    }

    /// With a source dropped on a lane at a time. A picture brings its sound along, linked,
    /// on an audio lane with room; a source with nothing to play on the lane changes
    /// nothing.
    pub open spec fn dropped(self, pool: Pool, source: SourceId, track: int, at: Double) -> Reel {
        match self.tracks[track].kind {
            TrackKind::Video => if !pool.has_video(source) {
                self
            } else {
                match pool.audio_duration(source) {
                    None => self.with_new(track, source, pool.drop_duration(source), at, None),
                    Some(adur) => {
                        let (lane, r) = self.sound_lane(at, at.plus(adur));
                        let link = Some(r.next_link);
                        Reel { next_link: (r.next_link + 1) as u32, ..r }.with_new(
                            track,
                            source,
                            pool.drop_duration(source),
                            at,
                            link,
                        ).with_new(lane, source, adur, at, link)
                    },
                }
            },
            TrackKind::Audio => match pool.audio_duration(source) {
                Some(adur) => self.with_new(track, source, adur, at, None),
                None => self,
            },
        }
    }

    /// How many clips a drop of a source on a lane adds.
    pub open spec fn drop_adds(self, pool: Pool, source: SourceId, track: int) -> int {
        let heard = pool.audio_duration(source) is Some;
        match self.tracks[track].kind {
            TrackKind::Video => if !pool.has_video(source) {
                0
            } else if heard {
                2
            } else {
                1
            },
            TrackKind::Audio => if heard {
                1
            } else {
                0
            },
        }
    }

    /// Whether there are names left for what a drop of a source on a lane adds: one for each
    /// clip, and a link where there are two.
    pub open spec fn can_drop(self, pool: Pool, source: SourceId, track: int) -> bool {
        let n = self.drop_adds(pool, source, track);
        self.next_clip + n <= u32::MAX && (n == 2 ==> self.next_link < u32::MAX)
    }
}

impl Sitting {
    /// With another gesture in flight.
    pub open spec fn holding(self, drag: DragMode) -> Sitting {
        Sitting { desk: Desk { drag, ..self.desk }, ..self }
    }

    /// With the clock changed.
    pub open spec fn clocked(self, clock: Clock) -> Sitting {
        Sitting { desk: Desk { clock, ..self.desk }, ..self }
    }

    /// The clock, stopped where it ran.
    pub open spec fn paused(self) -> Clock {
        if self.desk.clock.playing {
            self.desk.clock.switched(false)
        } else {
            self.desk.clock
        }
    }

    /// With the playhead moved by some frames of the canvas, inside the timeline.
    #[verifier::opaque]
    pub open spec fn stepped(self, dir: Double) -> Sitting {
        let c = self.paused();
        let t = c.position.plus(dir.over(self.canvas().fps.max(double(ONE)))).max(double(ZERO));
        let d = self.reel.length();
        self.clocked(
            c.jumped(
                if double(ZERO).lt(d) {
                    t.min(d)
                } else {
                    t
                },
            ),
        )
    }

    /// With the playhead on the boundary before or after it, where there is one.
    #[verifier::opaque]
    pub open spec fn went_to(self, forward: bool) -> Sitting {
        match self.reel.edit_point(self.desk.clock.position, forward) {
            None => self,
            Some(t) => self.clocked(self.paused().jumped(t)),
        }
    }

    /// With playback started or stopped; from the end it starts over.
    #[verifier::opaque]
    pub open spec fn toggled(self) -> Sitting {
        let c = self.desk.clock;
        let d = self.reel.length();
        let from = if !c.playing && double(ZERO).lt(d) && d.le(c.position) {
            c.jumped(double(ZERO))
        } else {
            c
        };
        self.clocked(from.switched(!c.playing))
    }

    /// With the playhead under the cursor, where there is a timeline.
    #[verifier::opaque]
    pub open spec fn scrubbed(self) -> Sitting {
        if self.reel.length().le(double(ZERO)) {
            self
        } else {
            self.clocked(
                self.desk.clock.jumped(self.layout().cursor_to_t(self.desk.cursor.x)),
            )
        }
    }

    /// With typing finished and an edit closed that no release ever closed.
    pub open spec fn settled(self) -> Sitting {
        let a = self.titled();
        if a.depth > 0 {
            Sitting { depth: 1, ..a }.committed()
        } else {
            a
        }
    }

    /// What a press on the chrome does: the menu, a divider, a button. None where the press
    /// is on none of them.
    #[verifier::opaque]
    pub open spec fn pressed_chrome(self) -> Option<(Sitting, Effect)> {
        let p = self.desk.cursor;
        let b = self.desk.buttons;
        if self.desk.project_menu_open {
            Some(
                (
                    match choice_at(self.menu, p, 0) {
                        Some(item) => self.with_choice(item.choice),
                        None => Sitting {
                            desk: Desk { project_menu_open: false, ..self.desk },
                            ..self
                        },
                    },
                    Effect::Nothing,
                ),
            )
        } else if b.project.contains(p.x, p.y) {
            Some(
                (
                    Sitting { desk: Desk { project_menu_open: true, ..self.desk }, ..self },
                    Effect::Nothing,
                ),
            )
        } else if self.desk.splitter_at(p) is Some {
            Some(
                (
                    self.holding(DragMode::Splitter(self.desk.splitter_at(p)->0)),
                    Effect::Nothing,
                ),
            )
        } else if b.transport[0].contains(p.x, p.y) {
            Some((self.went_to(false), Effect::Nothing))
        } else if b.transport[1].contains(p.x, p.y) {
            Some((self.stepped(double(MINUS_ONE)), Effect::Nothing))
        } else if b.transport[2].contains(p.x, p.y) {
            Some((self.toggled(), Effect::Nothing))
        } else if b.transport[3].contains(p.x, p.y) {
            Some((self.stepped(double(ONE)), Effect::Nothing))
        } else if b.transport[4].contains(p.x, p.y) {
            Some((self.went_to(true), Effect::Nothing))
        } else {
            self.pressed_toolbar()
        }
    }

    /// What a press on the toolbar of the timeline does.
    #[verifier::opaque]
    pub open spec fn pressed_toolbar(self) -> Option<(Sitting, Effect)> {
        let p = self.desk.cursor;
        let b = self.desk.buttons;
        if b.split.contains(p.x, p.y) {
            Some((self.split_here(), Effect::Nothing))
        } else if b.undo.contains(p.x, p.y) {
            Some((self.undone(), Effect::Nothing))
        } else if b.redo.contains(p.x, p.y) {
            Some((self.redone(), Effect::Nothing))
        } else if b.delete.contains(p.x, p.y) {
            Some((self.less_selected(), Effect::Nothing))
        } else if b.snap.contains(p.x, p.y) {
            Some(
                (
                    Sitting {
                        desk: Desk { snap_enabled: !self.desk.snap_enabled, ..self.desk },
                        ..self
                    },
                    Effect::Nothing,
                ),
            )
        } else if b.export.contains(p.x, p.y) {
            Some((self, Effect::StartExport))
        } else if b.open.contains(p.x, p.y) {
            Some((self, Effect::OpenProject))
        } else if b.save.contains(p.x, p.y) {
            Some(
                (
                    self,
                    if self.desk.dirty {
                        Effect::SaveProject
                    } else {
                        Effect::Nothing
                    },
                ),
            )
        } else {
            None
        }
    }

    /// With the picture of a clip taken hold of.
    #[verifier::opaque]
    pub open spec fn picked_up(self, at: Place, hit: PreviewHit) -> Sitting {
        let c = self.reel.clip(at.track as int, at.idx as int);
        let b = self.begun();
        match hit {
            PreviewHit::Move => b.holding(
                DragMode::ClipMoveOnCanvas {
                    track: at.track,
                    idx: at.idx,
                    start: c.transform,
                    grab: self.desk.cursor,
                },
            ),
            PreviewHit::Scale { cx, cy } => match (
                self.pool.picture_size(c.source, self.canvas()),
                self.desk.cursor_on_canvas(),
            ) {
                (Some((sw, sh)), Some(grab)) => {
                    let r = self.canvas().place(
                        Single::from_u64(sw as u64),
                        Single::from_u64(sh as u64),
                        c.transform,
                    );
                    b.holding(
                        DragMode::ClipScaleOnCanvas {
                            track: at.track,
                            idx: at.idx,
                            start: c.transform,
                            grab,
                            anchor: Point {
                                x: r.x.plus(single(ONE_PT).minus(cx).times(r.w)),
                                y: r.y.plus(single(ONE_PT).minus(cy).times(r.h)),
                            },
                            corner: Point { x: cx, y: cy },
                        },
                    )
                },
                _ => b,
            },
        }
    }

    /// What a press on the timeline does: takes hold of a clip and selects it, or moves the
    /// playhead and selects nothing.
    #[verifier::opaque]
    pub open spec fn pressed_timeline(self, db: Single) -> Sitting {
        match self.hit(self.desk.cursor, db) {
            TimelineHit::ClipTrimLeft { track, idx } => self.selecting(track, idx).begun().holding(
                DragMode::ClipTrimLeft { track, idx },
            ),
            TimelineHit::ClipTrimRight { track, idx } => self.selecting(
                track,
                idx,
            ).begun().holding(DragMode::ClipTrimRight { track, idx }),
            TimelineHit::ClipBody { track, idx, grab_t_offset } => self.selecting(
                track,
                idx,
            ).begun().holding(DragMode::ClipMove { track, idx, grab_t_offset }),
            TimelineHit::ClipFade { track, idx, side } => self.selecting(
                track,
                idx,
            ).begun().holding(DragMode::ClipFade { track, idx, side }),
            TimelineHit::ClipLevel { track, idx } => self.begun().holding(
                DragMode::ClipLevel { track, idx },
            ),
            TimelineHit::Lane | TimelineHit::Ruler => self.deselected().holding(
                DragMode::Scrub,
            ).scrubbed(),
            TimelineHit::Nothing => self,
        }
    }

    /// With nothing selected.
    pub open spec fn deselected(self) -> Sitting {
        Sitting { desk: Desk { selected: None, ..self.desk }, ..self }
    }

    /// With the clip at a place selected.
    pub open spec fn selecting(self, track: usize, idx: usize) -> Sitting {
        Sitting {
            desk: Desk {
                selected: Some(self.reel.clip(track as int, idx as int).id),
                ..self.desk
            },
            ..self
        }
    }

    /// What a press on the panels does: the canvas, the pool, the scroll strip, the
    /// timeline.
    #[verifier::opaque]
    pub open spec fn pressed_panels(self, db: Single) -> (Sitting, Effect) {
        let p = self.desk.cursor;
        let b = self.desk.buttons;
        if self.on_preview(p) is Some {
            let (at, hit) = self.on_preview(p)->0;
            (self.picked_up(at, hit), Effect::Nothing)
        } else if b.pool_open.contains(p.x, p.y) {
            (self, Effect::PickMedia)
        } else if b.pool_title.contains(p.x, p.y) {
            (self.with_title(), Effect::Nothing)
        } else if self.closed_at(p, 0) is Some {
            (self.less_source(self.closed_at(p, 0)->0), Effect::Nothing)
        } else if self.row_at(p) is Some {
            (self.holding(DragMode::PoolDrag { source: self.row_at(p)->0 }), Effect::Nothing)
        } else if self.layout().scrollbar_rect().contains(p.x, p.y) {
            (
                match self.layout().scroll_grab_offset(p.x) {
                    None => self,
                    Some(grab_dx) => self.holding(DragMode::Scrollbar { grab_dx }).scrolled(
                        grab_dx,
                    ),
                },
                Effect::Nothing,
            )
        } else {
            (self.pressed_timeline(db), Effect::Nothing)
        }
    }

    /// With the view where the thumb is, held this far along it.
    pub open spec fn scrolled(self, grab_dx: Single) -> Sitting {
        Sitting {
            desk: Desk {
                view_start: self.layout().scroll_x_to_view_start(
                    self.desk.cursor.x.minus(grab_dx),
                ),
                ..self.desk
            },
            ..self
        }
    }

    /// What a press of the pointer does. `db` is the level of the selected clip.
    pub open spec fn pressed(self, db: Single) -> (Sitting, Effect) {
        let s = self.settled();
        match s.pressed_chrome() {
            Some(r) => r,
            None => s.pressed_panels(db),
        }
    }

    /// Whether the cursor is on the button that splits, and no menu is over it.
    pub open spec fn on_split(self) -> bool {
        let p = self.desk.cursor;
        !self.desk.project_menu_open && self.desk.buttons.split.contains(p.x, p.y)
    }

    /// Whether the cursor is on the button that adds a title, and no menu is over it.
    pub open spec fn on_new_title(self) -> bool {
        let p = self.desk.cursor;
        !self.desk.project_menu_open && self.desk.buttons.pool_title.contains(p.x, p.y)
    }

    /// Whether a press looks for the dividers: no menu is open, and the cursor is not on the
    /// button that opens it.
    pub open spec fn on_window(self) -> bool {
        let p = self.desk.cursor;
        !self.desk.project_menu_open && !self.desk.buttons.project.contains(p.x, p.y)
    }

    /// Whether the cursor is on a divider or on a button of the transport or the toolbar.
    pub open spec fn on_controls(self) -> bool {
        let p = self.desk.cursor;
        let b = self.desk.buttons;
        ||| self.desk.splitter_at(p) is Some
        ||| b.transport[0].contains(p.x, p.y)
        ||| b.transport[1].contains(p.x, p.y)
        ||| b.transport[2].contains(p.x, p.y)
        ||| b.transport[3].contains(p.x, p.y)
        ||| b.transport[4].contains(p.x, p.y)
        ||| b.split.contains(p.x, p.y)
        ||| b.undo.contains(p.x, p.y)
        ||| b.redo.contains(p.x, p.y)
        ||| b.delete.contains(p.x, p.y)
        ||| b.snap.contains(p.x, p.y)
        ||| b.export.contains(p.x, p.y)
        ||| b.open.contains(p.x, p.y)
        ||| b.save.contains(p.x, p.y)
    }

    /// Whether the cursor is on the picture in hand, or on a button or a row of the pool.
    pub open spec fn on_upper_panels(self) -> bool {
        let p = self.desk.cursor;
        let b = self.desk.buttons;
        ||| self.on_preview(p) is Some
        ||| b.pool_open.contains(p.x, p.y)
        ||| b.pool_title.contains(p.x, p.y)
        ||| self.closed_at(p, 0) is Some
        ||| self.row_at(p) is Some
    }

    /// Whether a press falls through to the timeline.
    pub open spec fn on_timeline(self) -> bool {
        self.on_window() && !self.on_controls() && !self.on_upper_panels()
    }

    /// Whether a press can be taken. Where it looks for the dividers, the window can be
    /// divided; where it falls through to the timeline, that can be laid out, and off the
    /// scroll strip every clip has a position. On the button that splits, the clips under
    /// the playhead can be split; on the button that adds a title, there is a name left for
    /// it.
    pub open spec fn pressable(self) -> bool {
        let p = self.desk.cursor;
        &&& self.sound()
        &&& self.on_window() ==> self.desk.divides()
        &&& self.on_timeline() ==> self.laid() && self.holding(DragMode::Idle).laid()
        &&& self.on_timeline() && !self.layout().scrollbar_rect().contains(p.x, p.y)
            ==> self.graspable()
        &&& self.on_split() ==> self.reel.can_split(self.desk.clock.position)
        &&& self.on_new_title() ==> self.pool.sources.len() < u32::MAX
    }
}

/// Minus one, as a double.
pub const MINUS_ONE: u64 = 0xbff0_0000_0000_0000;

/// A session with another gesture, another selection or other flags has the same geometry,
/// unless a row of the pool is on its way.
proof fn lemma_same_ground(a: Sitting, b: Sitting)
    requires
        a.reel == b.reel,
        a.pool == b.pool,
        a.desk.width == b.desk.width,
        a.desk.height == b.desk.height,
        a.desk.split_top_bottom == b.desk.split_top_bottom,
        a.desk.split_pool_preview == b.desk.split_pool_preview,
        a.desk.view_start == b.desk.view_start,
        a.desk.view_dur == b.desk.view_dur,
        a.desk.drag == b.desk.drag || (!(a.desk.drag is PoolDrag) && !(b.desk.drag is PoolDrag)),
    ensures
        a.content() == b.content(),
        a.layout() == b.layout(),
        a.laid() == b.laid(),
        a.graspable() == b.graspable(),
{
    reveal(Desk::spec_timeline_top);
    reveal(Desk::spec_divides);
    reveal(Sitting::layout);
}

/// The boxes that remove rows stand where the pool is as wide.
proof fn lemma_same_boxes(a: Sitting, b: Sitting, p: Point, i: int)
    requires
        a.pool == b.pool,
        a.desk.media_pool_w() == b.desk.media_pool_w(),
    ensures
        a.closed_at(p, i) == b.closed_at(p, i),
    decreases a.pool.order.len() - i,
{
    if 0 <= i < a.pool.order.len() {
        lemma_same_boxes(a, b, p, i + 1);
    }
}

/// Finishing typing and closing an edit leave a press where it falls.
proof fn lemma_settling_keeps_presses(s: Sitting)
    requires
        s.settled().sound(),
    ensures
        s.pressable() ==> s.settled().pressable(),
        s.settled().on_window() == s.on_window(),
{
    let b = s.settled();
    reveal(Sitting::committed);
    assert(b.reel == s.reel && b.pool == s.pool && b.res == s.res && b.fps == s.fps && b.desk == (
    Desk { dirty: b.desk.dirty, ..s.desk }));
    reveal(Desk::spec_divides);
    reveal(Desk::spec_timeline_top);
    reveal(Desk::spec_media_pool_w);
    reveal(Desk::spec_splitter_at);
    reveal(Sitting::on_preview);
    lemma_same_boxes(s, b, s.desk.cursor, 0);
    lemma_same_ground(s, b);
    lemma_same_ground(s.holding(DragMode::Idle), b.holding(DragMode::Idle));
}

impl Session {
    /// Finishes typing, and closes an edit that no release ever closed.
    fn settle(&mut self)
        requires
            old(self)@.sound(),
        ensures
            final(self)@ == old(self)@.settled(),
            final(self)@.sound(),
            final(self)@.depth == 0,
            final(self)@.reel == old(self)@.reel,
            final(self)@.pool == old(self)@.pool,
            final(self)@.desk == (Desk { dirty: final(self)@.desk.dirty, ..old(self)@.desk }),
    {
        self.finish_title_edit();
        if self.edit_depth > 0 {
            self.edit_depth = 1;
            self.commit_edit();
        }
    }

    /// The row of the menu at a point.
    fn menu_choice(&self, p: Point) -> (r: Option<MenuItem>)
        ensures
            r == choice_at(self@.menu, p, 0),
    {
        let mut i: usize = 0;
        while i < self.menu_items.len()
            invariant
                i <= self.menu_items.len(),
                choice_at(self@.menu, p, 0) == choice_at(self@.menu, p, i as int),
            decreases self.menu_items.len() - i,
        {
            if self.menu_items[i].rect.contains(p.x, p.y) {
                return Some(self.menu_items[i]);
            }
            i += 1;
        }
        None
    }

    /// Stops playback where it runs.
    fn pause(&mut self)
        ensures
            final(self)@ == old(self)@.clocked(old(self)@.paused()),
    {
        if self.desk.clock.playing {
            self.desk.clock = self.desk.clock.switched(false);
        }
    }

    /// Moves the playhead by some frames of the canvas.
    pub fn step_frame(&mut self, dir: Double)
        ensures
            final(self)@ == old(self)@.stepped(dir),
            final(self)@.pool == old(self)@.pool,
    {
        proof {
            reveal(Sitting::stepped);
        }
        self.pause();
        let fps: Double = self.canvas().fps.max(double(ONE));
        let mut t: Double = self.desk.clock.position.plus(dir.over(fps)).max(double(ZERO));
        let d: Double = self.timeline.duration();
        if double(ZERO).lt(d) {
            t = t.min(d);
        }
        self.desk.clock = self.desk.clock.jumped(t);
    }

    /// Moves the playhead to the boundary before or after it.
    pub fn goto_edit_point(&mut self, forward: bool)
        ensures
            final(self)@ == old(self)@.went_to(forward),
            final(self)@.pool == old(self)@.pool,
    {
        proof {
            reveal(Sitting::went_to);
        }
        let t: Double = self.desk.clock.position;
        let target: Option<Double> = if forward {
            self.timeline.next_edit_point(t)
        } else {
            self.timeline.prev_edit_point(t)
        };
        if let Some(to) = target {
            self.pause();
            self.desk.clock = self.desk.clock.jumped(to);
        }
    }

    /// Starts or stops playback; from the end it starts over.
    pub fn toggle_playback(&mut self)
        ensures
            final(self)@ == old(self)@.toggled(),
            final(self)@.pool == old(self)@.pool,
    {
        proof {
            reveal(Sitting::toggled);
        }
        let playing: bool = self.desk.clock.playing;
        if !playing {
            let d: Double = self.timeline.duration();
            if double(ZERO).lt(d) && d.le(self.desk.clock.position) {
                self.desk.clock = self.desk.clock.jumped(double(ZERO));
            }
        }
        self.desk.clock = self.desk.clock.switched(!playing);
    }

    /// Moves the playhead under the cursor.
    pub fn apply_scrub(&mut self)
        requires
            old(self)@.laid(),
        ensures
            final(self)@ == old(self)@.scrubbed(),
            final(self)@.pool == old(self)@.pool,
    {
        proof {
            reveal(Sitting::scrubbed);
        }
        if self.timeline.duration().le(double(ZERO)) {
            return;
        }
        let t: Double = self.timeline_layout().cursor_to_t(self.desk.cursor.x);
        self.desk.clock = self.desk.clock.jumped(t);
    }

    /// Takes a press on the toolbar of the timeline.
    fn press_toolbar(&mut self) -> (r: Option<Effect>)
        requires
            old(self)@.sound(),
            old(self)@.depth == 0,
            !old(self)@.desk.project_menu_open,
            old(self)@.on_split() ==> old(self)@.reel.can_split(old(self)@.desk.clock.position),
        ensures
            final(self)@.sound(),
            match old(self)@.pressed_toolbar() {
                Some((s, e)) => final(self)@ == s && r == Some(e),
                None => final(self)@ == old(self)@ && r is None,
            },
    {
        proof {
            reveal(Sitting::pressed_toolbar);
        }
        let p: Point = self.desk.cursor;
        if self.desk.buttons.split.contains(p.x, p.y) {
            self.split_at_playhead();
        } else if self.desk.buttons.undo.contains(p.x, p.y) {
            self.undo();
        } else if self.desk.buttons.redo.contains(p.x, p.y) {
            self.redo();
        } else if self.desk.buttons.delete.contains(p.x, p.y) {
            self.delete_selected();
        } else if self.desk.buttons.snap.contains(p.x, p.y) {
            self.desk.snap_enabled = !self.desk.snap_enabled;
        } else if self.desk.buttons.export.contains(p.x, p.y) {
            return Some(Effect::StartExport);
        } else if self.desk.buttons.open.contains(p.x, p.y) {
            return Some(Effect::OpenProject);
        } else if self.desk.buttons.save.contains(p.x, p.y) {
            if self.desk.dirty {
                return Some(Effect::SaveProject);
            }
        } else {
            return None;
        }
        Some(Effect::Nothing)
    }

    /// Takes a press on the chrome.
    fn press_chrome(&mut self) -> (r: Option<Effect>)
        requires
            old(self)@.sound(),
            old(self)@.depth == 0,
            old(self)@.on_window() ==> old(self)@.desk.divides(),
            old(self)@.on_split() ==> old(self)@.reel.can_split(old(self)@.desk.clock.position),
        ensures
            final(self)@.sound(),
            r is None ==> old(self)@.on_window() && !old(self)@.on_controls(),
            match old(self)@.pressed_chrome() {
                Some((s, e)) => final(self)@ == s && r == Some(e),
                None => final(self)@ == old(self)@ && r is None,
            },
    {
        proof {
            reveal(Sitting::pressed_chrome);
            reveal(Sitting::pressed_toolbar);
        }
        let p: Point = self.desk.cursor;
        if self.desk.project_menu_open {
            match self.menu_choice(p) {
                Some(item) => {
                    self.apply_project_choice(item.choice);
                },
                None => {
                    self.desk.project_menu_open = false;
                },
            }
            return Some(Effect::Nothing);
        }
        if self.desk.buttons.project.contains(p.x, p.y) {
            self.desk.project_menu_open = true;
            return Some(Effect::Nothing);
        }
        if let Some(splitter) = self.desk.splitter_at(p) {
            self.desk.drag = DragMode::Splitter(splitter);
            return Some(Effect::Nothing);
        }
        if self.desk.buttons.transport[0].contains(p.x, p.y) {
            self.goto_edit_point(false);
            return Some(Effect::Nothing);
        }
        if self.desk.buttons.transport[1].contains(p.x, p.y) {
            self.step_frame(double(MINUS_ONE));
            return Some(Effect::Nothing);
        }
        if self.desk.buttons.transport[2].contains(p.x, p.y) {
            self.toggle_playback();
            return Some(Effect::Nothing);
        }
        if self.desk.buttons.transport[3].contains(p.x, p.y) {
            self.step_frame(double(ONE));
            return Some(Effect::Nothing);
        }
        if self.desk.buttons.transport[4].contains(p.x, p.y) {
            self.goto_edit_point(true);
            return Some(Effect::Nothing);
        }
        self.press_toolbar()
    }

    /// Takes hold of the picture of a clip.
    fn pick_up(&mut self, at: Place, hit: PreviewHit)
        requires
            old(self)@.sound(),
            old(self)@.depth == 0,
            old(self)@.reel.has(at.track as int, at.idx as int),
        ensures
            final(self)@ == old(self)@.picked_up(at, hit),
            final(self)@.sound(),
    {
        proof {
            reveal(Sitting::picked_up);
        }
        let c: Clip = self.timeline.tracks[at.track].clips[at.idx];
        let canvas: Canvas = self.canvas();
        let size: Option<(u32, u32)> = self.media.source_size(c.source, canvas);
        self.begin_edit();
        match hit {
            PreviewHit::Move => {
                self.desk.drag = DragMode::ClipMoveOnCanvas {
                    track: at.track,
                    idx: at.idx,
                    start: c.transform,
                    grab: self.desk.cursor,
                };
            },
            PreviewHit::Scale { cx, cy } => {
                match (size, self.desk.cursor_on_canvas()) {
                    (Some((sw, sh)), Some(grab)) => {
                        let r: Rect = canvas.place(
                            Single::from_u64(sw as u64),
                            Single::from_u64(sh as u64),
                            c.transform,
                        );
                        self.desk.drag = DragMode::ClipScaleOnCanvas {
                            track: at.track,
                            idx: at.idx,
                            start: c.transform,
                            grab,
                            anchor: Point {
                                x: r.x.plus(single(ONE_PT).minus(cx).times(r.w)),
                                y: r.y.plus(single(ONE_PT).minus(cy).times(r.h)),
                            },
                            corner: Point { x: cx, y: cy },
                        };
                    },
                    _ => {},
                }
            },
        }
    }

    /// Opens an edit that a gesture makes.
    fn hold(&mut self, drag: DragMode)
        requires
            old(self)@.sound(),
            old(self)@.depth == 0,
        ensures
            final(self)@ == old(self)@.begun().holding(drag),
            final(self)@.sound(),
    {
        self.begin_edit();
        self.desk.drag = drag;
    }

    /// Selects a clip and opens an edit that a gesture on it makes.
    fn grab(&mut self, track: usize, idx: usize, drag: DragMode)
        requires
            old(self)@.sound(),
            old(self)@.depth == 0,
            old(self)@.reel.has(track as int, idx as int),
        ensures
            final(self)@ == old(self)@.selecting(track, idx).begun().holding(drag),
            final(self)@.sound(),
    {
        self.select_clip_at(track, idx);
        self.hold(drag);
    }

    /// Clears the selection and starts moving the playhead.
    fn scrub(&mut self)
        requires
            old(self)@.sound(),
            old(self)@.laid(),
            old(self)@.holding(DragMode::Idle).laid(),
        ensures
            final(self)@ == old(self)@.deselected().holding(DragMode::Scrub).scrubbed(),
            final(self)@.sound(),
    {
        self.desk.selected = None;
        self.desk.drag = DragMode::Scrub;
        proof {
            lemma_same_ground(old(self)@.holding(DragMode::Idle), self@);
        }
        self.apply_scrub();
    }

    /// Takes a press on the timeline.
    fn press_timeline(&mut self, db: Single)
        requires
            old(self)@.sound(),
            old(self)@.depth == 0,
            old(self)@.laid(),
            old(self)@.graspable(),
            old(self)@.holding(DragMode::Idle).laid(),
        ensures
            final(self)@ == old(self)@.pressed_timeline(db),
            final(self)@.sound(),
    {
        proof {
            reveal(Sitting::pressed_timeline);
        }
        match self.timeline_hit(self.desk.cursor, db) {
            TimelineHit::ClipTrimLeft { track, idx } => {
                self.grab(track, idx, DragMode::ClipTrimLeft { track, idx });
            },
            TimelineHit::ClipTrimRight { track, idx } => {
                self.grab(track, idx, DragMode::ClipTrimRight { track, idx });
            },
            TimelineHit::ClipBody { track, idx, grab_t_offset } => {
                self.grab(track, idx, DragMode::ClipMove { track, idx, grab_t_offset });
            },
            TimelineHit::ClipFade { track, idx, side } => {
                self.grab(track, idx, DragMode::ClipFade { track, idx, side });
            },
            TimelineHit::ClipLevel { track, idx } => {
                self.hold(DragMode::ClipLevel { track, idx });
            },
            TimelineHit::Lane | TimelineHit::Ruler => {
                self.scrub();
            },
            TimelineHit::Nothing => {},
        }
    }

    /// Takes a press on the panels.
    fn press_panels(&mut self, db: Single) -> (r: Effect)
        requires
            old(self)@.depth == 0,
            old(self)@.pressable(),
            old(self)@.on_window(),
            !old(self)@.on_controls(),
        ensures
            (final(self)@, r) == old(self)@.pressed_panels(db),
            final(self)@.sound(),
    {
        proof {
            reveal(Sitting::pressed_panels);
        }
        let p: Point = self.desk.cursor;
        if let Some((at, hit)) = self.preview_hit(p) {
            self.pick_up(at, hit);
            return Effect::Nothing;
        }
        if self.desk.buttons.pool_open.contains(p.x, p.y) {
            return Effect::PickMedia;
        }
        if self.desk.buttons.pool_title.contains(p.x, p.y) {
            self.add_title();
            return Effect::Nothing;
        }
        if let Some(id) = self.pool_close_hit(p) {
            self.remove_source(id);
            return Effect::Nothing;
        }
        if let Some(source) = self.pool_hit(p) {
            self.desk.drag = DragMode::PoolDrag { source };
            return Effect::Nothing;
        }
        let layout: TimelineLayout = self.timeline_layout();
        if layout.scrollbar_rect().contains(p.x, p.y) {
            if let Some(grab_dx) = layout.scroll_grab_offset(p.x) {
                self.desk.drag = DragMode::Scrollbar { grab_dx };
                proof {
                    lemma_same_ground(old(self)@.holding(DragMode::Idle), self@);
                }
                self.desk.view_start = self.timeline_layout().scroll_x_to_view_start(
                    p.x.minus(grab_dx),
                );
            }
            return Effect::Nothing;
        }
        self.press_timeline(db);
        Effect::Nothing
    }

    /// Whether a press can be taken.
    pub fn is_pressable(&self) -> (r: bool)
        requires
            self@.sound(),
        ensures
            r == self@.pressable(),
    {
        proof {
            reveal(Desk::spec_divides);
        }
        let p: Point = self.desk.cursor;
        let free: bool = !self.desk.project_menu_open;
        if free && self.desk.buttons.pool_title.contains(p.x, p.y) && self.media.sources.len()
            >= u32::MAX as usize {
            return false;
        }
        if free && self.desk.buttons.split.contains(p.x, p.y) && !self.timeline.is_splittable(
            self.desk.clock.position,
        ) {
            return false;
        }
        if !free || self.desk.buttons.project.contains(p.x, p.y) {
            return true;
        }
        if !self.desk.divides() {
            return false;
        }
        if self.controls_hit(p) || self.upper_panels_hit(p) {
            return true;
        }
        let idle: Double = self.timeline.duration().max(double(ZERO)).max(
            double(MIN_CONTENT_SPAN),
        );
        self.is_laid() && viewable(self.desk.view_dur, idle)
            && (self.timeline_layout().scrollbar_rect().contains(p.x, p.y) || self.is_graspable())
    }

    /// Whether a point is on a divider or on a button of the transport or the toolbar.
    fn controls_hit(&self, p: Point) -> (r: bool)
        requires
            p == self@.desk.cursor,
            self@.desk.divides(),
        ensures
            r == self@.on_controls(),
    {
        let b: &Buttons = &self.desk.buttons;
        self.desk.splitter_at(p).is_some() || b.transport[0].contains(p.x, p.y)
            || b.transport[1].contains(p.x, p.y) || b.transport[2].contains(p.x, p.y)
            || b.transport[3].contains(p.x, p.y) || b.transport[4].contains(p.x, p.y)
            || b.split.contains(p.x, p.y) || b.undo.contains(p.x, p.y) || b.redo.contains(p.x, p.y)
            || b.delete.contains(p.x, p.y) || b.snap.contains(p.x, p.y) || b.export.contains(
            p.x,
            p.y,
        ) || b.open.contains(p.x, p.y) || b.save.contains(p.x, p.y)
    }

    /// Whether a point is on the picture in hand, or on a button or a row of the pool.
    fn upper_panels_hit(&self, p: Point) -> (r: bool)
        requires
            p == self@.desk.cursor,
            self@.desk.divides(),
            self@.sound(),
        ensures
            r == self@.on_upper_panels(),
    {
        self.preview_hit(p).is_some() || self.desk.buttons.pool_open.contains(p.x, p.y)
            || self.desk.buttons.pool_title.contains(p.x, p.y) || self.pool_close_hit(p).is_some()
            || self.pool_hit(p).is_some()
    }

    /// Takes a press of the pointer, and returns what it asks for beyond the session. `db`
    /// is the level of the selected clip, in decibels.
    pub fn begin_drag(&mut self, db: Single) -> (r: Effect)
        requires
            old(self)@.pressable(),
        ensures
            (final(self)@, r) == old(self)@.pressed(db),
            final(self)@.sound(),
    {
        self.settle();
        proof {
            lemma_settling_keeps_presses(old(self)@);
        }
        match self.press_chrome() {
            Some(e) => e,
            None => self.press_panels(db),
        }
    }
}

} // verus!
