//! Drawing the timeline panel: its ruler, its tracks, the playhead, what is dragged in,
//! and the scrollbar.

use crate::fmt::{format_tick_label, nice_tick_interval, tick_interval, tick_label};
use crate::ieee::{double, single, Double, Single};
use crate::input::DragMode;
use crate::lane::{draw_track_lane, lane_strokes, LaneView, Level};
use crate::layout::{topmost_lane_top, TimelineLayout};
use crate::scene::{filled, Across, Caption, Label, Mark, Room, Sheet, Stroke};
use crate::session::{Session, Sitting};
use crate::sound::Waveform;
use crate::theme::{
    paint, DIVIDER_COLOR, DRAG_GHOST_AUDIO_COLOR, DRAG_GHOST_VIDEO_COLOR, GHOST_MIN_W, HALF_PT,
    ONE_PT, PANEL_BORDER_COLOR, PLAYHEAD_COLOR, PLAYHEAD_WIDTH, SCROLLBAR_THUMB_ACTIVE_COLOR,
    SCROLLBAR_THUMB_COLOR, SCROLLBAR_THUMB_HOVER_COLOR, SCROLLBAR_TRACK_COLOR, THREE_PT,
    TIMELINE_COLOR, TIMELINE_RULER_COLOR, TIMELINE_RULER_H, TIMELINE_RULER_LABEL_COLOR,
    TIMELINE_RULER_TICK_COLOR, TIMELINE_RULER_TICK_H, TYPE_SM,
};
use crate::timeline::{TrackKind, ZERO};
use crate::ui::Color;
use crate::view::lemma_lanes_of_bound;
use vstd::prelude::*;

verus! {

/// How far type reaches above its baseline, size by size.
#[derive(Clone, Copy, Debug, PartialEq)]
pub struct Ascents {
    pub sm: Single,
    pub md: Single,
    pub lg: Single,
    pub xl: Single,
    pub icon: Single,
}

/// The levels of the clips, track by track.
pub open spec fn level_rows(levels: Seq<Vec<Level>>) -> Seq<Seq<Level>> {
    Seq::new(levels.len(), |i: int| levels[i]@)
}

/// One tick of the ruler: a stroke, and its time where there is room.
pub open spec fn tick(l: TimelineLayout, bottom: Single, baseline: Single, interval: Double, i: int) -> Seq<
    Stroke,
> {
    let t = Double::from_i64(i as i64).times(interval);
    let x = l.t_to_x(t).round();
    seq![
        filled(
            x,
            bottom.minus(single(TIMELINE_RULER_TICK_H)),
            single(ONE_PT),
            single(TIMELINE_RULER_TICK_H),
            paint(TIMELINE_RULER_TICK_COLOR),
        ),
        Stroke::Text(
            Caption {
                text: tick_label(t, interval),
                size: single(TYPE_SM),
                color: paint(TIMELINE_RULER_LABEL_COLOR),
                across: Across::From(x.plus(single(THREE_PT)).round()),
                baseline,
                room: Room::Within { lo: l.clips_x, hi: l.clips_right() },
                plated: false,
            },
        ),
    ]
}

/// The ticks of the ruler from `i` to `last`.
pub open spec fn ticks(
    l: TimelineLayout,
    bottom: Single,
    baseline: Single,
    interval: Double,
    i: int,
    last: int,
) -> Seq<Stroke>
    decreases last + 1 - i,
{
    if i > last {
        Seq::empty()
    } else {
        tick(l, bottom, baseline, interval, i) + ticks(
            l,
            bottom,
            baseline,
            interval,
            i + 1,
            last,
        )
    }
}

impl Sitting {
    /// The top of the ruler: flush above the highest video lane.
    pub open spec fn ruler_top(self) -> Single {
        self.topmost().minus(single(TIMELINE_RULER_H))
    }

    /// The background of the panel, the line between picture and sound, the ruler.
    #[verifier::opaque]
    pub open spec fn panel_ground(self) -> Seq<Stroke> {
        let (w, top) = (self.desk.width, self.desk.timeline_top());
        let one = single(ONE_PT);
        seq![
            filled(single(0), top, w, self.desk.height.minus(top), paint(TIMELINE_COLOR)),
            filled(single(0), top, w, one, paint(PANEL_BORDER_COLOR)),
            filled(
                single(0),
                self.layout().center_y.minus(single(HALF_PT)),
                w,
                one,
                paint(DIVIDER_COLOR),
            ),
            filled(
                single(0),
                self.ruler_top(),
                w,
                single(TIMELINE_RULER_H),
                paint(TIMELINE_RULER_COLOR),
            ),
            filled(single(0), self.topmost().minus(one), w, one, paint(PANEL_BORDER_COLOR)),
        ]
    }

    /// The ticks that the view can show.
    #[verifier::opaque]
    pub open spec fn ruler(self, ascent: Single) -> Seq<Stroke> {
        let l = self.layout();
        let interval = tick_interval(l.px_per_sec().to_single());
        let first = l.view_start.over(interval).floor().max(double(ZERO)).to_i64();
        let last = l.view_start.plus(l.view_dur).over(interval).floor().to_i64();
        let baseline = self.ruler_top().plus(ascent).plus(single(THREE_PT)).round();
        (seq![Stroke::Clip { left: l.clips_x, right: l.clips_right() }] + ticks(
            l,
            self.topmost(),
            baseline,
            interval,
            first as int,
            last as int,
        )).push(Stroke::Unclip)
    }

    /// How a track is drawn.
    pub open spec fn lane_view(self, track: int, ascent: Single) -> LaneView {
        LaneView {
            layout: self.layout(),
            lane_y: self.top_of(track),
            visual: self.visual(track),
            selected: self.desk.selected,
            ascent,
        }
    }

    /// The tracks of one kind from `i` on.
    pub open spec fn lanes_drawn(
        self,
        kind: TrackKind,
        levels: Seq<Seq<Level>>,
        waves: Seq<Waveform>,
        ascent: Single,
        i: int,
    ) -> Seq<Stroke>
        decreases self.reel.tracks.len() - i,
    {
        if i < 0 || i >= self.reel.tracks.len() {
            Seq::empty()
        } else {
            let rest = self.lanes_drawn(kind, levels, waves, ascent, i + 1);
            if self.reel.tracks[i].kind == kind {
                lane_strokes(
                    self.lane_view(i, ascent),
                    self.reel.tracks[i],
                    levels[i],
                    waves,
                    self.pool,
                ) + rest
            } else {
                rest
            }
        }
    }

    /// The playhead, from the ruler to the scrollbar; none over an empty timeline.
    #[verifier::opaque]
    pub open spec fn playhead(self, t: Double) -> Seq<Stroke> {
        let l = self.layout();
        if double(ZERO).lt(self.reel.length()) {
            seq![
                Stroke::Clip { left: l.clips_x, right: l.clips_right() },
                filled(
                    l.t_to_x(t).minus(single(PLAYHEAD_WIDTH).times(single(HALF_PT))).round(),
                    self.ruler_top(),
                    single(PLAYHEAD_WIDTH),
                    l.scrollbar_rect().y.minus(self.ruler_top()),
                    paint(PLAYHEAD_COLOR),
                ),
                Stroke::Unclip,
            ]
        } else {
            Seq::empty()
        }
    }

    /// Where a row from the pool would land: on the lane under the cursor, or at the
    /// cursor.
    #[verifier::opaque]
    pub open spec fn ghost_of_row(self) -> Seq<Stroke> {
        let l = self.layout();
        match self.desk.drag {
            DragMode::PoolDrag { source } => {
                let w = self.pool.duration(source).times(l.px_per_sec()).to_single().max(
                    single(GHOST_MIN_W),
                );
                let (y, color) = match self.track_at(self.desk.cursor.y) {
                    Some(track) => (
                        self.top_of(track as int),
                        match self.reel.tracks[track as int].kind {
                            TrackKind::Video => paint(DRAG_GHOST_VIDEO_COLOR),
                            TrackKind::Audio => paint(DRAG_GHOST_AUDIO_COLOR),
                        },
                    ),
                    None => (
                        self.desk.cursor.y.minus(l.lane_h.times(single(HALF_PT))),
                        paint(DRAG_GHOST_VIDEO_COLOR),
                    ),
                };
                seq![
                    Stroke::Clip { left: l.clips_x, right: l.clips_right() },
                    filled(self.desk.cursor.x.max(l.clips_x), y, w, l.lane_h, color),
                    Stroke::Unclip,
                ]
            },
            _ => Seq::empty(),
        }
    }

    /// The scrollbar: its well always, its thumb where there is more timeline than view.
    #[verifier::opaque]
    pub open spec fn scrollbar(self) -> Seq<Stroke> {
        let l = self.layout();
        let well = Stroke::Fill { rect: l.scrollbar_rect(), color: paint(SCROLLBAR_TRACK_COLOR) };
        match l.scroll_thumb() {
            None => seq![well],
            Some(thumb) => {
                let p = self.desk.cursor;
                let color = match self.desk.drag {
                    DragMode::Scrollbar { .. } => paint(SCROLLBAR_THUMB_ACTIVE_COLOR),
                    DragMode::Idle => if thumb.contains(p.x, p.y) {
                        paint(SCROLLBAR_THUMB_HOVER_COLOR)
                    } else {
                        paint(SCROLLBAR_THUMB_COLOR)
                    },
                    _ => paint(SCROLLBAR_THUMB_COLOR),
                };
                seq![well, filled(thumb.x.round(), thumb.y, thumb.w.round(), thumb.h, color)]
            },
        }
    }

    /// The timeline panel, back to front.
    #[verifier::opaque]
    pub open spec fn panel(
        self,
        t: Double,
        levels: Seq<Seq<Level>>,
        waves: Seq<Waveform>,
        ascent: Single,
    ) -> Seq<Stroke> {
        self.panel_ground() + self.ruler(ascent) + self.lanes_drawn(
            TrackKind::Video,
            levels,
            waves,
            ascent,
            0,
        ) + self.lanes_drawn(TrackKind::Audio, levels, waves, ascent, 0) + self.playhead(t)
            + self.ghost_of_row() + self.scrollbar()
    }

    /// Whether there is a level for every clip.
    pub open spec fn accompanied(self, levels: Seq<Seq<Level>>) -> bool {
        &&& levels.len() == self.reel.tracks.len()
        &&& forall|i: int|
            0 <= i < levels.len() ==> (#[trigger] levels[i]).len()
                == self.reel.tracks[i].clips.len()
    }
}

/// Draws the ticks of the ruler from `first` to `last`.
fn draw_ticks(
    sheet: &mut Sheet,
    l: &TimelineLayout,
    bottom: Single,
    baseline: Single,
    interval: Double,
    first: i64,
    last: i64,
)
    ensures
        final(sheet)@ == old(sheet)@ + ticks(
            *l,
            bottom,
            baseline,
            interval,
            first as int,
            last as int,
        ),
{
    let ghost all = ticks(*l, bottom, baseline, interval, first as int, last as int);
    let mut i: i64 = first;
    let mut more: bool = first <= last;
    proof {
        assert(first > last ==> sheet@ =~= old(sheet)@ + all);
    }
    while more
        invariant
            more ==> i <= last,
            more ==> old(sheet)@ + all == sheet@ + ticks(
                *l,
                bottom,
                baseline,
                interval,
                i as int,
                last as int,
            ),
            !more ==> sheet@ == old(sheet)@ + all,
        decreases last - i + (if more {
            1int
        } else {
            0int
        }),
    {
        let ghost before = sheet@;
        let ghost rest = ticks(*l, bottom, baseline, interval, i as int, last as int);
        let ghost tail = ticks(*l, bottom, baseline, interval, i + 1, last as int);
        let t: Double = Double::from_i64(i).times(interval);
        let x: Single = l.t_to_x(t).round();
        sheet.fill(
            x,
            bottom.minus(single(TIMELINE_RULER_TICK_H)),
            single(ONE_PT),
            single(TIMELINE_RULER_TICK_H),
            paint(TIMELINE_RULER_TICK_COLOR),
        );
        sheet.text(
            Label {
                text: format_tick_label(t, interval),
                size: single(TYPE_SM),
                color: paint(TIMELINE_RULER_LABEL_COLOR),
                across: Across::From(x.plus(single(THREE_PT)).round()),
                baseline,
                room: Room::Within { lo: l.clips_x, hi: l.clips_right() },
                plated: false,
            },
        );
        proof {
            assert(before + rest =~= sheet@ + tail);
            assert(i == last ==> sheet@ + tail =~= sheet@);
        }
        if i < last {
            i += 1;
        } else {
            more = false;
        }
    }
}

impl Session {
    /// Draws the background of the panel and of the ruler.
    fn draw_panel_ground(&self, sheet: &mut Sheet, l: &TimelineLayout, topmost: Single)
        requires
            self@.laid(),
            *l == self@.layout(),
            topmost == self@.topmost(),
        ensures
            final(sheet)@ == old(sheet)@ + self@.panel_ground(),
    {
        proof {
            reveal(Sitting::panel_ground);
        }
        let (w, top): (Single, Single) = (self.desk.width, self.desk.timeline_top());
        let one: Single = single(ONE_PT);
        sheet.fill(single(0), top, w, self.desk.height.minus(top), paint(TIMELINE_COLOR));
        sheet.fill(single(0), top, w, one, paint(PANEL_BORDER_COLOR));
        sheet.fill(
            single(0),
            l.center_y.minus(single(HALF_PT)),
            w,
            one,
            paint(DIVIDER_COLOR),
        );
        sheet.fill(
            single(0),
            topmost.minus(single(TIMELINE_RULER_H)),
            w,
            single(TIMELINE_RULER_H),
            paint(TIMELINE_RULER_COLOR),
        );
        sheet.fill(single(0), topmost.minus(one), w, one, paint(PANEL_BORDER_COLOR));
        proof {
            assert(sheet@ =~= old(sheet)@ + self@.panel_ground());
        }
    }

    /// Draws the ticks of the ruler.
    fn draw_ruler(&self, sheet: &mut Sheet, l: &TimelineLayout, topmost: Single, ascent: Single)
        requires
            *l == self@.layout(),
            topmost == self@.topmost(),
        ensures
            final(sheet)@ == old(sheet)@ + self@.ruler(ascent),
    {
        proof {
            reveal(Sitting::ruler);
        }
        let interval: Double = nice_tick_interval(l.px_per_sec().to_single());
        let first: i64 = l.view_start.over(interval).floor().max(double(ZERO)).to_i64();
        let last: i64 = l.view_start.plus(l.view_dur).over(interval).floor().to_i64();
        let baseline: Single = topmost.minus(single(TIMELINE_RULER_H)).plus(ascent).plus(
            single(THREE_PT),
        ).round();
        sheet.add_mark(Mark::Clip { left: l.clips_x, right: l.clips_right() });
        draw_ticks(sheet, l, topmost, baseline, interval, first, last);
        sheet.add_mark(Mark::Unclip);
        proof {
            assert(sheet@ =~= old(sheet)@ + self@.ruler(ascent));
        }
    }

    /// Draws the tracks of one kind.
    fn draw_lanes(
        &self,
        sheet: &mut Sheet,
        l: &TimelineLayout,
        kind: TrackKind,
        levels: &Vec<Vec<Level>>,
        waves: &Vec<Waveform>,
        ascent: Single,
    )
        requires
            *l == self@.layout(),
            self@.accompanied(level_rows(levels@)),
        ensures
            final(sheet)@ == old(sheet)@ + self@.lanes_drawn(
                kind,
                level_rows(levels@),
                waves@,
                ascent,
                0,
            ),
    {
        let ghost rows = level_rows(levels@);
        let ghost all = self@.lanes_drawn(kind, rows, waves@, ascent, 0);
        let mut i: usize = 0;
        while i < self.timeline.tracks.len()
            invariant
                i <= self.timeline.tracks.len(),
                *l == self@.layout(),
                rows == level_rows(levels@),
                self@.accompanied(rows),
                old(sheet)@ + all == sheet@ + self@.lanes_drawn(
                    kind,
                    rows,
                    waves@,
                    ascent,
                    i as int,
                ),
            decreases self.timeline.tracks.len() - i,
        {
            let ghost before = sheet@;
            let ghost rest = self@.lanes_drawn(kind, rows, waves@, ascent, i as int);
            let ghost tail = self@.lanes_drawn(kind, rows, waves@, ascent, i + 1);
            proof {
                assert(self@.reel.tracks[i as int] == self.timeline.tracks@[i as int]@);
                assert(rows[i as int] == levels@[i as int]@);
            }
            if self.timeline.tracks[i].kind == kind {
                let visual: usize = self.visual_index(i);
                proof {
                    lemma_visual_is_small(*self, i as int);
                }
                let v: LaneView = LaneView {
                    layout: *l,
                    lane_y: self.lane_top(i, l),
                    visual,
                    selected: self.desk.selected,
                    ascent,
                };
                draw_track_lane(
                    sheet,
                    v,
                    &self.timeline.tracks[i],
                    &levels[i],
                    waves,
                    &self.media,
                );
            }
            proof {
                assert(before + rest =~= sheet@ + tail);
            }
            i += 1;
        }
        proof {
            assert(sheet@ + Seq::<Stroke>::empty() =~= sheet@);
        }
    }

    /// Draws the playhead.
    fn draw_playhead(&self, sheet: &mut Sheet, l: &TimelineLayout, topmost: Single, t: Double)
        requires
            *l == self@.layout(),
            topmost == self@.topmost(),
        ensures
            final(sheet)@ == old(sheet)@ + self@.playhead(t),
    {
        proof {
            reveal(Sitting::playhead);
        }
        let top: Single = topmost.minus(single(TIMELINE_RULER_H));
        if double(ZERO).lt(self.timeline.duration()) {
            sheet.add_mark(Mark::Clip { left: l.clips_x, right: l.clips_right() });
            sheet.fill(
                l.t_to_x(t).minus(single(PLAYHEAD_WIDTH).times(single(HALF_PT))).round(),
                top,
                single(PLAYHEAD_WIDTH),
                l.scrollbar_rect().y.minus(top),
                paint(PLAYHEAD_COLOR),
            );
            sheet.add_mark(Mark::Unclip);
        }
        proof {
            assert(sheet@ =~= old(sheet)@ + self@.playhead(t));
        }
    }

    /// Draws where a row from the pool would land.
    fn draw_ghost_of_row(&self, sheet: &mut Sheet, l: &TimelineLayout)
        requires
            *l == self@.layout(),
        ensures
            final(sheet)@ == old(sheet)@ + self@.ghost_of_row(),
    {
        proof {
            reveal(Sitting::ghost_of_row);
        }
        if let DragMode::PoolDrag { source } = self.desk.drag {
            let w: Single = self.media.duration(source).times(l.px_per_sec()).to_single().max(
                single(GHOST_MIN_W),
            );
            let (y, color): (Single, Color) = match self.track_at_y(self.desk.cursor.y, l) {
                Some(track) => (
                    self.lane_top(track, l),
                    match self.timeline.tracks[track].kind {
                        TrackKind::Video => paint(DRAG_GHOST_VIDEO_COLOR),
                        TrackKind::Audio => paint(DRAG_GHOST_AUDIO_COLOR),
                    },
                ),
                None => (
                    self.desk.cursor.y.minus(l.lane_h.times(single(HALF_PT))),
                    paint(DRAG_GHOST_VIDEO_COLOR),
                ),
            };
            sheet.add_mark(Mark::Clip { left: l.clips_x, right: l.clips_right() });
            sheet.fill(self.desk.cursor.x.max(l.clips_x), y, w, l.lane_h, color);
            sheet.add_mark(Mark::Unclip);
        }
        proof {
            assert(sheet@ =~= old(sheet)@ + self@.ghost_of_row());
        }
    }

    /// Draws the scrollbar.
    fn draw_scrollbar(&self, sheet: &mut Sheet, l: &TimelineLayout)
        requires
            *l == self@.layout(),
        ensures
            final(sheet)@ == old(sheet)@ + self@.scrollbar(),
    {
        proof {
            reveal(Sitting::scrollbar);
        }
        sheet.add_mark(
            Mark::Fill { rect: l.scrollbar_rect(), color: paint(SCROLLBAR_TRACK_COLOR) },
        );
        if let Some(thumb) = l.scroll_thumb() {
            let color: Color = match self.desk.drag {
                DragMode::Scrollbar { .. } => paint(SCROLLBAR_THUMB_ACTIVE_COLOR),
                DragMode::Idle => if thumb.contains(self.desk.cursor.x, self.desk.cursor.y) {
                    paint(SCROLLBAR_THUMB_HOVER_COLOR)
                } else {
                    paint(SCROLLBAR_THUMB_COLOR)
                },
                _ => paint(SCROLLBAR_THUMB_COLOR),
            };
            sheet.fill(thumb.x.round(), thumb.y, thumb.w.round(), thumb.h, color);
        }
        proof {
            assert(sheet@ =~= old(sheet)@ + self@.scrollbar());
        }
    }

    /// Draws the timeline panel, the playhead at `t`. `levels` are those of the clips,
    /// track by track; `waves` those of all sources, in the order of the pool's names.
    pub fn draw_timeline_panel(
        &self,
        sheet: &mut Sheet,
        t: Double,
        levels: &Vec<Vec<Level>>,
        waves: &Vec<Waveform>,
        ascent: Single,
    )
        requires
            self@.laid(),
            self@.accompanied(level_rows(levels@)),
        ensures
            final(sheet)@ == old(sheet)@ + self@.panel(t, level_rows(levels@), waves@, ascent),
    {
        let l: TimelineLayout = self.timeline_layout();
        let topmost: Single = topmost_lane_top(l.center_y, l.lane_h, self.n_video_tracks());
        self.draw_panel_ground(sheet, &l, topmost);
        self.draw_ruler(sheet, &l, topmost, ascent);
        self.draw_lanes(sheet, &l, TrackKind::Video, levels, waves, ascent);
        self.draw_lanes(sheet, &l, TrackKind::Audio, levels, waves, ascent);
        self.draw_playhead(sheet, &l, topmost, t);
        self.draw_ghost_of_row(sheet, &l);
        self.draw_scrollbar(sheet, &l);
        proof {
            reveal(Sitting::panel);
            assert(sheet@ =~= old(sheet)@ + self@.panel(t, level_rows(levels@), waves@, ascent));
        }
    }
}

/// A track's number among those of its kind has room for one more.
proof fn lemma_visual_is_small(s: Session, track: int)
    requires
        0 <= track < s.timeline.tracks@.len(),
    ensures
        s@.visual(track) < usize::MAX,
{
    lemma_lanes_of_bound(s@.reel.tracks, s@.reel.tracks[track].kind, track);
    assert(s.timeline.tracks.len() <= usize::MAX);
}

} // verus!
