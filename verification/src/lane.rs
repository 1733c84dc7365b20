//! Drawing a track: its lane, its clips, their waveforms, fades and levels.

use crate::fmt::{decimal, decimal_of};
use crate::ieee::facts::lemma_single_minus;
use crate::ieee::{double, single, Double, Single};
use crate::layout::{db_to_y, fade_handle_rect, lemma_zero_le_one_pt, TimelineLayout};
use crate::media::{MediaPool, Pool};
use crate::scene::{filled, Across, Caption, Label, Mark, Room, Sheet, Stroke};
use crate::sound::{peaks_for, wave_for, Waveform};
use crate::theme::{
    darken, lighten, paint, AUDIO_CLIP_COLOR, AUDIO_WAVE_COLOR, CLIP_BORDER_DARKEN, CLIP_BORDER_PX,
    CLIP_FADE_EDGE_COLOR, CLIP_FADE_EDGE_H, CLIP_FADE_HANDLE_COLOR, CLIP_FADE_SHADE,
    CLIP_LABEL_COLOR, CLIP_LEVEL_ACTIVE_COLOR, CLIP_LEVEL_ACTIVE_H, CLIP_LEVEL_COLOR,
    CLIP_LEVEL_LABEL_COLOR, CLIP_LEVEL_LABEL_PAD, CLIP_LEVEL_LINE_H, CLIP_SELECTED_BORDER,
    CLIP_SELECTED_BORDER_PX, CLIP_SELECTED_LIFT, EIGHT_PT, FOUR_PT, HALF_PT, LANE_COLOR,
    LANE_WAVE_REACH, LEVEL_WORTH_SAYING, ONE_PT, SIX_PT, THREE_PT, TRACK_LABEL_COLOR, TWO_PT,
    TYPE_SM, VIDEO_CLIP_COLOR,
};
use crate::timeline::{Clip, FadeSide, Lane, Track, TrackKind, ZERO};
use crate::ui::Color;
use vstd::prelude::*;
use vstd::string::StringExecFns;

verus! {

/// The level of a clip in decibels, and how it is written.
pub struct Level {
    pub db: Single,
    pub text: String,
}

/// Where a clip lies in its lane.
#[derive(Clone, Copy, Debug, PartialEq)]
pub struct Bar {
    pub x: Single,
    pub end: Single,
    /// Its width, at least a point.
    pub w: Single,
    /// The part of it that shows.
    pub from: Single,
    pub to: Single,
    pub shown: Single,
    pub lane_y: Single,
    pub lane_h: Single,
    /// The clip area.
    pub left: Single,
    pub right: Single,
    /// Points per second.
    pub rate: Single,
}

/// Where a clip lies in its lane.
pub open spec fn bar_of(l: TimelineLayout, lane_y: Single, c: Clip) -> Bar {
    let x = l.t_to_x(c.timeline_start);
    let end = l.t_to_x(c.timeline_end());
    let from = x.max(l.clips_x);
    let to = end.min(l.clips_right());
    Bar {
        x,
        end,
        w: end.minus(x).max(single(ONE_PT)),
        from,
        to,
        shown: to.minus(from).max(single(0)),
        lane_y,
        lane_h: l.lane_h,
        left: l.clips_x,
        right: l.clips_right(),
        rate: l.px_per_sec().to_single(),
    }
}

/// Where a clip lies in its lane.
pub fn bar(l: &TimelineLayout, lane_y: Single, c: &Clip) -> (r: Bar)
    ensures
        r == bar_of(*l, lane_y, *c),
{
    let x: Single = l.t_to_x(c.timeline_start);
    let end: Single = l.t_to_x(c.timeline_end());
    let from: Single = x.max(l.clips_x);
    let to: Single = end.min(l.clips_right());
    Bar {
        x,
        end,
        w: end.minus(x).max(single(ONE_PT)),
        from,
        to,
        shown: to.minus(from).max(single(0)),
        lane_y,
        lane_h: l.lane_h,
        left: l.clips_x,
        right: l.clips_right(),
        rate: l.px_per_sec().to_single(),
    }
}

impl Bar {
    /// Whether none of the clip is on the panel.
    pub open spec fn spec_hidden(&self) -> bool {
        self.end.lt(self.left) || self.right.lt(self.x)
    }

    /// Whether none of the clip is on the panel.
    #[verifier::when_used_as_spec(spec_hidden)]
    pub fn hidden(&self) -> (r: bool)
        ensures
            r == self.spec_hidden(),
    {
        self.end.lt(self.left) || self.right.lt(self.x)
    }

    /// Whether the clip is wide enough for controls.
    pub open spec fn spec_roomy(&self) -> bool {
        single(ONE_PT).lt(self.w)
    }

    /// Whether the clip is wide enough for controls.
    #[verifier::when_used_as_spec(spec_roomy)]
    pub fn roomy(&self) -> (r: bool)
        ensures
            r == self.spec_roomy(),
    {
        single(ONE_PT).lt(self.w)
    }
}

/// A clip with room for controls lies somewhere.
proof fn lemma_roomy_is_somewhere(l: TimelineLayout, lane_y: Single, c: Clip)
    ensures
        bar_of(l, lane_y, c).roomy() ==> !bar_of(l, lane_y, c).x.is_nan(),
{
    let b = bar_of(l, lane_y, c);
    lemma_single_minus(b.end, b.x);
}

/// The largest of some peaks; nothing where there are none.
pub open spec fn tallest(s: Seq<Single>) -> Single
    decreases s.len(),
{
    if s.len() == 0 {
        single(0)
    } else {
        let so_far = tallest(s.drop_last());
        if so_far.lt(s.last()) {
            s.last()
        } else {
            so_far
        }
    }
}

/// The largest of the peaks from `from` up to `to`.
pub fn tallest_of(peaks: &Vec<Single>, from: usize, to: usize) -> (r: Single)
    requires
        from <= to <= peaks.len(),
    ensures
        r == tallest(peaks@.subrange(from as int, to as int)),
{
    let mut peak: Single = single(0);
    let mut i: usize = from;
    proof {
        assert(peaks@.subrange(from as int, from as int) =~= Seq::empty());
    }
    while i < to
        invariant
            from <= i <= to <= peaks.len(),
            peak == tallest(peaks@.subrange(from as int, i as int)),
        decreases to - i,
    {
        proof {
            assert(peaks@.subrange(from as int, i + 1).drop_last() =~= peaks@.subrange(
                from as int,
                i as int,
            ));
        }
        if peak.lt(peaks[i]) {
            peak = peaks[i];
        }
        i += 1;
    }
    peak
}

/// The peaks that a column of a clip stands for: from where, to where, before the end of
/// the waveform is looked at.
pub open spec fn column_peaks(c: Clip, b: Bar, bucket: Double, col: int) -> (usize, usize) {
    let step = c.duration().over(b.w.to_double());
    let t = c.source_in.plus(Double::from_i64(col as i64).times(step));
    (
        t.over(bucket).to_usize(),
        t.plus(step).over(bucket).ceil().to_usize(),
    )
}

/// One column of a waveform.
pub open spec fn wave_column(b: Bar, peak: Single, col: int) -> Stroke {
    let mid = b.lane_y.plus(b.lane_h.times(single(HALF_PT)));
    let most = b.lane_h.times(single(LANE_WAVE_REACH)).max(single(ONE_PT));
    let half = peak.times(most).max(single(HALF_PT));
    filled(
        b.x.plus(Single::from_i64(col as i64)),
        mid.minus(half),
        single(ONE_PT),
        half.times(single(TWO_PT)),
        paint(AUDIO_WAVE_COLOR),
    )
}

/// The columns of a clip's waveform from `col` on up to `last`.
pub open spec fn wave_columns(c: Clip, b: Bar, peaks: Seq<Single>, bucket: Double, col: int, last: int) -> Seq<
    Stroke,
>
    decreases last - col,
{
    if col >= last {
        Seq::empty()
    } else {
        let (from, want) = column_peaks(c, b, bucket, col);
        if from >= peaks.len() {
            Seq::empty()
        } else {
            let least = if want > from {
                want as int
            } else {
                from + 1
            };
            let to = if least < peaks.len() {
                least
            } else {
                peaks.len() as int
            };
            seq![wave_column(b, tallest(peaks.subrange(from as int, to)), col)] + wave_columns(
                c,
                b,
                peaks,
                bucket,
                col + 1,
                last,
            )
        }
    }
}

/// The first and the last column of a stretch of a bar that shows.
pub open spec fn columns(x: Single, w: Single, from: Single, to: Single) -> (i32, i32) {
    (from.minus(x).max(single(0)).floor().to_i32(), to.minus(x).min(w).ceil().to_i32())
}

/// A clip's waveform, a column to a point.
#[verifier::opaque]
pub open spec fn wave(c: Clip, b: Bar, peaks: Seq<Single>, bucket: Double) -> Seq<Stroke> {
    let (first, last) = columns(b.x, b.w, b.from, b.to);
    if peaks.len() == 0 {
        Seq::empty()
    } else {
        wave_columns(c, b, peaks, bucket, first as int, last as int)
    }
}

/// Draws a clip's waveform, a column to a point.
fn draw_wave(sheet: &mut Sheet, c: &Clip, b: &Bar, wf: &Waveform)
    ensures
        final(sheet)@ == old(sheet)@ + wave(*c, *b, wf.peaks@, wf.bucket_seconds),
{
    proof {
        reveal(wave);
    }
    if wf.peaks.len() == 0 {
        proof {
            assert(sheet@ =~= old(sheet)@ + Seq::<Stroke>::empty());
        }
        return;
    }
    let first: i32 = b.from.minus(b.x).max(single(0)).floor().to_i32();
    let last: i32 = b.to.minus(b.x).min(b.w).ceil().to_i32();
    let step: Double = c.duration().over(b.w.to_double());
    let mid: Single = b.lane_y.plus(b.lane_h.times(single(HALF_PT)));
    let most: Single = b.lane_h.times(single(LANE_WAVE_REACH)).max(single(ONE_PT));
    let ghost all = wave(*c, *b, wf.peaks@, wf.bucket_seconds);
    let mut col: i32 = first;
    proof {
        assert(sheet@ + all =~= old(sheet)@ + all);
    }
    while col < last
        invariant
            step == c.duration().over(b.w.to_double()),
            mid == b.lane_y.plus(b.lane_h.times(single(HALF_PT))),
            most == b.lane_h.times(single(LANE_WAVE_REACH)).max(single(ONE_PT)),
            old(sheet)@ + all == sheet@ + wave_columns(
                *c,
                *b,
                wf.peaks@,
                wf.bucket_seconds,
                col as int,
                last as int,
            ),
        ensures
            sheet@ == old(sheet)@ + all,
        decreases last - col,
    {
        let ghost rest = wave_columns(
            *c,
            *b,
            wf.peaks@,
            wf.bucket_seconds,
            col as int,
            last as int,
        );
        let t: Double = c.source_in.plus(Double::from_i64(col as i64).times(step));
        let from: usize = t.over(wf.bucket_seconds).to_usize();
        if from >= wf.peaks.len() {
            proof {
                assert(sheet@ + rest =~= sheet@);
            }
            break;
        }
        let want: usize = t.plus(step).over(wf.bucket_seconds).ceil().to_usize();
        let least: usize = if want > from {
            want
        } else {
            from + 1
        };
        let to: usize = if least < wf.peaks.len() {
            least
        } else {
            wf.peaks.len()
        };
        let peak: Single = tallest_of(&wf.peaks, from, to);
        let half: Single = peak.times(most).max(single(HALF_PT));
        let ghost before = sheet@;
        sheet.fill(
            b.x.plus(Single::from_i64(col as i64)),
            mid.minus(half),
            single(ONE_PT),
            half.times(single(TWO_PT)),
            paint(AUDIO_WAVE_COLOR),
        );
        proof {
            let tail = wave_columns(
                *c,
                *b,
                wf.peaks@,
                wf.bucket_seconds,
                col + 1,
                last as int,
            );
            assert(before + rest =~= sheet@ + tail);
        }
        col += 1;
    }
}

/// One column of a fade: what it takes away, and its line.
pub open spec fn wedge_column(
    x: Single,
    w: Single,
    lane_y: Single,
    lane_h: Single,
    side: FadeSide,
    col: int,
) -> Seq<Stroke> {
    let n = Single::from_i64(col as i64);
    let along = n.plus(single(HALF_PT)).over(w);
    let level = (match side {
        FadeSide::In => along,
        FadeSide::Out => single(ONE_PT).minus(along),
    }).clamp(single(0), single(ONE_PT));
    let cut = lane_h.times(single(ONE_PT).minus(level));
    seq![
        filled(x.plus(n), lane_y, single(ONE_PT), cut, paint(CLIP_FADE_SHADE)),
        filled(
            x.plus(n),
            lane_y.plus(cut),
            single(ONE_PT),
            single(CLIP_FADE_EDGE_H),
            paint(CLIP_FADE_EDGE_COLOR),
        ),
    ]
}

/// The columns of a fade from `col` on up to `last`.
pub open spec fn wedge_columns(
    x: Single,
    w: Single,
    lane_y: Single,
    lane_h: Single,
    side: FadeSide,
    col: int,
    last: int,
) -> Seq<Stroke>
    decreases last - col,
{
    if col >= last {
        Seq::empty()
    } else {
        wedge_column(x, w, lane_y, lane_h, side, col) + wedge_columns(
            x,
            w,
            lane_y,
            lane_h,
            side,
            col + 1,
            last,
        )
    }
}

/// What a fade takes away from a clip, a column to a point, as far as it shows.
#[verifier::opaque]
pub open spec fn wedge(x: Single, w: Single, b: Bar, side: FadeSide) -> Seq<Stroke> {
    let (first, last) = columns(x, w, b.left, b.right);
    if w.le(single(0)) {
        Seq::empty()
    } else {
        wedge_columns(x, w, b.lane_y, b.lane_h, side, first as int, last as int)
    }
}

/// Draws what a fade takes away from a clip.
pub fn draw_fade_wedge(sheet: &mut Sheet, x: Single, w: Single, b: &Bar, side: FadeSide)
    ensures
        final(sheet)@ == old(sheet)@ + wedge(x, w, *b, side),
{
    proof {
        reveal(wedge);
    }
    if w.le(single(0)) {
        proof {
            assert(sheet@ =~= old(sheet)@ + Seq::<Stroke>::empty());
        }
        return;
    }
    proof {
        lemma_zero_le_one_pt();
    }
    let first: i32 = b.left.minus(x).max(single(0)).floor().to_i32();
    let last: i32 = b.right.minus(x).min(w).ceil().to_i32();
    let ghost all = wedge(x, w, *b, side);
    let mut col: i32 = first;
    while col < last
        invariant
            single(0).le(single(ONE_PT)),
            old(sheet)@ + all == sheet@ + wedge_columns(
                x,
                w,
                b.lane_y,
                b.lane_h,
                side,
                col as int,
                last as int,
            ),
        decreases last - col,
    {
        let ghost rest = wedge_columns(x, w, b.lane_y, b.lane_h, side, col as int, last as int);
        let ghost tail = wedge_columns(x, w, b.lane_y, b.lane_h, side, col + 1, last as int);
        let ghost before = sheet@;
        let n: Single = Single::from_i64(col as i64);
        let along: Single = n.plus(single(HALF_PT)).over(w);
        let level: Single = (match side {
            FadeSide::In => along,
            FadeSide::Out => single(ONE_PT).minus(along),
        }).clamp(single(0), single(ONE_PT));
        let cut: Single = b.lane_h.times(single(ONE_PT).minus(level));
        sheet.fill(x.plus(n), b.lane_y, single(ONE_PT), cut, paint(CLIP_FADE_SHADE));
        sheet.fill(
            x.plus(n),
            b.lane_y.plus(cut),
            single(ONE_PT),
            single(CLIP_FADE_EDGE_H),
            paint(CLIP_FADE_EDGE_COLOR),
        );
        proof {
            assert(before + rest =~= sheet@ + tail);
        }
        col += 1;
    }
    proof {
        assert(sheet@ + Seq::<Stroke>::empty() =~= sheet@);
    }
}

/// The fades of a clip.
pub open spec fn wedges(c: Clip, b: Bar) -> Seq<Stroke> {
    let head = c.fade_in.to_single().times(b.rate);
    let tail = c.fade_out.to_single().times(b.rate);
    (if double(ZERO).lt(c.fade_in) {
        wedge(b.x, head, b, FadeSide::In)
    } else {
        Seq::empty()
    }) + (if double(ZERO).lt(c.fade_out) {
        wedge(b.x.plus(b.w).minus(tail), tail, b, FadeSide::Out)
    } else {
        Seq::empty()
    })
}

/// The outline of a clip. One too narrow for its own edges has none at the sides.
#[verifier::opaque]
pub open spec fn outline(b: Bar, color: Color, px: Single) -> Seq<Stroke> {
    seq![
        filled(b.x, b.lane_y, b.w, px, color),
        filled(b.x, b.lane_y.plus(b.lane_h).minus(px), b.w, px, color),
    ] + (if px.times(single(THREE_PT)).le(b.w) {
        seq![
            filled(b.x, b.lane_y, px, b.lane_h, color),
            filled(b.x.plus(b.w).minus(px), b.lane_y, px, b.lane_h, color),
        ]
    } else {
        Seq::empty()
    })
}

/// Draws the outline of a clip.
fn draw_outline(sheet: &mut Sheet, b: &Bar, color: Color, px: Single)
    ensures
        final(sheet)@ == old(sheet)@ + outline(*b, color, px),
{
    proof {
        reveal(outline);
    }
    sheet.fill(b.x, b.lane_y, b.w, px, color);
    sheet.fill(b.x, b.lane_y.plus(b.lane_h).minus(px), b.w, px, color);
    if px.times(single(THREE_PT)).le(b.w) {
        sheet.fill(b.x, b.lane_y, px, b.lane_h, color);
        sheet.fill(b.x.plus(b.w).minus(px), b.lane_y, px, b.lane_h, color);
    }
    proof {
        assert(sheet@ =~= old(sheet)@ + outline(*b, color, px));
    }
}

/// The level line of a clip, and the level once it was moved or the clip is selected.
#[verifier::opaque]
pub open spec fn level_line(b: Bar, db: Single, text: Seq<char>, selected: bool, ascent: Single) -> Seq<
    Stroke,
> {
    let y = db_to_y(b.lane_y, b.lane_h, db);
    let h = if selected {
        single(CLIP_LEVEL_ACTIVE_H)
    } else {
        single(CLIP_LEVEL_LINE_H)
    };
    seq![
        filled(
            b.x,
            y.minus(h.times(single(HALF_PT))).round(),
            b.w,
            h,
            if selected {
                paint(CLIP_LEVEL_ACTIVE_COLOR)
            } else {
                paint(CLIP_LEVEL_COLOR)
            },
        ),
    ] + (if selected || single(LEVEL_WORTH_SAYING).lt(db.abs()) {
        seq![
            Stroke::Text(
                Caption {
                    text,
                    size: single(TYPE_SM),
                    color: paint(CLIP_LEVEL_LABEL_COLOR),
                    across: Across::Until(b.to.minus(single(CLIP_LEVEL_LABEL_PAD))),
                    baseline: y.plus(ascent).plus(single(TWO_PT)).min(
                        b.lane_y.plus(b.lane_h).minus(single(TWO_PT)),
                    ).round(),
                    room: Room::Beside { pad: single(CLIP_LEVEL_LABEL_PAD), w: b.shown },
                    plated: true,
                },
            ),
        ]
    } else {
        Seq::empty()
    })
}

/// Draws the level line of a clip.
fn draw_level(sheet: &mut Sheet, b: &Bar, level: &Level, selected: bool, ascent: Single)
    ensures
        final(sheet)@ == old(sheet)@ + level_line(*b, level.db, level.text@, selected, ascent),
{
    proof {
        reveal(level_line);
    }
    let y: Single = db_to_y(b.lane_y, b.lane_h, level.db);
    let h: Single = if selected {
        single(CLIP_LEVEL_ACTIVE_H)
    } else {
        single(CLIP_LEVEL_LINE_H)
    };
    let color: Color = if selected {
        paint(CLIP_LEVEL_ACTIVE_COLOR)
    } else {
        paint(CLIP_LEVEL_COLOR)
    };
    sheet.fill(b.x, y.minus(h.times(single(HALF_PT))).round(), b.w, h, color);
    if selected || single(LEVEL_WORTH_SAYING).lt(level.db.abs()) {
        sheet.text(
            Label {
                text: level.text.clone(),
                size: single(TYPE_SM),
                color: paint(CLIP_LEVEL_LABEL_COLOR),
                across: Across::Until(b.to.minus(single(CLIP_LEVEL_LABEL_PAD))),
                baseline: y.plus(ascent).plus(single(TWO_PT)).min(
                    b.lane_y.plus(b.lane_h).minus(single(TWO_PT)),
                ).round(),
                room: Room::Beside { pad: single(CLIP_LEVEL_LABEL_PAD), w: b.shown },
                plated: true,
            },
        );
    }
    proof {
        assert(sheet@ =~= old(sheet)@ + level_line(
            *b,
            level.db,
            level.text@,
            selected,
            ascent,
        ));
    }
}

/// The name of a clip, at the start of what shows of it.
pub open spec fn name_label(b: Bar, name: Seq<char>, ascent: Single) -> Stroke {
    Stroke::Text(
        Caption {
            text: name,
            size: single(TYPE_SM),
            color: paint(CLIP_LABEL_COLOR),
            across: Across::From(b.from.plus(single(SIX_PT))),
            baseline: b.lane_y.plus(ascent).plus(single(FOUR_PT)),
            room: Room::Shorten(
                b.shown.minus(single(SIX_PT).times(single(TWO_PT))).max(single(0)),
            ),
            plated: true,
        },
    )
}

/// The box that one fade of a clip is dragged by.
pub open spec fn handle(b: Bar, at: Single) -> Stroke {
    Stroke::Fill {
        rect: fade_handle_rect(b.x.plus(at), b.x, b.x.plus(b.w), b.lane_y),
        color: paint(CLIP_FADE_HANDLE_COLOR),
    }
}

/// The boxes that the fades of a clip are dragged by.
#[verifier::opaque]
pub open spec fn handles(c: Clip, b: Bar) -> Seq<Stroke> {
    seq![
        handle(b, c.fade_in.to_single().times(b.rate)),
        handle(b, b.w.minus(c.fade_out.to_single().times(b.rate))),
    ]
}

/// Draws the boxes that the fades of a clip are dragged by.
fn draw_handles(sheet: &mut Sheet, c: &Clip, b: &Bar)
    requires
        !b.x.is_nan(),
    ensures
        final(sheet)@ == old(sheet)@ + handles(*c, *b),
{
    proof {
        reveal(handles);
    }
    let head: Single = c.fade_in.to_single().times(b.rate);
    let tail: Single = b.w.minus(c.fade_out.to_single().times(b.rate));
    let end: Single = b.x.plus(b.w);
    sheet.add_mark(
        Mark::Fill {
            rect: fade_handle_rect(b.x.plus(head), b.x, end, b.lane_y),
            color: paint(CLIP_FADE_HANDLE_COLOR),
        },
    );
    sheet.add_mark(
        Mark::Fill {
            rect: fade_handle_rect(b.x.plus(tail), b.x, end, b.lane_y),
            color: paint(CLIP_FADE_HANDLE_COLOR),
        },
    );
    proof {
        assert(sheet@ =~= old(sheet)@ + handles(*c, *b));
    }
}

/// The fill of clips on a lane.
pub open spec fn lane_paint(kind: TrackKind) -> Color {
    match kind {
        TrackKind::Video => paint(VIDEO_CLIP_COLOR),
        TrackKind::Audio => paint(AUDIO_CLIP_COLOR),
    }
}

/// The fill of clips on a lane.
fn clip_paint(kind: TrackKind) -> (r: Color)
    ensures
        r == lane_paint(kind),
{
    match kind {
        TrackKind::Video => paint(VIDEO_CLIP_COLOR),
        TrackKind::Audio => paint(AUDIO_CLIP_COLOR),
    }
}

/// What lies under the outline of a clip: its body, its sound, its fades.
#[verifier::opaque]
pub open spec fn clip_ground(
    kind: TrackKind,
    c: Clip,
    b: Bar,
    selected: bool,
    peaks: Seq<Single>,
    bucket: Double,
    pool: Pool,
) -> Seq<Stroke> {
    let none = Seq::<Stroke>::empty();
    let sounds = kind == TrackKind::Audio && b.roomy();
    let fill = if selected {
        lighten(lane_paint(kind), single(CLIP_SELECTED_LIFT))
    } else {
        lane_paint(kind)
    };
    let sound = if sounds && pool.has(c.source) {
        wave(c, b, peaks, bucket)
    } else {
        none
    };
    let fades = if sounds {
        wedges(c, b)
    } else {
        none
    };
    seq![filled(b.x, b.lane_y, b.w, b.lane_h, fill)] + sound + fades
}

/// Draws the fades of a clip.
fn draw_fades(sheet: &mut Sheet, c: &Clip, b: &Bar)
    ensures
        final(sheet)@ == old(sheet)@ + wedges(*c, *b),
{
    if double(ZERO).lt(c.fade_in) {
        let w: Single = c.fade_in.to_single().times(b.rate);
        draw_fade_wedge(sheet, b.x, w, b, FadeSide::In);
    }
    if double(ZERO).lt(c.fade_out) {
        let w: Single = c.fade_out.to_single().times(b.rate);
        draw_fade_wedge(sheet, b.x.plus(b.w).minus(w), w, b, FadeSide::Out);
    }
    proof {
        assert(sheet@ =~= old(sheet)@ + wedges(*c, *b));
    }
}

/// Draws the body of a clip, its sound and its fades.
fn draw_ground(
    sheet: &mut Sheet,
    kind: TrackKind,
    c: &Clip,
    b: &Bar,
    selected: bool,
    wf: &Waveform,
    media: &MediaPool,
)
    ensures
        final(sheet)@ == old(sheet)@ + clip_ground(
            kind,
            *c,
            *b,
            selected,
            wf.peaks@,
            wf.bucket_seconds,
            media@,
        ),
{
    proof {
        reveal(clip_ground);
    }
    let base: Color = clip_paint(kind);
    let fill: Color = if selected {
        lighten(base, single(CLIP_SELECTED_LIFT))
    } else {
        base
    };
    sheet.fill(b.x, b.lane_y, b.w, b.lane_h, fill);
    if kind == TrackKind::Audio && b.roomy() {
        if media.get(c.source).is_some() {
            draw_wave(sheet, c, b, wf);
        }
        draw_fades(sheet, c, b);
    }
    proof {
        assert(sheet@ =~= old(sheet)@ + clip_ground(
            kind,
            *c,
            *b,
            selected,
            wf.peaks@,
            wf.bucket_seconds,
            media@,
        ));
    }
}

/// The outline of a clip: that of its kind, or that of the selection.
pub open spec fn clip_edge(kind: TrackKind, b: Bar, selected: bool) -> Seq<Stroke> {
    if selected {
        outline(b, paint(CLIP_SELECTED_BORDER), single(CLIP_SELECTED_BORDER_PX))
    } else {
        outline(
            b,
            darken(lane_paint(kind), single(CLIP_BORDER_DARKEN)),
            single(CLIP_BORDER_PX),
        )
    }
}

/// Draws the outline of a clip.
fn draw_edge(sheet: &mut Sheet, kind: TrackKind, b: &Bar, selected: bool)
    ensures
        final(sheet)@ == old(sheet)@ + clip_edge(kind, *b, selected),
{
    if selected {
        draw_outline(
            sheet,
            b,
            paint(CLIP_SELECTED_BORDER),
            single(CLIP_SELECTED_BORDER_PX),
        );
    } else {
        let base: Color = clip_paint(kind);
        draw_outline(
            sheet,
            b,
            darken(base, single(CLIP_BORDER_DARKEN)),
            single(CLIP_BORDER_PX),
        );
    }
}

/// What lies over the outline of a clip: its level, its name, its handles.
#[verifier::opaque]
pub open spec fn clip_signs(
    kind: TrackKind,
    c: Clip,
    b: Bar,
    selected: bool,
    db: Single,
    db_text: Seq<char>,
    pool: Pool,
    ascent: Single,
) -> Seq<Stroke> {
    let none = Seq::<Stroke>::empty();
    let sounds = kind == TrackKind::Audio && b.roomy();
    let level = if sounds {
        level_line(b, db, db_text, selected, ascent)
    } else {
        none
    };
    let name = if pool.has(c.source) {
        seq![name_label(b, pool.item(c.source).name, ascent)]
    } else {
        none
    };
    let grips = if sounds {
        handles(c, b)
    } else {
        none
    };
    level + name + grips
}

/// Draws the level of a clip, its name and its handles.
fn draw_signs(
    sheet: &mut Sheet,
    kind: TrackKind,
    c: &Clip,
    b: &Bar,
    selected: bool,
    level: &Level,
    media: &MediaPool,
    ascent: Single,
)
    requires
        b.roomy() ==> !b.x.is_nan(),
    ensures
        final(sheet)@ == old(sheet)@ + clip_signs(
            kind,
            *c,
            *b,
            selected,
            level.db,
            level.text@,
            media@,
            ascent,
        ),
{
    proof {
        reveal(clip_signs);
    }
    let sounds: bool = kind == TrackKind::Audio && b.roomy();
    if sounds {
        draw_level(sheet, b, level, selected, ascent);
    }
    if let Some(s) = media.get(c.source) {
        sheet.text(
            Label {
                text: s.name.clone(),
                size: single(TYPE_SM),
                color: paint(CLIP_LABEL_COLOR),
                across: Across::From(b.from.plus(single(SIX_PT))),
                baseline: b.lane_y.plus(ascent).plus(single(FOUR_PT)),
                room: Room::Shorten(
                    b.shown.minus(single(SIX_PT).times(single(TWO_PT))).max(single(0)),
                ),
                plated: true,
            },
        );
    }
    if sounds {
        draw_handles(sheet, c, b);
    }
    proof {
        assert(sheet@ =~= old(sheet)@ + clip_signs(
            kind,
            *c,
            *b,
            selected,
            level.db,
            level.text@,
            media@,
            ascent,
        ));
    }
}

/// A clip: its body, its sound, its fades, its outline, its level, its name, its handles.
#[verifier::opaque]
pub open spec fn clip_strokes(
    kind: TrackKind,
    c: Clip,
    b: Bar,
    selected: bool,
    wf: (Seq<Single>, Double),
    level: (Single, Seq<char>),
    pool: Pool,
    ascent: Single,
) -> Seq<Stroke> {
    clip_ground(kind, c, b, selected, wf.0, wf.1, pool) + clip_edge(kind, b, selected)
        + clip_signs(kind, c, b, selected, level.0, level.1, pool, ascent)
}

/// Draws a clip.
fn draw_clip(
    sheet: &mut Sheet,
    kind: TrackKind,
    c: &Clip,
    b: &Bar,
    selected: bool,
    wf: &Waveform,
    level: &Level,
    media: &MediaPool,
    ascent: Single,
)
    requires
        b.roomy() ==> !b.x.is_nan(),
    ensures
        final(sheet)@ == old(sheet)@ + clip_strokes(
            kind,
            *c,
            *b,
            selected,
            (wf.peaks@, wf.bucket_seconds),
            (level.db, level.text@),
            media@,
            ascent,
        ),
{
    draw_ground(sheet, kind, c, b, selected, wf, media);
    draw_edge(sheet, kind, b, selected);
    draw_signs(sheet, kind, c, b, selected, level, media, ascent);
    proof {
        reveal(clip_strokes);
        assert(sheet@ =~= old(sheet)@ + clip_strokes(
            kind,
            *c,
            *b,
            selected,
            (wf.peaks@, wf.bucket_seconds),
            (level.db, level.text@),
            media@,
            ascent,
        ));
    }
}

/// What a lane is drawn from, beside its track.
#[derive(Clone, Copy)]
pub struct LaneView {
    pub layout: TimelineLayout,
    pub lane_y: Single,
    /// The number of the track among those of its kind.
    pub visual: usize,
    pub selected: Option<u32>,
    /// The ascent of small type.
    pub ascent: Single,
}

/// The clips of a lane from `i` on that are on the panel.
pub open spec fn clips_drawn(
    v: LaneView,
    lane: Lane,
    levels: Seq<Level>,
    waves: Seq<Waveform>,
    pool: Pool,
    i: int,
) -> Seq<Stroke>
    decreases lane.clips.len() - i,
{
    if i < 0 || i >= lane.clips.len() {
        Seq::empty()
    } else {
        let c = lane.clips[i];
        let b = bar_of(v.layout, v.lane_y, c);
        let rest = clips_drawn(v, lane, levels, waves, pool, i + 1);
        if b.hidden() {
            rest
        } else {
            clip_strokes(
                lane.kind,
                c,
                b,
                v.selected == Some(c.id),
                peaks_for(waves, c.source),
                (levels[i].db, levels[i].text@),
                pool,
                v.ascent,
            ) + rest
        }
    }
}

/// The letter of a kind of track.
pub open spec fn kind_letter(kind: TrackKind) -> Seq<char> {
    match kind {
        TrackKind::Video => "V"@,
        TrackKind::Audio => "A"@,
    }
}

/// A track: its lane, its name, its clips.
#[verifier::opaque]
pub open spec fn lane_strokes(
    v: LaneView,
    lane: Lane,
    levels: Seq<Level>,
    waves: Seq<Waveform>,
    pool: Pool,
) -> Seq<Stroke> {
    let head = seq![
        filled(single(0), v.lane_y, v.layout.clips_right(), v.layout.lane_h, paint(LANE_COLOR)),
        Stroke::Text(
            Caption {
                text: kind_letter(lane.kind) + decimal_of((v.visual + 1) as nat),
                size: single(TYPE_SM),
                color: paint(TRACK_LABEL_COLOR),
                across: Across::From(single(EIGHT_PT)),
                baseline: v.lane_y.plus(
                    v.layout.lane_h.plus(v.ascent).times(single(HALF_PT)),
                ),
                room: Room::Any,
                plated: false,
            },
        ),
        Stroke::Clip { left: v.layout.clips_x, right: v.layout.clips_right() },
    ];
    (head + clips_drawn(v, lane, levels, waves, pool, 0)).push(Stroke::Unclip)
}

/// Draws a track. `levels` are those of its clips, `waves` those of the sources, in the order
/// of their names.
pub fn draw_track_lane(
    sheet: &mut Sheet,
    v: LaneView,
    track: &Track,
    levels: &Vec<Level>,
    waves: &Vec<Waveform>,
    media: &MediaPool,
)
    requires
        levels.len() == track.clips.len(),
        v.visual < usize::MAX,
    ensures
        final(sheet)@ == old(sheet)@ + lane_strokes(v, track@, levels@, waves@, media@),
{
    proof {
        reveal(lane_strokes);
    }
    let right: Single = v.layout.clips_right();
    sheet.fill(single(0), v.lane_y, right, v.layout.lane_h, paint(LANE_COLOR));
    let letter: String = match track.kind {
        TrackKind::Video => "V".to_owned(),
        TrackKind::Audio => "A".to_owned(),
    };
    let number: String = decimal((v.visual + 1) as u64);
    sheet.text(
        Label {
            text: letter.concat(number.as_str()),
            size: single(TYPE_SM),
            color: paint(TRACK_LABEL_COLOR),
            across: Across::From(single(EIGHT_PT)),
            baseline: v.lane_y.plus(v.layout.lane_h.plus(v.ascent).times(single(HALF_PT))),
            room: Room::Any,
            plated: false,
        },
    );
    sheet.add_mark(Mark::Clip { left: v.layout.clips_x, right });
    let flat: Waveform = Waveform::flat();
    let ghost start = sheet@;
    let ghost all = clips_drawn(v, track@, levels@, waves@, media@, 0);
    let mut i: usize = 0;
    while i < track.clips.len()
        invariant
            i <= track.clips.len(),
            levels.len() == track.clips.len(),
            flat.peaks@ == Seq::<Single>::empty(),
            flat.bucket_seconds == double(ZERO),
            start + all == sheet@ + clips_drawn(v, track@, levels@, waves@, media@, i as int),
        decreases track.clips.len() - i,
    {
        let c: Clip = track.clips[i];
        proof {
            assert(c == track.clips@[i as int]);
        }
        let b: Bar = bar(&v.layout, v.lane_y, &c);
        proof {
            lemma_roomy_is_somewhere(v.layout, v.lane_y, c);
        }
        let ghost rest = clips_drawn(v, track@, levels@, waves@, media@, i as int);
        let ghost tail = clips_drawn(v, track@, levels@, waves@, media@, i + 1);
        let ghost before = sheet@;
        if !b.hidden() {
            let selected: bool = match v.selected {
                Some(id) => id == c.id,
                None => false,
            };
            draw_clip(
                sheet,
                track.kind,
                &c,
                &b,
                selected,
                wave_for(waves, c.source, &flat),
                &levels[i],
                media,
                v.ascent,
            );
        }
        proof {
            assert(before + rest =~= sheet@ + tail);
        }
        i += 1;
    }
    proof {
        assert(sheet@ + Seq::<Stroke>::empty() =~= sheet@);
    }
    sheet.add_mark(Mark::Unclip);
    proof {
        assert(sheet@ =~= old(sheet)@ + lane_strokes(v, track@, levels@, waves@, media@));
    }
}

} // verus!
