//! Where things are, and what the cursor is over.

use crate::edit::INFINITY;
use crate::ieee::facts::{
    lemma_double_minus_nonneg, lemma_double_order, lemma_double_positive, lemma_double_zero,
    lemma_single_leaves_room, lemma_single_positive, lemma_single_zero,
};
use crate::ieee::{double, single, Double, Single};
use crate::theme::{
    CLIP_FADE_HANDLE_BOX, CLIP_LEVEL_INSET, HALF_PT, ONE_PT, POOL_CLOSE_BOX, POOL_CLOSE_INSET,
    SCROLLBAR_MIN_THUMB_W, SCROLLBAR_THUMB_INSET, TIMELINE_SCROLLBAR_H, TRACK_LANE_FILL,
    TRACK_LANE_GAP, TRACK_LANE_MAX_H, TRACK_LANE_MIN_H, TRANSFORM_HANDLE_BOX, TWO_PT,
};
use crate::timeline::{
    FadeSide, TrackKind, MAX_GAIN_DB, MAX_OPACITY, MIN_GAIN_DB, MIN_OPACITY, ONE, ZERO,
};
use crate::ui::Rect;
use vstd::prelude::*;

verus! {

/// The two dividers between panels.
#[derive(Copy, Clone, Debug, PartialEq, Eq, Structural)]
pub enum Splitter {
    /// Between the timeline and what is above it.
    TopBottom,
    /// Between the media pool and the preview.
    PoolPreview,
}

/// The shortest stretch that the view can be zoomed down to, `0.1` seconds.
pub const MIN_VIEW_SPAN: u64 = 0x3fb9_9999_9999_999a;

/// How much timeline an empty project has, `1` second.
pub const MIN_CONTENT_SPAN: u64 = 0x3ff0_0000_0000_0000;

/// How far one notch pans, `0.12` of the view.
pub const PAN_STEP_FRAC: u64 = 0x3fbe_b851_eb85_1eb8;

/// Where the playhead lands in the view when playback pages on, `0.1` of the view.
pub const VIEW_FOLLOW_LEAD: u64 = 0x3fb9_9999_9999_999a;

/// Whether a panel can be split with room for both sides, or in the ratio of the two
/// least sizes.
#[verifier::opaque]
pub open spec fn divisible(total: Single, min_before: Single, min_after: Single) -> bool {
    total.le(min_before.plus(min_after)) || min_before.le(total.minus(min_after))
}

/// Where a split at a share of the total lies: both sides at least as large as they may
/// be; in the ratio of those least sizes where there is no room for both.
#[verifier::opaque]
pub open spec fn spec_resolve_split(
    frac: Single,
    total: Single,
    min_before: Single,
    min_after: Single,
) -> Single {
    if total.le(min_before.plus(min_after)) {
        total.times(min_before).over(min_before.plus(min_after)).round()
    } else {
        frac.times(total).round().clamp(min_before, total.minus(min_after))
    }
}

/// Where a split at a share of the total lies: both sides at least as large as they may
/// be; in the ratio of those least sizes where there is no room for both.
#[verifier::when_used_as_spec(spec_resolve_split)]
pub fn resolve_split(frac: Single, total: Single, min_before: Single, min_after: Single) -> (r:
    Single)
    requires
        divisible(total, min_before, min_after),
    ensures
        r == spec_resolve_split(frac, total, min_before, min_after),
{
    proof {
        reveal(divisible);
        reveal(spec_resolve_split);
    }
    if total.le(min_before.plus(min_after)) {
        return total.times(min_before).over(min_before.plus(min_after)).round();
    }
    frac.times(total).round().clamp(min_before, total.minus(min_after))
}

/// Every size that is a number can be split.
pub proof fn lemma_every_size_divides(total: Single, min_before: Single, min_after: Single)
    requires
        !total.is_nan(),
        min_before.is_finite(),
        min_after.is_finite(),
    ensures
        divisible(total, min_before, min_after),
{
    reveal(divisible);
    if !total.le(min_before.plus(min_after)) {
        lemma_single_leaves_room(total, min_before, min_after);
    }
}

/// With room for both sides, a split leaves each side at least its least size.
pub proof fn lemma_split_leaves_both_sides(
    frac: Single,
    total: Single,
    min_before: Single,
    min_after: Single,
)
    requires
        !total.is_nan(),
        !frac.times(total).round().is_nan(),
        min_before.is_finite(),
        min_after.is_finite(),
        !total.le(min_before.plus(min_after)),
    ensures
        min_before.le(resolve_split(frac, total, min_before, min_after)),
        resolve_split(frac, total, min_before, min_after).le(total.minus(min_after)),
{
    reveal(spec_resolve_split);
    lemma_single_leaves_room(total, min_before, min_after);
}

/// The content that a view is resolved against: never less than an empty project has.
pub open spec fn spec_content_of(content: Double) -> Double {
    content.max(double(MIN_CONTENT_SPAN))
}

/// The span that a view of a wanted one has.
pub open spec fn span_of(want_dur: Double, content: Double) -> Double {
    want_dur.clamp(double(MIN_VIEW_SPAN), spec_content_of(content))
}

/// Whether a view has an end to be scrolled to.
#[verifier::opaque]
pub open spec fn spec_viewable(want_dur: Double, content: Double) -> bool {
    double(ZERO).le(spec_content_of(content).minus(span_of(want_dur, content)))
}

/// The least content spans the least view.
pub proof fn lemma_content_spans_a_view(content: Double)
    ensures
        double(MIN_VIEW_SPAN).le(spec_content_of(content)),
{
    lemma_double_positive(double(MIN_VIEW_SPAN));
    lemma_double_positive(double(MIN_CONTENT_SPAN));
    lemma_double_order(double(MIN_VIEW_SPAN), double(MIN_CONTENT_SPAN));
}

/// A finite content can be viewed at every span that is a number.
pub proof fn lemma_finite_content_is_viewable(want_dur: Double, content: Double)
    requires
        content.is_finite(),
        !want_dur.is_nan(),
    ensures
        spec_viewable(want_dur, content),
{
    reveal(spec_viewable);
    lemma_content_spans_a_view(content);
    lemma_double_positive(double(MIN_CONTENT_SPAN));
    let c = spec_content_of(content);
    lemma_double_minus_nonneg(c, span_of(want_dur, content));
}

/// Whether a view has an end to be scrolled to.
#[verifier::when_used_as_spec(spec_viewable)]
pub fn viewable(want_dur: Double, content: Double) -> (r: bool)
    ensures
        r == spec_viewable(want_dur, content),
{
    proof {
        reveal(spec_viewable);
        lemma_content_spans_a_view(content);
    }
    let c: Double = content.max(double(MIN_CONTENT_SPAN));
    double(ZERO).le(c.minus(want_dur.clamp(double(MIN_VIEW_SPAN), c)))
}

/// A wanted view brought inside the content: its start and its span.
#[verifier::opaque]
pub open spec fn spec_resolve_view(want_start: Double, want_dur: Double, content: Double) -> (
    Double,
    Double,
) {
    let c = spec_content_of(content);
    let dur = span_of(want_dur, content);
    (want_start.clamp(double(ZERO), c.minus(dur)), dur)
}

/// A wanted view brought inside the content: its start and its span.
#[verifier::when_used_as_spec(spec_resolve_view)]
pub fn resolve_view(want_start: Double, want_dur: Double, content: Double) -> (r: (Double, Double))
    requires
        viewable(want_dur, content),
    ensures
        r == spec_resolve_view(want_start, want_dur, content),
{
    proof {
        reveal(spec_viewable);
        reveal(spec_resolve_view);
        lemma_content_spans_a_view(content);
    }
    let c: Double = content.max(double(MIN_CONTENT_SPAN));
    let dur: Double = want_dur.clamp(double(MIN_VIEW_SPAN), c);
    (want_start.clamp(double(ZERO), c.minus(dur)), dur)
}

/// A resolved view lies inside the content and is no shorter than the shortest.
pub proof fn lemma_view_stays_on_the_content(want_start: Double, want_dur: Double, content: Double)
    requires
        content.is_finite(),
        !want_dur.is_nan(),
        !want_start.is_nan(),
    ensures
        ({
            let (start, dur) = resolve_view(want_start, want_dur, content);
            &&& double(ZERO).le(start)
            &&& start.le(spec_content_of(content).minus(dur))
            &&& double(MIN_VIEW_SPAN).le(dur)
            &&& dur.le(spec_content_of(content))
        }),
{
    reveal(spec_viewable);
    reveal(spec_resolve_view);
    lemma_finite_content_is_viewable(want_dur, content);
    lemma_content_spans_a_view(content);
    lemma_double_zero();
}

/// A view that asks for everything spans the content, however long it grows.
pub proof fn lemma_unzoomed_view_spans_the_content(content: Double)
    requires
        content.is_finite(),
    ensures
        resolve_view(double(ZERO), double(INFINITY), content).1 == spec_content_of(content),
{
    reveal(spec_resolve_view);
    crate::edit::lemma_infinity();
    lemma_content_spans_a_view(content);
    lemma_double_positive(double(MIN_CONTENT_SPAN));
}

/// What a press on the timeline has taken hold of.
#[derive(Copy, Clone, Debug, PartialEq)]
pub enum TimelineHit {
    Nothing,
    Ruler,
    Lane,
    ClipBody { track: usize, idx: usize, grab_t_offset: Double },
    ClipTrimLeft { track: usize, idx: usize },
    ClipTrimRight { track: usize, idx: usize },
    ClipFade { track: usize, idx: usize, side: FadeSide },
    ClipLevel { track: usize, idx: usize },
}

/// The geometry of the timeline panel at one moment.
#[derive(Copy, Clone, Debug, PartialEq)]
pub struct TimelineLayout {
    pub top: Single,
    pub clips_x: Single,
    pub clips_w: Single,
    /// Where video lanes end and audio lanes begin.
    pub center_y: Single,
    pub lane_h: Single,
    pub bottom: Single,
    /// The first time that shows.
    pub view_start: Double,
    /// How much time shows.
    pub view_dur: Double,
    /// How much there is in all.
    pub content: Double,
}

/// Zero is not above one, in singles.
pub proof fn lemma_zero_le_one_pt()
    ensures
        single(0).le(single(ONE_PT)),
{
    lemma_single_positive(single(ONE_PT));
}

impl TimelineLayout {

    /// How far along the clip area a position lies, from 0 to 1.
    #[verifier::opaque]
    pub open spec fn spec_along(&self, cursor_x: Single) -> Double {
        cursor_x.minus(self.clips_x).over(self.clips_w).clamp(single(0), single(ONE_PT)).to_double()
    }

    /// How far along the clip area a position lies, from 0 to 1.
    #[verifier::when_used_as_spec(spec_along)]
    pub fn along(&self, cursor_x: Single) -> (r: Double)
        ensures
            r == self.spec_along(cursor_x),
    {
        proof {
            reveal(TimelineLayout::spec_along);
            lemma_zero_le_one_pt();
        }
        cursor_x.minus(self.clips_x).over(self.clips_w).clamp(single(0), single(ONE_PT)).to_double()
    }

    /// The time under a position; the edge of what shows, for one off the panel.
    #[verifier::opaque]
    pub open spec fn spec_cursor_to_t(&self, cursor_x: Single) -> Double {
        self.view_start.plus(self.along(cursor_x).times(self.view_dur))
    }

    /// The time under a position; the edge of what shows, for one off the panel.
    #[verifier::when_used_as_spec(spec_cursor_to_t)]
    pub fn cursor_to_t(&self, cursor_x: Single) -> (r: Double)
        ensures
            r == self.spec_cursor_to_t(cursor_x),
    {
        proof {
            reveal(TimelineLayout::spec_cursor_to_t);
        }
        self.view_start.plus(self.along(cursor_x).times(self.view_dur))
    }

    /// The position of a time.
    #[verifier::opaque]
    pub open spec fn spec_t_to_x(&self, t: Double) -> Single {
        self.clips_x.plus(t.minus(self.view_start).over(self.view_dur).to_single().times(self.clips_w))
    }

    /// The position of a time.
    #[verifier::when_used_as_spec(spec_t_to_x)]
    pub fn t_to_x(&self, t: Double) -> (r: Single)
        ensures
            r == self.spec_t_to_x(t),
    {
        proof {
            reveal(TimelineLayout::spec_t_to_x);
        }
        self.clips_x.plus(t.minus(self.view_start).over(self.view_dur).to_single().times(self.clips_w))
    }

    /// Points per second.
    #[verifier::opaque]
    pub open spec fn spec_px_per_sec(&self) -> Double {
        self.clips_w.to_double().over(self.view_dur)
    }

    /// Points per second.
    #[verifier::when_used_as_spec(spec_px_per_sec)]
    pub fn px_per_sec(&self) -> (r: Double)
        ensures
            r == self.spec_px_per_sec(),
    {
        proof {
            reveal(TimelineLayout::spec_px_per_sec);
        }
        self.clips_w.to_double().over(self.view_dur)
    }

    /// Where the clip area ends.
    #[verifier::opaque]
    pub open spec fn spec_clips_right(&self) -> Single {
        self.clips_x.plus(self.clips_w)
    }

    /// Where the clip area ends.
    #[verifier::when_used_as_spec(spec_clips_right)]
    pub fn clips_right(&self) -> (r: Single)
        ensures
            r == self.spec_clips_right(),
    {
        proof {
            reveal(TimelineLayout::spec_clips_right);
        }
        self.clips_x.plus(self.clips_w)
    }

    /// The strip that the scrollbar lives in.
    #[verifier::opaque]
    pub open spec fn spec_scrollbar_rect(&self) -> Rect {
        Rect {
            x: self.clips_x,
            y: self.bottom.minus(single(TIMELINE_SCROLLBAR_H)),
            w: self.clips_w,
            h: single(TIMELINE_SCROLLBAR_H),
        }
    }

    /// The strip that the scrollbar lives in.
    #[verifier::when_used_as_spec(spec_scrollbar_rect)]
    pub fn scrollbar_rect(&self) -> (r: Rect)
        ensures
            r == self.spec_scrollbar_rect(),
    {
        proof {
            reveal(TimelineLayout::spec_scrollbar_rect);
        }
        Rect {
            x: self.clips_x,
            y: self.bottom.minus(single(TIMELINE_SCROLLBAR_H)),
            w: self.clips_w,
            h: single(TIMELINE_SCROLLBAR_H),
        }
    }

    /// The thumb of the scrollbar; none where everything shows.
    #[verifier::opaque]
    pub open spec fn spec_scroll_thumb(&self) -> Option<Rect> {
        if self.content.le(self.view_dur) {
            None
        } else {
            let track = self.scrollbar_rect();
            let w = track.w.times(self.view_dur.over(self.content).to_single()).max(
                single(SCROLLBAR_MIN_THUMB_W),
            );
            let travel = track.w.minus(w).max(single(0));
            let along = self.view_start.over(self.content.minus(self.view_dur)).clamp(
                double(ZERO),
                double(ONE),
            ).to_single();
            Some(
                Rect {
                    x: track.x.plus(travel.times(along)),
                    y: track.y.plus(single(SCROLLBAR_THUMB_INSET)),
                    w,
                    h: track.h.minus(single(SCROLLBAR_THUMB_INSET).times(single(TWO_PT))).max(
                        single(ONE_PT),
                    ),
                },
            )
        }
    }

    /// The thumb of the scrollbar; none where everything shows.
    #[verifier::when_used_as_spec(spec_scroll_thumb)]
    pub fn scroll_thumb(&self) -> (r: Option<Rect>)
        ensures
            r == self.spec_scroll_thumb(),
    {
        proof {
            reveal(TimelineLayout::spec_scroll_thumb);
            crate::timeline::lemma_zero_le_one();
        }
        if self.content.le(self.view_dur) {
            None
        } else {
            let track: Rect = self.scrollbar_rect();
            let w: Single = track.w.times(self.view_dur.over(self.content).to_single()).max(
                single(SCROLLBAR_MIN_THUMB_W),
            );
            let travel: Single = track.w.minus(w).max(single(0));
            let along: Single = self.view_start.over(self.content.minus(self.view_dur)).clamp(
                double(ZERO),
                double(ONE),
            ).to_single();
            Some(
                Rect {
                    x: track.x.plus(travel.times(along)),
                    y: track.y.plus(single(SCROLLBAR_THUMB_INSET)),
                    w,
                    h: track.h.minus(single(SCROLLBAR_THUMB_INSET).times(single(TWO_PT))).max(
                        single(ONE_PT),
                    ),
                },
            )
        }
    }

    /// Where along the thumb a press takes hold of it: in the middle, for a press beside it.
    #[verifier::opaque]
    pub open spec fn spec_scroll_grab_offset(&self, cursor_x: Single) -> Option<Single> {
        match self.scroll_thumb() {
            None => None,
            Some(thumb) => Some(
                if thumb.x.le(cursor_x) && cursor_x.le(thumb.x.plus(thumb.w)) {
                    cursor_x.minus(thumb.x)
                } else {
                    thumb.w.times(single(HALF_PT))
                },
            ),
        }
    }

    /// Where along the thumb a press takes hold of it: in the middle, for a press beside it.
    #[verifier::when_used_as_spec(spec_scroll_grab_offset)]
    pub fn scroll_grab_offset(&self, cursor_x: Single) -> (r: Option<Single>)
        ensures
            r == self.spec_scroll_grab_offset(cursor_x),
    {
        proof {
            reveal(TimelineLayout::spec_scroll_grab_offset);
        }
        match self.scroll_thumb() {
            None => None,
            Some(thumb) => Some(
                if thumb.x.le(cursor_x) && cursor_x.le(thumb.x.plus(thumb.w)) {
                    cursor_x.minus(thumb.x)
                } else {
                    thumb.w.times(single(HALF_PT))
                },
            ),
        }
    }

    /// The start of the view that a thumb at a position means.
    #[verifier::opaque]
    pub open spec fn spec_scroll_x_to_view_start(&self, thumb_x: Single) -> Double {
        match self.scroll_thumb() {
            None => double(ZERO),
            Some(thumb) => {
                let track = self.scrollbar_rect();
                let travel = track.w.minus(thumb.w);
                if travel.le(single(0)) {
                    double(ZERO)
                } else {
                    thumb_x.minus(track.x).over(travel).clamp(
                        single(0),
                        single(ONE_PT),
                    ).to_double().times(self.content.minus(self.view_dur))
                }
            },
        }
    }

    /// The start of the view that a thumb at a position means.
    #[verifier::when_used_as_spec(spec_scroll_x_to_view_start)]
    pub fn scroll_x_to_view_start(&self, thumb_x: Single) -> (r: Double)
        ensures
            r == self.spec_scroll_x_to_view_start(thumb_x),
    {
        proof {
            reveal(TimelineLayout::spec_scroll_x_to_view_start);
            lemma_zero_le_one_pt();
        }
        match self.scroll_thumb() {
            None => double(ZERO),
            Some(thumb) => {
                let track: Rect = self.scrollbar_rect();
                let travel: Single = track.w.minus(thumb.w);
                if travel.le(single(0)) {
                    double(ZERO)
                } else {
                    thumb_x.minus(track.x).over(travel).clamp(
                        single(0),
                        single(ONE_PT),
                    ).to_double().times(self.content.minus(self.view_dur))
                }
            },
        }
    }
}

/// The top of a lane: video stacks upwards from the divider, audio downwards.
#[verifier::opaque]
pub open spec fn spec_lane_y(center_y: Single, lane_h: Single, visual_i: usize, kind: TrackKind) -> Single {
    let half_gap = single(TRACK_LANE_GAP).times(single(HALF_PT));
    let stride = lane_h.plus(single(TRACK_LANE_GAP));
    match kind {
        TrackKind::Video => center_y.minus(half_gap).minus(lane_h).minus(
            Single::from_u64(visual_i as u64).times(stride),
        ),
        TrackKind::Audio => center_y.plus(half_gap).plus(
            Single::from_u64(visual_i as u64).times(stride),
        ),
    }
}

/// The top of a lane: video stacks upwards from the divider, audio downwards.
#[verifier::when_used_as_spec(spec_lane_y)]
pub fn lane_y(center_y: Single, lane_h: Single, visual_i: usize, kind: TrackKind) -> (r: Single)
    ensures
        r == spec_lane_y(center_y, lane_h, visual_i, kind),
{
    proof {
        reveal(spec_lane_y);
    }
    let half_gap: Single = single(TRACK_LANE_GAP).times(single(HALF_PT));
    let stride: Single = lane_h.plus(single(TRACK_LANE_GAP));
    match kind {
        TrackKind::Video => center_y.minus(half_gap).minus(lane_h).minus(
            Single::from_u64(visual_i as u64).times(stride),
        ),
        TrackKind::Audio => center_y.plus(half_gap).plus(
            Single::from_u64(visual_i as u64).times(stride),
        ),
    }
}

/// The stretch of a lane that the level line travels: its top and its height.
#[verifier::opaque]
pub open spec fn spec_level_band(lane_y: Single, lane_h: Single) -> (Single, Single) {
    (
        lane_y.plus(single(CLIP_LEVEL_INSET)),
        lane_h.minus(single(CLIP_LEVEL_INSET).times(single(TWO_PT))).max(single(ONE_PT)),
    )
}

/// The stretch of a lane that the level line travels: its top and its height.
#[verifier::when_used_as_spec(spec_level_band)]
pub fn level_band(lane_y: Single, lane_h: Single) -> (r: (Single, Single))
    ensures
        r == spec_level_band(lane_y, lane_h),
{
    proof {
        reveal(spec_level_band);
    }
    (
        lane_y.plus(single(CLIP_LEVEL_INSET)),
        lane_h.minus(single(CLIP_LEVEL_INSET).times(single(TWO_PT))).max(single(ONE_PT)),
    )
}

/// The ends of the level line are in order.
pub proof fn lemma_level_ends()
    ensures
        single(MIN_GAIN_DB).le(single(MAX_GAIN_DB)),
        single(MIN_OPACITY).le(single(MAX_OPACITY)),
{
    crate::ieee::facts::lemma_single_negative(single(MIN_GAIN_DB));
    lemma_single_positive(single(MAX_GAIN_DB));
    lemma_single_positive(single(MAX_OPACITY));
    lemma_single_zero();
}

/// Where the level line of a clip sits, for a level in decibels: the loudest at the top.
#[verifier::opaque]
pub open spec fn spec_db_to_y(lane_y: Single, lane_h: Single, level: Single) -> Single {
    let (top, h) = level_band(lane_y, lane_h);
    let db = level.clamp(single(MIN_GAIN_DB), single(MAX_GAIN_DB));
    top.plus(
        h.times(single(MAX_GAIN_DB).minus(db)).over(single(MAX_GAIN_DB).minus(single(MIN_GAIN_DB))),
    )
}

/// Where the level line of a clip sits, for a level in decibels: the loudest at the top.
#[verifier::when_used_as_spec(spec_db_to_y)]
pub fn db_to_y(lane_y: Single, lane_h: Single, level: Single) -> (r: Single)
    ensures
        r == spec_db_to_y(lane_y, lane_h, level),
{
    proof {
        reveal(spec_db_to_y);
        lemma_level_ends();
    }
    let (top, h): (Single, Single) = level_band(lane_y, lane_h);
    let db: Single = level.clamp(single(MIN_GAIN_DB), single(MAX_GAIN_DB));
    top.plus(
        h.times(single(MAX_GAIN_DB).minus(db)).over(single(MAX_GAIN_DB).minus(single(MIN_GAIN_DB))),
    )
}

/// Where the level line of a clip sits, for an opacity: all of the picture at the top.
#[verifier::opaque]
pub open spec fn spec_opacity_to_y(lane_y: Single, lane_h: Single, opacity: Single) -> Single {
    let (top, h) = level_band(lane_y, lane_h);
    let o = opacity.clamp(single(MIN_OPACITY), single(MAX_OPACITY));
    top.plus(
        h.times(single(MAX_OPACITY).minus(o)).over(single(MAX_OPACITY).minus(single(MIN_OPACITY))),
    )
}

/// Where the level line of a clip sits, for an opacity: all of the picture at the top.
#[verifier::when_used_as_spec(spec_opacity_to_y)]
pub fn opacity_to_y(lane_y: Single, lane_h: Single, opacity: Single) -> (r: Single)
    ensures
        r == spec_opacity_to_y(lane_y, lane_h, opacity),
{
    proof {
        reveal(spec_opacity_to_y);
        lemma_level_ends();
    }
    let (top, h): (Single, Single) = level_band(lane_y, lane_h);
    let o: Single = opacity.clamp(single(MIN_OPACITY), single(MAX_OPACITY));
    top.plus(
        h.times(single(MAX_OPACITY).minus(o)).over(single(MAX_OPACITY).minus(single(MIN_OPACITY))),
    )
}

/// The opacity that a position in a lane means.
#[verifier::opaque]
pub open spec fn spec_y_to_opacity(lane_y: Single, lane_h: Single, y: Single) -> Single {
    let (top, h) = level_band(lane_y, lane_h);
    let frac = y.minus(top).over(h).clamp(single(0), single(ONE_PT));
    single(MAX_OPACITY).minus(frac.times(single(MAX_OPACITY).minus(single(MIN_OPACITY))))
}

/// The opacity that a position in a lane means.
#[verifier::when_used_as_spec(spec_y_to_opacity)]
pub fn y_to_opacity(lane_y: Single, lane_h: Single, y: Single) -> (r: Single)
    ensures
        r == spec_y_to_opacity(lane_y, lane_h, y),
{
    proof {
        reveal(spec_y_to_opacity);
        lemma_zero_le_one_pt();
    }
    let (top, h): (Single, Single) = level_band(lane_y, lane_h);
    let frac: Single = y.minus(top).over(h).clamp(single(0), single(ONE_PT));
    single(MAX_OPACITY).minus(frac.times(single(MAX_OPACITY).minus(single(MIN_OPACITY))))
}

/// The level, in decibels, that a position in a lane means.
#[verifier::opaque]
pub open spec fn spec_y_to_db(lane_y: Single, lane_h: Single, y: Single) -> Single {
    let (top, h) = level_band(lane_y, lane_h);
    let frac = y.minus(top).over(h).clamp(single(0), single(ONE_PT));
    single(MAX_GAIN_DB).minus(frac.times(single(MAX_GAIN_DB).minus(single(MIN_GAIN_DB))))
}

/// The level, in decibels, that a position in a lane means.
#[verifier::when_used_as_spec(spec_y_to_db)]
pub fn y_to_db(lane_y: Single, lane_h: Single, y: Single) -> (r: Single)
    ensures
        r == spec_y_to_db(lane_y, lane_h, y),
{
    proof {
        reveal(spec_y_to_db);
        lemma_zero_le_one_pt();
    }
    let (top, h): (Single, Single) = level_band(lane_y, lane_h);
    let frac: Single = y.minus(top).over(h).clamp(single(0), single(ONE_PT));
    single(MAX_GAIN_DB).minus(frac.times(single(MAX_GAIN_DB).minus(single(MIN_GAIN_DB))))
}

/// The box that a fade is dragged by: centred on where the fade ends, inside the clip.
#[verifier::opaque]
pub open spec fn spec_fade_handle_rect(handle_x: Single, x0: Single, x1: Single, lane_y: Single) -> Rect {
    let side = single(CLIP_FADE_HANDLE_BOX);
    Rect {
        x: handle_x.minus(side.times(single(HALF_PT))).clamp(x0, x1.minus(side).max(x0)),
        y: lane_y,
        w: side,
        h: side,
    }
}

/// The box that a fade is dragged by: centred on where the fade ends, inside the clip.
#[verifier::when_used_as_spec(spec_fade_handle_rect)]
pub fn fade_handle_rect(handle_x: Single, x0: Single, x1: Single, lane_y: Single) -> (r: Rect)
    requires
        !x0.is_nan(),
    ensures
        r == spec_fade_handle_rect(handle_x, x0, x1, lane_y),
{
    proof {
        reveal(spec_fade_handle_rect);
    }
    let side: Single = single(CLIP_FADE_HANDLE_BOX);
    Rect {
        x: handle_x.minus(side.times(single(HALF_PT))).clamp(x0, x1.minus(side).max(x0)),
        y: lane_y,
        w: side,
        h: side,
    }
}

/// A fade handle never hangs over the start of its clip.
pub proof fn lemma_handle_stays_inside(handle_x: Single, x0: Single, x1: Single, lane_y: Single)
    requires
        !x0.is_nan(),
        !handle_x.minus(single(CLIP_FADE_HANDLE_BOX).times(single(HALF_PT))).is_nan(),
    ensures
        x0.le(fade_handle_rect(handle_x, x0, x1, lane_y).x),
        fade_handle_rect(handle_x, x0, x1, lane_y).x.le(
            x1.minus(single(CLIP_FADE_HANDLE_BOX)).max(x0),
        ),
{
    reveal(spec_fade_handle_rect);
}

/// The corners that a picture is scaled by, as fractions of its rectangle.
pub open spec fn corner_at(i: int) -> (Single, Single) {
    (
        if i % 2 == 1 {
            single(ONE_PT)
        } else {
            single(0)
        },
        if i >= 2 {
            single(ONE_PT)
        } else {
            single(0)
        },
    )
}

/// The box of one corner, inside the rectangle.
#[verifier::opaque]
pub open spec fn spec_corner_box(rect: Rect, cx: Single, cy: Single) -> Rect {
    let b = single(TRANSFORM_HANDLE_BOX).min(rect.w).min(rect.h);
    Rect {
        x: rect.x.plus(cx.times(rect.w.minus(b))),
        y: rect.y.plus(cy.times(rect.h.minus(b))),
        w: b,
        h: b,
    }
}

/// The box of one corner, inside the rectangle.
#[verifier::when_used_as_spec(spec_corner_box)]
pub fn corner_box(rect: Rect, cx: Single, cy: Single) -> (r: Rect)
    ensures
        r == spec_corner_box(rect, cx, cy),
{
    proof {
        reveal(spec_corner_box);
    }
    let b: Single = single(TRANSFORM_HANDLE_BOX).min(rect.w).min(rect.h);
    Rect {
        x: rect.x.plus(cx.times(rect.w.minus(b))),
        y: rect.y.plus(cy.times(rect.h.minus(b))),
        w: b,
        h: b,
    }
}

/// The four boxes that a picture is scaled by: left and right at the top, then at the
/// bottom.
pub fn transform_handle_rects(rect: Rect) -> (r: Vec<Rect>)
    ensures
        r.len() == 4,
        forall|i: int|
            0 <= i < 4 ==> #[trigger] r@[i] == corner_box(rect, corner_at(i).0, corner_at(i).1),
{
    let (lo, hi): (Single, Single) = (single(0), single(ONE_PT));
    let mut out: Vec<Rect> = Vec::new();
    out.push(corner_box(rect, lo, lo));
    out.push(corner_box(rect, hi, lo));
    out.push(corner_box(rect, lo, hi));
    out.push(corner_box(rect, hi, hi));
    out
}

/// What a press on the preview has taken hold of.
#[derive(Copy, Clone, Debug, PartialEq)]
pub enum PreviewHit {
    /// A corner, as fractions of the picture.
    Scale { cx: Single, cy: Single },
    /// The picture itself.
    Move,
}

/// The top of the highest video lane, where the ruler ends.
#[verifier::opaque]
pub open spec fn spec_topmost_lane_top(center_y: Single, lane_h: Single, n_video: usize) -> Single {
    if n_video == 0 {
        center_y
    } else {
        lane_y(center_y, lane_h, (n_video - 1) as usize, TrackKind::Video)
    }
}

/// The top of the highest video lane, where the ruler ends.
#[verifier::when_used_as_spec(spec_topmost_lane_top)]
pub fn topmost_lane_top(center_y: Single, lane_h: Single, n_video: usize) -> (r: Single)
    ensures
        r == spec_topmost_lane_top(center_y, lane_h, n_video),
{
    proof {
        reveal(spec_topmost_lane_top);
    }
    if n_video == 0 {
        center_y
    } else {
        lane_y(center_y, lane_h, n_video - 1, TrackKind::Video)
    }
}

/// The bounds of a lane's height are in order.
pub proof fn lemma_lane_bounds()
    ensures
        single(TRACK_LANE_MIN_H).le(single(TRACK_LANE_MAX_H)),
{
    lemma_single_positive(single(TRACK_LANE_MIN_H));
    lemma_single_positive(single(TRACK_LANE_MAX_H));
    crate::ieee::facts::lemma_single_order(single(TRACK_LANE_MIN_H), single(TRACK_LANE_MAX_H));
}

/// The height of a lane: what room there is, shared out, within bounds.
#[verifier::opaque]
pub open spec fn spec_compute_lane_height(tracks_area_h: Single, n_tracks: usize) -> Single {
    let n = Single::from_u64(if n_tracks == 0 {
        1
    } else {
        n_tracks as u64
    });
    let gaps = n.minus(single(ONE_PT)).max(single(0)).times(single(TRACK_LANE_GAP));
    let avail = tracks_area_h.times(single(TRACK_LANE_FILL)).minus(gaps).max(single(0));
    avail.over(n).clamp(single(TRACK_LANE_MIN_H), single(TRACK_LANE_MAX_H)).round()
}

/// The height of a lane: what room there is, shared out, within bounds.
#[verifier::when_used_as_spec(spec_compute_lane_height)]
pub fn compute_lane_height(tracks_area_h: Single, n_tracks: usize) -> (r: Single)
    ensures
        r == spec_compute_lane_height(tracks_area_h, n_tracks),
{
    proof {
        reveal(spec_compute_lane_height);
        lemma_lane_bounds();
    }
    let n: Single = Single::from_u64(if n_tracks == 0 {
        1
    } else {
        n_tracks as u64
    });
    let gaps: Single = n.minus(single(ONE_PT)).max(single(0)).times(single(TRACK_LANE_GAP));
    let avail: Single = tracks_area_h.times(single(TRACK_LANE_FILL)).minus(gaps).max(single(0));
    avail.over(n).clamp(single(TRACK_LANE_MIN_H), single(TRACK_LANE_MAX_H)).round()
}

/// The box that removes a row from the pool.
#[verifier::opaque]
pub open spec fn spec_pool_row_close_rect(row_x: Single, row_y: Single, row_w: Single) -> Rect {
    Rect {
        x: row_x.plus(row_w).minus(single(POOL_CLOSE_INSET)).minus(single(POOL_CLOSE_BOX)),
        y: row_y.plus(single(POOL_CLOSE_INSET)),
        w: single(POOL_CLOSE_BOX),
        h: single(POOL_CLOSE_BOX),
    }
}

/// The box that removes a row from the pool.
#[verifier::when_used_as_spec(spec_pool_row_close_rect)]
pub fn pool_row_close_rect(row_x: Single, row_y: Single, row_w: Single) -> (r: Rect)
    ensures
        r == spec_pool_row_close_rect(row_x, row_y, row_w),
{
    proof {
        reveal(spec_pool_row_close_rect);
    }
    Rect {
        x: row_x.plus(row_w).minus(single(POOL_CLOSE_INSET)).minus(single(POOL_CLOSE_BOX)),
        y: row_y.plus(single(POOL_CLOSE_INSET)),
        w: single(POOL_CLOSE_BOX),
        h: single(POOL_CLOSE_BOX),
    }
}

} // verus!
