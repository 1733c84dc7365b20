//! What every operation keeps: the session stays in order, whatever is done to it.

use crate::canvas::ProjectChoice;
use crate::commands::{fresh_title, OPACITY_STEP, OPACITY_STEP_FINE};
use crate::document::{blank_lanes, kept_clips, kept_lanes, reopened, Document, Opened};
use crate::edit::{opacities, Magnet, Place, Range};
use crate::ieee::{double, single, Double, Single};
use crate::input::{choice_at, DragMode, Tone};
use crate::layout::y_to_opacity;
use crate::media::{file_name, known, without, Item, Pool};
use crate::names::{
    distinct, lemma_a_cut_keeps_tidy, lemma_deleting_keeps_tidy, lemma_dropping_keeps_tidy,
    lemma_in_one_row, lemma_relocating_keeps_tidy, lemma_removing_keeps_tidy,
    lemma_reseeding_is_past_all, lemma_same_names_stay_tidy,
};
use crate::project::Route;
use crate::session::{Desk, Sitting, Step, UNDO_LIMIT};
use crate::timeline::{
    clips_of, past_ids, past_links, Clip, Lane, Reel, SourceId, TrackKind, ZERO,
};
use crate::title::Words;
use crate::view::nth_lane;
use vstd::prelude::*;

verus! {

/// Every step's clips have names of their own.
pub open spec fn tidy_steps(steps: Seq<Step>) -> bool {
    forall|i: int| 0 <= i < steps.len() ==> (#[trigger] steps[i]).reel.tidy()
}

impl Sitting {
    /// The session is in order: every row of the pool shows a source, and every clip has a
    /// name of its own, now and in every step of the history.
    pub open spec fn orderly(self) -> bool {
        &&& self.sound()
        &&& self.reel.tidy()
        &&& tidy_steps(self.past)
        &&& tidy_steps(self.future)
        &&& (self.pending matches Some(s) ==> s.reel.tidy())
    }
}

/// Opening an edit keeps order.
proof fn lemma_begun(s: Sitting)
    requires
        s.orderly(),
    ensures
        s.begun().orderly(),
        s.begun().reel == s.reel,
        s.begun().pool == s.pool,
        s.begun().desk == s.desk,
{
    reveal(Sitting::begun);
}

/// Closing an edit keeps order.
proof fn lemma_committed(s: Sitting)
    requires
        s.orderly(),
    ensures
        s.committed().orderly(),
        s.committed().reel == s.reel,
        s.committed().pool == s.pool,
{
    reveal(Sitting::committed);
    if s.pending is Some {
        let all = s.kept(s.pending->0);
        assert forall|i: int| 0 <= i < all.len() implies (#[trigger] all[i]).reel.tidy() by {
            if i < all.len() - 1 {
                if s.past.len() >= UNDO_LIMIT {
                    assert(all[i] == s.past[i + 1]);
                } else {
                    assert(all[i] == s.past[i]);
                }
            }
        }
    }
}

/// Other words keep a pool sound.
proof fn lemma_retitled(p: Pool, id: SourceId, w: Words)
    requires
        p.sound(),
    ensures
        p.retitled(id, w).sound(),
        p.retitled(id, w).sources.len() == p.sources.len(),
        p.retitled(id, w).order == p.order,
{
    let q = p.retitled(id, w);
    assert forall|i: int| 0 <= i < q.order.len() implies q.has(#[trigger] q.order[i]) by {
        assert(p.has(p.order[i]));
    }
}

/// Other words for several sources keep a pool sound.
proof fn lemma_all_retitled(p: Pool, titles: Seq<(SourceId, Words)>)
    requires
        p.sound(),
    ensures
        p.all_retitled(titles).sound(),
        p.all_retitled(titles).sources.len() == p.sources.len(),
    decreases titles.len(),
{
    if titles.len() > 0 {
        lemma_all_retitled(p, titles.drop_last());
        lemma_retitled(p.all_retitled(titles.drop_last()), titles.last().0, titles.last().1);
    }
}

/// The rows that are known show sources.
proof fn lemma_known(order: Seq<SourceId>, n: nat)
    ensures
        forall|i: int| 0 <= i < known(order, n).len() ==> (#[trigger] known(order, n)[i]).0 < n,
    decreases order.len(),
{
    if order.len() > 0 {
        let front = order.drop_last();
        lemma_known(front, n);
        assert forall|i: int| 0 <= i < known(order, n).len() implies (#[trigger] known(
            order,
            n,
        )[i]).0 < n by {
            if i < known(front, n).len() {
                assert(known(order, n)[i] == known(front, n)[i]);
            }
        }
    }
}

/// Going to a step of the history keeps order.
proof fn lemma_restored(s: Sitting, to: Step)
    requires
        s.orderly(),
        to.reel.tidy(),
    ensures
        s.restored(to).orderly(),
{
    reveal(Sitting::restored);
    lemma_known(to.order, s.pool.sources.len());
    let p = Pool { order: known(to.order, s.pool.sources.len()), ..s.pool };
    assert(p.sound()) by {
        assert forall|i: int| 0 <= i < p.order.len() implies p.has(#[trigger] p.order[i]) by {}
    }
    lemma_all_retitled(p, to.titles);
}

/// Undoing keeps order.
pub proof fn lemma_undoing_keeps_order(s: Sitting)
    requires
        s.orderly(),
    ensures
        s.undone().orderly(),
{
    reveal(Sitting::undone);
    if s.past.len() > 0 {
        lemma_restored(s, s.past.last());
        let future = s.future.push(s.step());
        assert forall|i: int| 0 <= i < future.len() implies (#[trigger] future[i]).reel.tidy() by {
            if i < s.future.len() {
                assert(future[i] == s.future[i]);
            }
        }
        reveal(Sitting::restored);
    }
}

/// Redoing keeps order.
pub proof fn lemma_redoing_keeps_order(s: Sitting)
    requires
        s.orderly(),
    ensures
        s.redone().orderly(),
{
    reveal(Sitting::redone);
    if s.future.len() > 0 {
        lemma_restored(s, s.future.last());
        let past = s.past.push(s.step());
        assert forall|i: int| 0 <= i < past.len() implies (#[trigger] past[i]).reel.tidy() by {
            if i < s.past.len() {
                assert(past[i] == s.past[i]);
            }
        }
        reveal(Sitting::restored);
    }
}

/// Splitting at the playhead keeps order.
pub proof fn lemma_splitting_keeps_order(s: Sitting)
    requires
        s.orderly(),
        s.reel.can_split(s.desk.clock.position),
    ensures
        s.split_here().orderly(),
{
    reveal(Sitting::split_here);
    lemma_begun(s);
    lemma_a_cut_keeps_tidy(s.reel, s.desk.clock.position);
    lemma_committed(Sitting { reel: s.reel.split(s.desk.clock.position), ..s.begun() });
}

/// Deleting the selection keeps order.
pub proof fn lemma_deleting_keeps_order(s: Sitting)
    requires
        s.orderly(),
    ensures
        s.less_selected().orderly(),
{
    reveal(Sitting::less_selected);
    if s.chosen() is Some {
        let p = s.chosen()->0;
        let doomed = s.reel.ids_at(s.reel.siblings(p.track as int, p.idx as int));
        lemma_begun(s);
        lemma_deleting_keeps_tidy(s.reel, doomed);
        lemma_committed(Sitting { reel: s.reel.less_ids(doomed), ..s.begun() });
    }
}

/// Accepting a title keeps order.
pub proof fn lemma_accepting_a_title_keeps_order(s: Sitting)
    requires
        s.orderly(),
    ensures
        s.titled().orderly(),
        s.titled().pool == s.pool,
        s.titled().reel == s.reel,
{
    if s.typing is Some {
        lemma_committed(Sitting { typing: None, ..s });
    }
}

/// Taking a title in hand keeps order.
pub proof fn lemma_taking_a_title_keeps_order(s: Sitting, source: SourceId)
    requires
        s.orderly(),
    ensures
        s.titling(source).orderly(),
{
    lemma_accepting_a_title_keeps_order(s);
    if s.pool.has(source) && s.pool.item(source).title is Some {
        lemma_begun(
            Sitting { typing: Some((source, s.pool.item(source).title->0)), ..s.titled() },
        );
    }
}

/// Putting a title back keeps order.
pub proof fn lemma_cancelling_a_title_keeps_order(s: Sitting)
    requires
        s.orderly(),
    ensures
        s.untitled().orderly(),
{
    reveal(Sitting::untitled);
    if s.typing is Some {
        let (source, original) = s.typing->0;
        lemma_retitled(s.pool, source, original);
        lemma_committed(
            Sitting { typing: None, pool: s.pool.retitled(source, original), ..s },
        );
    }
}

/// Typing keeps order.
pub proof fn lemma_typing_keeps_order(s: Sitting, text: Seq<char>)
    requires
        s.orderly(),
    ensures
        s.reworded(text).orderly(),
{
    reveal(Sitting::reworded);
    if s.typing is Some {
        let (source, _) = s.typing->0;
        if s.pool.has(source) && s.pool.item(source).title is Some {
            lemma_retitled(
                s.pool,
                source,
                Words { text, ..s.pool.item(source).title->0 },
            );
        }
    }
}

/// A source more keeps a pool sound.
proof fn lemma_with(p: Pool, item: Item)
    requires
        p.sound(),
        p.sources.len() < u32::MAX,
    ensures
        p.with(item).sound(),
{
    let q = p.with(item);
    assert forall|i: int| 0 <= i < q.order.len() implies q.has(#[trigger] q.order[i]) by {
        if i < p.order.len() {
            assert(p.has(p.order[i]));
        }
    }
}

/// A new title keeps order.
pub proof fn lemma_a_new_title_keeps_order(s: Sitting)
    requires
        s.orderly(),
        s.pool.sources.len() < u32::MAX,
    ensures
        s.with_title().orderly(),
{
    reveal(Sitting::with_title);
    let b = s.begun();
    lemma_begun(s);
    let item = Item {
        name: fresh_title().pool_name(),
        path: Route { absolute: false, parts: Seq::empty() },
        video: None,
        audio: None,
        title: Some(fresh_title()),
        revision: 0,
        baked: None,
    };
    lemma_with(s.pool, item);
    let c = Sitting { pool: b.pool.with(item), ..b };
    lemma_committed(c);
    lemma_taking_a_title_keeps_order(c.committed(), SourceId(s.pool.sources.len() as u32));
}

/// A row less keeps a pool sound.
proof fn lemma_without(order: Seq<SourceId>, id: SourceId, n: nat)
    requires
        forall|i: int| 0 <= i < order.len() ==> (#[trigger] order[i]).0 < n,
    ensures
        forall|i: int|
            0 <= i < without(order, id).len() ==> (#[trigger] without(
                order,
                id,
            )[i]).0 < n,
    decreases order.len(),
{
    if order.len() > 0 {
        let front = order.drop_last();
        assert forall|i: int| 0 <= i < front.len() implies (#[trigger] front[i]).0 < n by {
            assert(front[i] == order[i]);
        }
        lemma_without(front, id, n);
        assert(order.last() == order[order.len() - 1]);
        assert forall|i: int| 0 <= i < without(order, id).len() implies (#[trigger] without(
            order,
            id,
        )[i]).0 < n by {
            if i < without(front, id).len() {
                assert(without(order, id)[i] == without(front, id)[i]);
            }
        }
    }
}

/// Removing a source keeps order.
pub proof fn lemma_removing_keeps_order(s: Sitting, id: SourceId)
    requires
        s.orderly(),
    ensures
        s.less_source(id).orderly(),
{
    reveal(Sitting::less_source);
    lemma_accepting_a_title_keeps_order(s);
    let a = if s.typing matches Some((source, _)) && source == id {
        s.titled()
    } else {
        s
    };
    let b = a.begun();
    lemma_begun(a);
    lemma_removing_keeps_tidy(a.reel, id);
    assert forall|i: int| 0 <= i < b.pool.order.len() implies (#[trigger] b.pool.order[i]).0
        < b.pool.sources.len() by {
        assert(b.pool.has(b.pool.order[i]));
    }
    lemma_without(b.pool.order, id, b.pool.sources.len());
    let p = Pool { order: without(b.pool.order, id), ..b.pool };
    assert(p.sound());
    lemma_committed(
        Sitting {
            pool: p,
            reel: b.reel.less_source(id),
            desk: Desk {
                last_playing_source: if b.desk.last_playing_source == Some(id) {
                    None
                } else {
                    b.desk.last_playing_source
                },
                ..b.desk
            },
            ..b
        },
    );
}

/// Changing one clip without renaming it keeps a reel tidy.
proof fn lemma_with_clip(r: Reel, track: int, idx: int, c: Clip)
    requires
        r.tidy(),
        r.has(track, idx),
        c.id == r.clip(track, idx).id,
        c.link == r.clip(track, idx).link,
    ensures
        r.with_clip(track, idx, c).tidy(),
{
    lemma_same_names_stay_tidy(r, r.with_clip(track, idx, c));
}

/// Changing clips without renaming them keeps a reel tidy.
proof fn lemma_revised(r: Reel, at: Seq<Place>, f: spec_fn(Clip) -> Clip)
    requires
        r.tidy(),
        forall|c: Clip| (#[trigger] f(c)).id == c.id && f(c).link == c.link,
    ensures
        r.revised(at, f).tidy(),
{
    lemma_same_names_stay_tidy(r, r.revised(at, f));
}

/// Moving the level of the selection keeps order.
pub proof fn lemma_nudging_keeps_order(
    s: Sitting,
    dir: Single,
    fine: bool,
    gain: Single,
    gains: Range,
)
    requires
        s.orderly(),
    ensures
        s.nudged(dir, fine, gain, gains).orderly(),
{
    reveal(Sitting::nudged);
    if s.chosen() is Some {
        let p = s.chosen()->0;
        let (t, i) = (p.track as int, p.idx as int);
        let b = s.begun();
        lemma_begun(s);
        let c = b.reel.clip(t, i);
        let n = match b.reel.tracks[t].kind {
            TrackKind::Audio => Clip { gain: gains.kept(gain), ..c },
            TrackKind::Video => Clip {
                opacity: opacities().kept(
                    c.opacity.plus(
                        dir.times(
                            if fine {
                                single(OPACITY_STEP_FINE)
                            } else {
                                single(OPACITY_STEP)
                            },
                        ),
                    ),
                ),
                ..c
            },
        };
        assert(s.reel.is_first(s.desk.selected->0, p));
        lemma_with_clip(b.reel, t, i, n);
        lemma_committed(Sitting { reel: b.reel.with_clip(t, i, n), ..b });
    }
}

/// The lane that carries a kind is one of the lanes.
proof fn lemma_nth_lane(tracks: Seq<Lane>, kind: TrackKind, k: int, from: int)
    requires
        0 <= from,
    ensures
        nth_lane(tracks, kind, k, from) matches Some(i) ==> i < tracks.len(),
    decreases tracks.len() - from,
{
    if from < tracks.len() {
        lemma_nth_lane(tracks, kind, k, from + 1);
        lemma_nth_lane(tracks, kind, k - 1, from + 1);
    }
}

/// The lane at a height is one of the lanes.
proof fn lemma_track_at(s: Sitting, y: Single)
    ensures
        s.track_at(y) matches Some(t) ==> t < s.reel.tracks.len(),
{
    assert forall|kind: TrackKind, k: int|
        #[trigger] nth_lane(s.reel.tracks, kind, k, 0) matches Some(i) ==> i
            < s.reel.tracks.len() by {
        lemma_nth_lane(s.reel.tracks, kind, k, 0);
    }
}

/// Moving a clip keeps order.
proof fn lemma_moved_clip(s: Sitting, track: int, idx: int, grab: Double)
    requires
        s.orderly(),
        s.reel.has(track, idx),
    ensures
        s.moved_clip(track, idx, grab).orderly(),
{
    reveal(Sitting::moved_clip);
    lemma_track_at(s, s.desk.cursor.y);
    let l = s.layout();
    let magnet = Magnet {
        enabled: s.desk.snap_enabled,
        px_per_sec: l.px_per_sec(),
        playhead: s.desk.clock.position,
    };
    let wanted = l.cursor_to_t(s.desk.cursor.x).minus(grab);
    match s.lane_over(track) {
        Some(h) => {
            lemma_relocating_keeps_tidy(s.reel, track, idx, h);
            let r = s.reel.relocated(track, idx, h);
            let i = s.reel.tracks[h].clips.len() as int;
            let delta = r.move_delta(h, i, wanted.minus(r.clip(h, i).timeline_start), magnet);
            lemma_revised(r, r.siblings(h, i), |c: Clip| c.shifted(delta));
        },
        None => {
            let delta = s.reel.move_delta(
                track,
                idx,
                wanted.minus(s.reel.clip(track, idx).timeline_start),
                magnet,
            );
            lemma_revised(s.reel, s.reel.siblings(track, idx), |c: Clip| c.shifted(delta));
        },
    }
}

/// Moving the pointer keeps order.
pub proof fn lemma_a_drag_keeps_order(s: Sitting, tone: Tone)
    requires
        s.orderly(),
        s.draggable(tone),
    ensures
        s.dragged(tone).orderly(),
{
    match s.desk.drag {
        DragMode::Scrub => {
            reveal(Sitting::scrubbed);
        },
        DragMode::ClipMove { track, idx, grab_t_offset } => {
            lemma_moved_clip(s, track as int, idx as int, grab_t_offset);
        },
        DragMode::ClipTrimLeft { track, idx } => {
            let (t, i) = (track as int, idx as int);
            let delta = s.reel.left_delta(t, i, s.head_gap(t, i));
            lemma_revised(
                s.reel,
                s.reel.siblings(t, i),
                |c: Clip| c.cut_head(delta).with_fades_clamped(),
            );
        },
        DragMode::ClipTrimRight { track, idx } => {
            let (t, i) = (track as int, idx as int);
            let delta = s.reel.right_delta(s.pool, t, i, s.tail_gap(t, i));
            lemma_revised(
                s.reel,
                s.reel.siblings(t, i),
                |c: Clip| c.cut_tail(delta).with_fades_clamped(),
            );
        },
        DragMode::ClipFade { track, idx, side } => {
            let (t, i) = (track as int, idx as int);
            lemma_with_clip(
                s.reel,
                t,
                i,
                s.reel.clip(t, i).with_fade(side, s.fade_len(t, i, side)).with_fades_clamped(),
            );
        },
        DragMode::ClipMoveOnCanvas { track, idx, start, grab } => {
            let (t, i) = (track as int, idx as int);
            if let Some(to) = s.canvas_move(t, i, start, grab) {
                lemma_with_clip(s.reel, t, i, s.reel.clip(t, i).placed(to));
            }
        },
        DragMode::ClipScaleOnCanvas { track, idx, start, grab, anchor, corner } => {
            let (t, i) = (track as int, idx as int);
            if let Some(to) = s.canvas_scale(t, i, start, grab, anchor, corner) {
                lemma_with_clip(s.reel, t, i, s.reel.clip(t, i).placed(to));
            }
        },
        DragMode::ClipLevel { track, idx } => {
            reveal(Sitting::levelled);
            let (t, i) = (track as int, idx as int);
            let c = s.reel.clip(t, i);
            let n = match s.reel.tracks[t].kind {
                TrackKind::Audio => Clip { gain: tone.gains.kept(tone.gain), ..c },
                TrackKind::Video => Clip {
                    opacity: opacities().kept(
                        y_to_opacity(
                            s.top_of(t),
                            s.layout().lane_h,
                            s.desk.cursor.y,
                        ),
                    ),
                    ..c
                },
            };
            lemma_with_clip(s.reel, t, i, n);
        },
        _ => {},
    }
}

/// Letting go of the pointer keeps order.
pub proof fn lemma_a_release_keeps_order(s: Sitting)
    requires
        s.orderly(),
        s.landable(),
    ensures
        s.released().orderly(),
{
    reveal(Sitting::released);
    reveal(Sitting::landed);
    lemma_track_at(s, s.desk.cursor.y);
    lemma_begun(s);
    if let DragMode::PoolDrag { source } = s.desk.drag {
        if let Some(t) = s.track_at(s.desk.cursor.y) {
            lemma_dropping_keeps_tidy(
                s.reel,
                s.pool,
                source,
                t as int,
                s.layout().cursor_to_t(s.desk.cursor.x).max(
                    double(ZERO),
                ),
            );
        }
    }
    lemma_committed(s.landed());
}

/// A choice of the settings menu keeps order.
pub proof fn lemma_a_choice_keeps_order(s: Sitting, choice: ProjectChoice)
    requires
        s.orderly(),
    ensures
        s.with_choice(choice).orderly(),
{
    reveal(Sitting::with_choice);
}

/// A press on the controls keeps order.
proof fn lemma_pressed_chrome(s: Sitting)
    requires
        s.orderly(),
        s.on_split() ==> s.reel.can_split(s.desk.clock.position),
    ensures
        s.pressed_chrome() matches Some(r) ==> r.0.orderly(),
{
    reveal(Sitting::pressed_chrome);
    reveal(Sitting::pressed_toolbar);
    reveal(Sitting::went_to);
    reveal(Sitting::stepped);
    reveal(Sitting::toggled);
    if s.on_split() {
        lemma_splitting_keeps_order(s);
    }
    lemma_undoing_keeps_order(s);
    lemma_redoing_keeps_order(s);
    lemma_deleting_keeps_order(s);
    if let Some(item) = choice_at(s.menu, s.desk.cursor, 0) {
        lemma_a_choice_keeps_order(s, item.choice);
    }
}

/// A press on the panels keeps order.
proof fn lemma_pressed_panels(s: Sitting, db: Single)
    requires
        s.orderly(),
        !s.desk.project_menu_open,
        s.on_new_title() ==> s.pool.sources.len() < u32::MAX,
    ensures
        s.pressed_panels(db).0.orderly(),
{
    reveal(Sitting::pressed_panels);
    reveal(Sitting::picked_up);
    reveal(Sitting::pressed_timeline);
    reveal(Sitting::scrubbed);
    if s.on_new_title() {
        lemma_a_new_title_keeps_order(s);
    }
    lemma_begun(s);
    if let Some(id) = s.closed_at(s.desk.cursor, 0) {
        lemma_removing_keeps_order(s, id);
    }
    assert forall|track: usize, idx: usize| (#[trigger] s.selecting(track, idx)).orderly()
        && s.selecting(track, idx).begun().orderly() by {
        lemma_begun(s.selecting(track, idx));
    }
}

/// A press of the pointer keeps order.
pub proof fn lemma_a_press_keeps_order(s: Sitting, db: Single)
    requires
        s.orderly(),
        s.pressable(),
    ensures
        s.pressed(db).0.orderly(),
{
    let a = s.titled();
    lemma_accepting_a_title_keeps_order(s);
    if a.depth > 0 {
        lemma_committed(Sitting { depth: 1, ..a });
    }
    let b = s.settled();
    assert(b.orderly() && b.reel == s.reel && b.pool == s.pool && b.desk == (Desk {
        dirty: b.desk.dirty,
        ..s.desk
    })) by {
        reveal(Sitting::committed);
    }
    lemma_pressed_chrome(b);
    if b.desk.project_menu_open {
        reveal(Sitting::pressed_chrome);
    } else {
        lemma_pressed_panels(b, db);
    }
}

/// A session where nothing was done yet is in order.
pub proof fn lemma_a_fresh_session_is_in_order(width: Single, height: Single)
    ensures
        Sitting::fresh(width, height).orderly(),
{
    let s = Sitting::fresh(width, height);
    assert forall|t: int, i: int| !#[trigger] s.reel.has(t, i) by {
        assert(blank_lanes().len() == 4);
    }
}

/// A blank session is in order.
pub proof fn lemma_a_blank_session_is_in_order(s: Sitting)
    ensures
        s.blank().orderly(),
{
    let b = s.blank();
    assert forall|t: int, i: int| !#[trigger] b.reel.has(t, i) by {
        assert(blank_lanes().len() == 4);
    }
}

/// Clips that are kept keep their names.
proof fn lemma_kept_names(clips: Seq<Clip>, sources: Seq<(SourceId, Route)>, opened: Seq<Opened>)
    requires
        distinct(clips),
    ensures
        distinct(kept_clips(clips, sources, opened)),
        forall|i: int|
            0 <= i < kept_clips(clips, sources, opened).len() ==> exists|k: int|
                0 <= k < clips.len() && (#[trigger] clips[k]).id == (#[trigger] kept_clips(
                    clips,
                    sources,
                    opened,
                )[i]).id,
    decreases clips.len(),
{
    if clips.len() > 0 {
        let front = clips.drop_last();
        assert(distinct(front)) by {
            assert forall|i: int, j: int| 0 <= i < j < front.len() implies (#[trigger] front[i]).id
                != (#[trigger] front[j]).id by {
                assert(clips[i].id != clips[j].id);
            }
        }
        lemma_kept_names(front, sources, opened);
        let so_far = kept_clips(front, sources, opened);
        let all = kept_clips(clips, sources, opened);
        assert forall|i: int| 0 <= i < all.len() implies exists|k: int|
            0 <= k < clips.len() && (#[trigger] clips[k]).id == (#[trigger] all[i]).id by {
            if i < so_far.len() {
                assert(all[i] == so_far[i]);
                let k = choose|k: int| 0 <= k < front.len() && (#[trigger] front[k]).id == so_far[i].id;
                assert(clips[k].id == all[i].id);
            } else {
                assert(clips[clips.len() - 1].id == all[i].id);
            }
        }
        assert forall|i: int, j: int| 0 <= i < j < all.len() implies (#[trigger] all[i]).id != (
        #[trigger] all[j]).id by {
            if j < so_far.len() {
                assert(so_far[i].id != so_far[j].id);
            } else {
                assert(all[i] == so_far[i]);
                let k = choose|k: int| 0 <= k < front.len() && (#[trigger] front[k]).id == so_far[i].id;
                assert(clips[k].id != clips[clips.len() - 1].id);
            }
        }
    }
}

/// Keeping clips in two stretches.
proof fn lemma_kept_concat(
    a: Seq<Clip>,
    b: Seq<Clip>,
    sources: Seq<(SourceId, Route)>,
    opened: Seq<Opened>,
)
    ensures
        kept_clips(a + b, sources, opened) == kept_clips(a, sources, opened) + kept_clips(
            b,
            sources,
            opened,
        ),
    decreases b.len(),
{
    if b.len() == 0 {
        assert(a + b =~= a);
        assert(kept_clips(a, sources, opened) + Seq::<Clip>::empty() =~= kept_clips(
            a,
            sources,
            opened,
        ));
    } else {
        lemma_kept_concat(a, b.drop_last(), sources, opened);
        assert((a + b).drop_last() =~= a + b.drop_last());
        assert(kept_clips(a + b, sources, opened) =~= kept_clips(a, sources, opened) + kept_clips(
            b,
            sources,
            opened,
        ));
    }
}

/// Keeping clips lane by lane is keeping them in one row.
proof fn lemma_kept_in_one_row(
    tracks: Seq<Lane>,
    sources: Seq<(SourceId, Route)>,
    opened: Seq<Opened>,
)
    ensures
        clips_of(kept_lanes(tracks, sources, opened)) == kept_clips(
            clips_of(tracks),
            sources,
            opened,
        ),
    decreases tracks.len(),
{
    let kept = kept_lanes(tracks, sources, opened);
    if tracks.len() > 0 {
        let front = tracks.drop_last();
        lemma_kept_in_one_row(front, sources, opened);
        assert(kept.drop_last() =~= kept_lanes(front, sources, opened));
        lemma_kept_concat(clips_of(front), tracks.last().clips, sources, opened);
    }
}

/// The counters past some clips that were kept are no higher than those past all.
proof fn lemma_past_kept(clips: Seq<Clip>, sources: Seq<(SourceId, Route)>, opened: Seq<Opened>)
    ensures
        0 <= past_ids(kept_clips(clips, sources, opened))
            <= past_ids(clips),
        0 <= past_links(kept_clips(clips, sources, opened))
            <= past_links(clips),
    decreases clips.len(),
{
    if clips.len() > 0 {
        let front = clips.drop_last();
        lemma_past_kept(front, sources, opened);
        let so_far = kept_clips(front, sources, opened);
        let all = kept_clips(clips, sources, opened);
        assert(all.len() > so_far.len() ==> all.drop_last() =~= so_far);
    }
}

/// A reopened pool is sound.
proof fn lemma_reopened_is_sound(
    sources: Seq<(SourceId, Route)>,
    opened: Seq<Opened>,
    dir: Route,
    n: int,
)
    requires
        n <= u32::MAX,
    ensures
        reopened(sources, opened, dir, n).sound(),
        n >= 0 ==> reopened(sources, opened, dir, n).sources.len() <= n,
    decreases n,
{
    if n > 0 && n <= sources.len() && n <= opened.len() {
        lemma_reopened_is_sound(sources, opened, dir, n - 1);
        let p = reopened(sources, opened, dir, n - 1);
        let path = sources[n - 1].1.resolved(dir);
        lemma_with(
            p,
            Item {
                name: file_name(path, opened[n - 1].text@),
                path,
                video: opened[n - 1].video,
                audio: opened[n - 1].audio,
                title: None,
                revision: 0,
                baked: None,
            },
        );
    }
}

/// A session that was loaded is in order, whatever files opened, as long as the project
/// gives every clip a name of its own and its numbers can be counted past.
pub proof fn lemma_a_loaded_session_is_in_order(
    s: Sitting,
    d: Document,
    opened: Seq<Opened>,
    dir: Route,
)
    requires
        distinct(clips_of(d.tracks)),
        past_ids(clips_of(d.tracks)) <= u32::MAX,
        past_links(clips_of(d.tracks)) <= u32::MAX,
        d.sources.len() < u32::MAX,
    ensures
        s.loaded(d, opened, dir).orderly(),
{
    let l = s.loaded(d, opened, dir);
    let kept = kept_clips(clips_of(d.tracks), d.sources, opened);
    lemma_kept_in_one_row(d.tracks, d.sources, opened);
    lemma_kept_names(clips_of(d.tracks), d.sources, opened);
    lemma_past_kept(clips_of(d.tracks), d.sources, opened);
    lemma_reseeding_is_past_all(kept);
    lemma_in_one_row(l.reel);
    lemma_reopened_is_sound(d.sources, opened, dir, d.sources.len() as int);
}

} // verus!
