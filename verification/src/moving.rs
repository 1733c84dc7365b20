//! What a drag does to the clips that it moves or trims, in time on the timeline.

use crate::edit::{
    earlier, gap, is_snap, lane_edges, lemma_infinities, lemma_moves_keep_links_in_step,
    lemma_siblings, lemma_snap_is_unique, lemma_tail_trims_keep_links_in_step,
    lemma_trims_keep_links_in_step, near, nearest_pair, snap_of, targets_in, Magnet, Place,
    MIN_CLIP_DURATION, SNAP_PX,
};
use crate::ieee::facts::{
    lemma_double_has, lemma_double_minus_near, lemma_double_of, lemma_double_opposite,
    lemma_double_plus, lemma_double_plus_near, lemma_double_small, lemma_double_zero,
    lemma_single_small,
};
use crate::ieee::laws::{lemma_pow2_monotone, lemma_round_ge, lemma_round_le};
use crate::ieee::model::{double_format, magnitude, units, Num};
use crate::ieee::near::{double_upto, gap_of, lemma_double_over_near, size, within};
use crate::ieee::numbers::lemma_double_bits;
use crate::ieee::{double, single, Double};
use crate::media::Pool;
use crate::timeline::{Clip, Reel, ZERO};
use vstd::arithmetic::div_mod::lemma_fundamental_div_mod_converse;
use vstd::arithmetic::power2::{
    lemma2_to64, lemma_pow2_adds, lemma_pow2_pos, lemma_pow2_unfold, pow2,
};
use vstd::prelude::*;

verus! {

/// The nearest pair before `(k, l)`, where there is any.
proof fn lemma_nearest(
    edges: Seq<Double>,
    targets: Seq<Double>,
    threshold: Double,
    k: int,
    l: int,
) -> (w: Option<(int, int)>)
    requires
        0 <= k <= edges.len(),
        0 <= l <= targets.len(),
        k == edges.len() ==> l == 0,
    ensures
        match w {
            Some((i, j)) => nearest_pair(edges, targets, threshold, i, j, k, l),
            None => forall|a: int, b: int|
                !(#[trigger] near(edges, targets, threshold, a, b) && earlier(a, b, k, l)),
        },
    decreases k, l,
{
    if l > 0 {
        let w = lemma_nearest(edges, targets, threshold, k, l - 1);
        if near(edges, targets, threshold, k, l - 1) {
            match w {
                None => Some((k, l - 1)),
                Some((i, j)) => if gap(edges[k], targets[l - 1]).lt(gap(edges[i], targets[j])) {
                    Some((k, l - 1))
                } else {
                    w
                },
            }
        } else {
            w
        }
    } else if k > 0 {
        let w = lemma_nearest(edges, targets, threshold, k - 1, targets.len() as int);
        assert forall|a: int, b: int| #[trigger]
            near(edges, targets, threshold, a, b) && earlier(a, b, k, 0) implies earlier(
            a,
            b,
            k - 1,
            targets.len() as int,
        ) by {}
        w
    } else {
        None
    }
}

/// What the nearest latch adds is the nearest latch.
pub proof fn lemma_snap(edges: Seq<Double>, targets: Seq<Double>, threshold: Double)
    ensures
        is_snap(
            edges,
            targets,
            threshold,
            snap_of(edges, targets, threshold),
            edges.len() as int,
            0,
        ),
{
    let n = edges.len() as int;
    let w = lemma_nearest(edges, targets, threshold, n, 0);
    let r = match w {
        Some((i, j)) => Some(targets[j].minus(edges[i])),
        None => None,
    };
    assert(is_snap(edges, targets, threshold, r, n, 0));
    lemma_snap_is_unique(edges, targets, threshold, r);
}

/// An edge of a clip: its start, or its end.
pub open spec fn edge(c: Clip, end: bool) -> Double {
    if end {
        c.timeline_end()
    } else {
        c.timeline_start
    }
}

/// The edges of moved clips are those of the clips, moved.
proof fn lemma_edges_at(r: Reel, at: Seq<Place>, delta: Double)
    ensures
        r.edges_at(at, delta).len() == 2 * at.len(),
        forall|k: int|
            0 <= k < at.len() ==> {
                let c = r.clip((#[trigger] at[k]).track as int, at[k].idx as int);
                &&& r.edges_at(at, delta)[2 * k] == c.timeline_start.plus(delta)
                &&& r.edges_at(at, delta)[2 * k + 1] == c.timeline_end().plus(delta)
            },
    decreases at.len(),
{
    if at.len() > 0 {
        let front = at.drop_last();
        lemma_edges_at(r, front, delta);
        assert forall|k: int| 0 <= k < at.len() implies ({
            let c = r.clip((#[trigger] at[k]).track as int, at[k].idx as int);
            &&& r.edges_at(at, delta)[2 * k] == c.timeline_start.plus(delta)
            &&& r.edges_at(at, delta)[2 * k + 1] == c.timeline_end().plus(delta)
        }) by {
            if k < front.len() {
                assert(front[k] == at[k]);
            }
        }
    }
}

/// A lane's edges are those of its clips that do not move.
proof fn lemma_lane_edges(clips: Seq<Clip>, track: int, but: Seq<Place>, n: int)
    requires
        0 <= n <= clips.len(),
    ensures
        forall|i: int|
            0 <= i < n && !but.contains(Place { track: track as usize, idx: i as usize }) ==> {
                &&& lane_edges(clips, track, but, n).contains((#[trigger] clips[i]).timeline_start)
                &&& lane_edges(clips, track, but, n).contains(clips[i].timeline_end())
            },
        forall|b: int|
            0 <= b < lane_edges(clips, track, but, n).len() ==> exists|i: int, end: bool|
                0 <= i < n && !but.contains(Place { track: track as usize, idx: i as usize })
                    && #[trigger] lane_edges(clips, track, but, n)[b] == #[trigger] edge(
                    clips[i],
                    end,
                ),
    decreases n,
{
    if n > 0 {
        let before = lane_edges(clips, track, but, n - 1);
        let all = lane_edges(clips, track, but, n);
        lemma_lane_edges(clips, track, but, n - 1);
        let stays = !but.contains(Place { track: track as usize, idx: (n - 1) as usize });
        assert forall|i: int|
            0 <= i < n && !but.contains(Place { track: track as usize, idx: i as usize }) implies {
            &&& all.contains((#[trigger] clips[i]).timeline_start)
            &&& all.contains(clips[i].timeline_end())
        } by {
            let (s, e) = (clips[i].timeline_start, clips[i].timeline_end());
            if i == n - 1 {
                assert(all[before.len() as int] == s);
                assert(all[before.len() as int + 1] == e);
            } else {
                assert(before.contains(s) && before.contains(e));
                let j = choose|j: int| 0 <= j < before.len() && before[j] == s;
                assert(all[j] == s);
                let k = choose|k: int| 0 <= k < before.len() && before[k] == e;
                assert(all[k] == e);
            }
        }
        assert forall|b: int| 0 <= b < all.len() implies exists|i: int, end: bool|
            0 <= i < n && !but.contains(Place { track: track as usize, idx: i as usize })
                && #[trigger] all[b] == #[trigger] edge(clips[i], end) by {
            if b < before.len() {
                assert(all[b] == before[b]);
                let (i, end) = choose|i: int, end: bool|
                    0 <= i < n - 1 && !but.contains(
                        Place { track: track as usize, idx: i as usize },
                    ) && #[trigger] before[b] == #[trigger] edge(clips[i], end);
                assert(all[b] == edge(clips[i], end));
            } else {
                assert(stays);
                let end = b != before.len();
                assert(all[b] == edge(clips[n - 1], end));
            }
        }
    }
}

/// What a drag can latch onto: the start of the timeline, the playhead, and both edges of
/// every clip that does not move; nothing else.
pub proof fn lemma_a_drag_latches_onto_what_stands_still(
    r: Reel,
    but: Seq<Place>,
    playhead: Double,
    n: int,
)
    requires
        0 <= n <= r.tracks.len(),
    ensures
        ({
            let ts = targets_in(r.tracks, but, playhead, n);
            &&& ts.contains(double(ZERO))
            &&& ts.contains(playhead)
            &&& forall|t: int, i: int|
                t < n && #[trigger] r.has(t, i) && !but.contains(
                    Place { track: t as usize, idx: i as usize },
                ) ==> ts.contains(edge(r.clip(t, i), false)) && ts.contains(
                    edge(r.clip(t, i), true),
                )
            &&& forall|b: int|
                0 <= b < ts.len() ==> {
                    ||| #[trigger] ts[b] == double(ZERO)
                    ||| ts[b] == playhead
                    ||| exists|t: int, i: int, end: bool|
                        r.has(t, i) && !but.contains(
                            Place { track: t as usize, idx: i as usize },
                        ) && ts[b] == #[trigger] edge(r.clip(t, i), end)
                }
        }),
    decreases n,
{
    let ts = targets_in(r.tracks, but, playhead, n);
    if n == 0 {
        assert(ts[0] == double(ZERO) && ts[1] == playhead);
    } else {
        let before = targets_in(r.tracks, but, playhead, n - 1);
        let clips = r.tracks[n - 1].clips;
        let lane = lane_edges(clips, n - 1, but, clips.len() as int);
        lemma_a_drag_latches_onto_what_stands_still(r, but, playhead, n - 1);
        lemma_lane_edges(clips, n - 1, but, clips.len() as int);
        assert forall|x: Double| before.contains(x) implies ts.contains(x) by {
            let j = choose|j: int| 0 <= j < before.len() && before[j] == x;
            assert(ts[j] == x);
        }
        assert forall|x: Double| lane.contains(x) implies ts.contains(x) by {
            let j = choose|j: int| 0 <= j < lane.len() && lane[j] == x;
            assert(ts[before.len() + j] == x);
        }
        assert forall|t: int, i: int|
            t < n && #[trigger] r.has(t, i) && !but.contains(
                Place { track: t as usize, idx: i as usize },
            ) implies ts.contains(edge(r.clip(t, i), false)) && ts.contains(
            edge(r.clip(t, i), true),
        ) by {
            if t == n - 1 {
                assert(clips[i] == r.clip(t, i));
            }
        }
        assert forall|b: int| 0 <= b < ts.len() implies {
            ||| #[trigger] ts[b] == double(ZERO)
            ||| ts[b] == playhead
            ||| exists|t: int, i: int, end: bool|
                r.has(t, i) && !but.contains(Place { track: t as usize, idx: i as usize })
                    && ts[b] == #[trigger] edge(r.clip(t, i), end)
        } by {
            if b < before.len() {
                assert(ts[b] == before[b]);
            } else {
                let j = b - before.len();
                assert(ts[b] == lane[j]);
                let (i, end) = choose|i: int, end: bool|
                    0 <= i < clips.len() && !but.contains(
                        Place { track: (n - 1) as usize, idx: i as usize },
                    ) && #[trigger] lane[j] == #[trigger] edge(clips[i], end);
                assert(r.has(n - 1, i));
                assert(ts[b] == edge(r.clip(n - 1, i), end));
            }
        }
    }
}

/// A number without its sign.
pub proof fn lemma_double_abs(x: Double)
    ensures
        x.abs()@ == magnitude(x@),
{
    reveal(Double::spec_abs);
    lemma_double_bits();
    lemma_double_has(x);
    lemma_double_of(magnitude(x@));
}

/// How far a target is from an edge that moves by `delta`.
pub open spec fn off_by(e: Double, delta: Double, target: Double) -> int {
    gap_of(units(e@) + units(delta@), units(target@))
}

/// The distance of a target from an edge that was moved, to within rounding.
proof fn lemma_gap_near(e: Double, delta: Double, target: Double)
    requires
        double_upto(e, 1098),
        double_upto(delta, 1098),
        double_upto(target, 1098),
    ensures
        ({
            let g = gap(e.plus(delta), target);
            let a = target.minus(e.plus(delta));
            &&& g.is_finite() && double_upto(a, 1100)
            &&& units(g@) == size(units(a@))
            &&& within(units(a@), units(target@) - units(e@) - units(delta@), 3 * pow2(1045) as int)
        }),
{
    lemma_pow2_unfold(1099);
    lemma_pow2_unfold(1100);
    lemma_pow2_unfold(1046);
    lemma_double_plus_near(e, delta, 1099);
    lemma_double_minus_near(target, e.plus(delta), 1100);
    lemma_double_abs(target.minus(e.plus(delta)));
}

/// Every place that moves holds a clip whose times are of an ordinary size, and so do the
/// other tracks.
pub open spec fn ordinary(r: Reel) -> bool {
    forall|t: int, i: int| #[trigger]
        r.has(t, i) ==> double_upto(r.clip(t, i).timeline_start, 1098) && double_upto(
            r.clip(t, i).timeline_end(),
            1098,
        )
}

/// A drag latches: where moving by `delta` takes an edge of the clips that move near enough to
/// something that stands still, they are moved so that an edge of theirs stands on such a
/// thing, and no farther than to the nearest. Where nothing comes near enough they are moved
/// by `delta`.
pub proof fn lemma_a_drag_latches(r: Reel, at: Seq<Place>, delta: Double, magnet: Magnet)
    requires
        ordinary(r),
        forall|k: int|
            0 <= k < at.len() ==> r.has((#[trigger] at[k]).track as int, at[k].idx as int),
        double_upto(delta, 1098),
        double_upto(magnet.playhead, 1098),
        magnet.pulls(),
        magnet.reach().is_finite(),
    ensures
        ({
            let d = r.latched(at, delta, magnet);
            let ts = targets_in(r.tracks, at, magnet.playhead, r.tracks.len() as int);
            let reach = units(magnet.reach()@);
            let slack = pow2(1048) as int;
            &&& double_upto(d, 1101)
            &&& units(d@) == units(delta@) || exists|k: int, end: bool, b: int|
                0 <= k < at.len() && 0 <= b < ts.len() && #[trigger] off_by(
                    edge(r.clip(at[k].track as int, at[k].idx as int), end),
                    d,
                    ts[b],
                ) <= slack
            &&& gap_of(units(d@), units(delta@)) <= reach + slack || units(d@) == units(delta@)
            &&& forall|k: int, end: bool, b: int|
                0 <= k < at.len() && 0 <= b < ts.len() && #[trigger] off_by(
                    edge(r.clip(at[k].track as int, at[k].idx as int), end),
                    delta,
                    ts[b],
                ) + slack <= reach ==> {
                    &&& gap_of(units(d@), units(delta@)) <= off_by(
                        edge(r.clip(at[k].track as int, at[k].idx as int), end),
                        delta,
                        ts[b],
                    ) + slack
                    &&& exists|l: int, o: bool, c: int|
                        0 <= l < at.len() && 0 <= c < ts.len() && #[trigger] off_by(
                            edge(r.clip(at[l].track as int, at[l].idx as int), o),
                            d,
                            ts[c],
                        ) <= slack
                }
        }),
{
    let es = r.edges_at(at, delta);
    let ts = targets_in(r.tracks, at, magnet.playhead, r.tracks.len() as int);
    let d = r.latched(at, delta, magnet);
    let reach = magnet.reach();
    let slack = pow2(1048) as int;
    lemma_double_zero();
    lemma_pow2_unfold(1048);
    lemma_pow2_unfold(1047);
    lemma_pow2_unfold(1046);
    lemma_pow2_unfold(1099);
    lemma_pow2_unfold(1100);
    lemma_pow2_unfold(1101);
    lemma_pow2_pos(1045);
    lemma_pow2_pos(1098);
    lemma_edges_at(r, at, delta);
    lemma_a_drag_latches_onto_what_stands_still(r, at, magnet.playhead, r.tracks.len() as int);
    assert forall|b: int| 0 <= b < ts.len() implies double_upto(#[trigger] ts[b], 1098) by {
        if ts[b] != double(ZERO) && ts[b] != magnet.playhead {
            let (t, i, end) = choose|t: int, i: int, end: bool|
                r.has(t, i) && !at.contains(Place { track: t as usize, idx: i as usize }) && ts[b]
                    == #[trigger] edge(r.clip(t, i), end);
            assert(double_upto(edge(r.clip(t, i), end), 1098));
        }
    }
    assert forall|k: int, end: bool| 0 <= k < at.len() implies double_upto(
        #[trigger] edge(r.clip(at[k].track as int, at[k].idx as int), end),
        1098,
    ) by {
        assert(r.has(at[k].track as int, at[k].idx as int));
    }
    lemma_snap(es, ts, reach);
    let snap = snap_of(es, ts, reach);
    let n = es.len() as int;
    match snap {
        None => {
            lemma_plus_nothing(delta);
            assert forall|k: int, end: bool, b: int|
                0 <= k < at.len() && 0 <= b < ts.len() implies !(#[trigger] off_by(
                edge(r.clip(at[k].track as int, at[k].idx as int), end),
                delta,
                ts[b],
            ) + slack <= units(reach@)) by {
                let e = edge(r.clip(at[k].track as int, at[k].idx as int), end);
                let i = if end {
                    2 * k + 1
                } else {
                    2 * k
                };
                assert(at[k] == at[k]);
                lemma_gap_near(e, delta, ts[b]);
                assert(es[i] == e.plus(delta));
                assert(!(near(es, ts, reach, i, b) && earlier(i, b, n, 0)));
            }
        },
        Some(adjust) => {
            let (i, j) = choose|i: int, j: int| #[trigger]
                nearest_pair(es, ts, reach, i, j, n, 0) && adjust == ts[j].minus(es[i]);
            assert(near(es, ts, reach, i, j));
            let l = i / 2;
            let o = i % 2 == 1;
            let e = edge(r.clip(at[l].track as int, at[l].idx as int), o);
            assert(at[l] == at[l]);
            assert(es[i] == e.plus(delta));
            lemma_gap_near(e, delta, ts[j]);
            lemma_double_plus_near(delta, adjust, 1101);
            assert(off_by(edge(r.clip(at[l].track as int, at[l].idx as int), o), d, ts[j]) <= slack);
            assert forall|k: int, end: bool, b: int|
                0 <= k < at.len() && 0 <= b < ts.len() && #[trigger] off_by(
                    edge(r.clip(at[k].track as int, at[k].idx as int), end),
                    delta,
                    ts[b],
                ) + slack <= units(reach@) implies gap_of(units(d@), units(delta@)) <= off_by(
                edge(r.clip(at[k].track as int, at[k].idx as int), end),
                delta,
                ts[b],
            ) + slack by {
                let c = edge(r.clip(at[k].track as int, at[k].idx as int), end);
                let m = if end {
                    2 * k + 1
                } else {
                    2 * k
                };
                assert(at[k] == at[k]);
                lemma_gap_near(c, delta, ts[b]);
                assert(es[m] == c.plus(delta));
                assert(near(es, ts, reach, m, b));
                assert(earlier(m, b, n, 0));
                assert(gap(es[i], ts[j]).le(gap(es[m], ts[b])));
            }
        },
    }
}

/// Adding nothing changes nothing.
proof fn lemma_plus_nothing(x: Double)
    requires
        x.is_finite(),
    ensures
        x.plus(double(ZERO)).is_finite(),
        units(x.plus(double(ZERO))@) == units(x@),
{
    lemma_double_zero();
    lemma_double_plus(x, double(ZERO));
    lemma_double_has(x);
    lemma_double_bits();
    if let Num::Fin { neg: _, mag } = x@ {
        lemma_round_le(double_format(), mag, 1, mag);
        lemma_round_ge(double_format(), mag, 1, mag);
    }
}

/// The earliest start is not after any, and is one of them.
proof fn lemma_earliest_start(r: Reel, at: Seq<Place>) -> (k: int)
    requires
        at.len() > 0,
        forall|j: int|
            0 <= j < at.len() ==> r.clip(
                (#[trigger] at[j]).track as int,
                at[j].idx as int,
            ).timeline_start.is_finite(),
    ensures
        0 <= k < at.len(),
        r.earliest(at) == r.clip(at[k].track as int, at[k].idx as int).timeline_start,
        forall|j: int|
            0 <= j < at.len() ==> units(r.earliest(at)@) <= units(
                r.clip((#[trigger] at[j]).track as int, at[j].idx as int).timeline_start@,
            ),
    decreases at.len(),
{
    let front = at.drop_last();
    let last = at.len() - 1;
    assert(at.last() == at[last]);
    crate::edit::lemma_infinity();
    assert forall|j: int| 0 <= j < front.len() implies r.clip(
        (#[trigger] front[j]).track as int,
        front[j].idx as int,
    ).timeline_start.is_finite() by {
        assert(front[j] == at[j]);
    }
    let c = r.clip(at[last].track as int, at[last].idx as int);
    assert(c.timeline_start.is_finite());
    if front.len() == 0 {
        last
    } else {
        let k = lemma_earliest_start(r, front);
        assert(front[k] == at[k]);
        assert forall|j: int| 0 <= j < at.len() implies units(r.earliest(at)@) <= units(
            r.clip((#[trigger] at[j]).track as int, at[j].idx as int).timeline_start@,
        ) by {
            if j < front.len() {
                assert(front[j] == at[j]);
            }
        }
        if r.earliest(at) == r.earliest(front) {
            k
        } else {
            last
        }
    }
}

/// A move changes when a clip starts, and nothing else of it: by the same amount as every clip
/// linked to it.
pub proof fn lemma_a_move_changes_only_when_a_clip_starts(
    r: Reel,
    track: int,
    idx: int,
    desired: Double,
    magnet: Magnet,
    t: int,
    i: int,
)
    requires
        r.countable(),
        r.has(track, idx),
        r.has(t, i),
        double_upto(r.clip(t, i).timeline_start, 1098),
        double_upto(r.move_delta(track, idx, desired, magnet), 1101),
        (t == track && i == idx) || (r.clip(t, i).link is Some && r.clip(t, i).link == r.clip(
            track,
            idx,
        ).link),
    ensures
        ({
            let c = r.clip(t, i);
            let n = r.moved(track, idx, desired, magnet).clip(t, i);
            &&& n == (Clip { timeline_start: n.timeline_start, ..c })
            &&& n.timeline_start.is_finite()
            &&& within(
                units(n.timeline_start@),
                units(c.timeline_start@) + units(r.move_delta(track, idx, desired, magnet)@),
                pow2(1048) as int,
            )
        }),
{
    lemma_moves_keep_links_in_step(r, track, idx, desired, magnet, t, i);
    lemma_pow2_unfold(1102);
    lemma_pow2_monotone(1098, 1101);
    lemma_double_plus_near(
        r.clip(t, i).timeline_start,
        r.move_delta(track, idx, desired, magnet),
        1102,
    );
}

/// A move goes as far as it is dragged, where that takes no clip before the start and nothing
/// pulls. Where the magnet pulls it latches: what comes near enough to something that stands
/// still ends up on it, or stands at the start of the timeline.
pub proof fn lemma_a_move_goes_where_it_is_dragged(
    r: Reel,
    track: int,
    idx: int,
    desired: Double,
    magnet: Magnet,
)
    requires
        r.countable(),
        r.has(track, idx),
        ordinary(r),
        double_upto(desired, 1098),
        double_upto(magnet.playhead, 1098),
        magnet.pulls() ==> magnet.reach().is_finite(),
        forall|k: int|
            0 <= k < r.siblings(track, idx).len() ==> 0 <= units(desired@) + units(
                r.clip(
                    (#[trigger] r.siblings(track, idx)[k]).track as int,
                    r.siblings(track, idx)[k].idx as int,
                ).timeline_start@,
            ),
    ensures
        ({
            let at = r.siblings(track, idx);
            let d = r.move_delta(track, idx, desired, magnet);
            let ts = targets_in(r.tracks, at, magnet.playhead, r.tracks.len() as int);
            let slack = pow2(1048) as int;
            &&& double_upto(d, 1101)
            &&& !magnet.pulls() ==> units(d@) == units(desired@)
            &&& magnet.pulls() ==> forall|k: int, end: bool, b: int|
                0 <= k < at.len() && 0 <= b < ts.len() && #[trigger] off_by(
                    edge(r.clip(at[k].track as int, at[k].idx as int), end),
                    desired,
                    ts[b],
                ) + slack <= units(magnet.reach()@) ==> {
                    ||| exists|l: int, o: bool, c: int|
                        0 <= l < at.len() && 0 <= c < ts.len() && #[trigger] off_by(
                            edge(r.clip(at[l].track as int, at[l].idx as int), o),
                            d,
                            ts[c],
                        ) <= slack
                    ||| exists|l: int|
                        0 <= l < at.len() && units(d@) + units(
                            r.clip(
                                (#[trigger] at[l]).track as int,
                                at[l].idx as int,
                            ).timeline_start@,
                        ) == 0
                }
        }),
{
    let at = r.siblings(track, idx);
    lemma_siblings(r, track, idx);
    assert(at.len() > 0) by {
        assert(at.contains(Place { track: track as usize, idx: idx as usize }));
    }
    assert forall|j: int| 0 <= j < at.len() implies double_upto(
        r.clip((#[trigger] at[j]).track as int, at[j].idx as int).timeline_start,
        1098,
    ) by {
        assert(r.has(at[j].track as int, at[j].idx as int));
    }
    let e = lemma_earliest_start(r, at);
    let m = r.earliest(at);
    let floor = m.negate();
    lemma_double_opposite(m);
    assert(units(floor@) == -units(m@));
    assert(at[e] == at[e]);
    assert(desired.max(floor) == desired);
    lemma_pow2_monotone(1098, 1101);
    if magnet.pulls() {
        lemma_a_drag_latches(r, at, desired, magnet);
        let x = r.latched(at, desired, magnet);
        let d = r.move_delta(track, idx, desired, magnet);
        assert(d == x || d == floor);
        if d == floor {
            assert(units(d@) + units(
                r.clip(at[e].track as int, at[e].idx as int).timeline_start@,
            ) == 0);
        }
    }
}

/// The magnet reaches eight points, whatever the zoom.
pub proof fn lemma_the_magnet_reaches_eight_points(magnet: Magnet)
    requires
        magnet.px_per_sec.is_finite(),
        pow2(1044) <= units(magnet.px_per_sec@) <= pow2(1104),
    ensures
        ({
            let (reach, px) = (magnet.reach(), units(magnet.px_per_sec@));
            &&& reach.is_finite()
            &&& within(
                units(reach@) * px,
                8 * (pow2(1074) * pow2(1074)) as int,
                pow2(1054) * px,
            )
        }),
{
    let one = pow2(1074);
    let eight = single(SNAP_PX).to_double();
    lemma_pow2_pos(1044);
    lemma_pow2_pos(1074);
    lemma2_to64();
    vstd::arithmetic::power2::lemma2_to64_rest();
    lemma_eight();
    assert((8 * one) * one == 8 * (one * one)) by (nonlinear_arith);
    let px = units(magnet.px_per_sec@);
    lemma_pow2_adds(33, 1074);
    lemma_pow2_adds(30, 1044);
    lemma_pow2_adds(1, 1107);
    let t = pow2(1108);
    assert((8 * one) * one <= t * px) by (nonlinear_arith)
        requires
            t == 2 * (0x2_0000_0000 * one),
            px >= pow2(1044),
            one == 0x4000_0000 * pow2(1044),
            one > 0,
    ;
    lemma_double_over_near(eight, magnet.px_per_sec, 1108);
}

/// The reach of the magnet as a double.
proof fn lemma_eight()
    ensures
        single(SNAP_PX).to_double().is_finite(),
        units(single(SNAP_PX).to_double()@) == 8 * pow2(1074),
{
    lemma_double_small(8);
    lemma_single_small(8);
    lemma_single_eight();
    let f = double_format();
    let x = single(SNAP_PX);
    lemma_double_bits();
    lemma_pow2_pos(149);
    reveal(crate::ieee::Single::spec_to_double);
    let (p, one) = (pow2(149), pow2(1074));
    assert((8 * p) * one == (8 * one) * p) by (nonlinear_arith);
    lemma_round_le(f, (8 * p) * one, p, 8 * one);
    lemma_round_ge(f, (8 * p) * one, p, 8 * one);
    lemma_double_of(f.converted(crate::ieee::model::single_format(), x@));
}

/// The pattern of eight is eight.
proof fn lemma_single_eight()
    ensures
        single(SNAP_PX)@ == (Num::Fin { neg: false, mag: 8 * pow2(149) }),
{
    reveal(crate::ieee::Single::num);
    crate::ieee::numbers::lemma_single_bits();
    crate::ieee::facts::lemma_single_weights();
    let f = crate::ieee::model::single_format();
    lemma_fundamental_div_mod_converse(SNAP_PX as int, f.hidden() as int, 130, 0);
    lemma_pow2_adds(23, 129);
    lemma_pow2_adds(3, 149);
    lemma2_to64();
}

/// What every clip at some places can give at its left, the bounds of a trim give.
proof fn lemma_left_gives(r: Reel, at: Seq<Place>, x: Double)
    requires
        x.is_finite(),
        forall|k: int|
            0 <= k < at.len() ==> {
                let c = r.clip((#[trigger] at[k]).track as int, at[k].idx as int);
                &&& c.source_in.is_finite() && c.timeline_start.is_finite()
                &&& 0 <= units(x@) + units(c.source_in@)
                &&& 0 <= units(x@) + units(c.timeline_start@)
                &&& x.le(c.duration().minus(double(MIN_CLIP_DURATION)))
            },
    ensures
        !x.lt(r.left_bounds(at).0),
        !r.left_bounds(at).1.lt(x),
        !r.left_bounds(at).0.is_nan(),
        !r.left_bounds(at).1.is_nan(),
    decreases at.len(),
{
    lemma_infinities();
    if at.len() > 0 {
        let front = at.drop_last();
        assert forall|k: int| 0 <= k < front.len() implies ({
            let c = r.clip((#[trigger] front[k]).track as int, front[k].idx as int);
            &&& c.source_in.is_finite() && c.timeline_start.is_finite()
            &&& 0 <= units(x@) + units(c.source_in@)
            &&& 0 <= units(x@) + units(c.timeline_start@)
            &&& x.le(c.duration().minus(double(MIN_CLIP_DURATION)))
        }) by {
            assert(front[k] == at[k]);
        }
        lemma_left_gives(r, front, x);
        assert(at.last() == at[at.len() - 1]);
        let c = r.clip(at.last().track as int, at.last().idx as int);
        lemma_double_opposite(c.source_in);
        lemma_double_opposite(c.timeline_start);
    }
}

/// What every clip at some places can give at its right, the bounds of a trim give.
proof fn lemma_right_gives(r: Reel, pool: Pool, at: Seq<Place>, x: Double)
    requires
        x.is_finite(),
        forall|k: int|
            0 <= k < at.len() ==> {
                let p = #[trigger] at[k];
                let c = r.clip(p.track as int, p.idx as int);
                &&& double(MIN_CLIP_DURATION).minus(c.duration()).le(x)
                &&& x.le(r.source_end(pool, p.track as int, p.idx as int).minus(c.source_out))
            },
    ensures
        !x.lt(r.right_bounds(pool, at).0),
        !r.right_bounds(pool, at).1.lt(x),
        !r.right_bounds(pool, at).0.is_nan(),
        !r.right_bounds(pool, at).1.is_nan(),
    decreases at.len(),
{
    lemma_infinities();
    if at.len() > 0 {
        let front = at.drop_last();
        assert forall|k: int| 0 <= k < front.len() implies ({
            let p = #[trigger] front[k];
            let c = r.clip(p.track as int, p.idx as int);
            &&& double(MIN_CLIP_DURATION).minus(c.duration()).le(x)
            &&& x.le(r.source_end(pool, p.track as int, p.idx as int).minus(c.source_out))
        }) by {
            assert(front[k] == at[k]);
        }
        lemma_right_gives(r, pool, front, x);
        assert(at.last() == at[at.len() - 1]);
    }
}

/// Whether a clip moves with the one at a place: it is that one, or linked to it.
pub open spec fn together(r: Reel, track: int, idx: int, t: int, i: int) -> bool {
    (t == track && i == idx) || (r.clip(t, i).link is Some && r.clip(t, i).link == r.clip(
        track,
        idx,
    ).link)
}

/// A trim at the left takes as much off the source as it takes the start on, so what is left
/// shows when it showed before; it leaves where the clip ends in its source. It goes as far as
/// it is dragged where every clip that moves with it can give that much.
pub proof fn lemma_a_head_trim_goes_where_it_is_dragged(
    r: Reel,
    track: int,
    idx: int,
    desired: Double,
    t: int,
    i: int,
)
    requires
        r.countable(),
        r.has(track, idx),
        r.has(t, i),
        together(r, track, idx, t, i),
        double_upto(r.clip(t, i).source_in, 1098),
        double_upto(r.clip(t, i).timeline_start, 1098),
        double_upto(desired, 1098),
        double_upto(r.left_delta(track, idx, desired), 1098),
    ensures
        ({
            let at = r.siblings(track, idx);
            let c = r.clip(t, i);
            let n = r.trimmed_left(track, idx, desired).clip(t, i);
            let slack = pow2(1046) as int;
            &&& n == (Clip {
                source_in: n.source_in,
                timeline_start: n.timeline_start,
                fade_in: n.fade_in,
                fade_out: n.fade_out,
                ..c
            })
            &&& n.source_in.is_finite() && n.timeline_start.is_finite()
            &&& within(
                units(n.source_in@) - units(c.source_in@),
                units(n.timeline_start@) - units(c.timeline_start@),
                slack,
            )
            &&& (forall|k: int|
                0 <= k < at.len() ==> {
                    let o = r.clip((#[trigger] at[k]).track as int, at[k].idx as int);
                    &&& o.source_in.is_finite() && o.timeline_start.is_finite()
                    &&& 0 <= units(desired@) + units(o.source_in@)
                    &&& 0 <= units(desired@) + units(o.timeline_start@)
                    &&& desired.le(o.duration().minus(double(MIN_CLIP_DURATION)))
                }) ==> within(
                units(n.timeline_start@),
                units(c.timeline_start@) + units(desired@),
                slack,
            )
        }),
{
    let at = r.siblings(track, idx);
    let c = r.clip(t, i);
    let d = r.left_delta(track, idx, desired);
    lemma_trims_keep_links_in_step(r, track, idx, desired, t, i);
    lemma_pow2_unfold(1099);
    lemma_pow2_unfold(1046);
    lemma_double_plus_near(c.source_in, d, 1099);
    lemma_double_plus_near(c.timeline_start, d, 1099);
    if forall|k: int|
        0 <= k < at.len() ==> {
            let o = r.clip((#[trigger] at[k]).track as int, at[k].idx as int);
            &&& o.source_in.is_finite() && o.timeline_start.is_finite()
            &&& 0 <= units(desired@) + units(o.source_in@)
            &&& 0 <= units(desired@) + units(o.timeline_start@)
            &&& desired.le(o.duration().minus(double(MIN_CLIP_DURATION)))
        } {
        lemma_left_gives(r, at, desired);
    }
}

/// A trim at the right leaves where a clip begins, in its source and on the timeline, and ends
/// it in its source as far on as it is dragged, where every clip that moves with it can give
/// that much.
pub proof fn lemma_a_tail_trim_goes_where_it_is_dragged(
    r: Reel,
    pool: Pool,
    track: int,
    idx: int,
    desired: Double,
    t: int,
    i: int,
)
    requires
        r.countable(),
        r.has(track, idx),
        r.has(t, i),
        together(r, track, idx, t, i),
        double_upto(r.clip(t, i).source_out, 1098),
        double_upto(desired, 1098),
        forall|k: int|
            0 <= k < r.siblings(track, idx).len() ==> {
                let p = #[trigger] r.siblings(track, idx)[k];
                let o = r.clip(p.track as int, p.idx as int);
                &&& double(MIN_CLIP_DURATION).minus(o.duration()).le(desired)
                &&& desired.le(r.source_end(pool, p.track as int, p.idx as int).minus(o.source_out))
            },
    ensures
        ({
            let c = r.clip(t, i);
            let n = r.trimmed_right(pool, track, idx, desired).clip(t, i);
            &&& n == (Clip {
                source_out: n.source_out,
                fade_in: n.fade_in,
                fade_out: n.fade_out,
                ..c
            })
            &&& n.source_out.is_finite()
            &&& within(
                units(n.source_out@),
                units(c.source_out@) + units(desired@),
                pow2(1046) as int,
            )
        }),
{
    lemma_tail_trims_keep_links_in_step(r, pool, track, idx, desired, t, i);
    lemma_right_gives(r, pool, r.siblings(track, idx), desired);
    lemma_pow2_unfold(1099);
    lemma_pow2_unfold(1046);
    lemma_double_plus_near(r.clip(t, i).source_out, desired, 1099);
}

} // verus!
