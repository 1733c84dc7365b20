//! Edits to the timeline: moving, trimming, levels, fades and placement.

use crate::canvas::Canvas;
use crate::ieee::facts::{
    lemma_double_minus, lemma_double_minus_near, lemma_double_one, lemma_double_opposite,
    lemma_double_order, lemma_double_plus, lemma_double_plus_monotone, lemma_double_plus_near,
    lemma_double_positive, lemma_double_weights, lemma_double_zero, lemma_single_order,
};
use crate::ieee::laws::lemma_pow2_monotone;
use crate::ieee::model::{units, Num};
use crate::ieee::{double, single, Double, Single};
use crate::media::{MediaPool, Pool};
use crate::timeline::{
    Clip, FadeSide, Lane, Reel, Timeline, TrackKind, Transform, MAX_OPACITY, MAX_SCALE,
    MIN_OPACITY, MIN_SCALE, UNITY, ZERO,
};
use crate::ui::Rect;
use vstd::arithmetic::power2::{lemma_pow2_pos, lemma_pow2_unfold, pow2};
use vstd::prelude::*;

verus! {

/// How near an edge has to come to latch, `8` points.
pub const SNAP_PX: u32 = 0x4100_0000;

/// The shortest a trim leaves a clip, `0.05` seconds.
pub const MIN_CLIP_DURATION: u64 = 0x3fa9_9999_9999_999a;

/// A half, as a single.
pub const HALF: u32 = 0x3f00_0000;

/// Infinity, as a double.
pub const INFINITY: u64 = 0x7ff0_0000_0000_0000;

/// Negative infinity, as a double.
pub const NEG_INFINITY: u64 = 0xfff0_0000_0000_0000;

/// How far a target lies from an edge.
pub open spec fn gap(edge: Double, target: Double) -> Double {
    target.minus(edge).abs()
}

/// Whether pair `(i, j)` comes before pair `(k, l)`, edge by edge.
pub open spec fn earlier(i: int, j: int, k: int, l: int) -> bool {
    i < k || (i == k && j < l)
}

/// Whether edge `i` and target `j` are a pair within the threshold.
pub open spec fn near(
    edges: Seq<Double>,
    targets: Seq<Double>,
    threshold: Double,
    i: int,
    j: int,
) -> bool {
    0 <= i < edges.len() && 0 <= j < targets.len() && gap(edges[i], targets[j]).le(threshold)
}

/// Whether `(i, j)` is the nearest pair within the threshold among those before
/// `(k, l)`, the first of them where several are equally near.
pub open spec fn nearest_pair(
    edges: Seq<Double>,
    targets: Seq<Double>,
    threshold: Double,
    i: int,
    j: int,
    k: int,
    l: int,
) -> bool {
    &&& near(edges, targets, threshold, i, j)
    &&& earlier(i, j, k, l)
    &&& forall|a: int, b: int| #[trigger]
        near(edges, targets, threshold, a, b) && earlier(a, b, k, l) ==> gap(
            edges[i],
            targets[j],
        ).le(gap(edges[a], targets[b]))
    &&& forall|a: int, b: int| #[trigger]
        near(edges, targets, threshold, a, b) && earlier(a, b, i, j) ==> gap(
            edges[i],
            targets[j],
        ).lt(gap(edges[a], targets[b]))
}

/// What the nearest latch among the pairs before `(k, l)` adds; nothing where none of
/// them is within the threshold.
pub open spec fn is_snap(
    edges: Seq<Double>,
    targets: Seq<Double>,
    threshold: Double,
    r: Option<Double>,
    k: int,
    l: int,
) -> bool {
    match r {
        Some(adjust) => exists|i: int, j: int| #[trigger]
            nearest_pair(edges, targets, threshold, i, j, k, l) && adjust == targets[j].minus(
                edges[i],
            ),
        None => forall|a: int, b: int|
            !(#[trigger] near(edges, targets, threshold, a, b) && earlier(a, b, k, l)),
    }
}

/// What the nearest latch adds, the first of those that are equally near; nothing where
/// no pair is within the threshold.
pub open spec fn snap_of(edges: Seq<Double>, targets: Seq<Double>, threshold: Double) -> Option<
    Double,
> {
    choose|r: Option<Double>| is_snap(edges, targets, threshold, r, edges.len() as int, 0)
}

/// There is one nearest latch.
pub proof fn lemma_snap_is_unique(
    edges: Seq<Double>,
    targets: Seq<Double>,
    threshold: Double,
    r: Option<Double>,
)
    requires
        is_snap(edges, targets, threshold, r, edges.len() as int, 0),
    ensures
        r == snap_of(edges, targets, threshold),
{
    let n = edges.len() as int;
    let o = snap_of(edges, targets, threshold);
    assert(is_snap(edges, targets, threshold, o, n, 0));
    match (r, o) {
        (Some(x), Some(y)) => {
            let (i, j) = choose|i: int, j: int| #[trigger]
                nearest_pair(edges, targets, threshold, i, j, n, 0) && x == targets[j].minus(
                    edges[i],
                );
            let (k, l) = choose|i: int, j: int| #[trigger]
                nearest_pair(edges, targets, threshold, i, j, n, 0) && y == targets[j].minus(
                    edges[i],
                );
            assert(near(edges, targets, threshold, i, j));
            assert(near(edges, targets, threshold, k, l));
            if earlier(i, j, k, l) {
                assert(gap(edges[k], targets[l]).lt(gap(edges[i], targets[j])));
            } else if earlier(k, l, i, j) {
                assert(gap(edges[i], targets[j]).lt(gap(edges[k], targets[l])));
            }
        },
        (Some(x), None) => {
            let (i, j) = choose|i: int, j: int| #[trigger]
                nearest_pair(edges, targets, threshold, i, j, n, 0) && x == targets[j].minus(
                    edges[i],
                );
            assert(near(edges, targets, threshold, i, j));
        },
        (None, Some(y)) => {
            let (i, j) = choose|i: int, j: int| #[trigger]
                nearest_pair(edges, targets, threshold, i, j, n, 0) && y == targets[j].minus(
                    edges[i],
                );
            assert(near(edges, targets, threshold, i, j));
        },
        _ => {},
    }
}

/// The closest latch of any edge onto any target within the threshold, as what it adds
/// to a drag.
pub fn nearest_snap(edges: &Vec<Double>, targets: &Vec<Double>, threshold: Double) -> (r: Option<
    Double,
>)
    ensures
        is_snap(edges@, targets@, threshold, r, edges.len() as int, 0),
        r == snap_of(edges@, targets@, threshold),
{
    let mut best: Option<(Double, Double)> = None;
    let ghost mut bi: int = 0;
    let ghost mut bj: int = 0;
    let mut i: usize = 0;
    while i < edges.len()
        invariant
            i <= edges.len(),
            match best {
                Some((dist, adjust)) => {
                    &&& nearest_pair(edges@, targets@, threshold, bi, bj, i as int, 0)
                    &&& dist == gap(edges@[bi], targets@[bj])
                    &&& adjust == targets@[bj].minus(edges@[bi])
                },
                None => forall|a: int, b: int|
                    !(#[trigger] near(edges@, targets@, threshold, a, b) && earlier(
                        a,
                        b,
                        i as int,
                        0,
                    )),
            },
        decreases edges.len() - i,
    {
        let mut j: usize = 0;
        while j < targets.len()
            invariant
                i < edges.len(),
                j <= targets.len(),
                match best {
                    Some((dist, adjust)) => {
                        &&& nearest_pair(edges@, targets@, threshold, bi, bj, i as int, j as int)
                        &&& dist == gap(edges@[bi], targets@[bj])
                        &&& adjust == targets@[bj].minus(edges@[bi])
                    },
                    None => forall|a: int, b: int|
                        !(#[trigger] near(edges@, targets@, threshold, a, b) && earlier(
                            a,
                            b,
                            i as int,
                            j as int,
                        )),
                },
            decreases targets.len() - j,
        {
            let dist: Double = targets[j].minus(edges[i]).abs();
            if dist.le(threshold) {
                let better: bool = match best {
                    None => true,
                    Some((bd, _)) => dist.lt(bd),
                };
                proof {
                    assert(near(edges@, targets@, threshold, i as int, j as int));
                }
                if better {
                    best = Some((dist, targets[j].minus(edges[i])));
                    proof {
                        bi = i as int;
                        bj = j as int;
                    }
                }
            }
            j += 1;
        }
        i += 1;
    }
    let r: Option<Double> = match best {
        Some((_, adjust)) => {
            proof {
                assert(nearest_pair(edges@, targets@, threshold, bi, bj, edges.len() as int, 0));
            }
            Some(adjust)
        },
        None => None,
    };
    proof {
        lemma_snap_is_unique(edges@, targets@, threshold, r);
    }
    r
}

/// A latch moves some edge onto some target and no farther than the threshold.
pub proof fn lemma_snap_is_within_reach(
    edges: Seq<Double>,
    targets: Seq<Double>,
    threshold: Double,
    r: Option<Double>,
)
    requires
        is_snap(edges, targets, threshold, r, edges.len() as int, 0),
    ensures
        r matches Some(adjust) ==> adjust.abs().le(threshold),
        targets.len() == 0 ==> r is None,
{
    if let Some(adjust) = r {
        let (i, j) = choose|i: int, j: int| #[trigger]
            nearest_pair(edges, targets, threshold, i, j, edges.len() as int, 0) && adjust
                == targets[j].minus(edges[i]);
        assert(near(edges, targets, threshold, i, j));
    }
}

/// A size worth landing on, and the extent that it acts over.
#[derive(Clone, Copy, Debug, PartialEq)]
pub struct Landmark {
    pub scale: Single,
    pub extent: Single,
}

impl Landmark {
    /// How far the picture's edge moves from `scale` to the landmark.
    pub open spec fn moved(self, scale: Single) -> Single {
        self.scale.minus(scale).times(self.extent).times(single(HALF)).abs()
    }

    /// Whether the landmark is a size, and within reach of `scale`.
    pub open spec fn in_reach(self, scale: Single, threshold: Single) -> bool {
        self.scale.is_finite() && !self.scale.le(single(0)) && self.moved(scale).le(threshold)
    }
}

/// Whether `i` is the nearest landmark in reach among the first `n`, the first of them
/// where several are equally near.
pub open spec fn nearest_mark(
    marks: Seq<Landmark>,
    scale: Single,
    threshold: Single,
    i: int,
    n: int,
) -> bool {
    &&& 0 <= i < n
    &&& marks[i].in_reach(scale, threshold)
    &&& forall|a: int|
        0 <= a < n && (#[trigger] marks[a]).in_reach(scale, threshold) ==> marks[i].moved(scale).le(
            marks[a].moved(scale),
        )
    &&& forall|a: int|
        0 <= a < i && (#[trigger] marks[a]).in_reach(scale, threshold) ==> marks[i].moved(scale).lt(
            marks[a].moved(scale),
        )
}

/// Whether `r` is the nearest landmark in reach, or `scale` itself where none is.
pub open spec fn is_latched(
    marks: Seq<Landmark>,
    scale: Single,
    threshold: Single,
    r: Single,
) -> bool {
    ||| exists|i: int| #[trigger]
        nearest_mark(marks, scale, threshold, i, marks.len() as int) && r == marks[i].scale
    ||| r == scale && forall|a: int|
        0 <= a < marks.len() ==> !(#[trigger] marks[a]).in_reach(scale, threshold)
}

/// The scale that a drag to `scale` lands on.
pub open spec fn latched_scale(marks: Seq<Landmark>, scale: Single, threshold: Single) -> Single {
    choose|r: Single| is_latched(marks, scale, threshold, r)
}

/// There is one scale to land on.
pub proof fn lemma_latched_scale_is_unique(
    marks: Seq<Landmark>,
    scale: Single,
    threshold: Single,
    r: Single,
)
    requires
        is_latched(marks, scale, threshold, r),
    ensures
        r == latched_scale(marks, scale, threshold),
{
    let o = latched_scale(marks, scale, threshold);
    assert(is_latched(marks, scale, threshold, o));
    let n = marks.len() as int;
    if exists|i: int| #[trigger] nearest_mark(marks, scale, threshold, i, n) && r == marks[i].scale {
        let i = choose|i: int| #[trigger]
            nearest_mark(marks, scale, threshold, i, n) && r == marks[i].scale;
        assert(marks[i].in_reach(scale, threshold));
        let j = choose|j: int| #[trigger]
            nearest_mark(marks, scale, threshold, j, n) && o == marks[j].scale;
        assert(nearest_mark(marks, scale, threshold, j, n));
        assert(marks[j].in_reach(scale, threshold));
        if i != j {
            assert(false);
        }
    }
}

/// The landmark nearest to `scale`, measured where the picture's edge would move; or
/// `scale` itself where none is near enough.
pub fn nearest_scale(scale: Single, marks: &Vec<Landmark>, threshold: Single) -> (r: Single)
    ensures
        is_latched(marks@, scale, threshold, r),
{
    let mut best: Option<(Single, Single)> = None;
    let ghost mut bi: int = 0;
    let mut i: usize = 0;
    while i < marks.len()
        invariant
            i <= marks.len(),
            match best {
                Some((moved, found)) => {
                    &&& nearest_mark(marks@, scale, threshold, bi, i as int)
                    &&& moved == marks@[bi].moved(scale)
                    &&& found == marks@[bi].scale
                },
                None => forall|a: int|
                    0 <= a < i ==> !(#[trigger] marks@[a]).in_reach(scale, threshold),
            },
        decreases marks.len() - i,
    {
        let m: Landmark = marks[i];
        if m.scale.is_finite() && !m.scale.le(single(0)) {
            let moved: Single = m.scale.minus(scale).times(m.extent).times(single(HALF)).abs();
            if moved.le(threshold) {
                let better: bool = match best {
                    None => true,
                    Some((b, _)) => moved.lt(b),
                };
                if better {
                    best = Some((moved, m.scale));
                    proof {
                        bi = i as int;
                    }
                }
            }
        }
        i += 1;
    }
    match best {
        Some((_, found)) => {
            proof {
                assert(nearest_mark(marks@, scale, threshold, bi, marks.len() as int));
            }
            found
        },
        None => scale,
    }
}

/// A place in the timeline.
#[derive(Clone, Copy, Debug, PartialEq, Eq, Structural)]
pub struct Place {
    pub track: usize,
    pub idx: usize,
}

/// The places in a lane, from position `0` up to `n`, whose clips carry `link`.
pub open spec fn linked_in_lane(clips: Seq<Clip>, track: int, link: u32, n: int) -> Seq<Place>
    decreases n,
{
    if n <= 0 || n > clips.len() {
        Seq::empty()
    } else {
        let before = linked_in_lane(clips, track, link, n - 1);
        if clips[n - 1].link == Some(link) {
            before.push(Place { track: track as usize, idx: (n - 1) as usize })
        } else {
            before
        }
    }
}

/// The places in the first `n` lanes whose clips carry `link`.
pub open spec fn linked_in(tracks: Seq<Lane>, link: u32, n: int) -> Seq<Place>
    decreases n,
{
    if n <= 0 || n > tracks.len() {
        Seq::empty()
    } else {
        linked_in(tracks, link, n - 1) + linked_in_lane(
            tracks[n - 1].clips,
            n - 1,
            link,
            tracks[n - 1].clips.len() as int,
        )
    }
}

impl Reel {
    /// Every place whose clip is linked to the one at a place, itself among them; only
    /// itself where it is not linked.
    pub open spec fn siblings(self, track: int, idx: int) -> Seq<Place> {
        match self.clip(track, idx).link {
            None => seq![Place { track: track as usize, idx: idx as usize }],
            Some(l) => linked_in(self.tracks, l, self.tracks.len() as int),
        }
    }
}

impl Timeline {
    /// Replaces the clip at a place.
    pub fn put(&mut self, track: usize, idx: usize, c: Clip)
        requires
            old(self)@.has(track as int, idx as int),
        ensures
            final(self)@ == old(self)@.with_clip(track as int, idx as int, c),
    {
        self.tracks[track].clips[idx] = c;
        proof {
            assert(self@ =~= old(self)@.with_clip(track as int, idx as int, c));
        }
    }

    /// Every place whose clip is linked to the one at a place, itself among them; only
    /// itself where it is not linked.
    pub fn linked_siblings(&self, track: usize, idx: usize) -> (r: Vec<Place>)
        requires
            self@.has(track as int, idx as int),
        ensures
            r@ == self@.siblings(track as int, idx as int),
    {
        let mut out: Vec<Place> = Vec::new();
        match self.tracks[track].clips[idx].link {
            None => {
                out.push(Place { track, idx });
                proof {
                    assert(out@ =~= self@.siblings(track as int, idx as int));
                }
                out
            },
            Some(l) => {
                let ghost ls = self@.tracks;
                let mut t: usize = 0;
                while t < self.tracks.len()
                    invariant
                        t <= self.tracks.len(),
                        ls == self@.tracks,
                        out@ == linked_in(ls, l, t as int),
                    decreases self.tracks.len() - t,
                {
                    let ghost before = out@;
                    let mut i: usize = 0;
                    proof {
                        assert(before + linked_in_lane(ls[t as int].clips, t as int, l, 0)
                            =~= before);
                    }
                    while i < self.tracks[t].clips.len()
                        invariant
                            t < self.tracks.len(),
                            ls == self@.tracks,
                            i <= self.tracks@[t as int].clips.len(),
                            out@ == before + linked_in_lane(
                                ls[t as int].clips,
                                t as int,
                                l,
                                i as int,
                            ),
                        decreases self.tracks@[t as int].clips.len() - i,
                    {
                        let linked: bool = match self.tracks[t].clips[i].link {
                            Some(k) => k == l,
                            None => false,
                        };
                        if linked {
                            let ghost was = out@;
                            out.push(Place { track: t, idx: i });
                            proof {
                                assert(out@ =~= before + linked_in_lane(
                                    ls[t as int].clips,
                                    t as int,
                                    l,
                                    i + 1,
                                ));
                            }
                        }
                        i += 1;
                    }
                    t += 1;
                }
                out
            },
        }
    }
}

/// The siblings within a lane are places of that lane, in order, each once, and they
/// are all its clips with the link.
proof fn lemma_linked_in_lane(clips: Seq<Clip>, track: int, link: u32, n: int)
    requires
        0 <= n <= clips.len(),
        0 <= track <= usize::MAX,
        clips.len() <= usize::MAX,
    ensures
        ({
            let v = linked_in_lane(clips, track, link, n);
            &&& forall|k: int|
                0 <= k < v.len() ==> (#[trigger] v[k]).track == track && v[k].idx < n
                    && clips[v[k].idx as int].link == Some(link)
            &&& v.no_duplicates()
            &&& forall|i: int|
                0 <= i < n && (#[trigger] clips[i]).link == Some(link) ==> v.contains(
                    Place { track: track as usize, idx: i as usize },
                )
        }),
    decreases n,
{
    if n > 0 {
        lemma_linked_in_lane(clips, track, link, n - 1);
        let before = linked_in_lane(clips, track, link, n - 1);
        let v = linked_in_lane(clips, track, link, n);
        assert forall|i: int|
            0 <= i < n && (#[trigger] clips[i]).link == Some(link) implies v.contains(
            Place { track: track as usize, idx: i as usize },
        ) by {
            let p = Place { track: track as usize, idx: i as usize };
            if i < n - 1 {
                assert(before.contains(p));
                let k = choose|k: int| 0 <= k < before.len() && before[k] == p;
                assert(v[k] == p);
            } else {
                assert(v[before.len() as int] == p);
            }
        }
    }
}

/// The siblings in some lanes are places of those lanes, each once, and they are all
/// the clips with the link.
proof fn lemma_linked_in(tracks: Seq<Lane>, link: u32, n: int)
    requires
        0 <= n <= tracks.len(),
        tracks.len() <= usize::MAX,
        forall|t: int| 0 <= t < tracks.len() ==> (#[trigger] tracks[t]).clips.len() <= usize::MAX,
    ensures
        ({
            let v = linked_in(tracks, link, n);
            &&& forall|k: int|
                0 <= k < v.len() ==> (#[trigger] v[k]).track < n && v[k].idx
                    < tracks[v[k].track as int].clips.len()
                    && tracks[v[k].track as int].clips[v[k].idx as int].link == Some(link)
            &&& v.no_duplicates()
            &&& forall|t: int, i: int|
                0 <= t < n && 0 <= i < tracks[t].clips.len() && (
                #[trigger] tracks[t].clips[i]).link == Some(link) ==> v.contains(
                    Place { track: t as usize, idx: i as usize },
                )
        }),
    decreases n,
{
    if n > 0 {
        lemma_linked_in(tracks, link, n - 1);
        let lane = tracks[n - 1];
        lemma_linked_in_lane(lane.clips, n - 1, link, lane.clips.len() as int);
        let a = linked_in(tracks, link, n - 1);
        let b = linked_in_lane(lane.clips, n - 1, link, lane.clips.len() as int);
        let v = linked_in(tracks, link, n);
        assert(v == a + b);
        assert forall|k: int, m: int|
            0 <= k < v.len() && 0 <= m < v.len() && k != m implies #[trigger] v[k] != #[trigger] v[m] by {
            if k < a.len() && m < a.len() {
                assert(a[k] != a[m]);
            } else if k >= a.len() && m >= a.len() {
                assert(b[k - a.len()] != b[m - a.len()]);
            } else if k < a.len() {
                assert(a[k].track < n - 1);
                assert(b[m - a.len()].track == n - 1);
            } else {
                assert(a[m].track < n - 1);
                assert(b[k - a.len()].track == n - 1);
            }
        }
        assert forall|t: int, i: int|
            0 <= t < n && 0 <= i < tracks[t].clips.len() && (
            #[trigger] tracks[t].clips[i]).link == Some(link) implies v.contains(
            Place { track: t as usize, idx: i as usize },
        ) by {
            let p = Place { track: t as usize, idx: i as usize };
            if t < n - 1 {
                assert(a.contains(p));
                let k = choose|k: int| 0 <= k < a.len() && a[k] == p;
                assert(v[k] == p);
            } else {
                assert(b.contains(p));
                let k = choose|k: int| 0 <= k < b.len() && b[k] == p;
                assert(v[a.len() + k] == p);
            }
        }
    }
}

impl Reel {
    /// The sizes of the timeline fit a machine's counter.
    pub open spec fn countable(self) -> bool {
        &&& self.tracks.len() <= usize::MAX
        &&& forall|t: int|
            0 <= t < self.tracks.len() ==> (#[trigger] self.tracks[t]).clips.len() <= usize::MAX
    }

    /// The reel with the clips at some places changed.
    pub open spec fn revised(self, at: Seq<Place>, f: spec_fn(Clip) -> Clip) -> Reel {
        Reel {
            tracks: Seq::new(
                self.tracks.len(),
                |t: int|
                    Lane {
                        kind: self.tracks[t].kind,
                        clips: Seq::new(
                            self.tracks[t].clips.len(),
                            |i: int|
                                if at.contains(Place { track: t as usize, idx: i as usize }) {
                                    f(self.tracks[t].clips[i])
                                } else {
                                    self.tracks[t].clips[i]
                                },
                        ),
                    },
            ),
            ..self
        }
    }
}

/// A timeline in memory is countable.
pub proof fn lemma_countable(t: &Timeline)
    ensures
        t@.countable(),
{
    assert forall|i: int| 0 <= i < t@.tracks.len() implies (
    #[trigger] t@.tracks[i]).clips.len() <= usize::MAX by {
        assert(t@.tracks[i].clips == t.tracks@[i].clips@);
        assert(t.tracks@[i].clips.len() == t.tracks@[i].clips@.len());
    }
    assert(t.tracks.len() == t@.tracks.len());
}

/// The siblings of a clip are clips of the timeline, each once, the clip itself among
/// them; and where it is linked they are exactly the clips with its link.
pub proof fn lemma_siblings(r: Reel, track: int, idx: int)
    requires
        r.countable(),
        r.has(track, idx),
    ensures
        ({
            let v = r.siblings(track, idx);
            &&& forall|k: int|
                0 <= k < v.len() ==> r.has((#[trigger] v[k]).track as int, v[k].idx as int)
                    && r.clip(v[k].track as int, v[k].idx as int).link == r.clip(track, idx).link
            &&& v.no_duplicates()
            &&& v.contains(Place { track: track as usize, idx: idx as usize })
            &&& r.clip(track, idx).link matches Some(l) ==> forall|t: int, i: int| #[trigger]
                r.has(t, i) && r.clip(t, i).link == Some(l) ==> v.contains(
                    Place { track: t as usize, idx: i as usize },
                )
        }),
{
    let v = r.siblings(track, idx);
    match r.clip(track, idx).link {
        None => {
            assert(v[0] == Place { track: track as usize, idx: idx as usize });
        },
        Some(l) => {
            lemma_linked_in(r.tracks, l, r.tracks.len() as int);
            assert(r.tracks[track].clips[idx].link == Some(l));
            assert forall|t: int, i: int| #[trigger]
                r.has(t, i) && r.clip(t, i).link == Some(l) implies v.contains(
                Place { track: t as usize, idx: i as usize },
            ) by {
                assert(r.tracks[t].clips[i].link == Some(l));
            }
        },
    }
}

/// Changing one more place.
proof fn lemma_revise_step(r: Reel, at: Seq<Place>, k: int, f: spec_fn(Clip) -> Clip)
    requires
        r.countable(),
        0 <= k < at.len(),
        at.no_duplicates(),
        r.has(at[k].track as int, at[k].idx as int),
    ensures
        ({
            let p = at[k];
            let before = r.revised(at.take(k), f);
            &&& before.has(p.track as int, p.idx as int)
            &&& before.clip(p.track as int, p.idx as int) == r.clip(p.track as int, p.idx as int)
            &&& before.with_clip(
                p.track as int,
                p.idx as int,
                f(r.clip(p.track as int, p.idx as int)),
            ) == r.revised(at.take(k + 1), f)
        }),
{
    let p = at[k];
    let (pt, pi) = (p.track as int, p.idx as int);
    let before = r.revised(at.take(k), f);
    assert(!at.take(k).contains(p)) by {
        if at.take(k).contains(p) {
            let m = choose|m: int| 0 <= m < at.take(k).len() && at.take(k)[m] == p;
            assert(at[m] == p);
        }
    }
    assert(p == Place { track: pt as usize, idx: pi as usize });
    let after = r.revised(at.take(k + 1), f);
    let done = at.take(k);
    let next = at.take(k + 1);
    assert forall|q: Place| #[trigger] next.contains(q) == (done.contains(q) || q == p) by {
        if next.contains(q) {
            let m = choose|m: int| 0 <= m < next.len() && next[m] == q;
            if m < k {
                assert(done[m] == q);
            }
        }
        if done.contains(q) {
            let m = choose|m: int| 0 <= m < done.len() && done[m] == q;
            assert(next[m] == q);
        }
        if q == p {
            assert(next[k] == q);
        }
    }
    let with = before.with_clip(pt, pi, f(r.clip(pt, pi)));
    assert forall|t: int| 0 <= t < r.tracks.len() implies with.tracks[t] == after.tracks[t] by {
        assert forall|i: int| 0 <= i < r.tracks[t].clips.len() implies with.tracks[t].clips[i]
            == after.tracks[t].clips[i] by {
            let q = Place { track: t as usize, idx: i as usize };
            assert(next.contains(q) == (done.contains(q) || q == p));
            if q == p {
                assert(t == pt && i == pi);
            }
        }
        assert(with.tracks[t].clips =~= after.tracks[t].clips);
    }
    assert(with.tracks =~= after.tracks);
}

/// What edges latch onto while dragging.
#[derive(Clone, Copy, Debug, PartialEq)]
pub struct Magnet {
    pub enabled: bool,
    /// Points per second at the zoom at hand.
    pub px_per_sec: Double,
    pub playhead: Double,
}

impl Magnet {
    /// Whether the magnet can pull at all.
    pub open spec fn spec_pulls(&self) -> bool {
        self.enabled && self.px_per_sec.is_finite() && !self.px_per_sec.le(double(ZERO))
    }

    /// Whether the magnet can pull at all.
    #[verifier::when_used_as_spec(spec_pulls)]
    pub fn pulls(&self) -> (r: bool)
        ensures
            r == self.spec_pulls(),
    {
        self.enabled && self.px_per_sec.is_finite() && !self.px_per_sec.le(double(ZERO))
    }

    /// How far the magnet pulls, in seconds.
    pub open spec fn reach(self) -> Double {
        single(SNAP_PX).to_double().over(self.px_per_sec)
    }
}

/// The edges of the first `n` clips of a lane, those at some places left out.
pub open spec fn lane_edges(clips: Seq<Clip>, track: int, but: Seq<Place>, n: int) -> Seq<Double>
    decreases n,
{
    if n <= 0 || n > clips.len() {
        Seq::empty()
    } else {
        let before = lane_edges(clips, track, but, n - 1);
        if but.contains(Place { track: track as usize, idx: (n - 1) as usize }) {
            before
        } else {
            before.push(clips[n - 1].timeline_start).push(clips[n - 1].timeline_end())
        }
    }
}

/// What a drag can latch onto: the start, the playhead, and the edges of every clip in
/// the first `n` lanes, those at some places left out.
pub open spec fn targets_in(tracks: Seq<Lane>, but: Seq<Place>, playhead: Double, n: int) -> Seq<
    Double,
>
    decreases n,
{
    if n <= 0 || n > tracks.len() {
        seq![double(ZERO), playhead]
    } else {
        targets_in(tracks, but, playhead, n - 1) + lane_edges(
            tracks[n - 1].clips,
            n - 1,
            but,
            tracks[n - 1].clips.len() as int,
        )
    }
}

impl Reel {
    /// The edges of the clips at some places, moved by `delta`.
    pub open spec fn edges_at(self, at: Seq<Place>, delta: Double) -> Seq<Double>
        decreases at.len(),
    {
        if at.len() == 0 {
            Seq::empty()
        } else {
            let c = self.clip(at.last().track as int, at.last().idx as int);
            self.edges_at(at.drop_last(), delta).push(c.timeline_start.plus(delta)).push(
                c.timeline_end().plus(delta),
            )
        }
    }

    /// A move by `delta` of the clips at some places, latched where the magnet pulls.
    pub open spec fn latched(self, at: Seq<Place>, delta: Double, magnet: Magnet) -> Double {
        if !magnet.pulls() {
            delta
        } else {
            delta.plus(
                match snap_of(
                    self.edges_at(at, delta),
                    targets_in(self.tracks, at, magnet.playhead, self.tracks.len() as int),
                    magnet.reach(),
                ) {
                    Some(adjust) => adjust,
                    None => double(ZERO),
                },
            )
        }
    }

    /// The earliest start of the clips at some places.
    pub open spec fn earliest(self, at: Seq<Place>) -> Double
        decreases at.len(),
    {
        if at.len() == 0 {
            double(INFINITY)
        } else {
            self.earliest(at.drop_last()).min(
                self.clip(at.last().track as int, at.last().idx as int).timeline_start,
            )
        }
    }

    /// How far a clip and its siblings move when a drag asks for `desired`: not before
    /// the start, and latched.
    pub open spec fn move_delta(
        self,
        track: int,
        idx: int,
        desired: Double,
        magnet: Magnet,
    ) -> Double {
        let at = self.siblings(track, idx);
        let floor = self.earliest(at).negate();
        self.latched(at, desired.max(floor), magnet).max(floor)
    }

    /// The reel with a clip and its siblings moved.
    pub open spec fn moved(self, track: int, idx: int, desired: Double, magnet: Magnet) -> Reel {
        let delta = self.move_delta(track, idx, desired, magnet);
        self.revised(self.siblings(track, idx), |c: Clip| c.shifted(delta))
    }

    /// The bounds of a trim at the left: no sibling before its source or the start, none
    /// shorter than a clip may be.
    pub open spec fn left_bounds(self, at: Seq<Place>) -> (Double, Double)
        decreases at.len(),
    {
        if at.len() == 0 {
            (double(NEG_INFINITY), double(INFINITY))
        } else {
            let (lo, hi) = self.left_bounds(at.drop_last());
            let c = self.clip(at.last().track as int, at.last().idx as int);
            (
                lo.max(c.source_in.negate()).max(c.timeline_start.negate()),
                hi.min(c.duration().minus(double(MIN_CLIP_DURATION))),
            )
        }
    }

    /// How far a trim at the left goes when a drag asks for `desired`.
    pub open spec fn left_delta(self, track: int, idx: int, desired: Double) -> Double {
        let (lo, hi) = self.left_bounds(self.siblings(track, idx));
        desired.clamp(lo, hi)
    }

    /// The reel with a clip and its siblings trimmed at the left.
    pub open spec fn trimmed_left(self, track: int, idx: int, desired: Double) -> Reel {
        let delta = self.left_delta(track, idx, desired);
        self.revised(
            self.siblings(track, idx),
            |c: Clip| c.cut_head(delta).with_fades_clamped(),
        )
    }

    /// Whether a trim at the left has bounds, and room for the fades after it.
    pub open spec fn can_trim_left(self, track: int, idx: int, desired: Double) -> bool {
        let at = self.siblings(track, idx);
        let (lo, hi) = self.left_bounds(at);
        let delta = self.left_delta(track, idx, desired);
        &&& lo.le(hi)
        &&& forall|k: int|
            0 <= k < at.len() ==> self.clip(
                (#[trigger] at[k]).track as int,
                at[k].idx as int,
            ).cut_head(delta).clampable()
    }

    /// Where the source of the clip at a place ends, for its kind of lane.
    pub open spec fn source_end(self, pool: Pool, track: int, idx: int) -> Double {
        let c = self.clip(track, idx);
        match self.tracks[track].kind {
            TrackKind::Video => pool.duration(c.source),
            TrackKind::Audio => match pool.audio_duration(c.source) {
                Some(d) => d,
                None => c.source_out,
            },
        }
    }

    /// The bounds of a trim at the right: no sibling shorter than a clip may be, none
    /// past the end of its source.
    pub open spec fn right_bounds(self, pool: Pool, at: Seq<Place>) -> (Double, Double)
        decreases at.len(),
    {
        if at.len() == 0 {
            (double(NEG_INFINITY), double(INFINITY))
        } else {
            let (lo, hi) = self.right_bounds(pool, at.drop_last());
            let (t, i) = (at.last().track as int, at.last().idx as int);
            let c = self.clip(t, i);
            (
                lo.max(double(MIN_CLIP_DURATION).minus(c.duration())),
                hi.min(self.source_end(pool, t, i).minus(c.source_out)),
            )
        }
    }

    /// How far a trim at the right goes when a drag asks for `desired`.
    pub open spec fn right_delta(self, pool: Pool, track: int, idx: int, desired: Double) -> Double {
        let (lo, hi) = self.right_bounds(pool, self.siblings(track, idx));
        desired.clamp(lo, hi)
    }

    /// The reel with a clip and its siblings trimmed at the right.
    pub open spec fn trimmed_right(self, pool: Pool, track: int, idx: int, desired: Double) -> Reel {
        let delta = self.right_delta(pool, track, idx, desired);
        self.revised(
            self.siblings(track, idx),
            |c: Clip| c.cut_tail(delta).with_fades_clamped(),
        )
    }

    /// Whether a trim at the right has bounds, and room for the fades after it.
    pub open spec fn can_trim_right(
        self,
        pool: Pool,
        track: int,
        idx: int,
        desired: Double,
    ) -> bool {
        let at = self.siblings(track, idx);
        let (lo, hi) = self.right_bounds(pool, at);
        let delta = self.right_delta(pool, track, idx, desired);
        &&& lo.le(hi)
        &&& forall|k: int|
            0 <= k < at.len() ==> self.clip(
                (#[trigger] at[k]).track as int,
                at[k].idx as int,
            ).cut_tail(delta).clampable()
    }
}

impl Clip {
    /// The clip moved along the timeline.
    pub open spec fn shifted(self, delta: Double) -> Clip {
        Clip { timeline_start: self.timeline_start.plus(delta), ..self }
    }

    /// The clip begun later by `delta`, its end left where it is.
    pub open spec fn cut_head(self, delta: Double) -> Clip {
        Clip {
            source_in: self.source_in.plus(delta),
            timeline_start: self.timeline_start.plus(delta),
            ..self
        }
    }

    /// The clip ended later by `delta`.
    pub open spec fn cut_tail(self, delta: Double) -> Clip {
        Clip { source_out: self.source_out.plus(delta), ..self }
    }
}

/// Whether a place is among some.
fn among(at: &Vec<Place>, p: Place) -> (r: bool)
    ensures
        r == at@.contains(p),
{
    let mut i: usize = 0;
    while i < at.len()
        invariant
            i <= at.len(),
            forall|j: int| 0 <= j < i ==> at@[j] != p,
        decreases at.len() - i,
    {
        if at[i] == p {
            proof {
                assert(at@[i as int] == p);
            }
            return true;
        }
        i += 1;
    }
    false
}

impl Timeline {
    /// What a drag can latch onto.
    pub fn snap_targets(&self, but: &Vec<Place>, playhead: Double) -> (r: Vec<Double>)
        ensures
            r@ == targets_in(self@.tracks, but@, playhead, self@.tracks.len() as int),
    {
        let mut pts: Vec<Double> = Vec::new();
        pts.push(double(ZERO));
        pts.push(playhead);
        let ghost ls = self@.tracks;
        let mut t: usize = 0;
        proof {
            assert(pts@ =~= seq![double(ZERO), playhead]);
        }
        while t < self.tracks.len()
            invariant
                t <= self.tracks.len(),
                ls == self@.tracks,
                pts@ == targets_in(ls, but@, playhead, t as int),
            decreases self.tracks.len() - t,
        {
            let ghost before = pts@;
            let mut i: usize = 0;
            proof {
                assert(before + lane_edges(ls[t as int].clips, t as int, but@, 0) =~= before);
            }
            while i < self.tracks[t].clips.len()
                invariant
                    t < self.tracks.len(),
                    ls == self@.tracks,
                    i <= self.tracks@[t as int].clips.len(),
                    pts@ == before + lane_edges(ls[t as int].clips, t as int, but@, i as int),
                decreases self.tracks@[t as int].clips.len() - i,
            {
                if !among(but, Place { track: t, idx: i }) {
                    pts.push(self.tracks[t].clips[i].timeline_start);
                    pts.push(self.tracks[t].clips[i].timeline_end());
                    proof {
                        assert(pts@ =~= before + lane_edges(
                            ls[t as int].clips,
                            t as int,
                            but@,
                            i + 1,
                        ));
                    }
                }
                i += 1;
            }
            t += 1;
        }
        pts
    }

    /// A move by `delta` of the clips at some places, latched where the magnet pulls.
    fn snap_move_delta(&self, at: &Vec<Place>, delta: Double, magnet: Magnet) -> (r: Double)
        requires
            forall|k: int|
                0 <= k < at.len() ==> self@.has((#[trigger] at@[k]).track as int, at@[k].idx as int),
        ensures
            r == self@.latched(at@, delta, magnet),
    {
        if !magnet.pulls() {
            return delta;
        }
        let mut edges: Vec<Double> = Vec::new();
        let mut k: usize = 0;
        proof {
            assert(at@.take(0) =~= Seq::empty());
        }
        while k < at.len()
            invariant
                k <= at.len(),
                forall|k: int|
                    0 <= k < at.len() ==> self@.has(
                        (#[trigger] at@[k]).track as int,
                        at@[k].idx as int,
                    ),
                edges@ == self@.edges_at(at@.take(k as int), delta),
            decreases at.len() - k,
        {
            let p: Place = at[k];
            proof {
                assert(self@.has(at@[k as int].track as int, at@[k as int].idx as int));
                assert(at@.take(k + 1).drop_last() =~= at@.take(k as int));
            }
            let c: Clip = self.tracks[p.track].clips[p.idx];
            edges.push(c.timeline_start.plus(delta));
            edges.push(c.timeline_end().plus(delta));
            k += 1;
        }
        proof {
            assert(at@.take(at.len() as int) =~= at@);
        }
        let targets: Vec<Double> = self.snap_targets(at, magnet.playhead);
        let reach: Double = single(SNAP_PX).to_double().over(magnet.px_per_sec);
        delta.plus(
            match nearest_snap(&edges, &targets, reach) {
                Some(adjust) => adjust,
                None => double(ZERO),
            },
        )
    }

    /// The earliest start of the clips at some places.
    fn earliest_of(&self, at: &Vec<Place>) -> (r: Double)
        requires
            forall|k: int|
                0 <= k < at.len() ==> self@.has((#[trigger] at@[k]).track as int, at@[k].idx as int),
        ensures
            r == self@.earliest(at@),
    {
        let mut m: Double = double(INFINITY);
        let mut k: usize = 0;
        proof {
            assert(at@.take(0) =~= Seq::empty());
        }
        while k < at.len()
            invariant
                k <= at.len(),
                forall|k: int|
                    0 <= k < at.len() ==> self@.has(
                        (#[trigger] at@[k]).track as int,
                        at@[k].idx as int,
                    ),
                m == self@.earliest(at@.take(k as int)),
            decreases at.len() - k,
        {
            let p: Place = at[k];
            proof {
                assert(self@.has(at@[k as int].track as int, at@[k as int].idx as int));
                assert(at@.take(k + 1).drop_last() =~= at@.take(k as int));
            }
            m = m.min(self.tracks[p.track].clips[p.idx].timeline_start);
            k += 1;
        }
        proof {
            assert(at@.take(at.len() as int) =~= at@);
        }
        m
    }

    /// Moves a clip and its siblings by as much of `desired_delta` as keeps them all
    /// after the start, latched where the magnet pulls.
    pub fn apply_move_delta(&mut self, track: usize, idx: usize, desired_delta: Double, magnet: Magnet)
        requires
            old(self)@.has(track as int, idx as int),
        ensures
            final(self)@ == old(self)@.moved(track as int, idx as int, desired_delta, magnet),
    {
        let at: Vec<Place> = self.linked_siblings(track, idx);
        let ghost r = self@;
        proof {
            lemma_countable(&*self);
            lemma_siblings(r, track as int, idx as int);
        }
        let floor: Double = self.earliest_of(&at).negate();
        let delta: Double = self.snap_move_delta(&at, desired_delta.max(floor), magnet).max(floor);
        let ghost f = |c: Clip| c.shifted(delta);
        let mut k: usize = 0;
        proof {
            lemma_revise_none(r, f);
            assert(at@.take(0) =~= Seq::empty());
        }
        while k < at.len()
            invariant
                k <= at.len(),
                r.countable(),
                at@.no_duplicates(),
                forall|k: int|
                    0 <= k < at.len() ==> r.has((#[trigger] at@[k]).track as int, at@[k].idx as int),
                f == (|c: Clip| c.shifted(delta)),
                self@ == r.revised(at@.take(k as int), f),
            decreases at.len() - k,
        {
            let p: Place = at[k];
            proof {
                assert(r.has(at@[k as int].track as int, at@[k as int].idx as int));
                lemma_revise_step(r, at@, k as int, f);
            }
            let mut c: Clip = self.tracks[p.track].clips[p.idx];
            c.timeline_start = c.timeline_start.plus(delta);
            self.put(p.track, p.idx, c);
            k += 1;
        }
        proof {
            assert(at@.take(at.len() as int) =~= at@);
        }
    }

    /// The bounds of a trim at the left.
    pub fn trim_left_bounds(&self, at: &Vec<Place>) -> (r: (Double, Double))
        requires
            forall|k: int|
                0 <= k < at.len() ==> self@.has((#[trigger] at@[k]).track as int, at@[k].idx as int),
        ensures
            r == self@.left_bounds(at@),
    {
        let mut lo: Double = double(NEG_INFINITY);
        let mut hi: Double = double(INFINITY);
        let mut k: usize = 0;
        proof {
            assert(at@.take(0) =~= Seq::empty());
        }
        while k < at.len()
            invariant
                k <= at.len(),
                forall|k: int|
                    0 <= k < at.len() ==> self@.has(
                        (#[trigger] at@[k]).track as int,
                        at@[k].idx as int,
                    ),
                (lo, hi) == self@.left_bounds(at@.take(k as int)),
            decreases at.len() - k,
        {
            let p: Place = at[k];
            proof {
                assert(self@.has(at@[k as int].track as int, at@[k as int].idx as int));
                assert(at@.take(k + 1).drop_last() =~= at@.take(k as int));
            }
            let c: Clip = self.tracks[p.track].clips[p.idx];
            lo = lo.max(c.source_in.negate()).max(c.timeline_start.negate());
            hi = hi.min(c.duration().minus(double(MIN_CLIP_DURATION)));
            k += 1;
        }
        proof {
            assert(at@.take(at.len() as int) =~= at@);
        }
        (lo, hi)
    }

    /// Trims a clip and its siblings at the left by as much of `desired_delta` as they
    /// all allow.
    pub fn apply_trim_left_delta(&mut self, track: usize, idx: usize, desired_delta: Double)
        requires
            old(self)@.has(track as int, idx as int),
            old(self)@.can_trim_left(track as int, idx as int, desired_delta),
        ensures
            final(self)@ == old(self)@.trimmed_left(track as int, idx as int, desired_delta),
    {
        let at: Vec<Place> = self.linked_siblings(track, idx);
        let ghost r = self@;
        proof {
            lemma_countable(&*self);
            lemma_siblings(r, track as int, idx as int);
        }
        let (lo, hi): (Double, Double) = self.trim_left_bounds(&at);
        let delta: Double = desired_delta.clamp(lo, hi);
        let ghost f = |c: Clip| c.cut_head(delta).with_fades_clamped();
        let mut k: usize = 0;
        proof {
            lemma_revise_none(r, f);
            assert(at@.take(0) =~= Seq::empty());
        }
        while k < at.len()
            invariant
                k <= at.len(),
                r.countable(),
                at@.no_duplicates(),
                forall|k: int|
                    0 <= k < at.len() ==> r.has((#[trigger] at@[k]).track as int, at@[k].idx as int),
                forall|k: int|
                    0 <= k < at.len() ==> r.clip(
                        (#[trigger] at@[k]).track as int,
                        at@[k].idx as int,
                    ).cut_head(delta).clampable(),
                f == (|c: Clip| c.cut_head(delta).with_fades_clamped()),
                self@ == r.revised(at@.take(k as int), f),
            decreases at.len() - k,
        {
            let p: Place = at[k];
            proof {
                assert(r.has(at@[k as int].track as int, at@[k as int].idx as int));
                lemma_revise_step(r, at@, k as int, f);
            }
            let mut c: Clip = self.tracks[p.track].clips[p.idx];
            c.source_in = c.source_in.plus(delta);
            c.timeline_start = c.timeline_start.plus(delta);
            c.clamp_fades();
            self.put(p.track, p.idx, c);
            k += 1;
        }
        proof {
            assert(at@.take(at.len() as int) =~= at@);
        }
    }

    /// Whether a trim at the left can be made.
    pub fn trims_left(&self, track: usize, idx: usize, desired_delta: Double) -> (r: bool)
        requires
            self@.has(track as int, idx as int),
        ensures
            r == self@.can_trim_left(track as int, idx as int, desired_delta),
    {
        let at: Vec<Place> = self.linked_siblings(track, idx);
        proof {
            lemma_countable(self);
            lemma_siblings(self@, track as int, idx as int);
        }
        let (lo, hi): (Double, Double) = self.trim_left_bounds(&at);
        if !lo.le(hi) {
            return false;
        }
        let delta: Double = desired_delta.clamp(lo, hi);
        let mut k: usize = 0;
        while k < at.len()
            invariant
                k <= at.len(),
                at@ == self@.siblings(track as int, idx as int),
                delta == self@.left_delta(track as int, idx as int, desired_delta),
                forall|j: int|
                    0 <= j < at.len() ==> self@.has((#[trigger] at@[j]).track as int, at@[j].idx as int),
                forall|j: int|
                    0 <= j < k ==> self@.clip(
                        (#[trigger] at@[j]).track as int,
                        at@[j].idx as int,
                    ).cut_head(delta).clampable(),
            decreases at.len() - k,
        {
            let p: Place = at[k];
            proof {
                assert(self@.has(at@[k as int].track as int, at@[k as int].idx as int));
            }
            let mut c: Clip = self.tracks[p.track].clips[p.idx];
            c.source_in = c.source_in.plus(delta);
            c.timeline_start = c.timeline_start.plus(delta);
            if !c.is_clampable() {
                proof {
                    assert(c == self@.clip(p.track as int, p.idx as int).cut_head(delta));
                }
                return false;
            }
            k += 1;
        }
        true
    }

    /// Whether a trim at the right can be made.
    pub fn trims_right(
        &self,
        media: &MediaPool,
        track: usize,
        idx: usize,
        desired_delta: Double,
    ) -> (r: bool)
        requires
            self@.has(track as int, idx as int),
        ensures
            r == self@.can_trim_right(media@, track as int, idx as int, desired_delta),
    {
        let at: Vec<Place> = self.linked_siblings(track, idx);
        proof {
            lemma_countable(self);
            lemma_siblings(self@, track as int, idx as int);
        }
        let (lo, hi): (Double, Double) = self.trim_right_bounds(media, &at);
        if !lo.le(hi) {
            return false;
        }
        let delta: Double = desired_delta.clamp(lo, hi);
        let mut k: usize = 0;
        while k < at.len()
            invariant
                k <= at.len(),
                at@ == self@.siblings(track as int, idx as int),
                delta == self@.right_delta(media@, track as int, idx as int, desired_delta),
                forall|j: int|
                    0 <= j < at.len() ==> self@.has((#[trigger] at@[j]).track as int, at@[j].idx as int),
                forall|j: int|
                    0 <= j < k ==> self@.clip(
                        (#[trigger] at@[j]).track as int,
                        at@[j].idx as int,
                    ).cut_tail(delta).clampable(),
            decreases at.len() - k,
        {
            let p: Place = at[k];
            proof {
                assert(self@.has(at@[k as int].track as int, at@[k as int].idx as int));
            }
            let mut c: Clip = self.tracks[p.track].clips[p.idx];
            c.source_out = c.source_out.plus(delta);
            if !c.is_clampable() {
                proof {
                    assert(c == self@.clip(p.track as int, p.idx as int).cut_tail(delta));
                }
                return false;
            }
            k += 1;
        }
        true
    }

    /// The bounds of a trim at the right.
    pub fn trim_right_bounds(&self, media: &MediaPool, at: &Vec<Place>) -> (r: (Double, Double))
        requires
            forall|k: int|
                0 <= k < at.len() ==> self@.has((#[trigger] at@[k]).track as int, at@[k].idx as int),
        ensures
            r == self@.right_bounds(media@, at@),
    {
        let mut lo: Double = double(NEG_INFINITY);
        let mut hi: Double = double(INFINITY);
        let mut k: usize = 0;
        proof {
            assert(at@.take(0) =~= Seq::empty());
        }
        while k < at.len()
            invariant
                k <= at.len(),
                forall|k: int|
                    0 <= k < at.len() ==> self@.has(
                        (#[trigger] at@[k]).track as int,
                        at@[k].idx as int,
                    ),
                (lo, hi) == self@.right_bounds(media@, at@.take(k as int)),
            decreases at.len() - k,
        {
            let p: Place = at[k];
            proof {
                assert(self@.has(at@[k as int].track as int, at@[k as int].idx as int));
                assert(at@.take(k + 1).drop_last() =~= at@.take(k as int));
            }
            let c: Clip = self.tracks[p.track].clips[p.idx];
            lo = lo.max(double(MIN_CLIP_DURATION).minus(c.duration()));
            let end: Double = match self.tracks[p.track].kind {
                TrackKind::Video => media.duration(c.source),
                TrackKind::Audio => match media.audio_duration(c.source) {
                    Some(d) => d,
                    None => c.source_out,
                },
            };
            hi = hi.min(end.minus(c.source_out));
            k += 1;
        }
        proof {
            assert(at@.take(at.len() as int) =~= at@);
        }
        (lo, hi)
    }

    /// Trims a clip and its siblings at the right by as much of `desired_delta` as they
    /// all allow.
    pub fn apply_trim_right_delta(
        &mut self,
        media: &MediaPool,
        track: usize,
        idx: usize,
        desired_delta: Double,
    )
        requires
            old(self)@.has(track as int, idx as int),
            old(self)@.can_trim_right(media@, track as int, idx as int, desired_delta),
        ensures
            final(self)@ == old(self)@.trimmed_right(
                media@,
                track as int,
                idx as int,
                desired_delta,
            ),
    {
        let at: Vec<Place> = self.linked_siblings(track, idx);
        let ghost r = self@;
        proof {
            lemma_countable(&*self);
            lemma_siblings(r, track as int, idx as int);
        }
        let (lo, hi): (Double, Double) = self.trim_right_bounds(media, &at);
        let delta: Double = desired_delta.clamp(lo, hi);
        let ghost f = |c: Clip| c.cut_tail(delta).with_fades_clamped();
        let mut k: usize = 0;
        proof {
            lemma_revise_none(r, f);
            assert(at@.take(0) =~= Seq::empty());
        }
        while k < at.len()
            invariant
                k <= at.len(),
                r.countable(),
                at@.no_duplicates(),
                forall|k: int|
                    0 <= k < at.len() ==> r.has((#[trigger] at@[k]).track as int, at@[k].idx as int),
                forall|k: int|
                    0 <= k < at.len() ==> r.clip(
                        (#[trigger] at@[k]).track as int,
                        at@[k].idx as int,
                    ).cut_tail(delta).clampable(),
                f == (|c: Clip| c.cut_tail(delta).with_fades_clamped()),
                self@ == r.revised(at@.take(k as int), f),
            decreases at.len() - k,
        {
            let p: Place = at[k];
            proof {
                assert(r.has(at@[k as int].track as int, at@[k as int].idx as int));
                lemma_revise_step(r, at@, k as int, f);
            }
            let mut c: Clip = self.tracks[p.track].clips[p.idx];
            c.source_out = c.source_out.plus(delta);
            c.clamp_fades();
            self.put(p.track, p.idx, c);
            k += 1;
        }
        proof {
            assert(at@.take(at.len() as int) =~= at@);
        }
    }
}

/// Changing no place changes nothing.
proof fn lemma_revise_none(r: Reel, f: spec_fn(Clip) -> Clip)
    ensures
        r.revised(Seq::empty(), f) == r,
{
    let e = r.revised(Seq::empty(), f);
    assert forall|t: int| 0 <= t < r.tracks.len() implies e.tracks[t] == r.tracks[t] by {
        assert(e.tracks[t].clips =~= r.tracks[t].clips);
    }
    assert(e.tracks =~= r.tracks);
}

/// The range a value is kept in.
#[derive(Clone, Copy, Debug, PartialEq)]
pub struct Range {
    pub lo: Single,
    pub hi: Single,
}

impl Range {
    /// There is something in the range.
    pub open spec fn sound(self) -> bool {
        self.lo.le(self.hi)
    }

    /// A value brought into the range.
    pub open spec fn kept(self, v: Single) -> Single {
        v.clamp(self.lo, self.hi)
    }
}

impl Clip {
    /// The clip with one of its fades set to `len` seconds, inside the clip and off the
    /// other fade; the fades not yet pulled in.
    pub open spec fn with_fade(self, side: FadeSide, len: Double) -> Clip {
        let l = len.max(double(ZERO));
        match side {
            FadeSide::In => Clip {
                fade_in: l.min(self.duration().minus(self.fade_out)),
                ..self
            },
            FadeSide::Out => Clip {
                fade_out: l.min(self.duration().minus(self.fade_in)),
                ..self
            },
        }
    }

    /// The clip with a transform whose scale is in the range.
    pub open spec fn placed(self, transform: Transform) -> Clip {
        Clip {
            transform: Transform { scale: scales().kept(transform.scale), ..transform },
            ..self
        }
    }
}

/// The opacities a clip can have.
pub open spec fn opacities() -> Range {
    Range { lo: single(MIN_OPACITY), hi: single(MAX_OPACITY) }
}

/// The scales a picture can have.
pub open spec fn scales() -> Range {
    Range { lo: single(MIN_SCALE), hi: single(MAX_SCALE) }
}

/// There are scales to have.
proof fn lemma_scales()
    ensures
        scales().sound(),
{
    lemma_single_order(single(MIN_SCALE), single(MAX_SCALE));
}

impl Timeline {
    /// Sets a clip's level, inside the range of the level line.
    pub fn set_clip_gain(&mut self, track: usize, idx: usize, gain: Single, gains: Range)
        requires
            old(self)@.has(track as int, idx as int),
            gains.sound(),
        ensures
            final(self)@ == old(self)@.with_clip(
                track as int,
                idx as int,
                Clip {
                    gain: gains.kept(gain),
                    ..old(self)@.clip(track as int, idx as int)
                },
            ),
    {
        let mut c: Clip = self.tracks[track].clips[idx];
        c.gain = gain.clamp(gains.lo, gains.hi);
        self.put(track, idx, c);
    }

    /// Sets a video clip's opacity, from nothing to all.
    pub fn set_clip_opacity(&mut self, track: usize, idx: usize, opacity: Single)
        requires
            old(self)@.has(track as int, idx as int),
        ensures
            final(self)@ == old(self)@.with_clip(
                track as int,
                idx as int,
                Clip {
                    opacity: opacities().kept(opacity),
                    ..old(self)@.clip(track as int, idx as int)
                },
            ),
    {
        proof {
            crate::ieee::facts::lemma_single_positive(single(MAX_OPACITY));
        }
        let mut c: Clip = self.tracks[track].clips[idx];
        c.opacity = opacity.clamp(single(MIN_OPACITY), single(MAX_OPACITY));
        self.put(track, idx, c);
    }

    /// Replaces a clip's transform, its scale inside the range that can be rendered.
    pub fn set_clip_transform(&mut self, track: usize, idx: usize, transform: Transform)
        requires
            old(self)@.has(track as int, idx as int),
        ensures
            final(self)@ == old(self)@.with_clip(
                track as int,
                idx as int,
                old(self)@.clip(track as int, idx as int).placed(transform),
            ),
    {
        proof {
            lemma_scales();
        }
        let mut c: Clip = self.tracks[track].clips[idx];
        c.transform = Transform {
            x: transform.x,
            y: transform.y,
            scale: transform.scale.clamp(single(MIN_SCALE), single(MAX_SCALE)),
        };
        self.put(track, idx, c);
    }

    /// Sets one of a clip's fades, in seconds, inside the clip and off the other fade.
    pub fn set_clip_fade(&mut self, track: usize, idx: usize, side: FadeSide, len: Double)
        requires
            old(self)@.has(track as int, idx as int),
            old(self)@.clip(track as int, idx as int).with_fade(side, len).clampable(),
        ensures
            final(self)@ == old(self)@.with_clip(
                track as int,
                idx as int,
                old(self)@.clip(track as int, idx as int).with_fade(side, len).with_fades_clamped(),
            ),
    {
        let mut c: Clip = self.tracks[track].clips[idx];
        let l: Double = len.max(double(ZERO));
        match side {
            FadeSide::In => {
                c.fade_in = l.min(c.duration().minus(c.fade_out));
            },
            FadeSide::Out => {
                c.fade_out = l.min(c.duration().minus(c.fade_in));
            },
        }
        c.clamp_fades();
        self.put(track, idx, c);
    }
}

/// A point on the canvas.
#[derive(Clone, Copy, Debug, PartialEq)]
pub struct Point {
    pub x: Single,
    pub y: Single,
}

/// How wide the canvas magnet pulls, in canvas pixels: none where it is off or the
/// preview has no size.
pub open spec fn canvas_reach(enabled: bool, scale: Single) -> Option<Single> {
    if !enabled || !scale.is_finite() || scale.le(single(0)) {
        None
    } else {
        Some(single(SNAP_PX).over(scale))
    }
}

/// How wide the canvas magnet pulls, in canvas pixels.
pub fn canvas_snap_threshold(enabled: bool, scale: Single) -> (r: Option<Single>)
    ensures
        r == canvas_reach(enabled, scale),
{
    if !enabled || !scale.is_finite() || scale.le(single(0)) {
        return None;
    }
    Some(single(SNAP_PX).over(scale))
}

/// The edges and the centre line of a stretch.
pub open spec fn three(from: Single, extent: Single) -> Seq<Double> {
    seq![
        from.to_double(),
        from.plus(extent.times(single(HALF))).to_double(),
        from.plus(extent).to_double(),
    ]
}

/// `0.5`, as a double.
pub const HALF_DOUBLE: u64 = 0x3fe0_0000_0000_0000;

/// The edges and the centre line of the canvas along one side.
pub open spec fn frame_lines(side: Single) -> Seq<Double> {
    seq![double(ZERO), side.to_double().times(double(HALF_DOUBLE)), side.to_double()]
}

/// How far a stretch latches onto the frame along one side.
pub open spec fn frame_pull(from: Single, extent: Single, side: Single, reach: Single) -> Single {
    (match snap_of(three(from, extent), frame_lines(side), reach.to_double()) {
        Some(a) => a,
        None => double(ZERO),
    }).to_single()
}

/// How far a stretch latches onto the frame along one side.
fn pull_to_frame(from: Single, extent: Single, side: Single, reach: Single) -> (r: Single)
    ensures
        r == frame_pull(from, extent, side, reach),
{
    let mut edges: Vec<Double> = Vec::new();
    edges.push(from.to_double());
    edges.push(from.plus(extent.times(single(HALF))).to_double());
    edges.push(from.plus(extent).to_double());
    let mut lines: Vec<Double> = Vec::new();
    lines.push(double(ZERO));
    lines.push(side.to_double().times(double(HALF_DOUBLE)));
    lines.push(side.to_double());
    proof {
        assert(edges@ =~= three(from, extent));
        assert(lines@ =~= frame_lines(side));
    }
    (match nearest_snap(&edges, &lines, reach.to_double()) {
        Some(a) => a,
        None => double(ZERO),
    }).to_single()
}

/// A dragged placement latched onto the frame, each axis by itself.
pub open spec fn offset_latched(
    canvas: Canvas,
    size: (u32, u32),
    transform: Transform,
    reach: Option<Single>,
) -> Transform {
    match reach {
        None => transform,
        Some(reach) => {
            let p = canvas.place(
                Single::from_u64(size.0 as u64),
                Single::from_u64(size.1 as u64),
                transform,
            );
            Transform {
                x: transform.x.plus(frame_pull(p.x, p.w, canvas.w(), reach).over(canvas.w())),
                y: transform.y.plus(frame_pull(p.y, p.h, canvas.h(), reach).over(canvas.h())),
                ..transform
            }
        },
    }
}

/// Latches a dragged placement onto the frame: each edge and each centre line onto the
/// canvas's, each axis by itself.
pub fn snap_transform_offset(
    canvas: Canvas,
    size: (u32, u32),
    transform: Transform,
    reach: Option<Single>,
) -> (r: Transform)
    ensures
        r == offset_latched(canvas, size, transform, reach),
{
    match reach {
        None => transform,
        Some(reach) => {
            let p: Rect = canvas.place(
                Single::from_u64(size.0 as u64),
                Single::from_u64(size.1 as u64),
                transform,
            );
            let dx: Single = pull_to_frame(p.x, p.w, canvas.w(), reach);
            let dy: Single = pull_to_frame(p.y, p.h, canvas.h(), reach);
            Transform {
                x: transform.x.plus(dx.over(canvas.w())),
                y: transform.y.plus(dy.over(canvas.h())),
                scale: transform.scale,
            }
        },
    }
}

/// The transform that shows a picture at `scale` with the corner opposite `corner` at
/// `anchor`.
pub open spec fn scaled_about(
    canvas: Canvas,
    size: (u32, u32),
    anchor: Point,
    corner: Point,
    scale: Single,
) -> Transform {
    let f = canvas.fit(Single::from_u64(size.0 as u64), Single::from_u64(size.1 as u64));
    let s = scales().kept(scale);
    let w = f.w.times(s);
    let h = f.h.times(s);
    let x = anchor.x.minus(single(UNITY).minus(corner.x).times(w));
    let y = anchor.y.minus(single(UNITY).minus(corner.y).times(h));
    Transform {
        x: x.minus(f.x).minus(f.w.minus(w).times(single(HALF))).over(canvas.w()),
        y: y.minus(f.y).minus(f.h.minus(h).times(single(HALF))).over(canvas.h()),
        scale: s,
    }
}

/// The transform that scales a picture while the corner opposite `corner` stays at
/// `anchor`.
pub fn transform_scaled_about(
    canvas: Canvas,
    size: (u32, u32),
    anchor: Point,
    corner: Point,
    scale: Single,
) -> (r: Transform)
    ensures
        r == scaled_about(canvas, size, anchor, corner, scale),
{
    let f: Rect = canvas.fit(Single::from_u64(size.0 as u64), Single::from_u64(size.1 as u64));
    proof {
        lemma_scales();
    }
    let s: Single = scale.clamp(single(MIN_SCALE), single(MAX_SCALE));
    let w: Single = f.w.times(s);
    let h: Single = f.h.times(s);
    let x: Single = anchor.x.minus(single(UNITY).minus(corner.x).times(w));
    let y: Single = anchor.y.minus(single(UNITY).minus(corner.y).times(h));
    Transform {
        x: x.minus(f.x).minus(f.w.minus(w).times(single(HALF))).over(canvas.w()),
        y: y.minus(f.y).minus(f.h.minus(h).times(single(HALF))).over(canvas.h()),
        scale: s,
    }
}

/// `2`, as a single.
pub const TWO: u32 = 0x4000_0000;

/// The sizes worth landing on while a corner is dragged: the plain fit, and either
/// moving edge flush with an edge of the canvas.
pub open spec fn scale_marks(canvas: Canvas, f: Rect, anchor: Point, corner: Point) -> Seq<
    Landmark,
> {
    let along_x = single(TWO).times(corner.x).minus(single(UNITY)).times(f.w);
    let along_y = single(TWO).times(corner.y).minus(single(UNITY)).times(f.h);
    seq![
        Landmark { scale: single(UNITY), extent: f.w },
        Landmark { scale: anchor.x.negate().over(along_x), extent: f.w },
        Landmark { scale: canvas.w().minus(anchor.x).over(along_x), extent: f.w },
        Landmark { scale: anchor.y.negate().over(along_y), extent: f.h },
        Landmark { scale: canvas.h().minus(anchor.y).over(along_y), extent: f.h },
    ]
}

/// The scale that a corner drag to `scale` lands on.
pub open spec fn scale_latched(
    canvas: Canvas,
    size: (u32, u32),
    anchor: Point,
    corner: Point,
    scale: Single,
    reach: Option<Single>,
) -> Single {
    let f = canvas.fit(Single::from_u64(size.0 as u64), Single::from_u64(size.1 as u64));
    match reach {
        None => scale,
        Some(reach) => if f.w.le(single(0)) || f.h.le(single(0)) {
            scale
        } else {
            latched_scale(scale_marks(canvas, f, anchor, corner), scale, reach)
        },
    }
}

/// Latches a corner drag onto the sizes worth landing on.
pub fn snap_scale_about(
    canvas: Canvas,
    size: (u32, u32),
    anchor: Point,
    corner: Point,
    scale: Single,
    reach: Option<Single>,
) -> (r: Single)
    ensures
        r == scale_latched(canvas, size, anchor, corner, scale, reach),
{
    match reach {
        None => scale,
        Some(reach) => {
            let f: Rect = canvas.fit(
                Single::from_u64(size.0 as u64),
                Single::from_u64(size.1 as u64),
            );
            if f.w.le(single(0)) || f.h.le(single(0)) {
                return scale;
            }
            let along_x: Single = single(TWO).times(corner.x).minus(single(UNITY)).times(f.w);
            let along_y: Single = single(TWO).times(corner.y).minus(single(UNITY)).times(f.h);
            let mut marks: Vec<Landmark> = Vec::new();
            marks.push(Landmark { scale: single(UNITY), extent: f.w });
            marks.push(Landmark { scale: anchor.x.negate().over(along_x), extent: f.w });
            marks.push(
                Landmark { scale: canvas.w().minus(anchor.x).over(along_x), extent: f.w },
            );
            marks.push(Landmark { scale: anchor.y.negate().over(along_y), extent: f.h });
            marks.push(
                Landmark { scale: canvas.h().minus(anchor.y).over(along_y), extent: f.h },
            );
            proof {
                assert(marks@ =~= scale_marks(canvas, f, anchor, corner));
            }
            let r: Single = nearest_scale(scale, &marks, reach);
            proof {
                lemma_latched_scale_is_unique(marks@, scale, reach, r);
            }
            r
        },
    }
}

/// The earliest start is not above the start of any clip at those places, where the
/// starts are numbers.
proof fn lemma_earliest(r: Reel, at: Seq<Place>, k: int)
    requires
        0 <= k < at.len(),
        forall|j: int|
            0 <= j < at.len() ==> r.clip(
                (#[trigger] at[j]).track as int,
                at[j].idx as int,
            ).timeline_start.is_finite(),
    ensures
        r.earliest(at).is_finite(),
        r.earliest(at).le(r.clip(at[k].track as int, at[k].idx as int).timeline_start),
    decreases at.len(),
{
    let front = at.drop_last();
    let last = r.clip(at.last().track as int, at.last().idx as int).timeline_start;
    assert(at.last() == at[at.len() - 1]);
    assert forall|j: int| 0 <= j < front.len() implies r.clip(
        (#[trigger] front[j]).track as int,
        front[j].idx as int,
    ).timeline_start.is_finite() by {
        assert(front[j] == at[j]);
    }
    lemma_infinity();
    if front.len() > 0 {
        lemma_earliest(r, front, 0);
        if k < front.len() {
            lemma_earliest(r, front, k);
            assert(front[k] == at[k]);
        }
    } else {
        assert(r.earliest(front) == double(INFINITY));
    }
    assert(r.clip(
        at[at.len() - 1].track as int,
        at[at.len() - 1].idx as int,
    ).timeline_start.is_finite());
}

/// The pattern of infinity is infinite.
pub proof fn lemma_infinity()
    ensures
        double(INFINITY)@ == (Num::Inf { neg: false }),
{
    reveal(Double::num);
    lemma_double_weights();
}

/// A move never takes a clip, or any clip linked to it, before the start.
pub proof fn lemma_moves_stay_after_the_start(
    r: Reel,
    track: int,
    idx: int,
    desired: Double,
    magnet: Magnet,
    k: int,
)
    requires
        r.countable(),
        r.has(track, idx),
        forall|j: int|
            0 <= j < r.siblings(track, idx).len() ==> r.clip(
                (#[trigger] r.siblings(track, idx)[j]).track as int,
                r.siblings(track, idx)[j].idx as int,
            ).timeline_start.is_finite(),
        0 <= k < r.siblings(track, idx).len(),
    ensures
        ({
            let p = r.siblings(track, idx)[k];
            double(ZERO).le(
                r.moved(track, idx, desired, magnet).clip(
                    p.track as int,
                    p.idx as int,
                ).timeline_start,
            )
        }),
{
    let at = r.siblings(track, idx);
    lemma_siblings(r, track, idx);
    let p = at[k];
    let c = r.clip(p.track as int, p.idx as int);
    let delta = r.move_delta(track, idx, desired, magnet);
    assert(r.has(p.track as int, p.idx as int));
    assert(p == Place { track: p.track as int as usize, idx: p.idx as int as usize });
    assert(at.contains(p));
    assert(r.moved(track, idx, desired, magnet).clip(p.track as int, p.idx as int) == c.shifted(
        delta,
    ));
    lemma_earliest(r, at, k);
    let m = r.earliest(at);
    lemma_double_opposite(m);
    lemma_double_plus(c.timeline_start, delta);
    lemma_double_zero();
}

/// A move shifts a clip and every clip linked to it by the same amount, and touches no
/// other clip.
pub proof fn lemma_moves_keep_links_in_step(
    r: Reel,
    track: int,
    idx: int,
    desired: Double,
    magnet: Magnet,
    t: int,
    i: int,
)
    requires
        r.countable(),
        r.has(track, idx),
        r.has(t, i),
    ensures
        ({
            let c = r.clip(t, i);
            let n = r.moved(track, idx, desired, magnet).clip(t, i);
            let delta = r.move_delta(track, idx, desired, magnet);
            if (t == track && i == idx) || (c.link is Some && c.link == r.clip(track, idx).link) {
                n == c.shifted(delta)
            } else {
                n == c
            }
        }),
{
    lemma_siblings(r, track, idx);
    let v = r.siblings(track, idx);
    let p = Place { track: t as usize, idx: i as usize };
    if v.contains(p) {
        let k = choose|k: int| 0 <= k < v.len() && v[k] == p;
        assert(r.has(v[k].track as int, v[k].idx as int));
        if r.clip(track, idx).link is None {
            assert(v[0] == p);
        }
    }
}

/// A trim at the left never takes a clip, or any clip linked to it, before the start of its
/// source or of the timeline.
pub proof fn lemma_trims_stay_inside_the_source(
    r: Reel,
    track: int,
    idx: int,
    desired: Double,
    k: int,
)
    requires
        r.countable(),
        r.has(track, idx),
        r.can_trim_left(track, idx, desired),
        !desired.is_nan(),
        0 <= k < r.siblings(track, idx).len(),
        ({
            let p = r.siblings(track, idx)[k];
            let c = r.clip(p.track as int, p.idx as int);
            c.timeline_start.is_finite() && c.source_in.is_finite()
        }),
    ensures
        ({
            let p = r.siblings(track, idx)[k];
            let n = r.trimmed_left(track, idx, desired).clip(p.track as int, p.idx as int);
            double(ZERO).le(n.source_in) && double(ZERO).le(n.timeline_start)
        }),
{
    let at = r.siblings(track, idx);
    lemma_siblings(r, track, idx);
    let p = at[k];
    let c = r.clip(p.track as int, p.idx as int);
    let delta = r.left_delta(track, idx, desired);
    assert(r.has(p.track as int, p.idx as int));
    assert(p == Place { track: p.track as int as usize, idx: p.idx as int as usize });
    assert(at.contains(p));
    lemma_left_room(r, at, k);
    lemma_double_opposite(c.source_in);
    lemma_double_opposite(c.timeline_start);
    lemma_double_plus(c.source_in, delta);
    lemma_double_plus(c.timeline_start, delta);
    lemma_double_zero();
}

/// A trim moves the edge of a clip and of every clip linked to it by the same amount, and
/// touches no other clip.
pub proof fn lemma_trims_keep_links_in_step(
    r: Reel,
    track: int,
    idx: int,
    desired: Double,
    t: int,
    i: int,
)
    requires
        r.countable(),
        r.has(track, idx),
        r.has(t, i),
    ensures
        ({
            let c = r.clip(t, i);
            let n = r.trimmed_left(track, idx, desired).clip(t, i);
            let delta = r.left_delta(track, idx, desired);
            if (t == track && i == idx) || (c.link is Some && c.link == r.clip(track, idx).link) {
                n == c.cut_head(delta).with_fades_clamped()
            } else {
                n == c
            }
        }),
{
    lemma_siblings(r, track, idx);
    let v = r.siblings(track, idx);
    let p = Place { track: t as usize, idx: i as usize };
    if v.contains(p) {
        let k = choose|k: int| 0 <= k < v.len() && v[k] == p;
        assert(r.has(v[k].track as int, v[k].idx as int));
        if r.clip(track, idx).link is None {
            assert(v[0] == p);
        }
    }
}

/// The bounds of a trim at the left are not wider than what any clip at those places can
/// give.
proof fn lemma_left_room(r: Reel, at: Seq<Place>, k: int)
    requires
        0 <= k < at.len(),
    ensures
        ({
            let c = r.clip(at[k].track as int, at[k].idx as int);
            let room = c.duration().minus(double(MIN_CLIP_DURATION));
            let (lo, hi) = r.left_bounds(at);
            &&& !lo.is_nan() && !hi.is_nan()
            &&& !room.is_nan() ==> hi.le(room)
            &&& !c.source_in.negate().is_nan() ==> c.source_in.negate().le(lo)
            &&& !c.timeline_start.negate().is_nan() ==> c.timeline_start.negate().le(lo)
        }),
    decreases at.len(),
{
    let front = at.drop_last();
    assert(at.last() == at[at.len() - 1]);
    lemma_infinities();
    if front.len() > 0 {
        lemma_left_room(r, front, 0);
        if k < front.len() {
            lemma_left_room(r, front, k);
            assert(front[k] == at[k]);
        }
    }
}

/// The bounds of a trim at the right are not wider than what any clip at those places can
/// give.
proof fn lemma_right_room(r: Reel, pool: Pool, at: Seq<Place>, k: int)
    requires
        0 <= k < at.len(),
    ensures
        ({
            let (t, i) = (at[k].track as int, at[k].idx as int);
            let c = r.clip(t, i);
            let least = double(MIN_CLIP_DURATION).minus(c.duration());
            let most = r.source_end(pool, t, i).minus(c.source_out);
            let (lo, hi) = r.right_bounds(pool, at);
            &&& !lo.is_nan() && !hi.is_nan()
            &&& !least.is_nan() ==> least.le(lo)
            &&& !most.is_nan() ==> hi.le(most)
        }),
    decreases at.len(),
{
    let front = at.drop_last();
    assert(at.last() == at[at.len() - 1]);
    lemma_infinities();
    if front.len() > 0 {
        lemma_right_room(r, pool, front, 0);
        if k < front.len() {
            lemma_right_room(r, pool, front, k);
            assert(front[k] == at[k]);
        }
    }
}

/// The patterns of the infinities are infinite.
pub proof fn lemma_infinities()
    ensures
        double(NEG_INFINITY)@ == (Num::Inf { neg: true }),
        double(INFINITY)@ == (Num::Inf { neg: false }),
{
    reveal(Double::num);
    lemma_double_weights();
}

/// A trim at the right never takes a clip, or any clip linked to it, past the end of its
/// source, where the room that is left to that end, added to where the clip ends, does not
/// round past it.
pub proof fn lemma_tail_trims_stay_inside_the_source(
    r: Reel,
    pool: Pool,
    track: int,
    idx: int,
    desired: Double,
    k: int,
)
    requires
        r.countable(),
        r.has(track, idx),
        r.can_trim_right(pool, track, idx, desired),
        !desired.is_nan(),
        0 <= k < r.siblings(track, idx).len(),
        ({
            let p = r.siblings(track, idx)[k];
            let out = r.clip(p.track as int, p.idx as int).source_out;
            let end = r.source_end(pool, p.track as int, p.idx as int);
            out.is_finite() && out.plus(end.minus(out)).le(end)
        }),
    ensures
        ({
            let p = r.siblings(track, idx)[k];
            let n = r.trimmed_right(pool, track, idx, desired).clip(p.track as int, p.idx as int);
            n.source_out.le(r.source_end(pool, p.track as int, p.idx as int))
        }),
{
    let at = r.siblings(track, idx);
    let p = at[k];
    lemma_siblings(r, track, idx);
    assert(r.has(p.track as int, p.idx as int));
    lemma_tail_trims_keep_links_in_step(r, pool, track, idx, desired, p.track as int, p.idx as int);
    assert(at.contains(p));
    let out = r.clip(p.track as int, p.idx as int).source_out;
    let end = r.source_end(pool, p.track as int, p.idx as int);
    let delta = r.right_delta(pool, track, idx, desired);
    lemma_right_room(r, pool, at, k);
    lemma_double_plus(out, end.minus(out));
    lemma_double_plus_monotone(out, delta, end.minus(out));
}

/// A trim at the right moves the end of a clip and of every clip linked to it by the same
/// amount, and touches no other clip.
pub proof fn lemma_tail_trims_keep_links_in_step(
    r: Reel,
    pool: Pool,
    track: int,
    idx: int,
    desired: Double,
    t: int,
    i: int,
)
    requires
        r.countable(),
        r.has(track, idx),
        r.has(t, i),
    ensures
        ({
            let c = r.clip(t, i);
            let n = r.trimmed_right(pool, track, idx, desired).clip(t, i);
            let delta = r.right_delta(pool, track, idx, desired);
            if (t == track && i == idx) || (c.link is Some && c.link == r.clip(track, idx).link) {
                n == c.cut_tail(delta).with_fades_clamped()
            } else {
                n == c
            }
        }),
{
    lemma_siblings(r, track, idx);
    let v = r.siblings(track, idx);
    let p = Place { track: t as usize, idx: i as usize };
    if v.contains(p) {
        let k = choose|k: int| 0 <= k < v.len() && v[k] == p;
        assert(r.has(v[k].track as int, v[k].idx as int));
        if r.clip(track, idx).link is None {
            assert(v[0] == p);
        }
    }
}

/// No trim takes more off a clip, or off any clip linked to it, than leaves it the shortest
/// length there is.
pub proof fn lemma_trims_leave_the_least_length(
    r: Reel,
    pool: Pool,
    track: int,
    idx: int,
    desired: Double,
    k: int,
)
    requires
        !desired.is_nan(),
        0 <= k < r.siblings(track, idx).len(),
        ({
            let p = r.siblings(track, idx)[k];
            r.clip(p.track as int, p.idx as int).duration().is_finite()
        }),
    ensures
        ({
            let p = r.siblings(track, idx)[k];
            let dur = r.clip(p.track as int, p.idx as int).duration();
            let least = double(MIN_CLIP_DURATION);
            &&& r.can_trim_left(track, idx, desired) ==> r.left_delta(track, idx, desired).le(
                dur.minus(least),
            )
            &&& r.can_trim_right(pool, track, idx, desired) ==> least.minus(dur).le(
                r.right_delta(pool, track, idx, desired),
            )
        }),
{
    let at = r.siblings(track, idx);
    let p = at[k];
    let dur = r.clip(p.track as int, p.idx as int).duration();
    let least = double(MIN_CLIP_DURATION);
    lemma_least_length();
    lemma_double_minus(dur, least);
    lemma_double_minus(least, dur);
    lemma_left_room(r, at, k);
    lemma_right_room(r, pool, at, k);
}

/// The shortest length is above zero and below a second.
proof fn lemma_least_length()
    ensures
        double(MIN_CLIP_DURATION).is_finite(),
        0 < units(double(MIN_CLIP_DURATION)@) < pow2(1074),
{
    lemma_double_one();
    lemma_double_zero();
    lemma_double_positive(double(MIN_CLIP_DURATION));
    lemma_double_order(double(MIN_CLIP_DURATION), double(0x3ff0_0000_0000_0000));
}

impl Clip {
    /// Whether the clip begins and ends in its source, in that order, within `2^m` units of
    /// its start.
    pub open spec fn spans(self, m: nat) -> bool {
        &&& self.source_in.is_finite() && self.source_out.is_finite()
        &&& 0 <= units(self.source_in@) <= units(self.source_out@) <= pow2(m)
    }

    /// How much of its source the clip shows, in units.
    pub open spec fn shown(self) -> int {
        units(self.source_out@) - units(self.source_in@)
    }
}

/// How long a clip runs, and what is left of that beside the shortest length, are off by no
/// more than rounding them takes.
proof fn lemma_length_near(c: Clip, m: nat)
    requires
        c.spans(m),
        1074 <= m < 2090,
    ensures
        ({
            let least = double(MIN_CLIP_DURATION);
            let e = pow2((m - 53) as nat);
            let room = c.duration().minus(least);
            let lack = least.minus(c.duration());
            &&& c.duration().is_finite()
            &&& room.is_finite() && lack.is_finite()
            &&& -e <= units(room@) - (c.shown() - units(least@)) <= e
            &&& -e <= units(lack@) - (units(least@) - c.shown()) <= e
            &&& -pow2(m) <= units(room@) <= pow2(m)
            &&& -pow2(m) <= units(lack@) <= pow2(m)
        }),
{
    let least = double(MIN_CLIP_DURATION);
    lemma_least_length();
    lemma_pow2_monotone(1074, m);
    lemma_double_zero();
    lemma_double_minus_near(c.source_out, c.source_in, m);
    lemma_pow2_unfold((m - 53) as nat);
    let len = c.source_out.minus(c.source_in);
    lemma_double_minus(c.source_out, c.source_in);
    assert(units(len@) >= 0) by {
        lemma_double_opposite(c.source_in);
        lemma_double_opposite(c.source_out);
        lemma_double_plus_monotone(c.source_out, c.source_out.negate(), c.source_in.negate());
        lemma_double_plus(c.source_out, c.source_out.negate());
        lemma_double_plus(c.source_out, c.source_in.negate());
    }
    assert(units(c.duration()@) == units(len@));
    lemma_double_minus_near(c.duration(), least, m);
    lemma_double_minus_near(least, c.duration(), m);
}

/// A trim at the left leaves a clip, and every clip linked to it, the shortest length there
/// is, but for rounding: one part in `2^51` of how far into its source the clip ends.
pub proof fn lemma_head_trims_leave_the_least_length(
    r: Reel,
    track: int,
    idx: int,
    desired: Double,
    k: int,
    m: nat,
)
    requires
        r.countable(),
        r.has(track, idx),
        r.can_trim_left(track, idx, desired),
        !desired.is_nan(),
        0 <= k < r.siblings(track, idx).len(),
        ({
            let p = r.siblings(track, idx)[k];
            r.clip(p.track as int, p.idx as int).spans(m)
        }),
        1074 <= m < 2090,
    ensures
        ({
            let p = r.siblings(track, idx)[k];
            let n = r.trimmed_left(track, idx, desired).clip(p.track as int, p.idx as int);
            &&& n.source_in.is_finite()
            &&& n.shown() + pow2((m - 51) as nat) >= units(double(MIN_CLIP_DURATION)@)
        }),
{
    let at = r.siblings(track, idx);
    let p = at[k];
    lemma_siblings(r, track, idx);
    assert(r.has(p.track as int, p.idx as int));
    assert(at.contains(p));
    lemma_trims_keep_links_in_step(r, track, idx, desired, p.track as int, p.idx as int);
    let c = r.clip(p.track as int, p.idx as int);
    let delta = r.left_delta(track, idx, desired);
    let room = c.duration().minus(double(MIN_CLIP_DURATION));
    lemma_length_near(c, m);
    lemma_left_room(r, at, k);
    lemma_double_opposite(c.source_in);
    lemma_double_plus(c.source_in, c.source_in.negate());
    lemma_double_plus_monotone(c.source_in, c.source_in.negate(), delta);
    lemma_double_plus_monotone(c.source_in, delta, room);
    lemma_pow2_unfold(m + 1);
    lemma_double_plus_near(c.source_in, room, m + 1);
    lemma_pow2_unfold((m - 51) as nat);
    lemma_pow2_unfold((m - 52) as nat);
    lemma_pow2_pos((m - 53) as nat);
}

/// A trim at the right leaves a clip, and every clip linked to it, the shortest length there
/// is, and ends it inside its source, but for rounding: one part in `2^51` of how far into
/// its source that is.
pub proof fn lemma_tail_trims_leave_the_least_length(
    r: Reel,
    pool: Pool,
    track: int,
    idx: int,
    desired: Double,
    k: int,
    m: nat,
)
    requires
        r.countable(),
        r.has(track, idx),
        r.can_trim_right(pool, track, idx, desired),
        !desired.is_nan(),
        0 <= k < r.siblings(track, idx).len(),
        ({
            let p = r.siblings(track, idx)[k];
            let end = r.source_end(pool, p.track as int, p.idx as int);
            &&& r.clip(p.track as int, p.idx as int).spans(m)
            &&& end.is_finite() && 0 <= units(end@) <= pow2(m)
        }),
        1074 <= m < 2090,
    ensures
        ({
            let p = r.siblings(track, idx)[k];
            let n = r.trimmed_right(pool, track, idx, desired).clip(p.track as int, p.idx as int);
            let end = r.source_end(pool, p.track as int, p.idx as int);
            &&& n.source_out.is_finite()
            &&& n.shown() + pow2((m - 51) as nat) >= units(double(MIN_CLIP_DURATION)@)
            &&& units(n.source_out@) <= units(end@) + pow2((m - 51) as nat)
        }),
{
    let at = r.siblings(track, idx);
    let p = at[k];
    lemma_siblings(r, track, idx);
    assert(r.has(p.track as int, p.idx as int));
    assert(at.contains(p));
    lemma_tail_trims_keep_links_in_step(r, pool, track, idx, desired, p.track as int, p.idx as int);
    let c = r.clip(p.track as int, p.idx as int);
    let end = r.source_end(pool, p.track as int, p.idx as int);
    let delta = r.right_delta(pool, track, idx, desired);
    let lack = double(MIN_CLIP_DURATION).minus(c.duration());
    let most = end.minus(c.source_out);
    lemma_length_near(c, m);
    lemma_right_room(r, pool, at, k);
    lemma_double_minus_near(end, c.source_out, m);
    lemma_double_plus_monotone(c.source_out, lack, delta);
    lemma_double_plus_monotone(c.source_out, delta, most);
    lemma_pow2_unfold(m + 1);
    lemma_double_plus_near(c.source_out, lack, m + 1);
    lemma_double_plus_near(c.source_out, most, m + 1);
    lemma_pow2_unfold((m - 51) as nat);
    lemma_pow2_unfold((m - 52) as nat);
    lemma_pow2_unfold((m - 53) as nat);
    lemma_pow2_pos((m - 54) as nat);
}

} // verus!
