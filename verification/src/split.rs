//! Cutting every clip under the playhead in two.

use crate::ieee::{double, Double};
use crate::timeline::{
    clips_of, lanes, lemma_clips_of_lane, lemma_clips_of_step, Clip, Lane, Reel, Timeline, Track,
    ZERO,
};
use vstd::prelude::*;

verus! {

impl Clip {
    /// Whether a cut at `t` falls strictly inside the clip.
    pub open spec fn spec_is_cut(&self, t: Double) -> bool {
        self.contains(t) && self.timeline_start.lt(t)
    }

    /// Whether a cut at `t` falls strictly inside the clip.
    #[verifier::when_used_as_spec(spec_is_cut)]
    pub fn is_cut(&self, t: Double) -> (r: bool)
        ensures
            r == self.spec_is_cut(t),
    {
        self.contains(t) && self.timeline_start.lt(t)
    }

    /// The part before a cut at `t`, its fades not yet pulled in. It keeps the name,
    /// the link and the fade at the head.
    pub open spec fn before_cut(self, t: Double) -> Clip {
        Clip { source_out: self.source_time(t), fade_out: double(ZERO), ..self }
    }

    /// The part after a cut at `t`, its fades not yet pulled in. It keeps the fade at
    /// the tail.
    pub open spec fn after_cut(self, t: Double, id: u32, link: Option<u32>) -> Clip {
        Clip {
            id,
            source_in: self.source_time(t),
            timeline_start: t,
            link,
            fade_in: double(ZERO),
            ..self
        }
    }
}

/// How many of the clips a cut at `t` falls inside.
pub open spec fn cuts(clips: Seq<Clip>, t: Double) -> nat
    decreases clips.len(),
{
    if clips.len() == 0 {
        0
    } else {
        cuts(clips.drop_last(), t) + if clips.last().is_cut(t) {
            1nat
        } else {
            0nat
        }
    }
}

/// The links of the clips that a cut at `t` falls inside, each once, in the order in
/// which they are first met.
pub open spec fn cut_links(clips: Seq<Clip>, t: Double) -> Seq<u32>
    decreases clips.len(),
{
    if clips.len() == 0 {
        Seq::empty()
    } else {
        let seen = cut_links(clips.drop_last(), t);
        match clips.last().link {
            Some(l) => if clips.last().is_cut(t) && !seen.contains(l) {
                seen.push(l)
            } else {
                seen
            },
            None => seen,
        }
    }
}

/// Where `l` first stands in `links`, from `from` on; the length where it does not.
pub open spec fn place_in(links: Seq<u32>, l: u32, from: int) -> int
    decreases links.len() - from,
{
    if from < 0 || from >= links.len() {
        links.len() as int
    } else if links[from] == l {
        from
    } else {
        place_in(links, l, from + 1)
    }
}

/// The link of a part after the cut: one new link for each old one.
pub open spec fn new_link(links: Seq<u32>, base: u32, old_link: Option<u32>) -> Option<u32> {
    match old_link {
        Some(l) => Some((base + place_in(links, l, 0)) as u32),
        None => None,
    }
}

/// A lane after a cut at `t`. The parts after the cut are named from `first` on.
pub open spec fn cut_lane(
    clips: Seq<Clip>,
    t: Double,
    links: Seq<u32>,
    base: u32,
    first: int,
) -> Seq<Clip>
    decreases clips.len(),
{
    if clips.len() == 0 {
        Seq::empty()
    } else {
        let done = cut_lane(clips.drop_last(), t, links, base, first);
        let c = clips.last();
        if c.is_cut(t) {
            done.push(c.before_cut(t).with_fades_clamped()).push(
                c.after_cut(
                    t,
                    (first + cuts(clips.drop_last(), t)) as u32,
                    new_link(links, base, c.link),
                ).with_fades_clamped(),
            )
        } else {
            done.push(c)
        }
    }
}

impl Reel {
    /// The reel after a cut at `t`.
    pub open spec fn split(self, t: Double) -> Reel {
        let links = cut_links(clips_of(self.tracks), t);
        Reel {
            tracks: Seq::new(
                self.tracks.len(),
                |i: int|
                    Lane {
                        kind: self.tracks[i].kind,
                        clips: cut_lane(
                            self.tracks[i].clips,
                            t,
                            links,
                            self.next_link,
                            self.next_clip + cuts(clips_of(self.tracks.take(i)), t),
                        ),
                    },
            ),
            next_link: (self.next_link + links.len()) as u32,
            next_clip: (self.next_clip + cuts(clips_of(self.tracks), t)) as u32,
        }
    }

    /// Whether a cut at `t` can be made: its halves have room for their fades and
    /// there are names left for them.
    pub open spec fn can_split(self, t: Double) -> bool {
        &&& forall|u: int, i: int| #[trigger]
            self.has(u, i) && self.clip(u, i).is_cut(t) ==> self.clip(u, i).before_cut(
                t,
            ).clampable()
        &&& self.next_clip + cuts(clips_of(self.tracks), t) <= u32::MAX
        &&& self.next_link + cut_links(clips_of(self.tracks), t).len() <= u32::MAX
    }
}

/// One more clip.
proof fn lemma_cut_push(clips: Seq<Clip>, c: Clip, t: Double)
    ensures
        cuts(clips.push(c), t) == cuts(clips, t) + if c.is_cut(t) {
            1nat
        } else {
            0nat
        },
        cut_links(clips.push(c), t) == (match c.link {
            Some(l) => if c.is_cut(t) && !cut_links(clips, t).contains(l) {
                cut_links(clips, t).push(l)
            } else {
                cut_links(clips, t)
            },
            None => cut_links(clips, t),
        }),
{
    assert(clips.push(c).drop_last() =~= clips);
}

/// Counting in two stretches.
pub proof fn lemma_cuts_concat(a: Seq<Clip>, b: Seq<Clip>, t: Double)
    ensures
        cuts(a + b, t) == cuts(a, t) + cuts(b, t),
    decreases b.len(),
{
    if b.len() == 0 {
        assert(a + b =~= a);
    } else {
        lemma_cuts_concat(a, b.drop_last(), t);
        assert((a + b).drop_last() =~= a + b.drop_last());
    }
}

/// No stretch from the beginning holds more cuts than the whole.
pub proof fn lemma_cuts_within(tracks: Seq<Lane>, u: int, i: int, t: Double)
    requires
        0 <= u < tracks.len(),
        0 <= i <= tracks[u].clips.len(),
    ensures
        cuts(clips_of(tracks.take(u)) + tracks[u].clips.take(i), t) <= cuts(clips_of(tracks), t),
    decreases tracks.len(),
{
    let whole = tracks[u].clips;
    assert(whole =~= whole.take(i) + whole.skip(i));
    lemma_cuts_concat(whole.take(i), whole.skip(i), t);
    lemma_cuts_concat(clips_of(tracks.take(u)), whole.take(i), t);
    lemma_cuts_concat(clips_of(tracks.drop_last()), tracks.last().clips, t);
    if u == tracks.len() - 1 {
        assert(tracks.take(u) =~= tracks.drop_last());
    } else {
        assert(tracks.drop_last().take(u) =~= tracks.take(u));
        lemma_cuts_within(tracks.drop_last(), u, i, t);
    }
}

/// A link that was met has a place.
pub proof fn lemma_place_in(links: Seq<u32>, l: u32, from: int)
    requires
        0 <= from <= links.len(),
    ensures
        from <= place_in(links, l, from) <= links.len(),
        place_in(links, l, from) < links.len() ==> links[place_in(links, l, from)] == l,
        (exists|i: int| from <= i < links.len() && links[i] == l) ==> place_in(links, l, from)
            < links.len(),
    decreases links.len() - from,
{
    if from < links.len() {
        lemma_place_in(links, l, from + 1);
    }
}

/// Where `l` first stands in `links`; the length where it does not.
fn position(links: &Vec<u32>, l: u32) -> (r: usize)
    ensures
        r == place_in(links@, l, 0),
{
    let mut i: usize = 0;
    while i < links.len()
        invariant
            i <= links.len(),
            place_in(links@, l, 0) == place_in(links@, l, i as int),
        decreases links.len() - i,
    {
        if links[i] == l {
            return i;
        }
        i += 1;
    }
    i
}

/// Cuts one lane.
fn split_lane(
    clips: &Vec<Clip>,
    t: Double,
    links: &Vec<u32>,
    base: u32,
    first: u32,
) -> (r: (Vec<Clip>, u32))
    requires
        first + cuts(clips@, t) <= u32::MAX,
        base + links.len() <= u32::MAX,
        forall|i: int|
            0 <= i < clips.len() && (#[trigger] clips@[i]).is_cut(t) ==> clips@[i].before_cut(
                t,
            ).clampable(),
        forall|i: int|
            0 <= i < clips.len() && (#[trigger] clips@[i]).is_cut(t) ==> (clips@[i].link matches Some(l)
                ==> links@.contains(l)),
    ensures
        r.0@ == cut_lane(clips@, t, links@, base, first as int),
        r.1 == first + cuts(clips@, t),
{
    let mut out: Vec<Clip> = Vec::new();
    let mut next: u32 = first;
    let mut i: usize = 0;
    proof {
        assert(clips@.take(0) =~= Seq::empty());
    }
    while i < clips.len()
        invariant
            i <= clips.len(),
            first + cuts(clips@, t) <= u32::MAX,
            base + links.len() <= u32::MAX,
            forall|i: int|
                0 <= i < clips.len() && (#[trigger] clips@[i]).is_cut(t) ==> clips@[i].before_cut(
                    t,
                ).clampable(),
            forall|i: int|
                0 <= i < clips.len() && (#[trigger] clips@[i]).is_cut(t) ==> (
                clips@[i].link matches Some(l) ==> links@.contains(l)),
            next == first + cuts(clips@.take(i as int), t),
            out@ == cut_lane(clips@.take(i as int), t, links@, base, first as int),
        decreases clips.len() - i,
    {
        let c: Clip = clips[i];
        proof {
            assert(clips@.take(i + 1).drop_last() =~= clips@.take(i as int));
            let rest = clips@.skip(i + 1);
            assert(clips@ =~= clips@.take(i + 1) + rest);
            lemma_cuts_concat(clips@.take(i + 1), rest, t);
        }
        if c.is_cut(t) {
            let at: Double = c.source_time(t);
            let mut left: Clip = c;
            left.source_out = at;
            left.fade_out = double(ZERO);
            left.clamp_fades();
            let link: Option<u32> = match c.link {
                Some(l) => {
                    let p: usize = position(links, l);
                    proof {
                        assert(links@.contains(l));
                        lemma_place_in(links@, l, 0);
                    }
                    Some(base + p as u32)
                },
                None => None,
            };
            let mut right: Clip = c;
            right.id = next;
            right.source_in = at;
            right.timeline_start = t;
            right.link = link;
            right.fade_in = double(ZERO);
            proof {
                lemma_no_head_is_clampable(right);
            }
            right.clamp_fades();
            next = next + 1;
            out.push(left);
            out.push(right);
        } else {
            out.push(c);
        }
        i += 1;
    }
    proof {
        assert(clips@.take(clips.len() as int) =~= clips@);
    }
    (out, next)
}

/// A clip without a fade at the head has room for its fades.
proof fn lemma_no_head_is_clampable(c: Clip)
    requires
        c.fade_in == double(ZERO),
    ensures
        c.clampable(),
{
    crate::ieee::facts::lemma_double_zero();
    crate::timeline::lemma_finite_fade_is_clampable(c);
}

impl Timeline {
    /// Splits every clip that `t` falls strictly inside into two that meet at `t`.
    /// The part before keeps name and link; the parts after get new names, and new
    /// links that tie together what was tied together.
    pub fn split_at(&mut self, t: Double)
        requires
            old(self)@.can_split(t),
        ensures
            final(self)@ == old(self)@.split(t),
    {
        let links: Vec<u32> = self.links_cut(t);
        let ghost ls = self@.tracks;
        let base: u32 = self.next_link;
        let first: u32 = self.next_clip;
        let ghost gl = cut_links(clips_of(ls), t);
        let mut next: u32 = first;
        let mut out: Vec<Track> = Vec::new();
        let mut u: usize = 0;
        proof {
            assert(ls.take(0) =~= Seq::empty());
        }
        while u < self.tracks.len()
            invariant
                u <= self.tracks.len(),
                *self == *old(self),
                ls == self@.tracks,
                base == self.next_link,
                first == self.next_clip,
                links@ == gl,
                gl == cut_links(clips_of(ls), t),
                self@.can_split(t),
                next == first + cuts(clips_of(ls.take(u as int)), t),
                lanes(out@) =~= self@.split(t).tracks.take(u as int),
            decreases self.tracks.len() - u,
        {
            proof {
                lemma_clips_of_lane(ls, u as int);
                lemma_cuts_concat(clips_of(ls.take(u as int)), ls[u as int].clips, t);
                lemma_cuts_within(ls, u as int, ls[u as int].clips.len() as int, t);
                assert forall|i: int|
                    0 <= i < ls[u as int].clips.len() && (
                    #[trigger] ls[u as int].clips[i]).is_cut(t) implies ls[u as int].clips[i].before_cut(
                    t,
                ).clampable() by {
                    assert(self@.has(u as int, i));
                }
                assert forall|i: int|
                    0 <= i < ls[u as int].clips.len() && (
                    #[trigger] ls[u as int].clips[i]).is_cut(t) implies (
                ls[u as int].clips[i].link matches Some(l) ==> gl.contains(l)) by {
                    lemma_link_met(ls, u as int, i, t);
                }
            }
            let (clips, after) = split_lane(&self.tracks[u].clips, t, &links, base, next);
            let track: Track = Track { kind: self.tracks[u].kind, clips };
            let ghost before = out@;
            out.push(track);
            next = after;
            proof {
                assert(lanes(out@) =~= lanes(before).push(track@));
                assert(track@ =~= self@.split(t).tracks[u as int]);
                assert(self@.split(t).tracks.take(u + 1) =~= self@.split(t).tracks.take(
                    u as int,
                ).push(track@));
            }
            u += 1;
        }
        proof {
            assert(ls.take(ls.len() as int) =~= ls);
        }
        self.tracks = out;
        self.next_link = base + links.len() as u32;
        self.next_clip = next;
        proof {
            assert(self@.tracks =~= old(self)@.split(t).tracks);
        }
    }

    /// Whether a cut at `t` can be made.
    pub fn is_splittable(&self, t: Double) -> (r: bool)
        ensures
            r == self@.can_split(t),
    {
        let links: Vec<u32> = self.links_cut(t);
        if links.len() > (u32::MAX - self.next_link) as usize {
            return false;
        }
        let ghost ls = self@.tracks;
        let mut room: u32 = u32::MAX - self.next_clip;
        let mut u: usize = 0;
        proof {
            assert(ls.take(0) =~= Seq::empty());
        }
        while u < self.tracks.len()
            invariant
                u <= self.tracks.len(),
                ls == self@.tracks,
                room + cuts(clips_of(ls.take(u as int)), t) == u32::MAX - self.next_clip,
                forall|v: int, i: int|
                    v < u && #[trigger] self@.has(v, i) && self@.clip(v, i).is_cut(t)
                        ==> self@.clip(v, i).before_cut(t).clampable(),
            decreases self.tracks.len() - u,
        {
            let mut i: usize = 0;
            proof {
                lemma_clips_of_lane(ls, u as int);
            }
            while i < self.tracks[u].clips.len()
                invariant
                    u < self.tracks.len(),
                    ls == self@.tracks,
                    i <= self.tracks@[u as int].clips.len(),
                    room + cuts(
                        clips_of(ls.take(u as int)) + ls[u as int].clips.take(i as int),
                        t,
                    ) == u32::MAX - self.next_clip,
                    forall|v: int, k: int|
                        (v < u || (v == u && k < i)) && #[trigger] self@.has(v, k)
                            && self@.clip(v, k).is_cut(t) ==> self@.clip(v, k).before_cut(
                            t,
                        ).clampable(),
                decreases self.tracks@[u as int].clips.len() - i,
            {
                let c: Clip = self.tracks[u].clips[i];
                proof {
                    assert(self@.has(u as int, i as int));
                    assert(c == self@.clip(u as int, i as int));
                    lemma_clips_of_step(ls, u as int, i as int);
                    lemma_cut_push(
                        clips_of(ls.take(u as int)) + ls[u as int].clips.take(i as int),
                        c,
                        t,
                    );
                    lemma_cuts_within(ls, u as int, i + 1, t);
                }
                if c.is_cut(t) {
                    let head: Clip = Clip {
                        source_out: c.source_time(t),
                        fade_out: double(ZERO),
                        ..c
                    };
                    if room == 0 || !head.is_clampable() {
                        return false;
                    }
                    room -= 1;
                }
                i += 1;
            }
            proof {
                lemma_clips_of_lane(ls, u as int);
            }
            u += 1;
        }
        proof {
            assert(ls.take(ls.len() as int) =~= ls);
        }
        true
    }

    /// The links of the clips that a cut at `t` falls inside, each once.
    fn links_cut(&self, t: Double) -> (links: Vec<u32>)
        ensures
            links@ == cut_links(clips_of(self@.tracks), t),
    {
        let mut links: Vec<u32> = Vec::new();
        let mut u: usize = 0;
        let ghost ls = self@.tracks;
        proof {
            assert(ls.take(0) =~= Seq::empty());
        }
        while u < self.tracks.len()
            invariant
                u <= self.tracks.len(),
                ls == self@.tracks,
                links@ == cut_links(clips_of(ls.take(u as int)), t),
            decreases self.tracks.len() - u,
        {
            let mut i: usize = 0;
            proof {
                lemma_clips_of_lane(ls, u as int);
            }
            while i < self.tracks[u].clips.len()
                invariant
                    u < self.tracks.len(),
                    ls == self@.tracks,
                    i <= self.tracks@[u as int].clips.len(),
                    links@ == cut_links(
                        clips_of(ls.take(u as int)) + ls[u as int].clips.take(i as int),
                        t,
                    ),
                decreases self.tracks@[u as int].clips.len() - i,
            {
                proof {
                    lemma_clips_of_step(ls, u as int, i as int);
                    lemma_cut_push(
                        clips_of(ls.take(u as int)) + ls[u as int].clips.take(i as int),
                        ls[u as int].clips[i as int],
                        t,
                    );
                }
                let c: Clip = self.tracks[u].clips[i];
                if c.is_cut(t) {
                    if let Some(l) = c.link {
                        let at: usize = position(&links, l);
                        proof {
                            lemma_place_in(links@, l, 0);
                        }
                        if at == links.len() {
                            links.push(l);
                        }
                    }
                }
                i += 1;
            }
            proof {
                lemma_clips_of_lane(ls, u as int);
            }
            u += 1;
        }
        proof {
            assert(ls.take(ls.len() as int) =~= ls);
        }
        links
    }
}

/// The link of a clip that is cut is among those met.
pub proof fn lemma_link_met(tracks: Seq<Lane>, u: int, i: int, t: Double)
    requires
        0 <= u < tracks.len(),
        0 <= i < tracks[u].clips.len(),
        tracks[u].clips[i].is_cut(t),
    ensures
        tracks[u].clips[i].link matches Some(l) ==> cut_links(clips_of(tracks), t).contains(l),
{
    lemma_member(tracks, u, i);
    let all = clips_of(tracks);
    let k = choose|k: int| 0 <= k < all.len() && all[k] == tracks[u].clips[i];
    lemma_met_by_then(all, k, t);
}

/// Every clip of a lane is among all the clips.
pub proof fn lemma_member(tracks: Seq<Lane>, u: int, i: int)
    requires
        0 <= u < tracks.len(),
        0 <= i < tracks[u].clips.len(),
    ensures
        exists|k: int|
            0 <= k < clips_of(tracks).len() && clips_of(tracks)[k] == tracks[u].clips[i],
    decreases tracks.len(),
{
    let all = clips_of(tracks);
    let front = clips_of(tracks.drop_last());
    if u == tracks.len() - 1 {
        assert(all[front.len() + i] == tracks[u].clips[i]);
    } else {
        lemma_member(tracks.drop_last(), u, i);
        let k = choose|k: int| 0 <= k < front.len() && front[k] == tracks.drop_last()[u].clips[i];
        assert(all[k] == tracks[u].clips[i]);
    }
}

/// A link that a cut clip carries is met by the end.
proof fn lemma_met_by_then(clips: Seq<Clip>, k: int, t: Double)
    requires
        0 <= k < clips.len(),
        clips[k].is_cut(t),
    ensures
        clips[k].link matches Some(l) ==> cut_links(clips, t).contains(l),
    decreases clips.len(),
{
    let seen = cut_links(clips.drop_last(), t);
    if k < clips.len() - 1 {
        lemma_met_by_then(clips.drop_last(), k, t);
    }
    if let Some(l) = clips[k].link {
        if k < clips.len() - 1 {
            let j = choose|j: int| 0 <= j < seen.len() && seen[j] == l;
            assert(cut_links(clips, t)[j] == l);
        } else if !seen.contains(l) {
            assert(cut_links(clips, t)[seen.len() as int] == l);
        }
    }
}

} // verus!
