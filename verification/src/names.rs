//! What edits keep: every clip has a name of its own, and clips are tied as they were.

use crate::commands::without_ids;
use crate::ieee::{double, Double};
use crate::media::Pool;
use crate::split::{cut_lane, cut_links, cuts, lemma_cuts_concat, lemma_place_in, new_link};
use crate::timeline::{
    clips_of, first_free, past_ids, past_links, without_source, Clip, Lane, Reel, SourceId,
    TrackKind, ZERO,
};
use vstd::prelude::*;

verus! {

/// No two of the clips share a name.
pub open spec fn distinct(s: Seq<Clip>) -> bool {
    forall|i: int, j: int| 0 <= i < j < s.len() ==> (#[trigger] s[i]).id != (#[trigger] s[j]).id
}

/// Every name lies below a number.
pub open spec fn names_below(s: Seq<Clip>, n: int) -> bool {
    forall|i: int| 0 <= i < s.len() ==> (#[trigger] s[i]).id < n
}

/// Every link lies below a number.
pub open spec fn links_below(s: Seq<Clip>, n: int) -> bool {
    forall|i: int|
        0 <= i < s.len() ==> ((#[trigger] s[i]).link matches Some(l) ==> l < n)
}

/// How many clips the lanes before one hold.
pub open spec fn offset(tracks: Seq<Lane>, t: int) -> int {
    clips_of(tracks.take(t)).len() as int
}

/// Where the clips of a lane stand among all.
proof fn lemma_offset(tracks: Seq<Lane>, t: int)
    requires
        0 <= t < tracks.len(),
    ensures
        offset(tracks, t + 1) == offset(tracks, t) + tracks[t].clips.len(),
        offset(tracks, 0) == 0,
{
    assert(tracks.take(t + 1).drop_last() =~= tracks.take(t));
    assert(tracks.take(0) =~= Seq::empty());
}

/// Lanes further on stand further on.
proof fn lemma_offsets_grow(tracks: Seq<Lane>, t: int, u: int)
    requires
        0 <= t <= u <= tracks.len(),
    ensures
        offset(tracks, t) <= offset(tracks, u),
    decreases u - t,
{
    if t < u {
        lemma_offsets_grow(tracks, t, u - 1);
        lemma_offset(tracks, u - 1);
    }
}

/// Where a clip stands among all.
proof fn lemma_stands_at(tracks: Seq<Lane>, t: int, i: int)
    requires
        0 <= t < tracks.len(),
        0 <= i < tracks[t].clips.len(),
    ensures
        offset(tracks, t) + i < clips_of(tracks).len(),
        clips_of(tracks)[offset(tracks, t) + i] == tracks[t].clips[i],
    decreases tracks.len(),
{
    if t == tracks.len() - 1 {
        assert(tracks.take(t) =~= tracks.drop_last());
    } else {
        let front = tracks.drop_last();
        assert(front.take(t) =~= tracks.take(t));
        lemma_stands_at(front, t, i);
    }
}

/// Which clip stands at a place among all.
pub proof fn lemma_who_stands(tracks: Seq<Lane>, k: int) -> (r: (int, int))
    requires
        0 <= k < clips_of(tracks).len(),
    ensures
        0 <= r.0 < tracks.len(),
        0 <= r.1 < tracks[r.0].clips.len(),
        k == offset(tracks, r.0) + r.1,
        clips_of(tracks)[k] == tracks[r.0].clips[r.1],
    decreases tracks.len(),
{
    let front = tracks.drop_last();
    let n = clips_of(front).len() as int;
    if k >= n {
        assert(tracks.take(tracks.len() - 1) =~= front);
        (tracks.len() - 1, k - n)
    } else {
        let r = lemma_who_stands(front, k);
        assert(front.take(r.0) =~= tracks.take(r.0));
        r
    }
}

/// Names and links of a reel, read off all its clips in one row.
pub proof fn lemma_in_one_row(r: Reel)
    ensures
        r.named() <==> distinct(clips_of(r.tracks)) && names_below(
            clips_of(r.tracks),
            r.next_clip as int,
        ),
        r.linked() <==> links_below(clips_of(r.tracks), r.next_link as int),
{
    let all = clips_of(r.tracks);
    if r.named() {
        assert forall|i: int, j: int| 0 <= i < j < all.len() implies (#[trigger] all[i]).id != (
        #[trigger] all[j]).id by {
            let a = lemma_who_stands(r.tracks, i);
            let b = lemma_who_stands(r.tracks, j);
            assert(r.has(a.0, a.1) && r.has(b.0, b.1));
        }
        assert forall|i: int| 0 <= i < all.len() implies (#[trigger] all[i]).id
            < r.next_clip by {
            let a = lemma_who_stands(r.tracks, i);
            assert(r.has(a.0, a.1));
        }
    }
    if r.linked() {
        assert forall|i: int| 0 <= i < all.len() implies ((#[trigger] all[i]).link matches Some(l)
            ==> l < r.next_link) by {
            let a = lemma_who_stands(r.tracks, i);
            assert(r.has(a.0, a.1));
        }
    }
    if distinct(all) && names_below(all, r.next_clip as int) {
        assert forall|t: int, i: int| #[trigger] r.has(t, i) implies r.clip(t, i).id
            < r.next_clip by {
            lemma_stands_at(r.tracks, t, i);
        }
        assert forall|t: int, i: int, u: int, j: int|
            #![trigger r.has(t, i), r.has(u, j)]
            r.has(t, i) && r.has(u, j) && r.clip(t, i).id == r.clip(u, j).id implies t == u && i
            == j by {
            lemma_stands_at(r.tracks, t, i);
            lemma_stands_at(r.tracks, u, j);
            let (a, b) = (offset(r.tracks, t) + i, offset(r.tracks, u) + j);
            assert(a == b) by {
                if a < b {
                    assert(all[a].id != all[b].id);
                }
                if b < a {
                    assert(all[b].id != all[a].id);
                }
            }
            if t < u {
                lemma_offset(r.tracks, t);
                lemma_offsets_grow(r.tracks, t + 1, u);
            }
            if u < t {
                lemma_offset(r.tracks, u);
                lemma_offsets_grow(r.tracks, u + 1, t);
            }
        }
    }
    if links_below(all, r.next_link as int) {
        assert forall|t: int, i: int| #[trigger] r.has(t, i) implies (
        r.clip(t, i).link matches Some(l) ==> l < r.next_link) by {
            lemma_stands_at(r.tracks, t, i);
        }
    }
}

/// Cutting in two stretches.
proof fn lemma_cut_lane_concat(
    a: Seq<Clip>,
    b: Seq<Clip>,
    t: Double,
    links: Seq<u32>,
    base: u32,
    first: int,
)
    ensures
        cut_lane(a + b, t, links, base, first) == cut_lane(a, t, links, base, first) + cut_lane(
            b,
            t,
            links,
            base,
            first + cuts(a, t),
        ),
    decreases b.len(),
{
    if b.len() == 0 {
        assert(a + b =~= a);
        assert(cut_lane(a, t, links, base, first) + Seq::<Clip>::empty() =~= cut_lane(
            a,
            t,
            links,
            base,
            first,
        ));
    } else {
        let front = b.drop_last();
        lemma_cut_lane_concat(a, front, t, links, base, first);
        lemma_cuts_concat(a, front, t);
        assert((a + b).drop_last() =~= a + front);
        assert(cut_lane(a + b, t, links, base, first) =~= cut_lane(a, t, links, base, first)
            + cut_lane(b, t, links, base, first + cuts(a, t)));
    }
}

/// Cutting lane by lane is cutting all clips in one row.
proof fn lemma_split_in_one_row(tracks: Seq<Lane>, t: Double, links: Seq<u32>, base: u32, first: int)
    ensures
        clips_of(
            Seq::new(
                tracks.len(),
                |i: int|
                    Lane {
                        kind: tracks[i].kind,
                        clips: cut_lane(
                            tracks[i].clips,
                            t,
                            links,
                            base,
                            first + cuts(clips_of(tracks.take(i)), t),
                        ),
                    },
            ),
        ) == cut_lane(clips_of(tracks), t, links, base, first),
    decreases tracks.len(),
{
    let n = tracks.len() as int;
    let whole = Seq::new(
        tracks.len(),
        |i: int|
            Lane {
                kind: tracks[i].kind,
                clips: cut_lane(
                    tracks[i].clips,
                    t,
                    links,
                    base,
                    first + cuts(clips_of(tracks.take(i)), t),
                ),
            },
    );
    if n > 0 {
        let front = tracks.drop_last();
        lemma_split_in_one_row(front, t, links, base, first);
        let part = Seq::new(
            front.len(),
            |i: int|
                Lane {
                    kind: front[i].kind,
                    clips: cut_lane(
                        front[i].clips,
                        t,
                        links,
                        base,
                        first + cuts(clips_of(front.take(i)), t),
                    ),
                },
        );
        assert(whole.drop_last() =~= part) by {
            assert forall|i: int| 0 <= i < front.len() implies whole.drop_last()[i] == part[i] by {
                assert(front.take(i) =~= tracks.take(i));
            }
        }
        assert(tracks.take(n - 1) =~= front);
        lemma_cut_lane_concat(clips_of(front), tracks.last().clips, t, links, base, first);
    }
}

/// Cutting clips of distinct names gives clips of distinct names: the parts before the cut
/// keep theirs, the parts after it get new ones.
proof fn lemma_cut_names(
    clips: Seq<Clip>,
    t: Double,
    links: Seq<u32>,
    base: u32,
    first: int,
)
    requires
        distinct(clips),
        names_below(clips, first),
        0 <= first,
        first + cuts(clips, t) <= u32::MAX,
    ensures
        ({
            let out = cut_lane(clips, t, links, base, first);
            &&& distinct(out)
            &&& names_below(out, first + cuts(clips, t))
            &&& forall|i: int|
                0 <= i < out.len() && (#[trigger] out[i]).id < first ==> exists|k: int|
                    0 <= k < clips.len() && (#[trigger] clips[k]).id == out[i].id
        }),
    decreases clips.len(),
{
    if clips.len() > 0 {
        let front = clips.drop_last();
        let c = clips.last();
        lemma_cut_names(front, t, links, base, first);
        let done = cut_lane(front, t, links, base, first);
        let out = cut_lane(clips, t, links, base, first);
        assert(c.id < first) by {
            assert(clips[clips.len() - 1].id < first);
        }
        assert forall|i: int| 0 <= i < done.len() implies (#[trigger] done[i]).id != c.id by {
            if done[i].id < first {
                let k = choose|k: int| 0 <= k < front.len() && (#[trigger] front[k]).id == done[i].id;
                assert(clips[k].id != clips[clips.len() - 1].id);
            }
        }
        assert forall|i: int| 0 <= i < out.len() && (#[trigger] out[i]).id < first implies exists|
            k: int,
        |
            0 <= k < clips.len() && (#[trigger] clips[k]).id == out[i].id by {
            if i < done.len() {
                assert(out[i] == done[i]);
                let k = choose|k: int| 0 <= k < front.len() && (#[trigger] front[k]).id == done[i].id;
                assert(clips[k].id == out[i].id);
            } else {
                assert(clips[clips.len() - 1].id == out[i].id);
            }
        }
        assert forall|i: int, j: int| 0 <= i < j < out.len() implies (#[trigger] out[i]).id != (
        #[trigger] out[j]).id by {
            if j < done.len() {
                assert(done[i].id != done[j].id);
            } else if i < done.len() {
                assert(done[i].id != c.id);
                assert(done[i].id < first + cuts(front, t));
            }
        }
        assert forall|i: int| 0 <= i < out.len() implies (#[trigger] out[i]).id < first + cuts(
            clips,
            t,
        ) by {
            if i < done.len() {
                assert(done[i].id < first + cuts(front, t));
            }
        }
    }
}

/// A cut leaves every clip with a name of its own.
pub proof fn lemma_a_cut_keeps_names(r: Reel, t: Double)
    requires
        r.named(),
        r.can_split(t),
    ensures
        r.split(t).named(),
{
    let links = cut_links(clips_of(r.tracks), t);
    lemma_in_one_row(r);
    lemma_split_in_one_row(r.tracks, t, links, r.next_link, r.next_clip as int);
    lemma_cut_names(clips_of(r.tracks), t, links, r.next_link, r.next_clip as int);
    lemma_in_one_row(r.split(t));
}

/// The links of clips that are cut are among those met.
proof fn lemma_cut_link_is_met(clips: Seq<Clip>, t: Double, i: int)
    requires
        0 <= i < clips.len(),
        clips[i].is_cut(t),
        clips[i].link is Some,
    ensures
        cut_links(clips, t).contains(clips[i].link->0),
    decreases clips.len(),
{
    let l = clips[i].link->0;
    let seen = cut_links(clips.drop_last(), t);
    let all = cut_links(clips, t);
    if i == clips.len() - 1 {
        if !seen.contains(l) {
            assert(all[seen.len() as int] == l);
        }
    } else {
        lemma_cut_link_is_met(clips.drop_last(), t, i);
        let k = choose|k: int| 0 <= k < seen.len() && seen[k] == l;
        assert(all[k] == l);
    }
}

/// What a cut ties: two parts after it are linked to each other exactly where the clips
/// that they are of were, by a link that nothing had before.
pub proof fn lemma_a_cut_ties_what_was_tied(r: Reel, t: Double, a: Clip, b: Clip)
    requires
        r.linked(),
        r.can_split(t),
        exists|i: int| 0 <= i < clips_of(r.tracks).len() && clips_of(r.tracks)[i] == a,
        exists|i: int| 0 <= i < clips_of(r.tracks).len() && clips_of(r.tracks)[i] == b,
        a.is_cut(t),
        b.is_cut(t),
        a.link is Some,
        b.link is Some,
    ensures
        ({
            let links = cut_links(clips_of(r.tracks), t);
            let (x, y) = (new_link(links, r.next_link, a.link), new_link(links, r.next_link, b.link));
            &&& x matches Some(l) && r.next_link <= l < r.split(t).next_link
            &&& y is Some
            &&& x == y <==> a.link == b.link
        }),
{
    let all = clips_of(r.tracks);
    let links = cut_links(all, t);
    let i = choose|i: int| 0 <= i < all.len() && all[i] == a;
    let j = choose|j: int| 0 <= j < all.len() && all[j] == b;
    lemma_cut_link_is_met(all, t, i);
    lemma_cut_link_is_met(all, t, j);
    lemma_place_in(links, a.link->0, 0);
    lemma_place_in(links, b.link->0, 0);
}

/// Every link after a cut lies below the counter.
proof fn lemma_cut_links_below(
    clips: Seq<Clip>,
    t: Double,
    links: Seq<u32>,
    base: u32,
    first: int,
)
    requires
        links_below(clips, base as int),
        base + links.len() <= u32::MAX,
        forall|i: int|
            0 <= i < clips.len() && (#[trigger] clips[i]).is_cut(t) && clips[i].link is Some
                ==> links.contains(clips[i].link->0),
    ensures
        links_below(cut_lane(clips, t, links, base, first), base + links.len()),
    decreases clips.len(),
{
    if clips.len() > 0 {
        let front = clips.drop_last();
        let c = clips.last();
        assert forall|i: int|
            0 <= i < front.len() && (#[trigger] front[i]).is_cut(t)
                && front[i].link is Some implies links.contains(front[i].link->0) by {
            assert(front[i] == clips[i]);
        }
        assert forall|i: int| 0 <= i < front.len() implies ((
        #[trigger] front[i]).link matches Some(l) ==> l < base) by {
            assert(front[i] == clips[i]);
        }
        lemma_cut_links_below(front, t, links, base, first);
        let out = cut_lane(clips, t, links, base, first);
        let done = cut_lane(front, t, links, base, first);
        assert(c == clips[clips.len() - 1]);
        if c.is_cut(t) && c.link is Some {
            lemma_place_in(links, c.link->0, 0);
        }
        assert forall|i: int| 0 <= i < out.len() implies ((#[trigger] out[i]).link matches Some(l)
            ==> l < base + links.len()) by {
            if i < done.len() {
                assert(out[i] == done[i]);
            }
        }
    }
}

/// A cut leaves every link below the counter.
pub proof fn lemma_a_cut_keeps_links(r: Reel, t: Double)
    requires
        r.linked(),
        r.can_split(t),
    ensures
        r.split(t).linked(),
{
    let all = clips_of(r.tracks);
    let links = cut_links(all, t);
    lemma_in_one_row(r);
    lemma_split_in_one_row(r.tracks, t, links, r.next_link, r.next_clip as int);
    assert forall|i: int|
        0 <= i < all.len() && (#[trigger] all[i]).is_cut(t)
            && all[i].link is Some implies links.contains(all[i].link->0) by {
        lemma_cut_link_is_met(all, t, i);
    }
    lemma_cut_links_below(all, t, links, r.next_link, r.next_clip as int);
    lemma_in_one_row(r.split(t));
}

/// The halves of a cut meet: the one before it keeps the name, the start and the fade at
/// the head, the one after it the end and the fade at the tail, and the second takes up
/// the source where the first leaves it.
pub proof fn lemma_halves_meet(c: Clip, t: Double, id: u32, link: Option<u32>)
    requires
        c.before_cut(t).clampable(),
        c.after_cut(t, id, link).clampable(),
    ensures
        ({
            let a = c.before_cut(t).with_fades_clamped();
            let b = c.after_cut(t, id, link).with_fades_clamped();
            &&& a.id == c.id && a.link == c.link && a.source == c.source
            &&& a.timeline_start == c.timeline_start && a.source_in == c.source_in
            &&& a.source_out == b.source_in
            &&& b.id == id && b.link == link && b.source == c.source
            &&& b.timeline_start == t && b.source_out == c.source_out
            &&& a.gain == c.gain && b.gain == c.gain
            &&& a.fade_out == double(ZERO)
            &&& b.fade_in == double(ZERO)
        }),
{
    crate::ieee::facts::lemma_double_zero();
}

/// Every name is below the counter that reseeding sets, and every link too.
pub proof fn lemma_reseeding_is_past_all(clips: Seq<Clip>)
    ensures
        names_below(clips, past_ids(clips)),
        links_below(clips, past_links(clips)),
    decreases clips.len(),
{
    if clips.len() > 0 {
        let front = clips.drop_last();
        lemma_reseeding_is_past_all(front);
        assert forall|i: int| 0 <= i < clips.len() implies (#[trigger] clips[i]).id < past_ids(
            clips,
        ) by {
            if i < front.len() {
                assert(front[i] == clips[i]);
            }
        }
        assert forall|i: int| 0 <= i < clips.len() implies ((
        #[trigger] clips[i]).link matches Some(l) ==> l < past_links(clips)) by {
            if i < front.len() {
                assert(front[i] == clips[i]);
            }
        }
    }
}

impl Reel {
    /// Every clip has a name of its own below the counter, and every link lies below its
    /// counter.
    pub open spec fn tidy(self) -> bool {
        self.named() && self.linked()
    }
}

/// A cut keeps a reel tidy.
pub proof fn lemma_a_cut_keeps_tidy(r: Reel, t: Double)
    requires
        r.tidy(),
        r.can_split(t),
    ensures
        r.split(t).tidy(),
{
    lemma_a_cut_keeps_names(r, t);
    lemma_a_cut_keeps_links(r, t);
}

/// Whether one list of clips is part of another, in order: `at` says where each stands.
pub open spec fn part_at(a: Seq<Clip>, b: Seq<Clip>, at: Seq<int>) -> bool {
    &&& at.len() == a.len()
    &&& forall|i: int| 0 <= i < at.len() ==> 0 <= #[trigger] at[i] < b.len() && b[at[i]] == a[i]
    &&& forall|i: int, j: int| 0 <= i < j < at.len() ==> #[trigger] at[i] < #[trigger] at[j]
}

/// Where the clips that are kept stood.
proof fn lemma_without_ids_is_part(clips: Seq<Clip>, ids: Seq<u32>) -> (at: Seq<int>)
    ensures
        part_at(without_ids(clips, ids), clips, at),
    decreases clips.len(),
{
    if clips.len() == 0 {
        Seq::empty()
    } else {
        let at = lemma_without_ids_is_part(clips.drop_last(), ids);
        if ids.contains(clips.last().id) {
            at
        } else {
            at.push(clips.len() - 1)
        }
    }
}

/// Where the clips that are kept stood.
proof fn lemma_without_source_is_part(clips: Seq<Clip>, source: SourceId) -> (at: Seq<int>)
    ensures
        part_at(without_source(clips, source), clips, at),
    decreases clips.len(),
{
    if clips.len() == 0 {
        Seq::empty()
    } else {
        let at = lemma_without_source_is_part(clips.drop_last(), source);
        if clips.last().source == source {
            at
        } else {
            at.push(clips.len() - 1)
        }
    }
}

/// A reel whose lanes hold parts of the lanes of a tidy one is tidy.
proof fn lemma_parts_are_tidy(r: Reel, s: Reel, at: spec_fn(int) -> Seq<int>)
    requires
        r.tidy(),
        s.tracks.len() == r.tracks.len(),
        s.next_clip == r.next_clip,
        s.next_link == r.next_link,
        forall|t: int|
            0 <= t < r.tracks.len() ==> part_at(
                (#[trigger] s.tracks[t]).clips,
                r.tracks[t].clips,
                at(t),
            ),
    ensures
        s.tidy(),
{
    assert forall|t: int, i: int| #[trigger] s.has(t, i) implies r.has(t, at(t)[i]) && r.clip(
        t,
        at(t)[i],
    ) == s.clip(t, i) by {
        assert(part_at(s.tracks[t].clips, r.tracks[t].clips, at(t)));
    }
    assert forall|t: int, i: int, u: int, j: int|
        #![trigger s.has(t, i), s.has(u, j)]
        s.has(t, i) && s.has(u, j) && s.clip(t, i).id == s.clip(u, j).id implies t == u && i
        == j by {
        assert(r.has(t, at(t)[i]) && r.has(u, at(u)[j]));
        assert(part_at(s.tracks[t].clips, r.tracks[t].clips, at(t)));
        assert(at(t)[i] == at(u)[j]);
        if i < j {
            assert(at(t)[i] < at(t)[j]);
        }
        if j < i {
            assert(at(t)[j] < at(t)[i]);
        }
    }
}

/// Deleting clips keeps a reel tidy.
pub proof fn lemma_deleting_keeps_tidy(r: Reel, ids: Seq<u32>)
    requires
        r.tidy(),
    ensures
        r.less_ids(ids).tidy(),
{
    let s = r.less_ids(ids);
    let at = |t: int|
        choose|at: Seq<int>| part_at(without_ids(r.tracks[t].clips, ids), r.tracks[t].clips, at);
    assert forall|t: int| 0 <= t < r.tracks.len() implies part_at(
        (#[trigger] s.tracks[t]).clips,
        r.tracks[t].clips,
        at(t),
    ) by {
        let w = lemma_without_ids_is_part(r.tracks[t].clips, ids);
        assert(part_at(without_ids(r.tracks[t].clips, ids), r.tracks[t].clips, w));
    }
    lemma_parts_are_tidy(r, s, at);
}

/// Removing a source keeps a reel tidy.
pub proof fn lemma_removing_keeps_tidy(r: Reel, source: SourceId)
    requires
        r.tidy(),
    ensures
        r.less_source(source).tidy(),
{
    let s = r.less_source(source);
    let at = |t: int|
        choose|at: Seq<int>|
            part_at(without_source(r.tracks[t].clips, source), r.tracks[t].clips, at);
    assert forall|t: int| 0 <= t < r.tracks.len() implies part_at(
        (#[trigger] s.tracks[t]).clips,
        r.tracks[t].clips,
        at(t),
    ) by {
        let w = lemma_without_source_is_part(r.tracks[t].clips, source);
        assert(part_at(without_source(r.tracks[t].clips, source), r.tracks[t].clips, w));
    }
    lemma_parts_are_tidy(r, s, at);
}

/// What is left without some names: exactly the clips of other names.
proof fn lemma_without_ids(clips: Seq<Clip>, ids: Seq<u32>)
    ensures
        forall|c: Clip| #[trigger]
            without_ids(clips, ids).contains(c) <==> clips.contains(c) && !ids.contains(c.id),
    decreases clips.len(),
{
    if clips.len() > 0 {
        let front = clips.drop_last();
        lemma_without_ids(front, ids);
        let (old_kept, kept) = (without_ids(front, ids), without_ids(clips, ids));
        assert forall|c: Clip| #[trigger] kept.contains(c) <==> clips.contains(c) && !ids.contains(
            c.id,
        ) by {
            assert(clips =~= front.push(clips.last()));
            lemma_push_contains(front, clips.last(), c);
            if !ids.contains(clips.last().id) {
                lemma_push_contains(old_kept, clips.last(), c);
            }
        }
    }
}

/// What one more clip adds.
proof fn lemma_push_contains(s: Seq<Clip>, last: Clip, c: Clip)
    ensures
        s.push(last).contains(c) <==> s.contains(c) || c == last,
{
    if s.contains(c) {
        let k = choose|k: int| 0 <= k < s.len() && s[k] == c;
        assert(s.push(last)[k] == c);
    }
    assert(s.push(last)[s.len() as int] == last);
}

/// What is left without a source: exactly the clips of other sources.
proof fn lemma_without_source(clips: Seq<Clip>, source: SourceId)
    ensures
        forall|c: Clip| #[trigger]
            without_source(clips, source).contains(c) <==> clips.contains(c) && c.source != source,
    decreases clips.len(),
{
    if clips.len() > 0 {
        let front = clips.drop_last();
        lemma_without_source(front, source);
        let (old_kept, kept) = (without_source(front, source), without_source(clips, source));
        assert forall|c: Clip| #[trigger] kept.contains(c) <==> clips.contains(c) && c.source
            != source by {
            assert(clips =~= front.push(clips.last()));
            lemma_push_contains(front, clips.last(), c);
            if clips.last().source != source {
                lemma_push_contains(old_kept, clips.last(), c);
            }
        }
    }
}

/// Deleting takes away the clips of the names given, and no other, on every track.
pub proof fn lemma_deleted_clips_are_gone(r: Reel, ids: Seq<u32>, t: int, c: Clip)
    requires
        0 <= t < r.tracks.len(),
    ensures
        r.less_ids(ids).tracks[t].kind == r.tracks[t].kind,
        r.less_ids(ids).tracks[t].clips.contains(c) <==> r.tracks[t].clips.contains(c)
            && !ids.contains(c.id),
{
    lemma_without_ids(r.tracks[t].clips, ids);
}

/// Removing a source takes away its clips, and no other, on every track.
pub proof fn lemma_removed_source_has_no_clips(r: Reel, source: SourceId, t: int, c: Clip)
    requires
        0 <= t < r.tracks.len(),
    ensures
        r.less_source(source).tracks[t].kind == r.tracks[t].kind,
        r.less_source(source).tracks[t].clips.contains(c) <==> r.tracks[t].clips.contains(c)
            && c.source != source,
{
    lemma_without_source(r.tracks[t].clips, source);
}

/// A clip taken to another lane keeps a reel tidy.
pub proof fn lemma_relocating_keeps_tidy(r: Reel, track: int, idx: int, to: int)
    requires
        r.tidy(),
        r.has(track, idx),
        0 <= to < r.tracks.len(),
        to != track,
    ensures
        r.relocated(track, idx, to).tidy(),
{
    let s = r.relocated(track, idx, to);
    let was = |t: int, i: int|
        if t == to && i == r.tracks[to].clips.len() {
            (track, idx)
        } else if t == track && i >= idx {
            (t, i + 1)
        } else {
            (t, i)
        };
    assert forall|t: int, i: int| #[trigger] s.has(t, i) implies r.has(
        was(t, i).0,
        was(t, i).1,
    ) && r.clip(was(t, i).0, was(t, i).1) == s.clip(t, i) by {}
    assert forall|t: int, i: int, u: int, j: int|
        #![trigger s.has(t, i), s.has(u, j)]
        s.has(t, i) && s.has(u, j) && s.clip(t, i).id == s.clip(u, j).id implies t == u && i
        == j by {
        let (a, b) = (was(t, i), was(u, j));
        assert(r.has(a.0, a.1) && r.has(b.0, b.1));
        assert(a == b);
    }
}

/// A new clip keeps a reel tidy, as long as names last; its link may be any below the
/// counter.
pub proof fn lemma_a_new_clip_keeps_tidy(
    r: Reel,
    track: int,
    source: SourceId,
    length: Double,
    at: Double,
    link: Option<u32>,
)
    requires
        r.tidy(),
        0 <= track < r.tracks.len(),
        r.next_clip < u32::MAX,
        link matches Some(l) ==> l < r.next_link,
    ensures
        r.with_new(track, source, length, at, link).tidy(),
{
    let s = r.with_new(track, source, length, at, link);
    let n = r.tracks[track].clips.len() as int;
    assert forall|t: int, i: int| #[trigger] s.has(t, i) implies (t == track && i == n && s.clip(
        t,
        i,
    ).id == r.next_clip && s.clip(t, i).link == link) || (r.has(t, i) && r.clip(t, i) == s.clip(
        t,
        i,
    )) by {}
    assert forall|t: int, i: int, u: int, j: int|
        #![trigger s.has(t, i), s.has(u, j)]
        s.has(t, i) && s.has(u, j) && s.clip(t, i).id == s.clip(u, j).id implies t == u && i
        == j by {
        if !(t == track && i == n) && !(u == track && j == n) {
            assert(r.has(t, i) && r.has(u, j));
        }
    }
}

/// A drop from the pool keeps a reel tidy, as long as names and links last.
pub proof fn lemma_dropping_keeps_tidy(
    r: Reel,
    pool: Pool,
    source: SourceId,
    track: int,
    at: Double,
)
    requires
        r.tidy(),
        0 <= track < r.tracks.len(),
        r.can_drop(pool, source, track),
    ensures
        r.dropped(pool, source, track, at).tidy(),
{
    match r.tracks[track].kind {
        TrackKind::Video => if pool.has_video(source) {
            match pool.audio_duration(source) {
                None => lemma_a_new_clip_keeps_tidy(
                    r,
                    track,
                    source,
                    pool.drop_duration(source),
                    at,
                    None,
                ),
                Some(adur) => {
                    let (lane, grown) = r.sound_lane(at, at.plus(adur));
                    lemma_first_free_is_a_lane(r.tracks, at, at.plus(adur), 0);
                    assert(grown.tidy()) by {
                        assert forall|t: int, i: int| #[trigger] grown.has(t, i) implies r.has(
                            t,
                            i,
                        ) && r.clip(t, i) == grown.clip(t, i) by {}
                    }
                    let ready = Reel { next_link: (grown.next_link + 1) as u32, ..grown };
                    assert(ready.tidy()) by {
                        assert forall|t: int, i: int| #[trigger] ready.has(t, i) implies grown.has(
                            t,
                            i,
                        ) && grown.clip(t, i) == ready.clip(t, i) by {}
                    }
                    let link = Some(grown.next_link);
                    let d = pool.drop_duration(source);
                    lemma_a_new_clip_keeps_tidy(ready, track, source, d, at, link);
                    lemma_a_new_clip_keeps_tidy(
                        ready.with_new(track, source, d, at, link),
                        lane,
                        source,
                        adur,
                        at,
                        link,
                    );
                },
            }
        },
        TrackKind::Audio => match pool.audio_duration(source) {
            Some(adur) => lemma_a_new_clip_keeps_tidy(r, track, source, adur, at, None),
            None => {},
        },
    }
}

/// A free lane is one of the lanes.
proof fn lemma_first_free_is_a_lane(tracks: Seq<Lane>, start: Double, end: Double, from: int)
    requires
        0 <= from,
    ensures
        first_free(tracks, start, end, from) matches Some(i) ==> i < tracks.len(),
    decreases tracks.len() - from,
{
    if from < tracks.len() {
        lemma_first_free_is_a_lane(tracks, start, end, from + 1);
    }
}

/// A picture that is dropped with sound brings it along: the two new clips start together
/// and are linked to each other and to nothing else.
pub proof fn lemma_a_drop_ties_picture_and_sound(
    r: Reel,
    pool: Pool,
    source: SourceId,
    track: int,
    at: Double,
)
    requires
        r.tidy(),
        0 <= track < r.tracks.len(),
        r.tracks[track].kind == TrackKind::Video,
        pool.has_video(source),
        pool.audio_duration(source) is Some,
        r.next_clip + 1 < u32::MAX,
        r.next_link < u32::MAX,
        r.tracks.len() < usize::MAX,
    ensures
        ({
            let s = r.dropped(pool, source, track, at);
            let lane = r.sound_lane(at, at.plus(pool.audio_duration(source)->0)).0;
            let (v, a) = (s.tracks[track].clips.last(), s.tracks[lane].clips.last());
            &&& 0 <= lane < s.tracks.len() && lane != track
            &&& s.tracks[lane].kind == TrackKind::Audio
            &&& v.source == source && a.source == source
            &&& v.timeline_start == at && a.timeline_start == at
            &&& v.link == Some(r.next_link) && a.link == v.link
            &&& forall|t: int, i: int| #[trigger] r.has(t, i) ==> r.clip(t, i).link != v.link
        }),
{
    let adur = pool.audio_duration(source)->0;
    lemma_free_lane_is_audio(r.tracks, at, at.plus(adur), 0);
}

/// A free lane carries sound.
proof fn lemma_free_lane_is_audio(tracks: Seq<Lane>, start: Double, end: Double, from: int)
    requires
        0 <= from,
        tracks.len() < usize::MAX,
    ensures
        first_free(tracks, start, end, from) matches Some(i) ==> i < tracks.len()
            && tracks[i as int].kind == TrackKind::Audio,
    decreases tracks.len() - from,
{
    if from < tracks.len() {
        lemma_free_lane_is_audio(tracks, start, end, from + 1);
    }
}

/// Changing clips without renaming them keeps a reel tidy.
pub proof fn lemma_same_names_stay_tidy(r: Reel, s: Reel)
    requires
        r.tidy(),
        s.next_clip == r.next_clip,
        s.next_link == r.next_link,
        s.tracks.len() == r.tracks.len(),
        forall|t: int|
            0 <= t < r.tracks.len() ==> (#[trigger] s.tracks[t]).clips.len()
                == r.tracks[t].clips.len(),
        forall|t: int, i: int| #[trigger]
            s.has(t, i) ==> s.clip(t, i).id == r.clip(t, i).id && s.clip(t, i).link == r.clip(
                t,
                i,
            ).link,
    ensures
        s.tidy(),
{
    assert forall|t: int, i: int| #[trigger] s.has(t, i) implies r.has(t, i) by {
        assert(s.tracks[t].clips.len() == r.tracks[t].clips.len());
    }
    assert forall|t: int, i: int, u: int, j: int|
        #![trigger s.has(t, i), s.has(u, j)]
        s.has(t, i) && s.has(u, j) && s.clip(t, i).id == s.clip(u, j).id implies t == u && i
        == j by {
        assert(r.has(t, i) && r.has(u, j));
    }
}

} // verus!
