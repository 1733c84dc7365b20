//! What can be asked of a session, one command at a time.

use crate::canvas::ProjectChoice;
use crate::edit::{lemma_countable, lemma_siblings, opacities, Place, Range};
use crate::ieee::{single, Double, Single};
use crate::media::{titles_of, without, Item, Pool};
use crate::project::{Route, Setting};
use crate::session::{Desk, Session, Sitting};
use crate::strings::chars_of;
use crate::timeline::{lanes, Clip, Lane, Reel, SourceId, Timeline, Track, TrackKind, UNITY};
use crate::title::{placeholder, Title, Words, DEFAULT_SIZE};
use crate::ui::Color;
use vstd::prelude::*;

verus! {

/// One press of a level key, `1` decibel.
pub const GAIN_STEP_DB: u32 = 0x3f80_0000;

/// One fine press of a level key, `0.1` decibels.
pub const GAIN_STEP_FINE_DB: u32 = 0x3dcc_cccd;

/// One press of a level key on a picture, `0.05`.
pub const OPACITY_STEP: u32 = 0x3d4c_cccd;

/// One fine press of a level key on a picture, `0.01`.
pub const OPACITY_STEP_FINE: u32 = 0x3c23_d70a;

impl Reel {
    /// Whether the clip at a place is the first one called `id`, lane by lane.
    pub open spec fn is_first(self, id: u32, p: Place) -> bool {
        &&& self.has(p.track as int, p.idx as int)
        &&& self.clip(p.track as int, p.idx as int).id == id
        &&& forall|u: int, j: int| #[trigger]
            self.has(u, j) && (u < p.track || (u == p.track && j < p.idx)) ==> self.clip(u, j).id
                != id
    }

    /// The place of the first clip called `id`.
    pub open spec fn found(self, id: u32) -> Option<Place> {
        if exists|p: Place| self.is_first(id, p) {
            Some(choose|p: Place| self.is_first(id, p))
        } else {
            None
        }
    }

    /// The reel without the clips of some names.
    pub open spec fn less_ids(self, ids: Seq<u32>) -> Reel {
        Reel {
            tracks: Seq::new(
                self.tracks.len(),
                |t: int|
                    Lane {
                        kind: self.tracks[t].kind,
                        clips: without_ids(self.tracks[t].clips, ids),
                    },
            ),
            ..self
        }
    }

    /// The names of the clips at some places.
    pub open spec fn ids_at(self, at: Seq<Place>) -> Seq<u32> {
        Seq::new(at.len(), |k: int| self.clip(at[k].track as int, at[k].idx as int).id)
    }
}

/// The clips whose names are not among some, in order.
pub open spec fn without_ids(clips: Seq<Clip>, ids: Seq<u32>) -> Seq<Clip>
    decreases clips.len(),
{
    if clips.len() == 0 {
        Seq::empty()
    } else if ids.contains(clips.last().id) {
        without_ids(clips.drop_last(), ids)
    } else {
        without_ids(clips.drop_last(), ids).push(clips.last())
    }
}

/// There is one first clip of a name.
pub proof fn lemma_first_is_unique(r: Reel, id: u32, p: Place)
    requires
        r.is_first(id, p),
    ensures
        r.found(id) == Some(p),
{
    let q = choose|q: Place| r.is_first(id, q);
    assert(r.is_first(id, q));
    assert(r.has(p.track as int, p.idx as int));
    assert(r.has(q.track as int, q.idx as int));
    assert(p.track == q.track && p.idx == q.idx);
}

/// Whether a character is a control character.
pub open spec fn control(c: char) -> bool {
    c <= '\u{1f}' || ('\u{7f}' <= c && c <= '\u{9f}')
}

/// What typing a text adds to a title: every character but control characters, line
/// breaks kept.
pub open spec fn typed_part(s: Seq<char>) -> Seq<char>
    decreases s.len(),
{
    if s.len() == 0 {
        Seq::empty()
    } else if control(s.last()) && s.last() != '\n' {
        typed_part(s.drop_last())
    } else {
        typed_part(s.drop_last()).push(s.last())
    }
}

/// A new title.
pub open spec fn fresh_title() -> Words {
    Words {
        text: placeholder(),
        size: single(DEFAULT_SIZE),
        color: Color { r: single(UNITY), g: single(UNITY), b: single(UNITY), a: single(UNITY) },
    }
}

impl Sitting {
    /// Where the selected clip is.
    pub open spec fn chosen(self) -> Option<Place> {
        match self.desk.selected {
            Some(id) => self.reel.found(id),
            None => None,
        }
    }

    /// With the text of the title in hand accepted.
    pub open spec fn titled(self) -> Sitting {
        if self.typing is Some {
            Sitting { typing: None, ..self }.committed()
        } else {
            self
        }
    }

    /// With the title of a source in hand, where it has one.
    pub open spec fn titling(self, source: SourceId) -> Sitting {
        if self.pool.has(source) && self.pool.item(source).title is Some {
            Sitting {
                typing: Some((source, self.pool.item(source).title->0)),
                ..self.titled()
            }.begun()
        } else {
            self
        }
    }

    /// With the words of the title in hand put back.
    #[verifier::opaque]
    pub open spec fn untitled(self) -> Sitting {
        match self.typing {
            None => self,
            Some((source, before)) => Sitting {
                typing: None,
                pool: self.pool.retitled(source, before),
                ..self
            }.committed(),
        }
    }

    /// With other words for the title in hand.
    #[verifier::opaque]
    pub open spec fn reworded(self, text: Seq<char>) -> Sitting {
        match self.typing {
            None => self,
            Some((source, _)) => if self.pool.has(source) && self.pool.item(source).title is Some
                && text != self.pool.item(source).title->0.text {
                Sitting {
                    pool: self.pool.retitled(
                        source,
                        Words { text, ..self.pool.item(source).title->0 },
                    ),
                    ..self
                }
            } else {
                self
            },
        }
    }

    /// The text of the title in hand.
    pub open spec fn text_in_hand(self) -> Seq<char> {
        match self.typing {
            Some((source, _)) => if self.pool.has(source) && self.pool.item(source).title is Some {
                self.pool.item(source).title->0.text
            } else {
                Seq::empty()
            },
            None => Seq::empty(),
        }
    }

    /// With a new title in the pool, in hand.
    #[verifier::opaque]
    pub open spec fn with_title(self) -> Sitting {
        let b = self.begun();
        Sitting {
            pool: b.pool.with(
                Item {
                    name: fresh_title().pool_name(),
                    path: Route { absolute: false, parts: Seq::empty() },
                    video: None,
                    audio: None,
                    title: Some(fresh_title()),
                    revision: 0,
                    baked: None,
                },
            ),
            ..b
        }.committed().titling(SourceId(self.pool.sources.len() as u32))
    }

    /// With a row of the pool and every clip of its source gone.
    #[verifier::opaque]
    pub open spec fn less_source(self, id: SourceId) -> Sitting {
        let s = if self.typing matches Some((source, _)) && source == id {
            self.titled()
        } else {
            self
        };
        let b = s.begun();
        Sitting {
            pool: Pool { order: without(b.pool.order, id), ..b.pool },
            reel: b.reel.less_source(id),
            desk: Desk {
                last_playing_source: if b.desk.last_playing_source == Some(id) {
                    None
                } else {
                    b.desk.last_playing_source
                },
                ..b.desk
            },
            ..b
        }.committed()
    }

    /// With the level of the selected clip moved: to `gain` on an audio lane, by a step on
    /// a video one.
    #[verifier::opaque]
    pub open spec fn nudged(self, dir: Single, fine: bool, gain: Single, gains: Range) -> Sitting {
        match self.chosen() {
            None => self,
            Some(p) => {
                let (t, i) = (p.track as int, p.idx as int);
                let b = self.begun();
                let c = b.reel.clip(t, i);
                let n = match b.reel.tracks[t].kind {
                    TrackKind::Audio => Clip { gain: gains.kept(gain), ..c },
                    TrackKind::Video => Clip {
                        opacity: opacities().kept(
                            c.opacity.plus(
                                dir.times(
                                    if fine {
                                        single(OPACITY_STEP_FINE)
                                    } else {
                                        single(OPACITY_STEP)
                                    },
                                ),
                            ),
                        ),
                        ..c
                    },
                };
                Sitting { reel: b.reel.with_clip(t, i, n), ..b }.committed()
            },
        }
    }

    /// With every clip under the playhead split there.
    #[verifier::opaque]
    pub open spec fn split_here(self) -> Sitting {
        let b = self.begun();
        Sitting { reel: b.reel.split(self.desk.clock.position), ..b }.committed()
    }

    /// Without the selected clip and those linked to it.
    #[verifier::opaque]
    pub open spec fn less_selected(self) -> Sitting {
        match self.chosen() {
            None => self,
            Some(p) => {
                let doomed = self.reel.ids_at(
                    self.reel.siblings(p.track as int, p.idx as int),
                );
                let b = self.begun();
                let c = Sitting { reel: b.reel.less_ids(doomed), ..b }.committed();
                Sitting { desk: Desk { selected: None, ..c.desk }, ..c }
            },
        }
    }

    /// With a choice of the settings menu taken.
    #[verifier::opaque]
    pub open spec fn with_choice(self, choice: ProjectChoice) -> Sitting {
        let (res, fps) = match choice {
            ProjectChoice::Resolution(r) => (r, self.fps),
            ProjectChoice::Fps(f) => (self.res, f),
        };
        Sitting {
            res,
            fps,
            desk: Desk {
                dirty: self.desk.dirty || res != self.res || !self.fps.alike(fps),
                ..self.desk
            },
            ..self
        }
    }
}

/// A list of clips without those of some names.
fn clips_less(clips: &Vec<Clip>, ids: &Vec<u32>) -> (r: Vec<Clip>)
    ensures
        r@ == without_ids(clips@, ids@),
{
    let mut out: Vec<Clip> = Vec::new();
    let mut i: usize = 0;
    proof {
        assert(clips@.take(0) =~= Seq::empty());
    }
    while i < clips.len()
        invariant
            i <= clips.len(),
            out@ == without_ids(clips@.take(i as int), ids@),
        decreases clips.len() - i,
    {
        let c: Clip = clips[i];
        proof {
            assert(clips@.take(i + 1).drop_last() =~= clips@.take(i as int));
            assert(clips@.take(i + 1).last() == c);
        }
        if !listed(ids, c.id) {
            out.push(c);
        }
        i += 1;
    }
    proof {
        assert(clips@.take(clips.len() as int) =~= clips@);
    }
    out
}

/// Whether a name is among some.
fn listed(ids: &Vec<u32>, id: u32) -> (r: bool)
    ensures
        r == ids@.contains(id),
{
    let mut i: usize = 0;
    while i < ids.len()
        invariant
            i <= ids.len(),
            forall|j: int| 0 <= j < i ==> ids@[j] != id,
        decreases ids.len() - i,
    {
        if ids[i] == id {
            return true;
        }
        i += 1;
    }
    false
}

impl Timeline {
    /// The names of a clip and those linked to it.
    fn sibling_ids(&self, track: usize, idx: usize) -> (r: Vec<u32>)
        requires
            self@.has(track as int, idx as int),
        ensures
            r@ == self@.ids_at(self@.siblings(track as int, idx as int)),
    {
        let at: Vec<Place> = self.linked_siblings(track, idx);
        proof {
            lemma_countable(self);
            lemma_siblings(self@, track as int, idx as int);
        }
        let mut ids: Vec<u32> = Vec::new();
        let mut k: usize = 0;
        while k < at.len()
            invariant
                k <= at.len(),
                forall|j: int|
                    0 <= j < at.len() ==> self@.has((#[trigger] at@[j]).track as int, at@[j].idx as int),
                ids@ =~= self@.ids_at(at@).take(k as int),
            decreases at.len() - k,
        {
            let q: Place = at[k];
            proof {
                assert(self@.has(at@[k as int].track as int, at@[k as int].idx as int));
                assert(self@.ids_at(at@).take(k + 1) =~= self@.ids_at(at@).take(k as int).push(
                    self@.clip(q.track as int, q.idx as int).id,
                ));
            }
            ids.push(self.tracks[q.track].clips[q.idx].id);
            k += 1;
        }
        proof {
            assert(self@.ids_at(at@).take(at.len() as int) =~= self@.ids_at(at@));
        }
        ids
    }

    /// Drops the clips of some names.
    fn remove_ids(&mut self, ids: &Vec<u32>)
        ensures
            final(self)@ == old(self)@.less_ids(ids@),
    {
        let mut out: Vec<Track> = Vec::new();
        let mut i: usize = 0;
        while i < self.tracks.len()
            invariant
                i <= self.tracks.len(),
                *self == *old(self),
                lanes(out@) =~= self@.less_ids(ids@).tracks.take(i as int),
            decreases self.tracks.len() - i,
        {
            let t: Track = Track {
                kind: self.tracks[i].kind,
                clips: clips_less(&self.tracks[i].clips, ids),
            };
            let ghost before = out@;
            out.push(t);
            proof {
                assert(t@ =~= self@.less_ids(ids@).tracks[i as int]);
                assert(lanes(out@) =~= lanes(before).push(t@));
                assert(self@.less_ids(ids@).tracks.take(i + 1)
                    =~= self@.less_ids(ids@).tracks.take(i as int).push(t@));
            }
            i += 1;
        }
        self.tracks = out;
        proof {
            assert(self@.tracks =~= old(self)@.less_ids(ids@).tracks);
        }
    }
}

impl Session {
    /// Where the selected clip is.
    pub fn selected_place(&self) -> (r: Option<Place>)
        ensures
            r == self@.chosen(),
            r matches Some(p) ==> self@.reel.has(p.track as int, p.idx as int),
    {
        match self.desk.selected {
            None => None,
            Some(id) => match self.timeline.find(id) {
                None => {
                    proof {
                        if exists|p: Place| self@.reel.is_first(id, p) {
                            let p = choose|p: Place| self@.reel.is_first(id, p);
                            assert(self@.reel.has(p.track as int, p.idx as int));
                        }
                    }
                    None
                },
                Some((track, idx)) => {
                    let p: Place = Place { track, idx };
                    proof {
                        assert(self@.reel.is_first(id, p));
                        lemma_first_is_unique(self@.reel, id, p);
                    }
                    Some(p)
                },
            },
        }
    }

    /// Whether deleting would remove anything.
    pub fn has_selection(&self) -> (r: bool)
        ensures
            r == (self@.chosen() is Some),
    {
        self.selected_place().is_some()
    }

    /// Selects the clip at a place.
    pub fn select_clip_at(&mut self, track: usize, idx: usize)
        requires
            old(self)@.reel.has(track as int, idx as int),
        ensures
            final(self)@ == (Sitting {
                desk: Desk {
                    selected: Some(old(self)@.reel.clip(track as int, idx as int).id),
                    ..old(self)@.desk
                },
                ..old(self)@
            }),
    {
        self.desk.selected = Some(self.timeline.tracks[track].clips[idx].id);
    }

    /// Whether a title is being typed into.
    pub fn typing_title(&self) -> (r: bool)
        ensures
            r == (self@.typing is Some),
    {
        self.editing_title.is_some()
    }

    /// Accepts the text of the title in hand.
    pub fn finish_title_edit(&mut self)
        requires
            old(self)@.sound(),
        ensures
            final(self)@ == old(self)@.titled(),
            final(self)@.sound(),
            final(self)@.depth <= old(self)@.depth,
            final(self)@.reel == old(self)@.reel,
            final(self)@.pool == old(self)@.pool,
            final(self)@.desk == (Desk { dirty: final(self)@.desk.dirty, ..old(self)@.desk }),
    {
        if self.editing_title.is_some() {
            self.editing_title = None;
            self.commit_edit();
        }
    }

    /// Starts typing into the title of a source, where it has one.
    pub fn begin_title_edit(&mut self, source: SourceId)
        requires
            old(self)@.sound(),
            old(self)@.depth < u32::MAX,
        ensures
            final(self)@ == old(self)@.titling(source),
            final(self)@.sound(),
    {
        let title: Title = match self.media.title(source) {
            None => {
                return;
            },
            Some(t) => t.copy(),
        };
        self.finish_title_edit();
        self.editing_title = Some((source, title));
        self.begin_edit();
    }

    /// Starts typing into the title of the selected clip, where it has one.
    pub fn edit_selected_title(&mut self)
        requires
            old(self)@.sound(),
            old(self)@.depth < u32::MAX,
        ensures
            final(self)@ == (match old(self)@.chosen() {
                None => old(self)@,
                Some(p) => old(self)@.titling(
                    old(self)@.reel.clip(p.track as int, p.idx as int).source,
                ),
            }),
            final(self)@.sound(),
    {
        match self.selected_place() {
            None => {},
            Some(p) => {
                let source: SourceId = self.timeline.tracks[p.track].clips[p.idx].source;
                self.begin_title_edit(source);
            },
        }
    }

    /// Puts the words of the title in hand back; the edit then has nothing in it.
    pub fn cancel_title_edit(&mut self)
        requires
            old(self)@.sound(),
        ensures
            final(self)@ == old(self)@.untitled(),
            final(self)@.sound(),
    {
        proof {
            reveal(Sitting::untitled);
        }
        match self.editing_title.take() {
            None => {},
            Some((source, before)) => {
                self.media.set_title(source, before);
                self.commit_edit();
            },
        }
    }

    /// Adds typed text to the title in hand, without control characters.
    pub fn type_into_title(&mut self, text: &str)
        requires
            old(self)@.sound(),
        ensures
            final(self)@ == old(self)@.reworded(old(self)@.text_in_hand() + typed_part(text@)),
            final(self)@.sound(),
    {
        proof {
            reveal(Sitting::reworded);
        }
        let source: SourceId = match &self.editing_title {
            None => {
                return;
            },
            Some(t) => t.0,
        };
        let mut title: Title = match self.media.title(source) {
            None => {
                return;
            },
            Some(t) => t.copy(),
        };
        let ghost before = title@;
        let chars: Vec<char> = chars_of(text);
        let mut i: usize = 0;
        let mut grew: bool = false;
        proof {
            assert(chars@.take(0) =~= Seq::empty());
            assert(before.text + typed_part(Seq::empty()) =~= before.text);
        }
        while i < chars.len()
            invariant
                i <= chars.len(),
                title@ == (Words {
                    text: before.text + typed_part(chars@.take(i as int)),
                    ..before
                }),
                grew == (typed_part(chars@.take(i as int)).len() > 0),
            decreases chars.len() - i,
        {
            let c: char = chars[i];
            proof {
                assert(chars@.take(i + 1).drop_last() =~= chars@.take(i as int));
                assert(chars@.take(i + 1).last() == c);
            }
            if !(c <= '\u{1f}' || ('\u{7f}' <= c && c <= '\u{9f}')) || c == '\n' {
                title.text.push(c);
                grew = true;
                proof {
                    assert(before.text + typed_part(chars@.take(i + 1)) =~= (before.text
                        + typed_part(chars@.take(i as int))).push(c));
                }
            }
            i += 1;
        }
        proof {
            assert(chars@.take(chars.len() as int) =~= chars@);
            if grew {
                assert((before.text + typed_part(text@)).len() > before.text.len());
            } else {
                assert(before.text + typed_part(text@) =~= before.text);
            }
        }
        if grew {
            self.media.set_title(source, title);
        }
    }

    /// Takes the last character off the title in hand.
    pub fn backspace_title(&mut self)
        requires
            old(self)@.sound(),
        ensures
            final(self)@ == (if old(self)@.text_in_hand().len() > 0 {
                old(self)@.reworded(old(self)@.text_in_hand().drop_last())
            } else {
                old(self)@
            }),
            final(self)@.sound(),
    {
        proof {
            reveal(Sitting::reworded);
        }
        let source: SourceId = match &self.editing_title {
            None => {
                return;
            },
            Some(t) => t.0,
        };
        let mut title: Title = match self.media.title(source) {
            None => {
                return;
            },
            Some(t) => t.copy(),
        };
        if title.text.pop().is_some() {
            self.media.set_title(source, title);
        }
    }

    /// Adds a title to the pool and starts typing into it.
    pub fn add_title(&mut self)
        requires
            old(self)@.sound(),
            old(self)@.depth < u32::MAX,
            old(self)@.pool.sources.len() < u32::MAX,
        ensures
            final(self)@ == old(self)@.with_title(),
            final(self)@.sound(),
    {
        proof {
            reveal(Sitting::with_title);
        }
        self.begin_edit();
        let id: SourceId = self.media.add_title(Title::default());
        self.commit_edit();
        self.begin_title_edit(id);
    }

    /// Takes a row off the pool, and every clip of its source off the timeline.
    pub fn remove_source(&mut self, id: SourceId)
        requires
            old(self)@.sound(),
            old(self)@.depth < u32::MAX,
        ensures
            final(self)@ == old(self)@.less_source(id),
            final(self)@.sound(),
    {
        proof {
            reveal(Sitting::less_source);
        }
        let typing: bool = match &self.editing_title {
            Some(t) => t.0.0 == id.0,
            None => false,
        };
        if typing {
            self.finish_title_edit();
        }
        self.begin_edit();
        self.media.remove(id);
        self.timeline.remove_source(id);
        let last: Option<SourceId> = match self.desk.last_playing_source {
            Some(s) => if s.0 == id.0 {
                None
            } else {
                Some(s)
            },
            None => None,
        };
        self.desk.last_playing_source = last;
        self.commit_edit();
    }

    /// Moves the level of the selected clip: to `gain` on an audio lane, by a step of
    /// opacity on a video one.
    pub fn nudge_selected_level(&mut self, dir: Single, fine: bool, gain: Single, gains: Range)
        requires
            old(self)@.sound(),
            old(self)@.depth < u32::MAX,
            gains.sound(),
        ensures
            final(self)@ == old(self)@.nudged(dir, fine, gain, gains),
            final(self)@.sound(),
    {
        proof {
            reveal(Sitting::nudged);
        }
        match self.selected_place() {
            None => {},
            Some(p) => {
                self.begin_edit();
                match self.timeline.tracks[p.track].kind {
                    TrackKind::Audio => {
                        self.timeline.set_clip_gain(p.track, p.idx, gain, gains);
                    },
                    TrackKind::Video => {
                        let step: Single = if fine {
                            single(OPACITY_STEP_FINE)
                        } else {
                            single(OPACITY_STEP)
                        };
                        let opacity: Single = self.timeline.tracks[p.track].clips[p.idx].opacity;
                        self.timeline.set_clip_opacity(
                            p.track,
                            p.idx,
                            opacity.plus(dir.times(step)),
                        );
                    },
                }
                self.commit_edit();
            },
        }
    }

    /// Splits every clip under the playhead.
    pub fn split_at_playhead(&mut self)
        requires
            old(self)@.sound(),
            old(self)@.depth < u32::MAX,
            old(self)@.reel.can_split(old(self)@.desk.clock.position),
        ensures
            final(self)@ == old(self)@.split_here(),
            final(self)@.sound(),
    {
        proof {
            reveal(Sitting::split_here);
        }
        let t: Double = self.desk.clock.position;
        self.begin_edit();
        self.timeline.split_at(t);
        self.commit_edit();
    }

    /// Removes the selected clip and those linked to it.
    pub fn delete_selected(&mut self)
        requires
            old(self)@.sound(),
            old(self)@.depth < u32::MAX,
        ensures
            final(self)@ == old(self)@.less_selected(),
            final(self)@.sound(),
    {
        proof {
            reveal(Sitting::less_selected);
        }
        match self.selected_place() {
            None => {},
            Some(p) => {
                let doomed: Vec<u32> = self.timeline.sibling_ids(p.track, p.idx);
                self.begin_edit();
                self.timeline.remove_ids(&doomed);
                self.commit_edit();
                self.desk.selected = None;
            },
        }
    }

    /// Takes a choice of the settings menu. Choosing what holds already changes nothing.
    pub fn apply_project_choice(&mut self, choice: ProjectChoice)
        ensures
            final(self)@ == old(self)@.with_choice(choice),
            final(self)@.pool == old(self)@.pool,
    {
        proof {
            reveal(Sitting::with_choice);
        }
        match choice {
            ProjectChoice::Resolution(setting) => {
                let fps: Setting<Double> = self.canvas_fps;
                if !setting.same_size(&self.canvas_res) || !self.canvas_fps.same(&fps) {
                    self.desk.dirty = true;
                }
                self.canvas_res = setting;
            },
            ProjectChoice::Fps(setting) => {
                if !self.canvas_fps.same(&setting) {
                    self.desk.dirty = true;
                }
                self.canvas_fps = setting;
            },
        }
    }
}

/// Sources with the same titles list the same titles.
proof fn lemma_same_titles(a: Seq<Item>, b: Seq<Item>)
    requires
        a.len() == b.len(),
        forall|i: int| 0 <= i < a.len() ==> (#[trigger] a[i]).title == b[i].title,
    ensures
        titles_of(a) == titles_of(b),
    decreases a.len(),
{
    if a.len() > 0 {
        assert forall|i: int| 0 <= i < a.len() - 1 implies (#[trigger] a.drop_last()[i]).title
            == b.drop_last()[i].title by {
            assert(a.drop_last()[i] == a[i]);
        }
        lemma_same_titles(a.drop_last(), b.drop_last());
        assert(a[a.len() - 1].title == b[b.len() - 1].title);
    }
}

/// Typing that is given up leaves no trace: the title says what it said, nothing else
/// changed, and the history has no step for it.
pub proof fn lemma_typing_given_up_leaves_no_trace(s: Sitting, source: SourceId, text: Seq<char>)
    requires
        s.typing is None,
        s.depth == 0,
        s.pool.has(source),
        s.pool.item(source).title is Some,
        s.step().alike(s.step()),
    ensures
        ({
            let u = s.titling(source).reworded(text).untitled();
            &&& u.typing is None && u.depth == 0 && u.pending is None
            &&& u.past == s.past && u.future == s.future
            &&& u.step() == s.step()
            &&& u.pool.item(source).title == s.pool.item(source).title
            &&& u.desk == s.desk
        }),
{
    reveal(Sitting::begun);
    reveal(Sitting::reworded);
    reveal(Sitting::untitled);
    reveal(Sitting::committed);
    let w = s.pool.item(source).title->0;
    let typing = s.titling(source).reworded(text);
    let back = typing.pool.retitled(source, w);
    assert(back.sources.len() == s.pool.sources.len());
    assert forall|i: int| 0 <= i < back.sources.len() implies (#[trigger] back.sources[i]).title
        == s.pool.sources[i].title by {
        if i == source.0 {
            let now = typing.pool.item(source);
            assert(now.title is Some);
            if now.title->0.alike(w) {
                assert(now.title->0.text == w.text);
            }
        }
    }
    lemma_same_titles(back.sources, s.pool.sources);
}

} // verus!
