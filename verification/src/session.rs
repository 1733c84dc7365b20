//! The whole session, and its history.

use crate::canvas::ProjectChoice;
use crate::edit::Point;
use crate::ieee::{double, Double, Single};
use crate::input::DragMode;
use crate::media::{
    entries, known, lemma_known_keeps_all, titles_of, MediaPool, Pool,
};
use crate::project::Setting;
use crate::timeline::{clips_of, latest_end, Reel, SourceId, Timeline, TimelineSnapshot, ZERO};
use crate::title::{Title, Words};
use crate::ui::Rect;
use vstd::prelude::*;

verus! {

/// How many steps back the history keeps.
pub const UNDO_LIMIT: usize = 200;

/// One step of the history: everything that an edit can change.
pub struct EditSnapshot {
    pub timeline: TimelineSnapshot,
    pub pool_order: Vec<SourceId>,
    pub titles: Vec<(SourceId, Title)>,
}

/// What a step of the history holds.
#[verifier::ext_equal]
pub struct Step {
    pub reel: Reel,
    pub order: Seq<SourceId>,
    pub titles: Seq<(SourceId, Words)>,
}

impl View for EditSnapshot {
    type V = Step;

    open spec fn view(&self) -> Step {
        Step { reel: self.timeline@, order: self.pool_order@, titles: entries(self.titles@) }
    }
}

/// Whether two lists of titles are the same, number by number.
pub open spec fn titles_alike(a: Seq<(SourceId, Words)>, b: Seq<(SourceId, Words)>) -> bool {
    a.len() == b.len() && forall|i: int|
        0 <= i < a.len() ==> (#[trigger] a[i]).0 == b[i].0 && a[i].1.alike(b[i].1)
}

impl Step {
    /// Whether two steps are the same, number by number.
    #[verifier::opaque]
    pub open spec fn alike(self, o: Step) -> bool {
        self.reel.alike(o.reel) && self.order == o.order && titles_alike(self.titles, o.titles)
    }
}

/// Whether two orders of rows are the same.
fn same_rows(a: &Vec<SourceId>, b: &Vec<SourceId>) -> (r: bool)
    ensures
        r == (a@ == b@),
{
    if a.len() != b.len() {
        return false;
    }
    let mut i: usize = 0;
    while i < a.len()
        invariant
            i <= a.len() == b.len(),
            forall|j: int| 0 <= j < i ==> a@[j] == b@[j],
        decreases a.len() - i,
    {
        if a[i].0 != b[i].0 {
            return false;
        }
        i += 1;
    }
    proof {
        assert(a@ =~= b@);
    }
    true
}

/// Whether two lists of titles are the same, number by number.
fn same_titles(a: &Vec<(SourceId, Title)>, b: &Vec<(SourceId, Title)>) -> (r: bool)
    ensures
        r == titles_alike(entries(a@), entries(b@)),
{
    if a.len() != b.len() {
        return false;
    }
    let mut k: usize = 0;
    while k < a.len()
        invariant
            k <= a.len() == b.len(),
            forall|j: int|
                0 <= j < k ==> (#[trigger] entries(a@)[j]).0 == entries(b@)[j].0
                    && entries(a@)[j].1.alike(entries(b@)[j].1),
        decreases a.len() - k,
    {
        if a[k].0.0 != b[k].0.0 || !a[k].1.same(&b[k].1) {
            proof {
                let e = entries(a@)[k as int];
                assert(e == (a@[k as int].0, a@[k as int].1@));
            }
            return false;
        }
        k += 1;
    }
    true
}

impl EditSnapshot {
    /// Whether the two are the same, number by number.
    pub fn same(&self, o: &EditSnapshot) -> (r: bool)
        ensures
            r == self@.alike(o@),
    {
        proof {
            reveal(Step::alike);
        }
        self.timeline.same(&o.timeline) && same_rows(&self.pool_order, &o.pool_order)
            && same_titles(&self.titles, &o.titles)
    }
}

/// The clock that sound and picture follow.
#[derive(Copy, Clone, Debug, PartialEq)]
pub struct Clock {
    /// Where the playhead is, in seconds.
    pub position: Double,
    pub playing: bool,
    /// Whether what was mixed ahead belongs to another time.
    pub stale: bool,
}

impl Clock {
    /// With the playhead moved, not before the start.
    pub open spec fn spec_jumped(&self, t: Double) -> Clock {
        Clock { position: t.max(double(ZERO)), playing: self.playing, stale: true }
    }

    /// With the playhead moved, not before the start.
    #[verifier::when_used_as_spec(spec_jumped)]
    pub fn jumped(&self, t: Double) -> (r: Clock)
        ensures
            r == self.spec_jumped(t),
    {
        Clock { position: t.max(double(ZERO)), playing: self.playing, stale: true }
    }

    /// Started or stopped.
    pub open spec fn spec_switched(&self, playing: bool) -> Clock {
        Clock { position: self.position, playing, stale: self.stale || !playing }
    }

    /// Started or stopped.
    #[verifier::when_used_as_spec(spec_switched)]
    pub fn switched(&self, playing: bool) -> (r: Clock)
        ensures
            r == self.spec_switched(playing),
    {
        Clock { position: self.position, playing, stale: self.stale || !playing }
    }
}

/// Where the controls were last drawn.
#[derive(Copy, Clone, Debug, PartialEq)]
pub struct Buttons {
    /// The edit before, the frame before, play, the frame after, the edit after.
    pub transport: [Rect; 5],
    pub split: Rect,
    pub undo: Rect,
    pub redo: Rect,
    pub snap: Rect,
    pub delete: Rect,
    pub export: Rect,
    pub project: Rect,
    pub open: Rect,
    pub save: Rect,
    pub pool_open: Rect,
    pub pool_title: Rect,
}

/// Everything about the session that is not the edit itself.
#[derive(Copy, Clone, Debug, PartialEq)]
pub struct Desk {
    /// The size of the window, in points.
    pub width: Single,
    pub height: Single,
    pub cursor: Point,
    /// The share of the height above the timeline.
    pub split_top_bottom: Single,
    /// The share of the width that the pool has.
    pub split_pool_preview: Single,
    /// Where the canvas was last drawn, and at what scale.
    pub preview_canvas: Rect,
    pub preview_canvas_scale: Single,
    pub project_menu_open: bool,
    pub drag: DragMode,
    pub last_playing_source: Option<SourceId>,
    pub buttons: Buttons,
    /// The name of the selected clip.
    pub selected: Option<u32>,
    pub snap_enabled: bool,
    /// The view of the timeline that was asked for.
    pub view_start: Double,
    pub view_dur: Double,
    pub clock: Clock,
    /// Whether an export runs.
    pub exporting: bool,
    /// Whether anything changed since the last save.
    pub dirty: bool,
}

/// A row of the settings menu, where it was drawn.
#[derive(Copy, Clone, Debug, PartialEq)]
pub struct MenuItem {
    pub rect: Rect,
    pub choice: ProjectChoice,
}

/// A session.
pub struct Session {
    pub media: MediaPool,
    pub timeline: Timeline,
    pub canvas_res: Setting<(u32, u32)>,
    pub canvas_fps: Setting<Double>,
    pub menu_items: Vec<MenuItem>,
    /// The title being typed into, and what it said before.
    pub editing_title: Option<(SourceId, Title)>,
    pub undo_stack: Vec<EditSnapshot>,
    pub redo_stack: Vec<EditSnapshot>,
    /// How things stood before the edit in flight.
    pub pending_edit: Option<EditSnapshot>,
    /// How many edits are open inside each other.
    pub edit_depth: u32,
    pub desk: Desk,
}

/// What a session holds.
pub struct Sitting {
    pub pool: Pool,
    pub reel: Reel,
    pub res: Setting<(u32, u32)>,
    pub fps: Setting<Double>,
    pub menu: Seq<MenuItem>,
    pub typing: Option<(SourceId, Words)>,
    pub past: Seq<Step>,
    pub future: Seq<Step>,
    pub pending: Option<Step>,
    pub depth: u32,
    pub desk: Desk,
}

/// Snapshots as steps.
pub open spec fn steps(v: Seq<EditSnapshot>) -> Seq<Step> {
    Seq::new(v.len(), |i: int| v[i]@)
}

/// A snapshot, where there is one, as a step.
pub open spec fn step_of(s: Option<EditSnapshot>) -> Option<Step> {
    match s {
        Some(s) => Some(s@),
        None => None,
    }
}

/// A title in hand, where there is one.
pub open spec fn typed(t: Option<(SourceId, Title)>) -> Option<(SourceId, Words)> {
    match t {
        Some(t) => Some((t.0, t.1@)),
        None => None,
    }
}

impl View for Session {
    type V = Sitting;

    open spec fn view(&self) -> Sitting {
        Sitting {
            pool: self.media@,
            reel: self.timeline@,
            res: self.canvas_res,
            fps: self.canvas_fps,
            menu: self.menu_items@,
            typing: typed(self.editing_title),
            past: steps(self.undo_stack@),
            future: steps(self.redo_stack@),
            pending: step_of(self.pending_edit),
            depth: self.edit_depth,
            desk: self.desk,
        }
    }
}

impl Reel {
    /// How long the timeline is: where its last clip ends.
    pub open spec fn length(self) -> Double {
        latest_end(clips_of(self.tracks))
    }
}

impl Sitting {
    /// The session is well formed: every row of the pool shows a source.
    pub open spec fn sound(self) -> bool {
        self.pool.sound()
    }

    /// The step that would bring the session back to how it stands.
    pub open spec fn step(self) -> Step {
        Step {
            reel: self.reel,
            order: self.pool.order,
            titles: titles_of(self.pool.sources),
        }
    }

    /// With an edit opened; the outermost keeps how things stood.
    #[verifier::opaque]
    pub open spec fn begun(self) -> Sitting {
        Sitting {
            pending: if self.depth == 0 {
                Some(self.step())
            } else {
                self.pending
            },
            depth: (self.depth + 1) as u32,
            ..self
        }
    }

    /// With the newest step kept; the oldest goes where there are too many.
    pub open spec fn kept(self, before: Step) -> Seq<Step> {
        (if self.past.len() >= UNDO_LIMIT {
            self.past.remove(0)
        } else {
            self.past
        }).push(before)
    }

    /// With an edit closed. The outermost becomes a step of the history where it changed
    /// anything.
    #[verifier::opaque]
    pub open spec fn committed(self) -> Sitting {
        let depth = if self.depth == 0 {
            0u32
        } else {
            (self.depth - 1) as u32
        };
        if depth > 0 {
            Sitting { depth, ..self }
        } else {
            match self.pending {
                None => Sitting { depth, ..self },
                Some(before) => if before.alike(self.step()) {
                    Sitting { depth, pending: None, ..self }
                } else {
                    Sitting {
                        depth,
                        pending: None,
                        past: self.kept(before),
                        future: Seq::empty(),
                        desk: Desk { dirty: true, ..self.desk },
                        ..self
                    }
                },
            }
        }
    }

    /// Brought to a step of the history.
    #[verifier::opaque]
    pub open spec fn restored(self, to: Step) -> Sitting {
        let at = self.desk.clock.position;
        Sitting {
            reel: to.reel,
            pool: Pool {
                order: known(to.order, self.pool.sources.len()),
                ..self.pool
            }.all_retitled(to.titles),
            typing: None,
            pending: None,
            depth: 0,
            desk: Desk {
                drag: DragMode::Idle,
                last_playing_source: None,
                clock: if to.reel.length().lt(at) {
                    self.desk.clock.jumped(to.reel.length())
                } else {
                    self.desk.clock
                },
                ..self.desk
            },
            ..self
        }
    }

    /// One step back.
    #[verifier::opaque]
    pub open spec fn undone(self) -> Sitting {
        if self.past.len() == 0 {
            self
        } else {
            let r = self.restored(self.past.last());
            Sitting {
                past: self.past.drop_last(),
                future: self.future.push(self.step()),
                desk: Desk { dirty: true, ..r.desk },
                ..r
            }
        }
    }

    /// One step forth.
    #[verifier::opaque]
    pub open spec fn redone(self) -> Sitting {
        if self.future.len() == 0 {
            self
        } else {
            let r = self.restored(self.future.last());
            Sitting {
                future: self.future.drop_last(),
                past: self.past.push(self.step()),
                desk: Desk { dirty: true, ..r.desk },
                ..r
            }
        }
    }
}

impl Session {
    /// How things stand, as a step of the history.
    pub fn edit_snapshot(&self) -> (r: EditSnapshot)
        requires
            self@.sound(),
        ensures
            r@ == self@.step(),
    {
        EditSnapshot {
            timeline: self.timeline.snapshot(),
            pool_order: self.media.ids(),
            titles: self.media.title_snapshot(),
        }
    }

    /// Opens an edit. Edits nest; only the outermost makes a step.
    pub fn begin_edit(&mut self)
        requires
            old(self)@.sound(),
            old(self)@.depth < u32::MAX,
        ensures
            final(self)@ == old(self)@.begun(),
            final(self)@.sound(),
            final(self)@.depth == old(self)@.depth + 1,
            final(self)@.reel == old(self)@.reel,
            final(self)@.pool == old(self)@.pool,
            final(self)@.desk == old(self)@.desk,
    {
        proof {
            reveal(Sitting::begun);
        }
        if self.edit_depth == 0 {
            self.pending_edit = Some(self.edit_snapshot());
        }
        self.edit_depth = self.edit_depth + 1;
    }

    /// Closes an edit. One that changed nothing leaves no step.
    pub fn commit_edit(&mut self)
        requires
            old(self)@.sound(),
        ensures
            final(self)@ == old(self)@.committed(),
            final(self)@.sound(),
            final(self)@.depth == if old(self)@.depth == 0 {
                0
            } else {
                old(self)@.depth - 1
            },
            final(self)@.reel == old(self)@.reel,
            final(self)@.pool == old(self)@.pool,
            final(self)@.typing == old(self)@.typing,
            final(self)@.desk == (Desk { dirty: final(self)@.desk.dirty, ..old(self)@.desk }),
    {
        proof {
            reveal(Sitting::committed);
        }
        if self.edit_depth > 0 {
            self.edit_depth = self.edit_depth - 1;
        }
        if self.edit_depth > 0 {
            return;
        }
        match self.pending_edit.take() {
            None => {},
            Some(before) => {
                if before.same(&self.edit_snapshot()) {
                    return;
                }
                if self.undo_stack.len() >= UNDO_LIMIT {
                    let ghost was = self.undo_stack@;
                    self.undo_stack.remove(0);
                    proof {
                        assert(steps(self.undo_stack@) =~= steps(was).remove(0));
                    }
                }
                let ghost kept = self.undo_stack@;
                self.undo_stack.push(before);
                proof {
                    assert(steps(self.undo_stack@) =~= steps(kept).push(before@));
                }
                self.redo_stack.clear();
                proof {
                    assert(steps(self.redo_stack@) =~= Seq::empty());
                }
                self.desk.dirty = true;
            },
        }
    }

    /// Brings the session to a step of the history. A gesture in flight is dropped, and a
    /// playhead past the new end is pulled back.
    fn apply_snapshot(&mut self, snap: &EditSnapshot)
        requires
            old(self)@.sound(),
        ensures
            final(self)@ == old(self)@.restored(snap@),
            final(self)@.sound(),
    {
        proof {
            reveal(Sitting::restored);
        }
        self.desk.drag = DragMode::Idle;
        self.pending_edit = None;
        self.edit_depth = 0;
        self.timeline.restore(&snap.timeline);
        self.media.set_order(&snap.pool_order);
        self.media.restore_titles(&snap.titles);
        self.editing_title = None;
        self.desk.last_playing_source = None;
        let duration: Double = self.timeline.duration();
        if duration.lt(self.desk.clock.position) {
            self.desk.clock = self.desk.clock.jumped(duration);
        }
    }

    /// One step back.
    pub fn undo(&mut self)
        requires
            old(self)@.sound(),
        ensures
            final(self)@ == old(self)@.undone(),
            final(self)@.sound(),
    {
        proof {
            reveal(Sitting::restored);
            reveal(Sitting::undone);
        }
        let ghost was = self.undo_stack@;
        match self.undo_stack.pop() {
            None => {
                proof {
                    assert(steps(self.undo_stack@) =~= steps(was));
                }
            },
            Some(prev) => {
                proof {
                    assert(steps(self.undo_stack@) =~= steps(was).drop_last());
                    assert(steps(was).last() == prev@);
                }
                let current: EditSnapshot = self.edit_snapshot();
                self.apply_snapshot(&prev);
                let ghost ahead = self.redo_stack@;
                self.redo_stack.push(current);
                proof {
                    assert(steps(self.redo_stack@) =~= steps(ahead).push(current@));
                }
                self.desk.dirty = true;
            },
        }
    }

    /// One step forth.
    pub fn redo(&mut self)
        requires
            old(self)@.sound(),
        ensures
            final(self)@ == old(self)@.redone(),
            final(self)@.sound(),
    {
        proof {
            reveal(Sitting::restored);
            reveal(Sitting::redone);
        }
        let ghost was = self.redo_stack@;
        match self.redo_stack.pop() {
            None => {
                proof {
                    assert(steps(self.redo_stack@) =~= steps(was));
                }
            },
            Some(next) => {
                proof {
                    assert(steps(self.redo_stack@) =~= steps(was).drop_last());
                    assert(steps(was).last() == next@);
                }
                let current: EditSnapshot = self.edit_snapshot();
                self.apply_snapshot(&next);
                let ghost behind = self.undo_stack@;
                self.undo_stack.push(current);
                proof {
                    assert(steps(self.undo_stack@) =~= steps(behind).push(current@));
                }
                self.desk.dirty = true;
            },
        }
    }
}

/// The titles of some sources are listed by name, in order.
proof fn lemma_titles_in_order(sources: Seq<crate::media::Item>)
    requires
        sources.len() <= u32::MAX,
    ensures
        ({
            let t = titles_of(sources);
            &&& forall|i: int|
                0 <= i < t.len() ==> (#[trigger] t[i]).0.0 < sources.len()
                    && sources[t[i].0.0 as int].title == Some(t[i].1)
            &&& forall|i: int, j: int| 0 <= i < j < t.len() ==> (#[trigger] t[i]).0.0 < (#[trigger] t[j]).0.0
            &&& forall|k: int|
                0 <= k < sources.len() && (#[trigger] sources[k]).title is Some ==> exists|i: int|
                    0 <= i < t.len() && (#[trigger] t[i]).0.0 == k
        }),
    decreases sources.len(),
{
    let t = titles_of(sources);
    if sources.len() > 0 {
        let front = sources.drop_last();
        let before = titles_of(front);
        lemma_titles_in_order(front);
        assert forall|i: int| 0 <= i < t.len() implies (#[trigger] t[i]).0.0 < sources.len()
            && sources[t[i].0.0 as int].title == Some(t[i].1) by {
            if i < before.len() {
                assert(t[i] == before[i]);
                assert(front[before[i].0.0 as int] == sources[before[i].0.0 as int]);
            }
        }
        assert forall|i: int, j: int| 0 <= i < j < t.len() implies (#[trigger] t[i]).0.0 < (
        #[trigger] t[j]).0.0 by {
            assert(t[i] == before[i]);
            if j < before.len() {
                assert(t[j] == before[j]);
            }
        }
        assert forall|k: int|
            0 <= k < sources.len() && (#[trigger] sources[k]).title is Some implies exists|i: int|
            0 <= i < t.len() && (#[trigger] t[i]).0.0 == k by {
            if k < front.len() {
                assert(front[k] == sources[k]);
                let i = choose|i: int| 0 <= i < before.len() && (#[trigger] before[i]).0.0 == k;
                assert(t[i] == before[i]);
            } else {
                assert(t[t.len() - 1].0.0 == k);
            }
        }
    }
}

/// Putting titles back gives each of their sources those words, and touches nothing else
/// of the pool's shape.
proof fn lemma_titles_put_back(p: Pool, titles: Seq<(SourceId, Words)>)
    requires
        forall|i: int| 0 <= i < titles.len() ==> p.has((#[trigger] titles[i]).0),
        forall|i: int, j: int|
            0 <= i < j < titles.len() ==> (#[trigger] titles[i]).0.0 < (#[trigger] titles[j]).0.0,
    ensures
        ({
            let q = p.all_retitled(titles);
            &&& q.sources.len() == p.sources.len()
            &&& q.order == p.order
            &&& forall|i: int|
                0 <= i < titles.len() ==> (q.item((#[trigger] titles[i]).0).title matches Some(w) && (w
                    == titles[i].1 || w.alike(titles[i].1)))
        }),
    decreases titles.len(),
{
    if titles.len() > 0 {
        let front = titles.drop_last();
        assert forall|i: int| 0 <= i < front.len() implies p.has((#[trigger] front[i]).0) by {
            assert(front[i] == titles[i]);
        }
        assert forall|i: int, j: int| 0 <= i < j < front.len() implies (#[trigger] front[i]).0.0 < (
        #[trigger] front[j]).0.0 by {
            assert(front[i] == titles[i] && front[j] == titles[j]);
        }
        lemma_titles_put_back(p, front);
        let q = p.all_retitled(front);
        let last = titles[titles.len() - 1];
        assert(p.has(last.0));
        assert forall|i: int| 0 <= i < titles.len() implies (p.all_retitled(titles).item(
            (#[trigger] titles[i]).0,
        ).title matches Some(w) && (w == titles[i].1 || w.alike(titles[i].1))) by {
            if i < front.len() {
                assert(front[i] == titles[i]);
                assert(titles[i].0.0 < last.0.0);
            }
        }
    }
}

/// Whether the words of every title in `a` stand in `b`, number by number.
pub open spec fn words_stand(a: Pool, b: Pool) -> bool {
    forall|id: SourceId| #[trigger]
        a.has(id) && a.item(id).title is Some ==> b.has(id) && (b.item(id).title matches Some(w) && (
        w == a.item(id).title->0 || w.alike(a.item(id).title->0)))
}

/// Restoring a step brings back the timeline, the rows of the pool and the words of its
/// titles, for every pool that has kept the sources.
pub proof fn lemma_restoring_brings_back(s: Sitting, now: Sitting)
    requires
        s.sound(),
        now.sound(),
        s.pool.sources.len() <= now.pool.sources.len(),
    ensures
        ({
            let r = now.restored(s.step());
            &&& r.reel == s.reel
            &&& r.pool.order == s.pool.order
            &&& words_stand(s.pool, r.pool)
            &&& r.pool.sources.len() == now.pool.sources.len()
        }),
{
    reveal(Sitting::restored);
    let n = now.pool.sources.len();
    lemma_known_keeps_all(s.pool.order, n);
    lemma_titles_in_order(s.pool.sources);
    let t = titles_of(s.pool.sources);
    let p = Pool { order: known(s.pool.order, n), ..now.pool };
    lemma_titles_put_back(p, t);
    let r = now.restored(s.step());
    assert(r.pool == p.all_retitled(t));
    assert forall|id: SourceId| #[trigger]
        s.pool.has(id) && s.pool.item(id).title is Some implies r.pool.has(id) && (r.pool.item(
        id,
    ).title matches Some(w) && (w == s.pool.item(id).title->0 || w.alike(
        s.pool.item(id).title->0,
    ))) by {
        let k = id.0 as int;
        assert(s.pool.sources[k].title is Some);
        let i = choose|i: int| 0 <= i < t.len() && (#[trigger] t[i]).0.0 == k;
        assert(t[i].0 == id);
    }
}

/// Undoing an edit that was closed brings back how things stood when it was opened; redoing
/// brings back how they stood when it was closed. `s` is the session before the edit, `e`
/// the one in which the edit is about to close.
pub proof fn lemma_undo_and_redo(s: Sitting, e: Sitting)
    requires
        s.sound(),
        e.sound(),
        e.depth == 1,
        e.pending == Some(s.step()),
        !s.step().alike(e.step()),
        s.pool.sources.len() <= e.pool.sources.len(),
    ensures
        ({
            let u = e.committed().undone();
            let r = u.redone();
            &&& u.reel == s.reel
            &&& u.pool.order == s.pool.order
            &&& words_stand(s.pool, u.pool)
            &&& r.reel == e.reel
            &&& r.pool.order == e.pool.order
            &&& words_stand(e.pool, r.pool)
            &&& r.past.len() == e.committed().past.len()
            &&& r.future == e.committed().future
        }),
{
    reveal(Sitting::restored);
    reveal(Sitting::committed);
    reveal(Sitting::redone);
    reveal(Sitting::undone);
    let c = e.committed();
    assert(c.past.last() == s.step());
    lemma_restoring_brings_back(s, c);
    let u = c.undone();
    assert(u.future.last() == c.step());
    assert(u.future.drop_last() =~= c.future);
    assert(u.sound());
    lemma_restoring_brings_back(c, u);
}

/// An edit that changes nothing leaves no step, where every number in it is one.
pub proof fn lemma_nothing_done_leaves_no_step(s: Sitting)
    requires
        s.depth == 0,
        s.pending is None,
        s.step().alike(s.step()),
    ensures
        s.begun().committed() == s,
{
    reveal(Sitting::committed);
    reveal(Sitting::begun);
}

/// An edit inside another makes no step of its own.
pub proof fn lemma_inner_edits_make_no_step(s: Sitting)
    requires
        0 < s.depth < u32::MAX,
    ensures
        s.begun().committed() == s,
{
    reveal(Sitting::committed);
    reveal(Sitting::begun);
}

/// The history never holds more steps than its limit, counting both ways.
pub proof fn lemma_history_is_bounded(s: Sitting)
    requires
        s.past.len() + s.future.len() <= UNDO_LIMIT,
    ensures
        s.committed().past.len() + s.committed().future.len() <= UNDO_LIMIT,
        s.undone().past.len() + s.undone().future.len() <= UNDO_LIMIT,
        s.redone().past.len() + s.redone().future.len() <= UNDO_LIMIT,
{
    reveal(Sitting::restored);
    reveal(Sitting::committed);
    reveal(Sitting::redone);
    reveal(Sitting::undone);
}

} // verus!
