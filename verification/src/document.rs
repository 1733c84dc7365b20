//! The session on its way to a project file and back.

use crate::fmt::{decimal, decimal_of};
use crate::edit::{Point, INFINITY};
use crate::ieee::{double, single, Double, Single};
use crate::input::DragMode;
use crate::media::{file_name, lists, Footage, Item, MediaPool, Pool};
use crate::names::lemma_who_stands;
use crate::project::{
    lemma_resolve_undoes_store, CanvasSettings, Error, MediaPath, Project, Route, Setting,
    SourceEntry, TrackEntry, FORMAT_VERSION,
};
use crate::session::{Buttons, Clock, Desk, Session, Sitting};
use crate::split::lemma_member;
use crate::theme::{MEDIA_PREVIEW_SPLIT, TOP_BOTTOM_SPLIT};
use crate::timeline::{
    clips_of, copy_clips, lanes, lemma_clips_of_lane, lemma_clips_of_step, past_ids, past_links,
    Clip, Lane, Reel, SourceId, Timeline, Track, TrackKind, UNITY, ZERO,
};
use crate::ui::Rect;
use vstd::prelude::*;
use vstd::string::StringExecFns;

verus! {

/// What a project holds.
#[verifier::ext_equal]
pub struct Document {
    pub version: u32,
    pub canvas: CanvasSettings,
    pub sources: Seq<(SourceId, Route)>,
    pub tracks: Seq<Lane>,
}

/// The sources of a project.
pub open spec fn listed(v: Seq<SourceEntry>) -> Seq<(SourceId, Route)> {
    Seq::new(v.len(), |i: int| (v[i].id, v[i].path@))
}

/// The tracks of a project.
pub open spec fn laned(v: Seq<TrackEntry>) -> Seq<Lane> {
    Seq::new(v.len(), |i: int| Lane { kind: v[i].kind, clips: v[i].clips@ })
}

impl View for Project {
    type V = Document;

    open spec fn view(&self) -> Document {
        Document {
            version: self.version,
            canvas: self.canvas,
            sources: listed(self.sources@),
            tracks: laned(self.tracks@),
        }
    }
}

/// Some names, then those of the sources of some clips that are not among them, each once.
pub open spec fn with_used(ids: Seq<SourceId>, clips: Seq<Clip>) -> Seq<SourceId>
    decreases clips.len(),
{
    if clips.len() == 0 {
        ids
    } else {
        let so_far = with_used(ids, clips.drop_last());
        if so_far.contains(clips.last().source) {
            so_far
        } else {
            so_far.push(clips.last().source)
        }
    }
}

/// The sources of some names as a project in `dir` records them.
pub open spec fn recorded(ids: Seq<SourceId>, pool: Pool, dir: Route) -> Seq<(SourceId, Route)>
    decreases ids.len(),
{
    if ids.len() == 0 {
        Seq::empty()
    } else {
        let so_far = recorded(ids.drop_last(), pool, dir);
        if pool.has(ids.last()) {
            so_far.push((ids.last(), pool.item(ids.last()).path.stored(dir)))
        } else {
            so_far
        }
    }
}

/// What opening the file of a source gave: its picture and its sound, where it has them.
/// A file that could not be opened gave neither.
pub struct Opened {
    /// The path as text.
    pub text: String,
    pub video: Option<Footage>,
    pub audio: Option<Double>,
}

impl Opened {
    /// Whether the file gave anything.
    pub open spec fn usable(self) -> bool {
        self.video is Some || self.audio is Some
    }
}

/// How many of the first `n` files gave anything.
pub open spec fn usable_in(opened: Seq<Opened>, n: int) -> nat
    decreases n,
{
    if n <= 0 || n > opened.len() {
        0
    } else {
        usable_in(opened, n - 1) + if opened[n - 1].usable() {
            1nat
        } else {
            0nat
        }
    }
}

/// The pool with the first `n` sources of a project opened anew.
pub open spec fn reopened(
    sources: Seq<(SourceId, Route)>,
    opened: Seq<Opened>,
    dir: Route,
    n: int,
) -> Pool
    decreases n,
{
    if n <= 0 || n > sources.len() || n > opened.len() {
        Pool { sources: Seq::empty(), order: Seq::empty() }
    } else {
        let so_far = reopened(sources, opened, dir, n - 1);
        let o = opened[n - 1];
        if o.usable() {
            let path = sources[n - 1].1.resolved(dir);
            so_far.with(
                Item {
                    name: file_name(path, o.text@),
                    path,
                    video: o.video,
                    audio: o.audio,
                    title: None,
                    revision: 0,
                    baked: None,
                },
            )
        } else {
            so_far
        }
    }
}

/// The new name of a source among the first `n` of a project; none where it could not be
/// opened.
pub open spec fn renamed(
    sources: Seq<(SourceId, Route)>,
    opened: Seq<Opened>,
    id: SourceId,
    n: int,
) -> Option<SourceId>
    decreases n,
{
    if n <= 0 || n > sources.len() || n > opened.len() {
        None
    } else if sources[n - 1].0 == id && opened[n - 1].usable() {
        Some(SourceId(usable_in(opened, n - 1) as u32))
    } else {
        renamed(sources, opened, id, n - 1)
    }
}

/// The clips whose sources were opened, under their new names.
pub open spec fn kept_clips(
    clips: Seq<Clip>,
    sources: Seq<(SourceId, Route)>,
    opened: Seq<Opened>,
) -> Seq<Clip>
    decreases clips.len(),
{
    if clips.len() == 0 {
        Seq::empty()
    } else {
        let so_far = kept_clips(clips.drop_last(), sources, opened);
        match renamed(sources, opened, clips.last().source, sources.len() as int) {
            Some(source) => so_far.push(Clip { source, ..clips.last() }),
            None => so_far,
        }
    }
}

/// The lanes with the clips whose sources were opened.
pub open spec fn kept_lanes(
    tracks: Seq<Lane>,
    sources: Seq<(SourceId, Route)>,
    opened: Seq<Opened>,
) -> Seq<Lane> {
    Seq::new(
        tracks.len(),
        |i: int|
            Lane {
                kind: tracks[i].kind,
                clips: kept_clips(tracks[i].clips, sources, opened),
            },
    )
}

/// The name and the link of a clip can be counted past.
pub open spec fn countable(c: Clip) -> bool {
    c.id < u32::MAX && (c.link matches Some(l) ==> l < u32::MAX)
}

/// Every name and link of the clips can be counted past.
pub open spec fn countable_names(tracks: Seq<Lane>) -> bool {
    forall|t: int, i: int|
        0 <= t < tracks.len() && 0 <= i < tracks[t].clips.len() ==> countable(
            #[trigger] tracks[t].clips[i],
        )
}

/// The tracks of a blank session: two for pictures, two for sound.
pub open spec fn blank_lanes() -> Seq<Lane> {
    let v = Lane { kind: TrackKind::Video, clips: Seq::empty() };
    let a = Lane { kind: TrackKind::Audio, clips: Seq::empty() };
    seq![v, v, a, a]
}

/// The tracks of a blank session: two for pictures, two for sound.
pub fn default_tracks() -> (r: Vec<Track>)
    ensures
        lanes(r@) == blank_lanes(),
{
    let mut out: Vec<Track> = Vec::new();
    out.push(Track::new(TrackKind::Video));
    out.push(Track::new(TrackKind::Video));
    out.push(Track::new(TrackKind::Audio));
    out.push(Track::new(TrackKind::Audio));
    proof {
        assert(lanes(out@) =~= blank_lanes());
    }
    out
}

impl Desk {
    /// With nothing left that pointed into the timeline, at the start, stopped, clean.
    pub open spec fn rewound(self) -> Desk {
        Desk {
            selected: None,
            drag: DragMode::Idle,
            last_playing_source: None,
            clock: self.clock.switched(false).jumped(double(ZERO)),
            dirty: false,
            ..self
        }
    }
}

impl Sitting {
    /// The project that the session is, for a file in `dir`.
    pub open spec fn document(self, dir: Route) -> Document {
        Document {
            version: FORMAT_VERSION,
            canvas: CanvasSettings { resolution: self.res, fps: self.fps },
            sources: recorded(
                with_used(self.pool.order, clips_of(self.reel.tracks)),
                self.pool,
                dir,
            ),
            tracks: self.reel.tracks,
        }
    }

    /// A session on another timeline and pool, with no history.
    pub open spec fn replaced(
        self,
        pool: Pool,
        reel: Reel,
        res: Setting<(u32, u32)>,
        fps: Setting<Double>,
    ) -> Sitting {
        Sitting {
            pool,
            reel,
            res,
            fps,
            past: Seq::empty(),
            future: Seq::empty(),
            pending: None,
            depth: 0,
            desk: self.desk.rewound(),
            ..self
        }
    }

    /// A blank session.
    pub open spec fn blank(self) -> Sitting {
        self.replaced(
            Pool { sources: Seq::empty(), order: Seq::empty() },
            Reel { tracks: blank_lanes(), next_link: 0, next_clip: 0 },
            Setting::Auto,
            Setting::Auto,
        )
    }

    /// The session that a project is, with its sources opened anew.
    pub open spec fn loaded(self, d: Document, opened: Seq<Opened>, dir: Route) -> Sitting {
        let tracks = kept_lanes(d.tracks, d.sources, opened);
        self.replaced(
            reopened(d.sources, opened, dir, d.sources.len() as int),
            Reel {
                tracks,
                next_link: past_links(clips_of(tracks)) as u32,
                next_clip: past_ids(clips_of(tracks)) as u32,
            },
            d.canvas.resolution,
            d.canvas.fps,
        )
    }
}

/// A box that nothing was drawn in.
pub open spec fn no_box() -> Rect {
    Rect { x: single(0), y: single(0), w: single(0), h: single(0) }
}

impl Buttons {
    /// Controls that were not drawn yet.
    pub open spec fn unplaced() -> Buttons {
        let b = no_box();
        Buttons {
            transport: [b, b, b, b, b],
            split: b,
            undo: b,
            redo: b,
            snap: b,
            delete: b,
            export: b,
            project: b,
            open: b,
            save: b,
            pool_open: b,
            pool_title: b,
        }
    }
}

impl Desk {
    /// A desk in a window of this size where nothing was done yet.
    pub open spec fn fresh(width: Single, height: Single) -> Desk {
        Desk {
            width,
            height,
            cursor: Point { x: single(0), y: single(0) },
            split_top_bottom: single(TOP_BOTTOM_SPLIT),
            split_pool_preview: single(MEDIA_PREVIEW_SPLIT),
            preview_canvas: no_box(),
            preview_canvas_scale: single(UNITY),
            project_menu_open: false,
            drag: DragMode::Idle,
            last_playing_source: None,
            buttons: Buttons::unplaced(),
            selected: None,
            snap_enabled: true,
            view_start: double(ZERO),
            view_dur: double(INFINITY),
            clock: Clock { position: double(ZERO), playing: false, stale: false },
            exporting: false,
            dirty: false,
        }
    }
}

impl Sitting {
    /// A session in a window of this size where nothing was done yet.
    pub open spec fn fresh(width: Single, height: Single) -> Sitting {
        Sitting {
            pool: Pool { sources: Seq::empty(), order: Seq::empty() },
            reel: Reel { tracks: blank_lanes(), next_link: 0, next_clip: 0 },
            res: Setting::Auto,
            fps: Setting::Auto,
            menu: Seq::empty(),
            typing: None,
            past: Seq::empty(),
            future: Seq::empty(),
            pending: None,
            depth: 0,
            desk: Desk::fresh(width, height),
        }
    }
}

impl Session {
    /// A session in a window of this size where nothing was done yet.
    pub fn new(width: Single, height: Single) -> (r: Session)
        ensures
            r@ == Sitting::fresh(width, height),
            r@.sound(),
    {
        let b: Rect = Rect { x: single(0), y: single(0), w: single(0), h: single(0) };
        let transport: [Rect; 5] = [b, b, b, b, b];
        proof {
            assert(transport =~= Buttons::unplaced().transport);
        }
        let desk: Desk = Desk {
            width,
            height,
            cursor: Point { x: single(0), y: single(0) },
            split_top_bottom: single(TOP_BOTTOM_SPLIT),
            split_pool_preview: single(MEDIA_PREVIEW_SPLIT),
            preview_canvas: b,
            preview_canvas_scale: single(UNITY),
            project_menu_open: false,
            drag: DragMode::Idle,
            last_playing_source: None,
            buttons: Buttons {
                transport,
                split: b,
                undo: b,
                redo: b,
                snap: b,
                delete: b,
                export: b,
                project: b,
                open: b,
                save: b,
                pool_open: b,
                pool_title: b,
            },
            selected: None,
            snap_enabled: true,
            view_start: double(ZERO),
            view_dur: double(INFINITY),
            clock: Clock { position: double(ZERO), playing: false, stale: false },
            exporting: false,
            dirty: false,
        };
        let mut timeline: Timeline = Timeline::new();
        timeline.tracks = default_tracks();
        let r: Session = Session {
            media: MediaPool::new(),
            timeline,
            canvas_res: Setting::Auto,
            canvas_fps: Setting::Auto,
            menu_items: Vec::new(),
            editing_title: None,
            undo_stack: Vec::new(),
            redo_stack: Vec::new(),
            pending_edit: None,
            edit_depth: 0,
            desk,
        };
        proof {
            assert(r@.menu =~= Seq::empty());
            assert(r@.past =~= Seq::empty());
            assert(r@.future =~= Seq::empty());
        }
        r
    }
}

/// Adds the sources of the clips of a timeline to some names, each once.
fn add_used(timeline: &Timeline, order: Vec<SourceId>) -> (r: Vec<SourceId>)
    ensures
        r@ == with_used(order@, clips_of(timeline@.tracks)),
{
    let ghost ls = timeline@.tracks;
    let ghost first = order@;
    let mut ids: Vec<SourceId> = order;
    let mut t: usize = 0;
    proof {
        assert(ls.take(0) =~= Seq::empty());
    }
    while t < timeline.tracks.len()
        invariant
            t <= timeline.tracks.len(),
            ls == timeline@.tracks,
            ids@ == with_used(first, clips_of(ls.take(t as int))),
        decreases timeline.tracks.len() - t,
    {
        let mut i: usize = 0;
        proof {
            lemma_clips_of_lane(ls, t as int);
        }
        while i < timeline.tracks[t].clips.len()
            invariant
                t < timeline.tracks.len(),
                ls == timeline@.tracks,
                i <= timeline.tracks@[t as int].clips.len(),
                ids@ == with_used(
                    first,
                    clips_of(ls.take(t as int)) + ls[t as int].clips.take(i as int),
                ),
            decreases timeline.tracks@[t as int].clips.len() - i,
        {
            let source: SourceId = timeline.tracks[t].clips[i].source;
            proof {
                lemma_clips_of_step(ls, t as int, i as int);
                let was = clips_of(ls.take(t as int)) + ls[t as int].clips.take(i as int);
                assert(was.push(ls[t as int].clips[i as int]).drop_last() =~= was);
            }
            if !lists(&ids, source) {
                ids.push(source);
            }
            i += 1;
        }
        proof {
            lemma_clips_of_lane(ls, t as int);
        }
        t += 1;
    }
    proof {
        assert(ls.take(ls.len() as int) =~= ls);
    }
    ids
}

/// The sources of some names as a project in `dir` records them.
fn record(ids: &Vec<SourceId>, media: &MediaPool, dir: &MediaPath) -> (r: Vec<SourceEntry>)
    ensures
        listed(r@) == recorded(ids@, media@, dir@),
{
    let mut out: Vec<SourceEntry> = Vec::new();
    let mut i: usize = 0;
    proof {
        assert(ids@.take(0) =~= Seq::empty());
        assert(listed(out@) =~= Seq::empty());
    }
    while i < ids.len()
        invariant
            i <= ids.len(),
            listed(out@) == recorded(ids@.take(i as int), media@, dir@),
        decreases ids.len() - i,
    {
        let id: SourceId = ids[i];
        let ghost before = out@;
        proof {
            assert(ids@.take(i + 1).drop_last() =~= ids@.take(i as int));
            assert(ids@.take(i + 1).last() == id);
        }
        if let Some(s) = media.get(id) {
            let path: MediaPath = Project::store_path(&s.path, dir);
            let ghost route = path@;
            out.push(SourceEntry { id, path });
            proof {
                assert(listed(out@) =~= listed(before).push((id, route)));
            }
        }
        i += 1;
    }
    proof {
        assert(ids@.take(ids.len() as int) =~= ids@);
    }
    out
}

/// The tracks of a timeline as a project records them.
fn record_tracks(timeline: &Timeline) -> (r: Vec<TrackEntry>)
    ensures
        laned(r@) == timeline@.tracks,
{
    let mut out: Vec<TrackEntry> = Vec::new();
    let mut i: usize = 0;
    while i < timeline.tracks.len()
        invariant
            i <= timeline.tracks.len(),
            laned(out@) =~= timeline@.tracks.take(i as int),
        decreases timeline.tracks.len() - i,
    {
        let ghost before = out@;
        let e: TrackEntry = TrackEntry {
            kind: timeline.tracks[i].kind,
            clips: copy_clips(&timeline.tracks[i].clips),
        };
        let ghost lane = Lane { kind: e.kind, clips: e.clips@ };
        out.push(e);
        proof {
            assert(lane == timeline@.tracks[i as int]);
            assert(laned(out@) =~= laned(before).push(lane));
            assert(timeline@.tracks.take(i + 1) =~= timeline@.tracks.take(i as int).push(lane));
        }
        i += 1;
    }
    proof {
        assert(timeline@.tracks.take(timeline.tracks.len() as int) =~= timeline@.tracks);
    }
    out
}

/// The new name of a source.
fn new_name(names: &Vec<(SourceId, SourceId)>, id: SourceId) -> (r: Option<SourceId>)
    ensures
        r == last_named(names@, id),
{
    let mut i: usize = names.len();
    proof {
        assert(names@.take(names.len() as int) =~= names@);
    }
    while i > 0
        invariant
            i <= names.len(),
            last_named(names@, id) == last_named(names@.take(i as int), id),
        decreases i,
    {
        proof {
            assert(names@.take(i as int).drop_last() =~= names@.take(i - 1));
            assert(names@.take(i as int).last() == names@[i - 1]);
        }
        i -= 1;
        if names[i].0.0 == id.0 {
            return Some(names[i].1);
        }
    }
    proof {
        assert(names@.take(0) =~= Seq::empty());
    }
    None
}

/// The second of the last pair whose first is `id`.
pub open spec fn last_named(names: Seq<(SourceId, SourceId)>, id: SourceId) -> Option<SourceId>
    decreases names.len(),
{
    if names.len() == 0 {
        None
    } else if names.last().0 == id {
        Some(names.last().1)
    } else {
        last_named(names.drop_last(), id)
    }
}

/// The pairs of old and new names of the first `n` sources of a project.
pub open spec fn pairs(sources: Seq<(SourceId, Route)>, opened: Seq<Opened>, n: int) -> Seq<
    (SourceId, SourceId),
>
    decreases n,
{
    if n <= 0 || n > sources.len() || n > opened.len() {
        Seq::empty()
    } else if opened[n - 1].usable() {
        pairs(sources, opened, n - 1).push(
            (sources[n - 1].0, SourceId(usable_in(opened, n - 1) as u32)),
        )
    } else {
        pairs(sources, opened, n - 1)
    }
}

/// The last pair of a name is its new name.
proof fn lemma_pairs_rename(
    sources: Seq<(SourceId, Route)>,
    opened: Seq<Opened>,
    id: SourceId,
    n: int,
)
    ensures
        last_named(pairs(sources, opened, n), id) == renamed(sources, opened, id, n),
    decreases n,
{
    if !(n <= 0 || n > sources.len() || n > opened.len()) {
        lemma_pairs_rename(sources, opened, id, n - 1);
        let p = pairs(sources, opened, n);
        if opened[n - 1].usable() {
            assert(p.drop_last() =~= pairs(sources, opened, n - 1));
        }
    }
}

/// As many sources as files that gave anything.
proof fn lemma_reopened_len(
    sources: Seq<(SourceId, Route)>,
    opened: Seq<Opened>,
    dir: Route,
    n: int,
)
    requires
        n <= sources.len(),
        n <= opened.len(),
    ensures
        reopened(sources, opened, dir, n).sources.len() == usable_in(opened, n),
        usable_in(opened, n) <= if n < 0 {
            0
        } else {
            n
        },
    decreases n,
{
    if n > 0 {
        lemma_reopened_len(sources, opened, dir, n - 1);
    }
}

/// Opens the sources of a project anew: the pool, the pairs of old and new names, and how
/// many were missing.
fn reopen(project: &Project, opened: &Vec<Opened>, dir: &MediaPath) -> (r: (
    MediaPool,
    Vec<(SourceId, SourceId)>,
    usize,
))
    requires
        opened.len() == project.sources.len(),
        opened.len() < u32::MAX,
    ensures
        r.0@ == reopened(project@.sources, opened@, dir@, opened.len() as int),
        r.0@.sound(),
        r.1@ == pairs(project@.sources, opened@, opened.len() as int),
        r.2 == opened.len() - usable_in(opened@, opened.len() as int),
{
    let mut media: MediaPool = MediaPool::new();
    let mut names: Vec<(SourceId, SourceId)> = Vec::new();
    let mut missing: usize = 0;
    let mut i: usize = 0;
    let ghost ss = project@.sources;
    while i < opened.len()
        invariant
            i <= opened.len(),
            opened.len() == project.sources.len(),
            opened.len() < u32::MAX,
            ss == project@.sources,
            media@ == reopened(ss, opened@, dir@, i as int),
            media@.sound(),
            names@ == pairs(ss, opened@, i as int),
            missing == i - usable_in(opened@, i as int),
        decreases opened.len() - i,
    {
        proof {
            lemma_reopened_len(ss, opened@, dir@, i as int);
            assert(ss[i as int] == (project.sources@[i as int].id, project.sources@[i as int].path@));
        }
        let path: MediaPath = Project::resolve_path(&project.sources[i].path, dir);
        let o: &Opened = &opened[i];
        match media.add(path, o.text.as_str(), o.video, o.audio) {
            Some(id) => {
                names.push((project.sources[i].id, id));
            },
            None => {
                missing += 1;
            },
        }
        i += 1;
    }
    (media, names, missing)
}

/// The clips whose sources were opened, under their new names; and how many were not.
fn keep_clips(clips: &Vec<Clip>, names: &Vec<(SourceId, SourceId)>, project: &Project, opened: &Vec<
    Opened,
>) -> (r: (Vec<Clip>, usize))
    requires
        opened.len() == project.sources.len(),
        names@ == pairs(project@.sources, opened@, opened.len() as int),
    ensures
        r.0@ == kept_clips(clips@, project@.sources, opened@),
        r.1 == clips.len() - r.0.len(),
{
    let mut out: Vec<Clip> = Vec::new();
    let mut dropped: usize = 0;
    let mut i: usize = 0;
    let ghost ss = project@.sources;
    proof {
        assert(clips@.take(0) =~= Seq::empty());
    }
    while i < clips.len()
        invariant
            i <= clips.len(),
            ss == project@.sources,
            opened.len() == ss.len(),
            names@ == pairs(ss, opened@, opened.len() as int),
            out@ == kept_clips(clips@.take(i as int), ss, opened@),
            dropped == i - out.len(),
        decreases clips.len() - i,
    {
        let mut c: Clip = clips[i];
        proof {
            assert(clips@.take(i + 1).drop_last() =~= clips@.take(i as int));
            assert(clips@.take(i + 1).last() == c);
            lemma_pairs_rename(ss, opened@, c.source, ss.len() as int);
        }
        match new_name(names, c.source) {
            Some(source) => {
                c.source = source;
                out.push(c);
            },
            None => {
                dropped += 1;
            },
        }
        i += 1;
    }
    proof {
        assert(clips@.take(clips.len() as int) =~= clips@);
    }
    (out, dropped)
}

/// The clips that are kept can be counted past where those whose sources were opened can.
proof fn lemma_kept_are_countable(
    clips: Seq<Clip>,
    sources: Seq<(SourceId, Route)>,
    opened: Seq<Opened>,
)
    requires
        forall|i: int|
            0 <= i < clips.len() && (renamed(
                sources,
                opened,
                clips[i].source,
                sources.len() as int,
            ) is Some) ==> countable(#[trigger] clips[i]),
    ensures
        forall|k: int|
            0 <= k < kept_clips(clips, sources, opened).len() ==> countable(
                #[trigger] kept_clips(clips, sources, opened)[k],
            ),
    decreases clips.len(),
{
    if clips.len() > 0 {
        let front = clips.drop_last();
        let before = kept_clips(front, sources, opened);
        assert forall|i: int|
            0 <= i < front.len() && (renamed(
                sources,
                opened,
                front[i].source,
                sources.len() as int,
            ) is Some) implies countable(#[trigger] front[i]) by {
            assert(countable(clips[i]));
        }
        lemma_kept_are_countable(front, sources, opened);
        assert forall|k: int| 0 <= k < kept_clips(clips, sources, opened).len() implies countable(
            #[trigger] kept_clips(clips, sources, opened)[k],
        ) by {
            if k < before.len() {
                assert(countable(before[k]));
            } else {
                assert(countable(clips[clips.len() - 1]));
            }
        }
    }
}

/// How many clips some lanes have.
pub open spec fn clip_count(tracks: Seq<Lane>) -> nat {
    clips_of(tracks).len()
}

/// What loading a project left out.
#[derive(Clone, Copy, Debug, PartialEq, Eq, Structural)]
pub struct Losses {
    /// Sources that could not be opened.
    pub missing: usize,
    /// Clips of those sources.
    pub dropped: usize,
}

impl Session {
    /// The project that the session is, for a file in `dir`. The whole pool goes in, not
    /// only what the timeline uses.
    pub fn as_project(&self, dir: &MediaPath) -> (r: Project)
        ensures
            r@ == self@.document(dir@),
    {
        let ids: Vec<SourceId> = add_used(&self.timeline, self.media.ids());
        let sources: Vec<SourceEntry> = record(&ids, &self.media, dir);
        let tracks: Vec<TrackEntry> = record_tracks(&self.timeline);
        Project {
            version: FORMAT_VERSION,
            canvas: CanvasSettings { resolution: self.canvas_res, fps: self.canvas_fps },
            sources,
            tracks,
        }
    }

    /// Drops everything that pointed into the timeline, and the history.
    fn reset_session_state(&mut self)
        ensures
            final(self)@ == (Sitting {
                past: Seq::empty(),
                future: Seq::empty(),
                pending: None,
                depth: 0,
                desk: old(self)@.desk.rewound(),
                ..old(self)@
            }),
    {
        self.desk.selected = None;
        self.desk.drag = DragMode::Idle;
        self.desk.last_playing_source = None;
        self.desk.clock = self.desk.clock.switched(false).jumped(double(ZERO));
        self.desk.dirty = false;
        self.undo_stack = Vec::new();
        self.redo_stack = Vec::new();
        self.pending_edit = None;
        self.edit_depth = 0;
        proof {
            assert(self@.past =~= Seq::empty());
            assert(self@.future =~= Seq::empty());
        }
    }

    /// Starts over with an empty timeline.
    pub fn new_project(&mut self)
        ensures
            final(self)@ == old(self)@.blank(),
            final(self)@.sound(),
    {
        self.media = MediaPool::new();
        let mut timeline: Timeline = Timeline::new();
        timeline.tracks = default_tracks();
        self.timeline = timeline;
        self.canvas_res = Setting::Auto;
        self.canvas_fps = Setting::Auto;
        self.reset_session_state();
    }

    /// Records that the session stands in a file as it is.
    pub fn saved(&mut self)
        ensures
            final(self)@ == (Sitting {
                desk: Desk { dirty: false, ..old(self)@.desk },
                ..old(self)@
            }),
    {
        self.desk.dirty = false;
    }

    /// Replaces the session with a project whose sources were opened anew. Sources that
    /// gave nothing are left out, and their clips.
    pub fn load_project(&mut self, project: &Project, opened: &Vec<Opened>, dir: &MediaPath) -> (r:
        Losses)
        requires
            opened.len() == project.sources.len(),
            opened.len() < u32::MAX,
            countable_names(kept_lanes(project@.tracks, project@.sources, opened@)),
            clip_count(project@.tracks) <= usize::MAX,
        ensures
            final(self)@ == old(self)@.loaded(project@, opened@, dir@),
            final(self)@.sound(),
            r.missing == opened.len() - usable_in(opened@, opened.len() as int),
            r.dropped == clip_count(project@.tracks) - clip_count(
                kept_lanes(project@.tracks, project@.sources, opened@),
            ),
    {
        let (media, names, missing): (MediaPool, Vec<(SourceId, SourceId)>, usize) = reopen(
            project,
            opened,
            dir,
        );
        let (timeline, dropped): (Timeline, usize) = rebuild(project, opened, &names);
        self.media = media;
        self.timeline = timeline;
        self.canvas_res = project.canvas.resolution;
        self.canvas_fps = project.canvas.fps;
        self.reset_session_state();
        Losses { missing, dropped }
    }
}

/// Whether a source of a project was opened.
fn opens(project: &Project, opened: &Vec<Opened>, id: SourceId) -> (r: bool)
    requires
        opened.len() == project.sources.len(),
    ensures
        r == (renamed(project@.sources, opened@, id, opened.len() as int) is Some),
{
    let mut n: usize = opened.len();
    while n > 0
        invariant
            n <= opened.len(),
            opened.len() == project.sources.len(),
            renamed(project@.sources, opened@, id, opened.len() as int) == renamed(
                project@.sources,
                opened@,
                id,
                n as int,
            ),
        decreases n,
    {
        let o: &Opened = &opened[n - 1];
        if project.sources[n - 1].id == id && (o.video.is_some() || o.audio.is_some()) {
            return true;
        }
        n -= 1;
    }
    false
}

/// Whether the names of the clips that are kept of a project can be counted past.
pub fn is_loadable(project: &Project, opened: &Vec<Opened>) -> (r: bool)
    requires
        opened.len() == project.sources.len(),
    ensures
        r == countable_names(kept_lanes(project@.tracks, project@.sources, opened@)),
{
    let ghost ss = project@.sources;
    let ghost from = project@.tracks;
    let ghost to = kept_lanes(from, ss, opened@);
    let mut t: usize = 0;
    while t < project.tracks.len()
        invariant
            t <= project.tracks.len(),
            opened.len() == project.sources.len(),
            ss == project@.sources,
            from == project@.tracks,
            to == kept_lanes(from, ss, opened@),
            forall|u: int, k: int|
                0 <= u < t && 0 <= k < to[u].clips.len() ==> countable(#[trigger] to[u].clips[k]),
        decreases project.tracks.len() - t,
    {
        let clips: &Vec<Clip> = &project.tracks[t].clips;
        let mut i: usize = 0;
        while i < clips.len()
            invariant
                i <= clips.len(),
                t < project.tracks.len(),
                opened.len() == project.sources.len(),
                ss == project@.sources,
                from == project@.tracks,
                to == kept_lanes(from, ss, opened@),
                clips@ == from[t as int].clips,
                forall|k: int|
                    0 <= k < i && (renamed(ss, opened@, clips@[k].source, ss.len() as int) is Some)
                        ==> countable(#[trigger] clips@[k]),
            decreases clips.len() - i,
        {
            let c: Clip = clips[i];
            if opens(project, opened, c.source) && (c.id == u32::MAX || c.link == Some(u32::MAX)) {
                proof {
                    let k = lemma_kept_holds(clips@, i as int, ss, opened@);
                    assert(to[t as int].clips[k].id == c.id);
                }
                return false;
            }
            i += 1;
        }
        proof {
            lemma_kept_are_countable(clips@, ss, opened@);
        }
        t += 1;
    }
    true
}

/// A clip whose source was opened is kept; where it stands.
proof fn lemma_kept_holds(
    clips: Seq<Clip>,
    i: int,
    sources: Seq<(SourceId, Route)>,
    opened: Seq<Opened>,
) -> (k: int)
    requires
        0 <= i < clips.len(),
        renamed(sources, opened, clips[i].source, sources.len() as int) is Some,
    ensures
        0 <= k < kept_clips(clips, sources, opened).len(),
        kept_clips(clips, sources, opened)[k].id == clips[i].id,
        kept_clips(clips, sources, opened)[k].link == clips[i].link,
    decreases clips.len(),
{
    let front = clips.drop_last();
    if i == clips.len() - 1 {
        kept_clips(front, sources, opened).len() as int
    } else {
        lemma_kept_holds(front, i, sources, opened)
    }
}

/// The timeline of a project, with the clips whose sources were opened; and how many clips
/// were not.
fn rebuild(project: &Project, opened: &Vec<Opened>, names: &Vec<(SourceId, SourceId)>) -> (r: (
    Timeline,
    usize,
))
    requires
        opened.len() == project.sources.len(),
        names@ == pairs(project@.sources, opened@, opened.len() as int),
        countable_names(kept_lanes(project@.tracks, project@.sources, opened@)),
        clip_count(project@.tracks) <= usize::MAX,
    ensures
        ({
            let tracks = kept_lanes(project@.tracks, project@.sources, opened@);
            &&& r.0@ == (Reel {
                tracks,
                next_link: past_links(clips_of(tracks)) as u32,
                next_clip: past_ids(clips_of(tracks)) as u32,
            })
            &&& r.1 == clip_count(project@.tracks) - clip_count(tracks)
        }),
{
    let ghost ss = project@.sources;
    let ghost from = project@.tracks;
    let ghost to = kept_lanes(from, ss, opened@);
    let mut tracks: Vec<Track> = Vec::new();
    let mut dropped: usize = 0;
    let mut i: usize = 0;
    proof {
        assert(from.take(0) =~= Seq::empty());
        assert(to.take(0) =~= Seq::empty());
    }
    while i < project.tracks.len()
        invariant
            i <= project.tracks.len(),
            opened.len() == project.sources.len(),
            ss == project@.sources,
            from == project@.tracks,
            to == kept_lanes(from, ss, opened@),
            names@ == pairs(ss, opened@, opened.len() as int),
            lanes(tracks@) =~= to.take(i as int),
            dropped == clip_count(from.take(i as int)) - clip_count(to.take(i as int)),
            clip_count(from) <= usize::MAX,
        decreases project.tracks.len() - i,
    {
        let (clips, lost): (Vec<Clip>, usize) = keep_clips(
            &project.tracks[i].clips,
            names,
            project,
            opened,
        );
        let t: Track = Track { kind: project.tracks[i].kind, clips };
        let ghost before = tracks@;
        proof {
            assert(from[i as int].clips == project.tracks@[i as int].clips@);
            assert(t@ == to[i as int]);
            lemma_clips_of_lane(from, i as int);
            lemma_clips_of_lane(to, i as int);
            lemma_clip_count_grows(from, i + 1);
        }
        tracks.push(t);
        dropped = dropped + lost;
        proof {
            assert(lanes(tracks@) =~= lanes(before).push(t@));
            assert(to.take(i + 1) =~= to.take(i as int).push(t@));
        }
        i += 1;
    }
    let mut timeline: Timeline = Timeline::new();
    timeline.tracks = tracks;
    proof {
        assert(to.take(to.len() as int) =~= to);
        assert(from.take(from.len() as int) =~= from);
        assert(timeline@.tracks == to);
        assert forall|t: int, k: int| #[trigger] timeline@.has(t, k) implies timeline@.clip(
            t,
            k,
        ).id < u32::MAX && (timeline@.clip(t, k).link matches Some(l) ==> l < u32::MAX) by {
            assert(to[t].clips[k] == timeline@.clip(t, k));
        }
    }
    timeline.reseed_counters();
    proof {
        assert(timeline@ =~= (Reel {
            tracks: to,
            next_link: past_links(clips_of(to)) as u32,
            next_clip: past_ids(clips_of(to)) as u32,
        }));
    }
    (timeline, dropped)
}

/// More lanes have no fewer clips.
proof fn lemma_clip_count_grows(tracks: Seq<Lane>, n: int)
    requires
        0 <= n <= tracks.len(),
    ensures
        clip_count(tracks.take(n)) <= clip_count(tracks),
    decreases tracks.len() - n,
{
    if n < tracks.len() {
        lemma_clip_count_grows(tracks, n + 1);
        lemma_clips_of_lane(tracks, n);
    } else {
        assert(tracks.take(n) =~= tracks);
    }
}

/// The name of a project for the title bar: that of its file, or a word for a project
/// without one.
pub open spec fn shown_name(path: Option<Route>) -> Seq<char> {
    match path {
        Some(p) => file_name(p, "Untitled"@),
        None => "Untitled"@,
    }
}

/// A path, where there is one.
pub open spec fn route_of(path: Option<&MediaPath>) -> Option<Route> {
    match path {
        Some(p) => Some(p@),
        None => None,
    }
}

/// The name of a file, or another word where the path names none.
pub fn file_name_or(path: &MediaPath, other: &str) -> (r: String)
    ensures
        r@ == file_name(path@, other@),
{
    let n: usize = path.parts.len();
    let dots: String = "..".to_owned();
    if n > 0 && path.parts[n - 1] != dots {
        path.parts[n - 1].clone()
    } else {
        other.to_owned()
    }
}

/// The name of a project for the title bar.
pub fn project_display_name(path: Option<&MediaPath>) -> (r: String)
    ensures
        r@ == shown_name(route_of(path)),
{
    match path {
        Some(p) => file_name_or(p, "Untitled"),
        None => "Untitled".to_owned(),
    }
}

/// The title of the window: a dot before it while there is unsaved work.
pub fn window_title(dirty: bool, name: &str) -> (r: String)
    ensures
        r@ == (if dirty {
            "\u{2022} "@
        } else {
            ""@
        }) + name@ + " - videoEditor"@,
{
    let dot: String = if dirty {
        "\u{2022} ".to_owned()
    } else {
        "".to_owned()
    };
    let a: String = dot.concat(name);
    a.concat(" - videoEditor")
}

/// What is asked before unsaved work is thrown away.
pub fn discard_warning(action: &str, name: &str) -> (r: String)
    ensures
        r@ == action@ + " will discard unsaved changes to "@ + name@ + "."@,
{
    let a: String = action.to_owned();
    let b: String = a.concat(" will discard unsaved changes to ");
    let c: String = b.concat(name);
    c.concat(".")
}

/// What is said after a project was saved.
pub fn saved_status(name: &str) -> (r: String)
    ensures
        r@ == "Saved "@ + name@,
{
    let a: String = "Saved ".to_owned();
    a.concat(name)
}

/// What is said after a project could not be saved.
pub fn save_failed_status(e: &Error) -> (r: String)
    ensures
        r@ == "Save failed: "@ + e.said(),
{
    let a: String = "Save failed: ".to_owned();
    a.concat(e.message().as_str())
}

/// What is said after a project could not be opened.
pub fn open_failed_status(e: &Error) -> (r: String)
    ensures
        r@ == "Open failed: "@ + e.said(),
{
    let a: String = "Open failed: ".to_owned();
    a.concat(e.message().as_str())
}

/// What is said after a project was opened.
pub fn opened_status(name: &str, losses: Losses) -> (r: String)
    ensures
        r@ == if losses.missing == 0 {
            "Opened "@ + name@
        } else {
            "Opened "@ + name@ + ": "@ + decimal_of(losses.missing as nat) + " media missing, "@
                + decimal_of(losses.dropped as nat) + " clips dropped"@
        },
{
    let a: String = "Opened ".to_owned();
    let b: String = a.concat(name);
    if losses.missing == 0 {
        return b;
    }
    let c: String = b.concat(": ");
    let d: String = c.concat(decimal(losses.missing as u64).as_str());
    let e: String = d.concat(" media missing, ");
    let f: String = e.concat(decimal(losses.dropped as u64).as_str());
    f.concat(" clips dropped")
}

/// Every source of the first `n` names is recorded, in order.
proof fn lemma_recorded(ids: Seq<SourceId>, pool: Pool, dir: Route)
    requires
        forall|i: int| 0 <= i < ids.len() ==> pool.has(#[trigger] ids[i]),
    ensures
        recorded(ids, pool, dir).len() == ids.len(),
        forall|i: int|
            0 <= i < ids.len() ==> #[trigger] recorded(ids, pool, dir)[i] == (
                ids[i],
                pool.item(ids[i]).path.stored(dir),
            ),
    decreases ids.len(),
{
    if ids.len() > 0 {
        let front = ids.drop_last();
        assert forall|i: int| 0 <= i < front.len() implies pool.has(#[trigger] front[i]) by {
            assert(front[i] == ids[i]);
        }
        lemma_recorded(front, pool, dir);
        assert(ids.last() == ids[ids.len() - 1]);
        assert forall|i: int| 0 <= i < ids.len() implies #[trigger] recorded(ids, pool, dir)[i]
            == (ids[i], pool.item(ids[i]).path.stored(dir)) by {
            if i < front.len() {
                assert(recorded(ids, pool, dir)[i] == recorded(front, pool, dir)[i]);
            }
        }
    }
}

/// The names that a project records: those of the rows, then those that clips use.
proof fn lemma_with_used(ids: Seq<SourceId>, clips: Seq<Clip>, pool: Pool)
    requires
        forall|i: int| 0 <= i < ids.len() ==> pool.has(#[trigger] ids[i]),
        forall|i: int| 0 <= i < clips.len() ==> pool.has((#[trigger] clips[i]).source),
    ensures
        ids.len() <= with_used(ids, clips).len(),
        forall|i: int| 0 <= i < ids.len() ==> with_used(ids, clips)[i] == #[trigger] ids[i],
        forall|i: int|
            0 <= i < with_used(ids, clips).len() ==> pool.has(#[trigger] with_used(ids, clips)[i]),
        forall|i: int|
            0 <= i < clips.len() ==> with_used(ids, clips).contains((#[trigger] clips[i]).source),
    decreases clips.len(),
{
    if clips.len() > 0 {
        let front = clips.drop_last();
        assert forall|i: int| 0 <= i < front.len() implies pool.has(
            (#[trigger] front[i]).source,
        ) by {
            assert(front[i] == clips[i]);
        }
        lemma_with_used(ids, front, pool);
        let so_far = with_used(ids, front);
        let all = with_used(ids, clips);
        assert(clips.last() == clips[clips.len() - 1]);
        assert forall|i: int| 0 <= i < clips.len() implies all.contains(
            (#[trigger] clips[i]).source,
        ) by {
            if i < front.len() {
                assert(front[i] == clips[i]);
                let k = choose|k: int| 0 <= k < so_far.len() && so_far[k] == front[i].source;
                assert(all[k] == front[i].source);
            } else if !so_far.contains(clips.last().source) {
                assert(all[so_far.len() as int] == clips.last().source);
            }
        }
        assert forall|i: int| 0 <= i < all.len() implies pool.has(#[trigger] all[i]) by {
            if i < so_far.len() {
                assert(all[i] == so_far[i]);
            }
        }
        assert forall|i: int| 0 <= i < ids.len() implies all[i] == #[trigger] ids[i] by {
            assert(so_far[i] == ids[i]);
        }
    }
}

/// Whether every file gave something.
pub open spec fn all_usable(opened: Seq<Opened>) -> bool {
    forall|i: int| 0 <= i < opened.len() ==> (#[trigger] opened[i]).usable()
}

/// With every file usable, sources keep their places.
proof fn lemma_all_reopened(
    sources: Seq<(SourceId, Route)>,
    opened: Seq<Opened>,
    dir: Route,
    n: int,
)
    requires
        0 <= n <= sources.len() == opened.len(),
        all_usable(opened),
        sources.len() < u32::MAX,
    ensures
        usable_in(opened, n) == n,
        reopened(sources, opened, dir, n).sources.len() == n,
        reopened(sources, opened, dir, n).order.len() == n,
        forall|i: int|
            0 <= i < n ==> (#[trigger] reopened(sources, opened, dir, n).sources[i]).path
                == sources[i].1.resolved(dir) && reopened(sources, opened, dir, n).sources[i].video
                == opened[i].video && reopened(sources, opened, dir, n).sources[i].audio
                == opened[i].audio,
        forall|i: int|
            0 <= i < n ==> #[trigger] reopened(sources, opened, dir, n).order[i] == SourceId(
                i as u32,
            ),
    decreases n,
{
    if n > 0 {
        lemma_all_reopened(sources, opened, dir, n - 1);
        assert(opened[n - 1].usable());
        let so_far = reopened(sources, opened, dir, n - 1);
        let all = reopened(sources, opened, dir, n);
        assert forall|i: int| 0 <= i < n implies (#[trigger] all.sources[i]).path
            == sources[i].1.resolved(dir) && all.sources[i].video == opened[i].video
            && all.sources[i].audio == opened[i].audio by {
            if i < n - 1 {
                assert(all.sources[i] == so_far.sources[i]);
            }
        }
        assert forall|i: int| 0 <= i < n implies #[trigger] all.order[i] == SourceId(i as u32) by {
            if i < n - 1 {
                assert(all.order[i] == so_far.order[i]);
            }
        }
    }
}

/// With every file usable, a recorded source has a new name, that of a place where it was
/// recorded.
proof fn lemma_all_renamed(
    sources: Seq<(SourceId, Route)>,
    opened: Seq<Opened>,
    dir: Route,
    id: SourceId,
    n: int,
)
    requires
        0 <= n <= sources.len() == opened.len(),
        all_usable(opened),
        sources.len() < u32::MAX,
        exists|k: int| 0 <= k < n && sources[k].0 == id,
    ensures
        renamed(sources, opened, id, n) matches Some(s) && s.0 < n && sources[s.0 as int].0 == id,
    decreases n,
{
    lemma_all_reopened(sources, opened, dir, n - 1);
    assert(opened[n - 1].usable());
    if sources[n - 1].0 != id {
        lemma_all_renamed(sources, opened, dir, id, n - 1);
    }
}

/// Where every source has a new name, every clip is kept, under that name.
proof fn lemma_all_kept(clips: Seq<Clip>, sources: Seq<(SourceId, Route)>, opened: Seq<Opened>)
    requires
        forall|i: int|
            0 <= i < clips.len() ==> renamed(
                sources,
                opened,
                (#[trigger] clips[i]).source,
                sources.len() as int,
            ) is Some,
    ensures
        kept_clips(clips, sources, opened).len() == clips.len(),
        forall|i: int|
            0 <= i < clips.len() ==> #[trigger] kept_clips(clips, sources, opened)[i] == (Clip {
                source: renamed(sources, opened, clips[i].source, sources.len() as int)->0,
                ..clips[i]
            }),
    decreases clips.len(),
{
    if clips.len() > 0 {
        let front = clips.drop_last();
        assert forall|i: int| 0 <= i < front.len() implies renamed(
            sources,
            opened,
            (#[trigger] front[i]).source,
            sources.len() as int,
        ) is Some by {
            assert(front[i] == clips[i]);
        }
        lemma_all_kept(front, sources, opened);
        assert(clips.last() == clips[clips.len() - 1]);
        assert forall|i: int| 0 <= i < clips.len() implies #[trigger] kept_clips(
            clips,
            sources,
            opened,
        )[i] == (Clip {
            source: renamed(sources, opened, clips[i].source, sources.len() as int)->0,
            ..clips[i]
        }) by {
            if i < front.len() {
                assert(kept_clips(clips, sources, opened)[i] == kept_clips(
                    front,
                    sources,
                    opened,
                )[i]);
            }
        }
    }
}

impl Sitting {
    /// Whether every clip comes from a source of the pool.
    pub open spec fn sourced(self) -> bool {
        forall|t: int, i: int| #[trigger]
            self.reel.has(t, i) ==> self.pool.has(self.reel.clip(t, i).source)
    }

    /// Whether every file of the pool is found again from `dir`.
    pub open spec fn findable(self, dir: Route) -> bool {
        forall|i: int|
            0 <= i < self.pool.sources.len() ==> (#[trigger] self.pool.sources[i]).path.absolute
                || self.pool.sources[i].path.beneath(dir)
    }
}

/// Saving and loading give back the project. Where every file opens again, the tracks are
/// those that were saved, clip by clip, each clip as it was and from the same file; every
/// row of the pool is there, in order, with its file; and so is the canvas.
pub proof fn lemma_a_saved_project_comes_back(
    s: Sitting,
    now: Sitting,
    dir: Route,
    opened: Seq<Opened>,
)
    requires
        s.sound(),
        s.sourced(),
        s.findable(dir),
        opened.len() == s.document(dir).sources.len(),
        opened.len() < u32::MAX,
        all_usable(opened),
    ensures
        ({
            let l = now.loaded(s.document(dir), opened, dir);
            &&& l.res == s.res && l.fps == s.fps
            &&& l.reel.tracks.len() == s.reel.tracks.len()
            &&& forall|t: int|
                0 <= t < s.reel.tracks.len() ==> (#[trigger] l.reel.tracks[t]).kind
                    == s.reel.tracks[t].kind && l.reel.tracks[t].clips.len()
                    == s.reel.tracks[t].clips.len()
            &&& forall|t: int, i: int| #[trigger]
                s.reel.has(t, i) ==> {
                    let c = l.reel.clip(t, i);
                    &&& c == (Clip { source: c.source, ..s.reel.clip(t, i) })
                    &&& l.pool.has(c.source)
                    &&& l.pool.item(c.source).path == s.pool.item(s.reel.clip(t, i).source).path
                }
            &&& s.pool.order.len() <= l.pool.order.len()
            &&& forall|i: int|
                0 <= i < s.pool.order.len() ==> l.pool.has(#[trigger] l.pool.order[i])
                    && l.pool.item(l.pool.order[i]).path == s.pool.item(s.pool.order[i]).path
        }),
{
    let clips = clips_of(s.reel.tracks);
    let ids = with_used(s.pool.order, clips);
    let d = s.document(dir);
    let ss = d.sources;
    let n = ss.len() as int;
    assert forall|i: int| 0 <= i < clips.len() implies s.pool.has((#[trigger] clips[i]).source) by {
        lemma_clip_of_some_lane(s, i);
    }
    lemma_with_used(s.pool.order, clips, s.pool);
    lemma_recorded(ids, s.pool, dir);
    lemma_all_reopened(ss, opened, dir, n);
    let l = now.loaded(d, opened, dir);
    assert forall|i: int| 0 <= i < n implies (#[trigger] l.pool.sources[i]).path == s.pool.item(
        ids[i],
    ).path by {
        assert(ss[i] == (ids[i], s.pool.item(ids[i]).path.stored(dir)));
        assert(s.pool.has(ids[i]));
        let item = s.pool.sources[ids[i].0 as int];
        lemma_resolve_undoes_store(item.path, dir);
    }
    assert forall|t: int, i: int| #[trigger] s.reel.has(t, i) implies renamed(
        ss,
        opened,
        s.reel.clip(t, i).source,
        n,
    ) matches Some(name) && name.0 < n && ids[name.0 as int] == s.reel.clip(t, i).source by {
        let c = s.reel.clip(t, i);
        lemma_member(s.reel.tracks, t, i);
        let k = choose|k: int| 0 <= k < clips.len() && clips[k] == c;
        assert(ids.contains(clips[k].source));
        let j = choose|j: int| 0 <= j < ids.len() && ids[j] == c.source;
        assert(ss[j].0 == c.source);
        lemma_all_renamed(ss, opened, dir, c.source, n);
        let name = renamed(ss, opened, c.source, n)->0;
        assert(ss[name.0 as int] == (
            ids[name.0 as int],
            s.pool.item(ids[name.0 as int]).path.stored(dir),
        ));
    }
    assert forall|t: int| 0 <= t < s.reel.tracks.len() implies (#[trigger] l.reel.tracks[t]).kind
        == s.reel.tracks[t].kind && l.reel.tracks[t].clips.len() == s.reel.tracks[t].clips.len()
        && l.reel.tracks[t].clips == kept_clips(s.reel.tracks[t].clips, ss, opened) by {
        let lane = s.reel.tracks[t].clips;
        assert forall|i: int| 0 <= i < lane.len() implies renamed(
            ss,
            opened,
            (#[trigger] lane[i]).source,
            n,
        ) is Some by {
            assert(s.reel.has(t, i));
        }
        lemma_all_kept(lane, ss, opened);
    }
    assert forall|t: int, i: int| #[trigger] s.reel.has(t, i) implies ({
        let c = l.reel.clip(t, i);
        &&& c == (Clip { source: c.source, ..s.reel.clip(t, i) })
        &&& l.pool.has(c.source)
        &&& l.pool.item(c.source).path == s.pool.item(s.reel.clip(t, i).source).path
    }) by {
        let lane = s.reel.tracks[t].clips;
        assert forall|k: int| 0 <= k < lane.len() implies renamed(
            ss,
            opened,
            (#[trigger] lane[k]).source,
            n,
        ) is Some by {
            assert(s.reel.has(t, k));
        }
        lemma_all_kept(lane, ss, opened);
        assert(l.reel.tracks[t].clips == kept_clips(lane, ss, opened));
        let c = l.reel.clip(t, i);
        assert(l.pool.sources[c.source.0 as int].path == s.pool.item(
            ids[c.source.0 as int],
        ).path);
    }
    assert forall|i: int| 0 <= i < s.pool.order.len() implies l.pool.has(
        #[trigger] l.pool.order[i],
    ) && l.pool.item(l.pool.order[i]).path == s.pool.item(s.pool.order[i]).path by {
        assert(ids[i] == s.pool.order[i]);
        assert(l.pool.sources[i].path == s.pool.item(ids[i]).path);
    }
}

/// A clip among all stands on some lane.
proof fn lemma_clip_of_some_lane(s: Sitting, k: int)
    requires
        s.sourced(),
        0 <= k < clips_of(s.reel.tracks).len(),
    ensures
        s.pool.has(clips_of(s.reel.tracks)[k].source),
{
    let r = lemma_who_stands(s.reel.tracks, k);
    assert(s.reel.has(r.0, r.1));
}

} // verus!
