//! The media pool: every source that was imported or made, and the rows that show.

use crate::canvas::Canvas;
use crate::compose::SourceSize;
use crate::ieee::{double, Double};
use crate::project::{MediaPath, Route};
use crate::timeline::{SourceId, ZERO};
use crate::title::{Title, Words, DEFAULT_DURATION, MAX_DURATION};
use vstd::prelude::*;

verus! {

/// What is known of a file's picture.
#[derive(Copy, Clone, Debug, PartialEq)]
pub struct Footage {
    pub width: u32,
    pub height: u32,
    /// Length in seconds.
    pub duration: Double,
    /// Frames per second.
    pub frame_rate: Double,
}

/// What a title's picture was drawn for: a state of the title, with or without the
/// caret, at a size.
#[derive(Copy, Clone, Debug, PartialEq, Eq, Structural)]
pub struct Bake {
    pub revision: u64,
    pub caret: bool,
    pub width: u32,
    pub height: u32,
}

/// A source of pictures or sound.
pub struct Source {
    pub name: String,
    /// The file; no parts for a title.
    pub path: MediaPath,
    /// The picture, where the file has one.
    pub video: Option<Footage>,
    /// The length of the sound in seconds, where the file has any.
    pub audio: Option<Double>,
    /// The words of a title.
    pub title: Option<Title>,
    /// Changes whenever the title does.
    pub revision: u64,
    /// What the title's picture was last drawn for.
    pub baked: Option<Bake>,
}

/// What a source is.
#[verifier::ext_equal]
pub struct Item {
    pub name: Seq<char>,
    pub path: Route,
    pub video: Option<Footage>,
    pub audio: Option<Double>,
    pub title: Option<Words>,
    pub revision: u64,
    pub baked: Option<Bake>,
}

/// A title, or none, as words.
pub open spec fn words(t: Option<Title>) -> Option<Words> {
    match t {
        Some(t) => Some(t@),
        None => None,
    }
}

impl View for Source {
    type V = Item;

    open spec fn view(&self) -> Item {
        Item {
            name: self.name@,
            path: self.path@,
            video: self.video,
            audio: self.audio,
            title: words(self.title),
            revision: self.revision,
            baked: self.baked,
        }
    }
}

impl Item {
    /// The source with other words, redrawn from then on.
    pub open spec fn retitled(self, title: Words) -> Item {
        if self.title matches Some(t) && t.alike(title) {
            self
        } else {
            Item {
                name: title.pool_name(),
                title: Some(title),
                revision: if self.revision == u64::MAX {
                    0
                } else {
                    (self.revision + 1) as u64
                },
                ..self
            }
        }
    }

    /// The longest a clip of the source can be.
    pub open spec fn length(self) -> Double {
        if self.title is Some {
            double(MAX_DURATION)
        } else {
            match (self.video, self.audio) {
                (Some(v), _) => v.duration,
                (None, Some(a)) => a,
                (None, None) => double(ZERO),
            }
        }
    }
}

/// The pool. A source's name is its place in `sources`; only what `order` lists shows.
pub struct MediaPool {
    pub sources: Vec<Source>,
    pub order: Vec<SourceId>,
}

/// What a pool holds.
#[verifier::ext_equal]
pub struct Pool {
    pub sources: Seq<Item>,
    pub order: Seq<SourceId>,
}

/// Sources as items.
pub open spec fn items(sources: Seq<Source>) -> Seq<Item> {
    Seq::new(sources.len(), |i: int| sources[i]@)
}

impl View for MediaPool {
    type V = Pool;

    open spec fn view(&self) -> Pool {
        Pool { sources: items(self.sources@), order: self.order@ }
    }
}

/// Titles with the sources they belong to.
pub open spec fn entries(v: Seq<(SourceId, Title)>) -> Seq<(SourceId, Words)> {
    Seq::new(v.len(), |i: int| (v[i].0, v[i].1@))
}

/// The titles among some items, in order.
pub open spec fn titles_of(sources: Seq<Item>) -> Seq<(SourceId, Words)>
    decreases sources.len(),
{
    if sources.len() == 0 {
        Seq::empty()
    } else {
        let before = titles_of(sources.drop_last());
        match sources.last().title {
            Some(t) => before.push((SourceId((sources.len() - 1) as u32), t)),
            None => before,
        }
    }
}

/// The names that are not `id`, in order.
pub open spec fn without(order: Seq<SourceId>, id: SourceId) -> Seq<SourceId>
    decreases order.len(),
{
    if order.len() == 0 {
        Seq::empty()
    } else if order.last() == id {
        without(order.drop_last(), id)
    } else {
        without(order.drop_last(), id).push(order.last())
    }
}

/// The names of sources among the first `n`, in order.
pub open spec fn known(order: Seq<SourceId>, n: nat) -> Seq<SourceId>
    decreases order.len(),
{
    if order.len() == 0 {
        Seq::empty()
    } else if order.last().0 < n {
        known(order.drop_last(), n).push(order.last())
    } else {
        known(order.drop_last(), n)
    }
}

impl Pool {
    /// Whether a source has this name.
    pub open spec fn has(self, id: SourceId) -> bool {
        id.0 < self.sources.len()
    }

    /// The source of a name.
    pub open spec fn item(self, id: SourceId) -> Item {
        self.sources[id.0 as int]
    }

    /// Every row shows a source, and there are names for them all.
    pub open spec fn sound(self) -> bool {
        &&& self.sources.len() <= u32::MAX
        &&& forall|i: int| 0 <= i < self.order.len() ==> self.has(#[trigger] self.order[i])
    }

    /// With one more source, which shows last.
    pub open spec fn with(self, item: Item) -> Pool {
        Pool {
            sources: self.sources.push(item),
            order: self.order.push(SourceId(self.sources.len() as u32)),
        }
    }

    /// With other words for a source, where there is one of that name.
    pub open spec fn retitled(self, id: SourceId, title: Words) -> Pool {
        if self.has(id) {
            Pool {
                sources: self.sources.update(id.0 as int, self.item(id).retitled(title)),
                ..self
            }
        } else {
            self
        }
    }

    /// With other words for several sources, one after another.
    pub open spec fn all_retitled(self, titles: Seq<(SourceId, Words)>) -> Pool
        decreases titles.len(),
    {
        if titles.len() == 0 {
            self
        } else {
            self.all_retitled(titles.drop_last()).retitled(titles.last().0, titles.last().1)
        }
    }

    /// The longest a clip of a source can be; nothing for an unknown one.
    pub open spec fn duration(self, id: SourceId) -> Double {
        if self.has(id) {
            self.item(id).length()
        } else {
            double(ZERO)
        }
    }

    /// How long a clip of a source starts out.
    pub open spec fn drop_duration(self, id: SourceId) -> Double {
        if self.has(id) && self.item(id).title is Some {
            double(DEFAULT_DURATION)
        } else {
            self.duration(id)
        }
    }

    /// Whether a source has anything to show.
    pub open spec fn has_video(self, id: SourceId) -> bool {
        self.has(id) && (self.item(id).video is Some || self.item(id).title is Some)
    }

    /// How long a source's sound is, where it has any.
    pub open spec fn audio_duration(self, id: SourceId) -> Option<Double> {
        if self.has(id) {
            self.item(id).audio
        } else {
            None
        }
    }

    /// The size of a source's picture, where it has one; a title's is the canvas.
    pub open spec fn picture_size(self, id: SourceId, canvas: Canvas) -> Option<(u32, u32)> {
        if !self.has(id) {
            None
        } else if self.item(id).title is Some {
            Some((canvas.width, canvas.height))
        } else {
            match self.item(id).video {
                Some(v) => Some((v.width, v.height)),
                None => None,
            }
        }
    }

    /// The sizes of all pictures on a canvas.
    pub open spec fn sizes(self, canvas: Canvas) -> Seq<SourceSize> {
        Seq::new(
            self.sources.len(),
            |i: int|
                SourceSize {
                    source: SourceId(i as u32),
                    size: self.picture_size(SourceId(i as u32), canvas),
                },
        )
    }
}

/// The name of a file: the last part of its path; the whole text where there is none.
pub open spec fn file_name(path: Route, text: Seq<char>) -> Seq<char> {
    if path.parts.len() > 0 && path.parts.last() != ".."@ {
        path.parts.last()
    } else {
        text
    }
}

impl MediaPool {
    /// An empty pool.
    pub fn new() -> (r: MediaPool)
        ensures
            r@ == (Pool { sources: Seq::empty(), order: Seq::empty() }),
            r@.sound(),
    {
        let r: MediaPool = MediaPool { sources: Vec::new(), order: Vec::new() };
        proof {
            assert(r@ =~= (Pool { sources: Seq::empty(), order: Seq::empty() }));
        }
        r
    }

    /// Appends a source, which shows last, and names it.
    fn append(&mut self, source: Source) -> (id: SourceId)
        requires
            old(self)@.sound(),
            old(self)@.sources.len() < u32::MAX,
        ensures
            id == SourceId(old(self)@.sources.len() as u32),
            final(self)@ == old(self)@.with(source@),
            final(self)@.sound(),
    {
        let id: SourceId = SourceId(self.sources.len() as u32);
        self.sources.push(source);
        self.order.push(id);
        proof {
            assert(self@ =~= old(self)@.with(source@));
        }
        id
    }

    /// Adds a file. It has to give a picture or sound; one that gives neither is not
    /// added. `text` is the whole path as text.
    pub fn add(
        &mut self,
        path: MediaPath,
        text: &str,
        video: Option<Footage>,
        audio: Option<Double>,
    ) -> (r: Option<SourceId>)
        requires
            old(self)@.sound(),
            old(self)@.sources.len() < u32::MAX,
        ensures
            final(self)@.sound(),
            video is None && audio is None ==> r is None && final(self)@ == old(self)@,
            video is Some || audio is Some ==> {
                &&& r == Some(SourceId(old(self)@.sources.len() as u32))
                &&& final(self)@ == old(self)@.with(
                    Item {
                        name: file_name(path@, text@),
                        path: path@,
                        video,
                        audio,
                        title: None,
                        revision: 0,
                        baked: None,
                    },
                )
            },
    {
        if video.is_none() && audio.is_none() {
            return None;
        }
        let n: usize = path.parts.len();
        let dots: String = "..".to_owned();
        let name: String = if n > 0 && path.parts[n - 1] != dots {
            path.parts[n - 1].clone()
        } else {
            text.to_owned()
        };
        Some(
            self.append(
                Source { name, path, video, audio, title: None, revision: 0, baked: None },
            ),
        )
    }

    /// Adds a title.
    pub fn add_title(&mut self, title: Title) -> (id: SourceId)
        requires
            old(self)@.sound(),
            old(self)@.sources.len() < u32::MAX,
        ensures
            id == SourceId(old(self)@.sources.len() as u32),
            final(self)@.sound(),
            final(self)@ == old(self)@.with(
                Item {
                    name: title@.pool_name(),
                    path: Route { absolute: false, parts: Seq::empty() },
                    video: None,
                    audio: None,
                    title: Some(title@),
                    revision: 0,
                    baked: None,
                },
            ),
    {
        let name: String = title.pool_name();
        let path: MediaPath = MediaPath { absolute: false, parts: Vec::new() };
        proof {
            assert(path@ =~= (Route { absolute: false, parts: Seq::empty() }));
        }
        self.append(
            Source {
                name,
                path,
                video: None,
                audio: None,
                title: Some(title),
                revision: 0,
                baked: None,
            },
        )
    }

    /// The source of a name.
    pub fn get(&self, id: SourceId) -> (r: Option<&Source>)
        ensures
            self@.has(id) ==> (r matches Some(s) && s@ == self@.item(id)),
            !self@.has(id) ==> r is None,
    {
        if (id.0 as usize) < self.sources.len() {
            Some(&self.sources[id.0 as usize])
        } else {
            None
        }
    }

    /// The words of a title.
    pub fn title(&self, id: SourceId) -> (r: Option<&Title>)
        ensures
            self@.has(id) ==> words_of(r) == self@.item(id).title,
            !self@.has(id) ==> r is None,
    {
        if (id.0 as usize) < self.sources.len() {
            self.sources[id.0 as usize].title.as_ref()
        } else {
            None
        }
    }

    /// Replaces the words of a source, where they differ, so that its picture is drawn
    /// anew.
    pub fn set_title(&mut self, id: SourceId, title: Title)
        requires
            old(self)@.sound(),
        ensures
            final(self)@ == old(self)@.retitled(id, title@),
            final(self)@.sound(),
    {
        let i: usize = id.0 as usize;
        if i >= self.sources.len() {
            return;
        }
        let same: bool = match &self.sources[i].title {
            Some(t) => t.same(&title),
            None => false,
        };
        if same {
            proof {
                assert(self@.sources.update(i as int, self@.item(id)) =~= self@.sources);
            }
            return;
        }
        let revision: u64 = if self.sources[i].revision == u64::MAX {
            0
        } else {
            self.sources[i].revision + 1
        };
        let name: String = title.pool_name();
        let source: Source = Source {
            name,
            path: self.sources[i].path.copy(),
            video: self.sources[i].video,
            audio: self.sources[i].audio,
            title: Some(title),
            revision,
            baked: self.sources[i].baked,
        };
        proof {
            assert(source@ =~= old(self)@.item(id).retitled(title@));
        }
        self.sources.set(i, source);
        proof {
            assert(self@.sources =~= old(self)@.sources.update(
                i as int,
                old(self)@.item(id).retitled(title@),
            ));
        }
    }

    /// Every title, by the name of its source.
    pub fn title_snapshot(&self) -> (r: Vec<(SourceId, Title)>)
        requires
            self@.sound(),
        ensures
            entries(r@) == titles_of(self@.sources),
    {
        let mut out: Vec<(SourceId, Title)> = Vec::new();
        let mut i: usize = 0;
        proof {
            assert(self@.sources.take(0) =~= Seq::empty());
            assert(entries(out@) =~= Seq::empty());
        }
        while i < self.sources.len()
            invariant
                i <= self.sources.len(),
                self@.sound(),
                entries(out@) == titles_of(self@.sources.take(i as int)),
            decreases self.sources.len() - i,
        {
            let ghost before = out@;
            proof {
                assert(self@.sources.take(i + 1).drop_last() =~= self@.sources.take(i as int));
                assert(self@.sources.take(i + 1).last() == self.sources@[i as int]@);
            }
            if let Some(t) = &self.sources[i].title {
                let c: Title = t.copy();
                let ghost w = c@;
                out.push((SourceId(i as u32), c));
                proof {
                    assert(entries(out@) =~= entries(before).push((SourceId(i as u32), w)));
                }
            }
            i += 1;
        }
        proof {
            assert(self@.sources.take(self@.sources.len() as int) =~= self@.sources);
        }
        out
    }

    /// Puts back what titles said.
    pub fn restore_titles(&mut self, titles: &Vec<(SourceId, Title)>)
        requires
            old(self)@.sound(),
        ensures
            final(self)@ == old(self)@.all_retitled(entries(titles@)),
            final(self)@.sound(),
    {
        let mut i: usize = 0;
        let ghost es = entries(titles@);
        proof {
            assert(es.take(0) =~= Seq::empty());
        }
        while i < titles.len()
            invariant
                i <= titles.len(),
                es == entries(titles@),
                self@.sound(),
                self@ == old(self)@.all_retitled(es.take(i as int)),
            decreases titles.len() - i,
        {
            proof {
                assert(es.take(i + 1).drop_last() =~= es.take(i as int));
            }
            self.set_title(titles[i].0, titles[i].1.copy());
            i += 1;
        }
        proof {
            assert(es.take(es.len() as int) =~= es);
        }
    }

    /// What to draw for a title's picture, where the one it has is not for this state
    /// and size; the picture counts as drawn from then on.
    pub fn bake_title(&mut self, id: SourceId, width: u32, height: u32, caret: bool) -> (r: Option<
        Title,
    >)
        requires
            old(self)@.sound(),
        ensures
            final(self)@.sound(),
            ({
                let key = Bake {
                    revision: old(self)@.item(id).revision,
                    caret,
                    width,
                    height,
                };
                if old(self)@.has(id) && old(self)@.item(id).title is Some && old(self)@.item(
                    id,
                ).baked != Some(key) {
                    &&& final(self)@ == (Pool {
                        sources: old(self)@.sources.update(
                            id.0 as int,
                            Item { baked: Some(key), ..old(self)@.item(id) },
                        ),
                        ..old(self)@
                    })
                    &&& words(r) == Some(
                        if caret {
                            Words {
                                text: old(self)@.item(id).title->0.text.push(crate::title::CARET),
                                ..old(self)@.item(id).title->0
                            }
                        } else {
                            old(self)@.item(id).title->0
                        },
                    )
                } else {
                    r is None && final(self)@ == old(self)@
                }
            }),
    {
        let i: usize = id.0 as usize;
        if i >= self.sources.len() {
            return None;
        }
        let key: Bake = Bake { revision: self.sources[i].revision, caret, width, height };
        let fresh: bool = match self.sources[i].baked {
            Some(b) => b == key,
            None => false,
        };
        if fresh {
            return None;
        }
        let shown: Title = match &self.sources[i].title {
            None => {
                return None;
            },
            Some(t) => if caret {
                t.with_caret()
            } else {
                t.copy()
            },
        };
        let title: Option<Title> = match &self.sources[i].title {
            Some(t) => Some(t.copy()),
            None => None,
        };
        let source: Source = Source {
            name: self.sources[i].name.clone(),
            path: self.sources[i].path.copy(),
            video: self.sources[i].video,
            audio: self.sources[i].audio,
            title,
            revision: self.sources[i].revision,
            baked: Some(key),
        };
        proof {
            assert(source@ =~= (Item { baked: Some(key), ..old(self)@.item(id) }));
        }
        self.sources.set(i, source);
        proof {
            assert(self@.sources =~= old(self)@.sources.update(i as int, source@));
        }
        Some(shown)
    }

    /// Takes a row off the list. The source stays, so that the row can come back.
    pub fn remove(&mut self, id: SourceId)
        requires
            old(self)@.sound(),
        ensures
            final(self)@ == (Pool { order: without(old(self)@.order, id), ..old(self)@ }),
            final(self)@.sound(),
    {
        let mut out: Vec<SourceId> = Vec::new();
        let mut i: usize = 0;
        proof {
            assert(self.order@.take(0) =~= Seq::empty());
        }
        while i < self.order.len()
            invariant
                i <= self.order.len(),
                *self == *old(self),
                self@.sound(),
                out@ == without(self.order@.take(i as int), id),
                forall|j: int| 0 <= j < out.len() ==> self@.has(#[trigger] out@[j]),
            decreases self.order.len() - i,
        {
            proof {
                assert(self.order@.take(i + 1).drop_last() =~= self.order@.take(i as int));
                assert(self@.has(self@.order[i as int]));
            }
            if self.order[i] != id {
                out.push(self.order[i]);
            }
            i += 1;
        }
        proof {
            assert(self.order@.take(self.order.len() as int) =~= self.order@);
        }
        self.order = out;
    }

    /// Puts back an order of rows. Names of no source are left out.
    pub fn set_order(&mut self, order: &Vec<SourceId>)
        requires
            old(self)@.sound(),
        ensures
            final(self)@ == (Pool {
                order: known(order@, old(self)@.sources.len()),
                ..old(self)@
            }),
            final(self)@.sound(),
    {
        let mut out: Vec<SourceId> = Vec::new();
        let mut i: usize = 0;
        proof {
            assert(order@.take(0) =~= Seq::empty());
        }
        while i < order.len()
            invariant
                i <= order.len(),
                *self == *old(self),
                self@.sound(),
                out@ == known(order@.take(i as int), self@.sources.len()),
                forall|j: int| 0 <= j < out.len() ==> self@.has(#[trigger] out@[j]),
            decreases order.len() - i,
        {
            proof {
                assert(order@.take(i + 1).drop_last() =~= order@.take(i as int));
            }
            if (order[i].0 as usize) < self.sources.len() {
                out.push(order[i]);
            }
            i += 1;
        }
        proof {
            assert(order@.take(order.len() as int) =~= order@);
        }
        self.order = out;
    }

    /// The rows that show, in order.
    pub fn ids(&self) -> (r: Vec<SourceId>)
        ensures
            r@ == self@.order,
    {
        let mut out: Vec<SourceId> = Vec::new();
        let mut i: usize = 0;
        while i < self.order.len()
            invariant
                i <= self.order.len(),
                out@ =~= self.order@.take(i as int),
            decreases self.order.len() - i,
        {
            out.push(self.order[i]);
            i += 1;
        }
        proof {
            assert(self.order@.take(self.order.len() as int) =~= self.order@);
        }
        out
    }

    /// The longest a clip of a source can be.
    pub fn duration(&self, id: SourceId) -> (r: Double)
        ensures
            r == self@.duration(id),
    {
        match self.get(id) {
            None => double(ZERO),
            Some(s) => if s.title.is_some() {
                double(MAX_DURATION)
            } else {
                match (s.video, s.audio) {
                    (Some(v), _) => v.duration,
                    (None, Some(a)) => a,
                    (None, None) => double(ZERO),
                }
            },
        }
    }

    /// How long a clip of a source starts out.
    pub fn drop_duration(&self, id: SourceId) -> (r: Double)
        ensures
            r == self@.drop_duration(id),
    {
        if let Some(s) = self.get(id) {
            if s.title.is_some() {
                return double(DEFAULT_DURATION);
            }
        }
        self.duration(id)
    }

    /// Whether a source has anything to show.
    pub fn has_video(&self, id: SourceId) -> (r: bool)
        ensures
            r == self@.has_video(id),
    {
        match self.get(id) {
            None => false,
            Some(s) => s.video.is_some() || s.title.is_some(),
        }
    }

    /// How long a source's sound is, where it has any.
    pub fn audio_duration(&self, id: SourceId) -> (r: Option<Double>)
        ensures
            r == self@.audio_duration(id),
    {
        match self.get(id) {
            None => None,
            Some(s) => s.audio,
        }
    }

    /// The size of a source's picture, where it has one; a title's is the canvas.
    pub fn source_size(&self, id: SourceId, canvas: Canvas) -> (r: Option<(u32, u32)>)
        ensures
            r == self@.picture_size(id, canvas),
    {
        match self.get(id) {
            None => None,
            Some(s) => if s.title.is_some() {
                Some((canvas.width, canvas.height))
            } else {
                match s.video {
                    Some(v) => Some((v.width, v.height)),
                    None => None,
                }
            },
        }
    }

    /// The sizes of all pictures on a canvas.
    pub fn sizes(&self, canvas: Canvas) -> (r: Vec<SourceSize>)
        requires
            self@.sound(),
        ensures
            r@ == self@.sizes(canvas),
    {
        let mut out: Vec<SourceSize> = Vec::new();
        let mut i: usize = 0;
        while i < self.sources.len()
            invariant
                i <= self.sources.len(),
                self@.sound(),
                out@ =~= Seq::new(
                    i as nat,
                    |k: int|
                        SourceSize {
                            source: SourceId(k as u32),
                            size: self@.picture_size(SourceId(k as u32), canvas),
                        },
                ),
            decreases self.sources.len() - i,
        {
            let source: SourceId = SourceId(i as u32);
            out.push(SourceSize { source, size: self.source_size(source, canvas) });
            i += 1;
        }
        proof {
            assert(out@ =~= self@.sizes(canvas));
        }
        out
    }
}

/// Whether a name is among some.
pub fn lists(ids: &Vec<SourceId>, id: SourceId) -> (r: bool)
    ensures
        r == ids@.contains(id),
{
    let mut i: usize = 0;
    while i < ids.len()
        invariant
            i <= ids.len(),
            forall|j: int| 0 <= j < i ==> ids@[j] != id,
        decreases ids.len() - i,
    {
        if ids[i].0 == id.0 {
            return true;
        }
        i += 1;
    }
    false
}

/// A title, or none, as words.
pub open spec fn words_of(t: Option<&Title>) -> Option<Words> {
    match t {
        Some(t) => Some(t@),
        None => None,
    }
}

/// Every name that `known` keeps is one that shows, so an order that was taken of a
/// pool comes back as it was.
pub proof fn lemma_known_keeps_all(order: Seq<SourceId>, n: nat)
    requires
        forall|i: int| 0 <= i < order.len() ==> (#[trigger] order[i]).0 < n,
    ensures
        known(order, n) == order,
    decreases order.len(),
{
    if order.len() > 0 {
        let front = order.drop_last();
        assert forall|i: int| 0 <= i < front.len() implies (#[trigger] front[i]).0 < n by {
            assert(front[i] == order[i]);
        }
        lemma_known_keeps_all(front, n);
        assert(front.push(order.last()) =~= order);
    }
}

/// A row that was removed shows no longer, and every other row still does.
pub proof fn lemma_removed_row_is_gone(order: Seq<SourceId>, id: SourceId)
    ensures
        !without(order, id).contains(id),
        forall|x: SourceId| x != id && order.contains(x) ==> #[trigger] without(
            order,
            id,
        ).contains(x),
    decreases order.len(),
{
    if order.len() > 0 {
        let front = order.drop_last();
        lemma_removed_row_is_gone(front, id);
        let w = without(front, id);
        let all = without(order, id);
        if all.contains(id) {
            let i = choose|i: int| 0 <= i < all.len() && all[i] == id;
            if i < w.len() {
                assert(w[i] == id);
            }
        }
        assert forall|x: SourceId| x != id && order.contains(x) implies #[trigger] all.contains(
            x,
        ) by {
            let i = choose|i: int| 0 <= i < order.len() && order[i] == x;
            if i < front.len() {
                assert(front[i] == x);
                assert(front.contains(x));
                assert(without(front, id).contains(x));
                let j = choose|j: int| 0 <= j < w.len() && w[j] == x;
                assert(all[j] == x);
            } else {
                assert(all[w.len() as int] == x);
            }
        }
    }
}

} // verus!
