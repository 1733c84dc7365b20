//! The project file: what a session is worth keeping across a restart.

use crate::fmt::{decimal, decimal_of};
use crate::ieee::Double;
use crate::strings::{chars_of, stretch, texts};
use crate::timeline::{Clip, SourceId, TrackKind};
use vstd::prelude::*;
use vstd::string::StringExecFns;

verus! {

/// Written into every file and checked on the way back in.
pub const FORMAT_VERSION: u32 = 1;

/// The extension of project files.
pub const EXTENSION: &'static str = "vedit";

/// The last place of a dot before `to`; less than nought where there is none.
pub open spec fn last_dot(name: Seq<char>, to: int) -> int
    decreases to,
{
    if to <= 0 {
        -1
    } else if name[to - 1] == '.' {
        to - 1
    } else {
        last_dot(name, to - 1)
    }
}

/// The extension of a file name: what follows its last dot. A name whose only dot is its
/// first character has none, and neither has that of the directory above.
pub open spec fn extension_of(name: Seq<char>) -> Option<Seq<char>> {
    let i = last_dot(name, name.len() as int);
    if i < 1 || name == ".."@ {
        None
    } else {
        Some(name.skip(i + 1))
    }
}

/// The extension of a file name.
fn extension(name: &String) -> (r: Option<String>)
    ensures
        r is None <==> extension_of(name@) is None,
        r matches Some(e) ==> extension_of(name@) == Some(e@),
{
    let chars: Vec<char> = chars_of(name.as_str());
    let mut i: usize = chars.len();
    while i > 0 && chars[i - 1] != '.'
        invariant
            i <= chars.len(),
            chars@ == name@,
            last_dot(name@, name@.len() as int) == last_dot(name@, i as int),
        decreases i,
    {
        i -= 1;
    }
    if i < 2 || *name == "..".to_owned() {
        return None;
    }
    let e: String = stretch(&chars, i, chars.len());
    proof {
        assert(e@ =~= name@.skip(i as int));
    }
    Some(e)
}

/// A setting that was pinned, or one that follows the footage.
#[derive(Copy, Clone, Debug, PartialEq)]
pub enum Setting<T> {
    Auto,
    Fixed(T),
}

/// A path, part by part.
#[derive(Debug, PartialEq)]
pub struct MediaPath {
    pub absolute: bool,
    pub parts: Vec<String>,
}

/// What a path is.
#[verifier::ext_equal]
pub struct Route {
    pub absolute: bool,
    pub parts: Seq<Seq<char>>,
}

impl View for MediaPath {
    type V = Route;

    open spec fn view(&self) -> Route {
        Route { absolute: self.absolute, parts: texts(self.parts@) }
    }
}

impl Route {
    /// Whether the path leads into `dir`.
    pub open spec fn beneath(self, dir: Route) -> bool {
        &&& self.absolute == dir.absolute
        &&& dir.parts.len() <= self.parts.len()
        &&& self.parts.take(dir.parts.len() as int) == dir.parts
    }

    /// How the path is recorded in a project in `dir`: relative where it leads into
    /// `dir`, else as it is.
    pub open spec fn stored(self, dir: Route) -> Route {
        if self.beneath(dir) {
            Route { absolute: false, parts: self.parts.skip(dir.parts.len() as int) }
        } else {
            self
        }
    }

    /// The extension of the file the path leads to.
    pub open spec fn extension(self) -> Option<Seq<char>> {
        if self.parts.len() == 0 {
            None
        } else {
            extension_of(self.parts.last())
        }
    }

    /// Whether the path leads to a project file.
    pub open spec fn is_project(self) -> bool {
        self.extension() == Some(EXTENSION@)
    }

    /// Where a project is saved when this path was picked: a file name without an
    /// extension is given that of projects.
    pub open spec fn to_save(self) -> Route {
        if self.parts.len() == 0 || self.parts.last() == ".."@ || self.extension() is Some {
            self
        } else {
            Route {
                absolute: self.absolute,
                parts: self.parts.drop_last().push(self.parts.last() + "."@ + EXTENSION@),
            }
        }
    }

    /// Where a path recorded in a project in `dir` leads.
    pub open spec fn resolved(self, dir: Route) -> Route {
        if self.absolute {
            self
        } else {
            Route { absolute: dir.absolute, parts: dir.parts + self.parts }
        }
    }
}

/// A path that was recorded leads back to where it led, as long as it is absolute or
/// leads into the project's directory.
pub proof fn lemma_resolve_undoes_store(media: Route, dir: Route)
    requires
        media.absolute || media.beneath(dir),
    ensures
        media.stored(dir).resolved(dir) == media,
{
    if media.beneath(dir) {
        let n = dir.parts.len() as int;
        assert(dir.parts + media.parts.skip(n) =~= media.parts) by {
            assert(media.parts.take(n) + media.parts.skip(n) =~= media.parts);
        }
    }
}

/// A project whose directory moved, with the media inside it, finds the media at the
/// same place inside the new directory.
pub proof fn lemma_media_moves_with_its_project(media: Route, dir: Route, moved: Route)
    requires
        media.beneath(dir),
    ensures
        media.stored(dir).resolved(moved) == (Route {
            absolute: moved.absolute,
            parts: moved.parts + media.parts.skip(dir.parts.len() as int),
        }),
{
}

/// Copies of some texts.
fn copy_texts(v: &Vec<String>, from: usize) -> (r: Vec<String>)
    requires
        from <= v.len(),
    ensures
        texts(r@) == texts(v@).skip(from as int),
{
    let mut out: Vec<String> = Vec::new();
    let mut i: usize = from;
    while i < v.len()
        invariant
            from <= i <= v.len(),
            texts(out@) =~= texts(v@).subrange(from as int, i as int),
        decreases v.len() - i,
    {
        let s: String = v[i].clone();
        let ghost before = out@;
        out.push(s);
        proof {
            assert(texts(out@) =~= texts(before).push(s@));
        }
        i += 1;
    }
    out
}

impl MediaPath {
    /// A copy.
    pub fn copy(&self) -> (r: MediaPath)
        ensures
            r@ == self@,
    {
        let parts: Vec<String> = copy_texts(&self.parts, 0);
        proof {
            assert(texts(self.parts@).skip(0) =~= texts(self.parts@));
        }
        MediaPath { absolute: self.absolute, parts }
    }

    /// Whether the path leads to a project file.
    pub fn is_project(&self) -> (r: bool)
        ensures
            r == self@.is_project(),
    {
        if self.parts.len() == 0 {
            return false;
        }
        let last: usize = self.parts.len() - 1;
        match extension(&self.parts[last]) {
            Some(e) => e == EXTENSION.to_owned(),
            None => false,
        }
    }

    /// Where a project is saved when this path was picked.
    pub fn to_save(self) -> (r: MediaPath)
        ensures
            r@ == self@.to_save(),
    {
        if self.parts.len() == 0 {
            return self;
        }
        let ghost before = self@;
        let MediaPath { absolute, mut parts } = self;
        let last: usize = parts.len() - 1;
        if parts[last] == "..".to_owned() || extension(&parts[last]).is_some() {
            return MediaPath { absolute, parts };
        }
        let dotted: String = parts[last].clone().concat(".");
        let name: String = dotted.concat(EXTENSION);
        parts.set(last, name);
        proof {
            assert(texts(parts@) =~= before.to_save().parts);
        }
        MediaPath { absolute, parts }
    }

    /// Whether the path leads into `dir`.
    pub fn is_beneath(&self, dir: &MediaPath) -> (r: bool)
        ensures
            r == self@.beneath(dir@),
    {
        if self.absolute != dir.absolute || dir.parts.len() > self.parts.len() {
            return false;
        }
        let mut i: usize = 0;
        while i < dir.parts.len()
            invariant
                i <= dir.parts.len(),
                dir.parts.len() <= self.parts.len(),
                forall|j: int| 0 <= j < i ==> #[trigger] self.parts@[j]@ == dir.parts@[j]@,
            decreases dir.parts.len() - i,
        {
            if self.parts[i] != dir.parts[i] {
                proof {
                    assert(self@.parts.take(dir@.parts.len() as int)[i as int]
                        == self.parts@[i as int]@);
                    assert(dir@.parts[i as int] == dir.parts@[i as int]@);
                }
                return false;
            }
            i += 1;
        }
        proof {
            assert(self@.parts.take(dir@.parts.len() as int) =~= dir@.parts);
        }
        true
    }
}

/// A source of a project: the name its clips use, and the file.
#[derive(Debug, PartialEq)]
pub struct SourceEntry {
    pub id: SourceId,
    pub path: MediaPath,
}

/// A track of a project.
#[derive(Debug, PartialEq)]
pub struct TrackEntry {
    pub kind: TrackKind,
    pub clips: Vec<Clip>,
}

/// The canvas of a project.
#[derive(Copy, Clone, Debug, PartialEq)]
pub struct CanvasSettings {
    pub resolution: Setting<(u32, u32)>,
    pub fps: Setting<Double>,
}

/// What a project file holds.
#[derive(Debug, PartialEq)]
pub struct Project {
    pub version: u32,
    pub canvas: CanvasSettings,
    pub sources: Vec<SourceEntry>,
    pub tracks: Vec<TrackEntry>,
}

impl Project {
    /// How `media` is recorded in a project file in `project_dir`.
    pub fn store_path(media: &MediaPath, project_dir: &MediaPath) -> (r: MediaPath)
        ensures
            r@ == media@.stored(project_dir@),
    {
        if media.is_beneath(project_dir) {
            MediaPath {
                absolute: false,
                parts: copy_texts(&media.parts, project_dir.parts.len()),
            }
        } else {
            media.copy()
        }
    }

    /// Where a path recorded in a project file in `project_dir` leads.
    pub fn resolve_path(stored: &MediaPath, project_dir: &MediaPath) -> (r: MediaPath)
        ensures
            r@ == stored@.resolved(project_dir@),
    {
        if stored.absolute {
            return stored.copy();
        }
        let mut parts: Vec<String> = copy_texts(&project_dir.parts, 0);
        let mut i: usize = 0;
        proof {
            assert(texts(parts@) =~= project_dir@.parts + stored@.parts.take(0));
        }
        while i < stored.parts.len()
            invariant
                i <= stored.parts.len(),
                texts(parts@) =~= project_dir@.parts + stored@.parts.take(i as int),
            decreases stored.parts.len() - i,
        {
            let s: String = stored.parts[i].clone();
            let ghost before = parts@;
            parts.push(s);
            proof {
                assert(texts(parts@) =~= texts(before).push(s@));
                assert(stored@.parts.take(i + 1) =~= stored@.parts.take(i as int).push(s@));
            }
            i += 1;
        }
        proof {
            assert(stored@.parts.take(stored@.parts.len() as int) =~= stored@.parts);
        }
        MediaPath { absolute: project_dir.absolute, parts }
    }
}

/// Why a project could not be written or read.
#[derive(Debug, PartialEq)]
pub enum Error {
    /// The file could not be reached, and why.
    Io(String),
    /// The file is no project, and why.
    Parse(String),
    /// The project could not be written down, and why.
    Encode(String),
    /// The file is a project of a format this build does not know.
    Version(u32),
}

impl Error {
    /// What the error says to the user.
    pub open spec fn said(self) -> Seq<char> {
        match self {
            Error::Io(e) => e@,
            Error::Parse(e) => e@,
            Error::Encode(e) => e@,
            Error::Version(v) => "project format v"@ + decimal_of(v as nat)
                + ", this build reads v"@ + decimal_of(FORMAT_VERSION as nat),
        }
    }

    /// What the error says to the user.
    pub fn message(&self) -> (r: String)
        ensures
            r@ == self.said(),
    {
        match self {
            Error::Io(e) => e.clone(),
            Error::Parse(e) => e.clone(),
            Error::Encode(e) => e.clone(),
            Error::Version(v) => {
                let a: String = "project format v".to_owned();
                let b: String = a.concat(decimal(*v as u64).as_str());
                let c: String = b.concat(", this build reads v");
                c.concat(decimal(FORMAT_VERSION as u64).as_str())
            },
        }
    }
}

/// Takes a parsed project in: a format this build does not know is refused, so that it
/// is never half read.
pub fn accept(project: Project) -> (r: Result<Project, Error>)
    ensures
        project.version == FORMAT_VERSION ==> r == Ok::<Project, Error>(project),
        project.version != FORMAT_VERSION ==> r == Err::<Project, Error>(
            Error::Version(project.version),
        ),
{
    if project.version != FORMAT_VERSION {
        return Err(Error::Version(project.version));
    }
    Ok(project)
}

/// What stands before the data in a project file.
pub open spec fn header() -> Seq<char> {
    "// videoEditor project file.\n// Paths are relative to this file where the media sits alongside it.\n"@
}

/// The text of a project file around its data.
pub fn framed(body: &str) -> (r: String)
    ensures
        r@ == header() + body@ + "\n"@,
{
    let a: String =
        "// videoEditor project file.\n// Paths are relative to this file where the media sits alongside it.\n".to_owned();
    let b: String = a.concat(body);
    b.concat("\n")
}

} // verus!
