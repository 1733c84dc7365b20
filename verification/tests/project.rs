//! Projects on their way to a file and back.

use vedit::document::{
    discard_warning, is_loadable, open_failed_status, opened_status, project_display_name,
    save_failed_status, saved_status, window_title, Losses, Opened,
};
use vedit::ieee::{Double, Single};
use vedit::media::Footage;
use vedit::project::{
    accept, framed, CanvasSettings, Error, MediaPath, Project, Setting, SourceEntry, TrackEntry,
    FORMAT_VERSION,
};
use vedit::session::Session;
use vedit::timeline::{Clip, SourceId, TrackKind};

fn d(x: f64) -> Double {
    Double { bits: x.to_bits() }
}

fn f(x: f32) -> Single {
    Single { bits: x.to_bits() }
}

fn secs(x: Double) -> f64 {
    f64::from_bits(x.bits)
}

fn path(text: &str) -> MediaPath {
    MediaPath {
        absolute: text.starts_with('/'),
        parts: text.split('/').filter(|p| !p.is_empty()).map(str::to_owned).collect(),
    }
}

fn sample() -> Project {
    Project {
        version: FORMAT_VERSION,
        canvas: CanvasSettings {
            resolution: Setting::Fixed((1920, 1080)),
            fps: Setting::Auto,
        },
        sources: vec![SourceEntry { id: SourceId(0), path: path("a.mp4") }],
        tracks: vec![TrackEntry {
            kind: TrackKind::Video,
            clips: vec![Clip {
                id: 0,
                source: SourceId(0),
                source_in: d(1.5),
                source_out: d(4.5),
                timeline_start: d(0.0),
                link: Some(2),
                ..Clip::default()
            }],
        }],
    }
}

fn footage() -> Footage {
    Footage { width: 1920, height: 1080, duration: d(10.0), frame_rate: d(25.0) }
}

fn opened(names: &[&str]) -> Vec<Opened> {
    names
        .iter()
        .map(|n| Opened { text: (*n).to_owned(), video: Some(footage()), audio: None })
        .collect()
}

/// Through a session, the files found again in the project's directory.
fn round_trip(project: &Project) -> Project {
    let dir = path("/work/edit");
    let mut session = Session::new(f(1280.0), f(720.0));
    let losses = session.load_project(project, &opened(&["a.mp4"]), &dir);
    assert_eq!(losses, Losses { missing: 0, dropped: 0 });
    session.as_project(&dir)
}

#[test]
fn a_project_survives_the_round_trip() {
    let back = round_trip(&sample());
    assert_eq!(back.canvas.resolution, Setting::Fixed((1920, 1080)));
    assert_eq!(back.canvas.fps, Setting::Auto);
    assert_eq!(back.sources[0].path, path("a.mp4"));
    assert_eq!(back.tracks[0].kind, TrackKind::Video);
    assert_eq!(back.tracks[0].clips[0], sample().tracks[0].clips[0]);
}

#[test]
fn trim_points_survive_to_the_last_bit() {
    let mut project = sample();
    project.tracks[0].clips[0].source_in = d(1.0 / 3.0);
    project.tracks[0].clips[0].timeline_start = d(0.1 + 0.2);
    let back = round_trip(&project);
    assert_eq!(secs(back.tracks[0].clips[0].source_in), 1.0 / 3.0);
    assert_eq!(secs(back.tracks[0].clips[0].timeline_start), 0.1 + 0.2);
}

#[test]
fn the_header_comment_is_not_part_of_the_data() {
    let body = "(version: 1, sources: [])";
    let parsed: ron::Value = ron::from_str(&framed(body)).unwrap();
    assert_eq!(parsed, ron::from_str::<ron::Value>(body).unwrap());
}

#[test]
fn a_future_version_is_refused_rather_than_half_read() {
    let mut project = sample();
    project.version = FORMAT_VERSION + 1;
    assert_eq!(accept(project), Err(Error::Version(FORMAT_VERSION + 1)));
    assert_eq!(accept(sample()), Ok(sample()));
}

#[test]
fn a_refusal_says_which_version_it_met() {
    assert_eq!(
        Error::Version(7).message(),
        format!("project format v7, this build reads v{FORMAT_VERSION}")
    );
    assert_eq!(Error::Io("gone".to_owned()).message(), "gone");
    assert_eq!(Error::Parse("not a project".to_owned()).message(), "not a project");
    assert_eq!(Error::Encode("no".to_owned()).message(), "no");
}

#[test]
fn media_beside_the_project_is_stored_relative() {
    let dir = path("/work/edit");
    assert_eq!(
        Project::store_path(&path("/work/edit/footage/a.mp4"), &dir),
        path("footage/a.mp4")
    );
    assert_eq!(
        Project::resolve_path(&path("footage/a.mp4"), &dir),
        path("/work/edit/footage/a.mp4")
    );
}

#[test]
fn media_outside_the_project_stays_absolute() {
    let dir = path("/work/edit");
    let outside = path("/Volumes/card/a.mp4");
    let stored = Project::store_path(&outside, &dir);
    assert_eq!(stored, path("/Volumes/card/a.mp4"));
    assert_eq!(Project::resolve_path(&stored, &dir), outside);
}

#[test]
fn clips_of_a_file_that_is_gone_are_left_out_and_counted() {
    let mut project = sample();
    project.sources.push(SourceEntry { id: SourceId(4), path: path("b.mp4") });
    project.tracks[0].clips.push(Clip {
        id: 9,
        source: SourceId(4),
        source_out: d(2.0),
        timeline_start: d(5.0),
        ..Clip::default()
    });
    let mut files = opened(&["a.mp4", "b.mp4"]);
    files[0].video = None;
    let mut session = Session::new(f(1280.0), f(720.0));
    let losses = session.load_project(&project, &files, &path("/work/edit"));
    assert_eq!(losses, Losses { missing: 1, dropped: 1 });
    let clips = &session.timeline.tracks[0].clips;
    assert_eq!((clips.len(), clips[0].id, clips[0].source), (1, 9, SourceId(0)));
    assert_eq!((session.timeline.next_clip, session.timeline.next_link), (10, 0));
    assert_eq!(session.media.get(SourceId(0)).unwrap().name, "b.mp4");
    assert_eq!(session.media.get(SourceId(0)).unwrap().path, path("/work/edit/b.mp4"));
}

#[test]
fn only_the_clips_that_stay_need_names_to_count_past() {
    let mut project = sample();
    project.sources.push(SourceEntry { id: SourceId(4), path: path("b.mp4") });
    project.tracks[0].clips.push(Clip {
        id: u32::MAX,
        source: SourceId(4),
        source_out: d(2.0),
        timeline_start: d(5.0),
        link: Some(u32::MAX),
        ..Clip::default()
    });
    let mut files = opened(&["a.mp4", "b.mp4"]);
    assert!(!is_loadable(&project, &files));
    files[1].video = None;
    assert!(is_loadable(&project, &files));
    let mut session = Session::new(f(1280.0), f(720.0));
    let losses = session.load_project(&project, &files, &path("/work/edit"));
    assert_eq!(losses, Losses { missing: 1, dropped: 1 });
    assert_eq!(session.timeline.tracks[0].clips.len(), 1);
    assert_eq!((session.timeline.next_clip, session.timeline.next_link), (1, 3));
}

#[test]
fn the_title_bar_names_the_project_and_marks_unsaved_work() {
    assert_eq!(project_display_name(None), "Untitled");
    assert_eq!(project_display_name(Some(&path("/work/cut.vedit"))), "cut.vedit");
    let clean = window_title(false, "cut.vedit");
    let dirty = window_title(true, "cut.vedit");
    assert!(clean.contains("cut.vedit") && dirty.ends_with(&clean) && dirty != clean);
}

#[test]
fn opening_says_what_was_lost() {
    let fine = opened_status("cut.vedit", Losses { missing: 0, dropped: 0 });
    let lossy = opened_status("cut.vedit", Losses { missing: 2, dropped: 5 });
    assert!(fine.contains("cut.vedit"));
    assert!(lossy.contains('2') && lossy.contains('5'));
}

#[test]
fn a_project_is_known_by_its_extension() {
    assert!(path("/cut/edit.vedit").is_project());
    assert!(path("a.b.vedit").is_project());
    assert!(!path("/cut/edit.mp4").is_project());
    assert!(!path("/cut.vedit/edit").is_project());
    assert!(!path(".vedit").is_project());
    assert!(!path("").is_project());
}

#[test]
fn a_project_without_an_extension_is_given_one() {
    assert_eq!(path("/cut/edit").to_save(), path("/cut/edit.vedit"));
    assert_eq!(path("/cut/.edit").to_save(), path("/cut/.edit.vedit"));
    assert_eq!(path("/cut/edit.old").to_save(), path("/cut/edit.old"));
    assert_eq!(path("/cut/edit.").to_save(), path("/cut/edit."));
    assert_eq!(path("/cut/..").to_save(), path("/cut/.."));
    assert_eq!(path("").to_save(), path(""));
}

#[test]
fn saving_and_opening_say_how_they_went() {
    assert_eq!(
        discard_warning("Quitting", "cut.vedit"),
        "Quitting will discard unsaved changes to cut.vedit."
    );
    assert_eq!(saved_status("cut.vedit"), "Saved cut.vedit");
    assert_eq!(save_failed_status(&Error::Io("disk full".to_owned())), "Save failed: disk full");
    assert_eq!(
        open_failed_status(&Error::Version(7)),
        "Open failed: project format v7, this build reads v1"
    );
}
