//! Planning and driving a render.

use vedit::export::{
    block_size, encoder_cadence, path_for, plan, source_ids, titles_to_bake, ExportError, Progress,
    Render, Step, VideoSpec, FALLBACK_FRAME_SIZE, SAMPLE_RATE,
};
use vedit::ieee::{Double, Single};
use vedit::timeline::{Clip, SourceId, Timeline, Track, TrackKind};

fn d(x: f64) -> Double {
    Double { bits: x.to_bits() }
}

fn num(x: Single) -> f32 {
    f32::from_bits(x.bits)
}

fn clip(source: u32, start: f64, len: f64) -> Clip {
    Clip { source: SourceId(source), source_out: d(len), timeline_start: d(start), ..Clip::default() }
}

fn timeline(tracks: Vec<(TrackKind, Vec<Clip>)>) -> Timeline {
    let mut tl = Timeline::new();
    for (kind, clips) in tracks {
        let mut t = Track::new(kind);
        t.clips = clips;
        tl.tracks.push(t);
    }
    tl
}

fn spec(fps: f64) -> VideoSpec {
    VideoSpec { width: 640, height: 360, fps: d(fps) }
}

#[test]
fn export_progress_reports_a_clamped_fraction() {
    assert_eq!(num(Progress { done: 0, total: 0 }.fraction()), 0.0);
    assert_eq!(num(Progress { done: 5, total: 10 }.fraction()), 0.5);
    assert_eq!(num(Progress { done: 99, total: 10 }.fraction()), 1.0);
}

#[test]
fn mod_progress_reports_a_clamped_fraction() {
    assert_eq!(num(Progress { done: 0, total: 0 }.fraction()), 0.0);
    assert_eq!(num(Progress { done: 5, total: 10 }.fraction()), 0.5);
    assert_eq!(num(Progress { done: 99, total: 10 }.fraction()), 1.0);
}

#[test]
fn an_empty_timeline_is_refused() {
    let empty = timeline(vec![(TrackKind::Video, vec![]), (TrackKind::Audio, vec![])]);
    assert_eq!(plan(&empty, Some(spec(25.0))), Err(ExportError::Empty));
    assert_eq!(ExportError::Empty.message(), "nothing on the timeline to export");
}

#[test]
fn a_plan_counts_frames_and_samples() {
    let tl = timeline(vec![
        (TrackKind::Video, vec![clip(0, 0.0, 2.0)]),
        (TrackKind::Audio, vec![clip(0, 0.0, 2.5)]),
    ]);
    let p = plan(&tl, Some(spec(25.0))).unwrap();
    assert_eq!((p.total_frames, p.total_samples), (63, 120_000));
    assert!(p.audio && p.video.is_some());
    let sound_only = timeline(vec![(TrackKind::Audio, vec![clip(0, 0.0, 1.0)])]);
    let p = plan(&sound_only, Some(spec(25.0))).unwrap();
    assert_eq!((p.total_frames, p.total_samples, p.total()), (0, 48_000, 48_000));
}

#[test]
fn a_render_produces_every_frame_and_every_sample_in_order() {
    let tl = timeline(vec![
        (TrackKind::Video, vec![clip(0, 0.0, 1.0)]),
        (TrackKind::Audio, vec![clip(0, 0.0, 1.0)]),
    ]);
    let p = plan(&tl, Some(spec(25.0))).unwrap();
    let mut r = Render::new(p, 1024);
    let (mut frames, mut samples) = (0, 0);
    loop {
        match r.step(false) {
            Step::Picture { n, t } => {
                assert_eq!(n, frames);
                assert_eq!(f64::from_bits(t.bits), n as f64 / 25.0);
                frames += 1;
            }
            Step::Sound { from, frames: len, t: _ } => {
                assert_eq!(from, samples);
                assert!(len == 1024 || samples + len == SAMPLE_RATE as u64);
                samples += len;
            }
            Step::Finish => break,
            Step::Stop => panic!("nothing was cancelled"),
        }
    }
    assert_eq!((frames, samples), (25, 48_000));
    assert_eq!(r.progress, Progress { done: 25, total: 25 });
}

#[test]
fn cancelling_stops_a_render() {
    let tl = timeline(vec![(TrackKind::Video, vec![clip(0, 0.0, 1.0)])]);
    let mut r = Render::new(plan(&tl, Some(spec(25.0))).unwrap(), 1024);
    assert!(matches!(r.step(false), Step::Picture { n: 0, .. }));
    assert_eq!(r.step(true), Step::Stop);
}

#[test]
fn the_encoder_runs_at_thousandths_of_a_frame() {
    assert_eq!(encoder_cadence(spec(29.97)), (29_970, 60));
    assert_eq!(encoder_cadence(spec(0.1)), (100, 1));
    assert_eq!((block_size(0), block_size(960)), (FALLBACK_FRAME_SIZE, 960));
}

#[test]
fn every_file_is_opened_once_and_titles_are_not() {
    let tl = timeline(vec![
        (TrackKind::Video, vec![clip(3, 0.0, 1.0), clip(1, 1.0, 1.0), clip(3, 2.0, 1.0)]),
        (TrackKind::Audio, vec![clip(5, 0.0, 1.0)]),
        (TrackKind::Video, vec![clip(9, 0.0, 1.0)]),
    ]);
    let titles = vec![SourceId(9), SourceId(8)];
    assert_eq!(source_ids(&tl, TrackKind::Video, &titles), vec![SourceId(3), SourceId(1)]);
    assert_eq!(source_ids(&tl, TrackKind::Audio, &titles), vec![SourceId(5)]);
    assert_eq!(titles_to_bake(&tl, &titles), vec![SourceId(9)]);
}

#[test]
fn a_clip_without_its_file_fails_the_render() {
    let paths = vec![(SourceId(2), "b.mp4".to_owned())];
    assert_eq!(path_for(&paths, SourceId(2)), Ok("b.mp4".to_owned()));
    let missing = ExportError::MissingMedia(SourceId(1));
    assert_eq!(path_for(&paths, SourceId(1)), Err(missing));
    assert_eq!(missing.message(), "a clip refers to media that is no longer loaded");
}
