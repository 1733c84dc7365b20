//! A session: edits, history, gestures, titles, the keyboard.

use vedit::canvas::{reference_video_source, ProjectChoice};
use vedit::controls::{export_notice, notches, ExportStep, Mood};
use vedit::edit::{Point, Range};
use vedit::export::Outcome;
use vedit::ieee::{Double, Single};
use vedit::input::{DragMode, Effect, Tone};
use vedit::keys::{command, typing, Command, Key, Typing};
use vedit::media::Footage;
use vedit::project::{MediaPath, Setting};
use vedit::session::{Session, UNDO_LIMIT};
use vedit::timeline::{SourceId, TrackKind};

fn d(x: f64) -> Double {
    Double { bits: x.to_bits() }
}

fn f(x: f32) -> Single {
    Single { bits: x.to_bits() }
}

fn secs(x: Double) -> f64 {
    f64::from_bits(x.bits)
}

fn path(name: &str) -> MediaPath {
    MediaPath { absolute: true, parts: vec![name.to_owned()] }
}

fn tone() -> Tone {
    Tone { gain: f(0.5), gains: Range { lo: f(0.0), hi: f(2.0) } }
}

/// A window with a film of ten seconds, with sound, and a song of twenty in the pool.
fn session() -> Session {
    let mut s = Session::new(f(1280.0), f(720.0));
    let film = Footage { width: 1920, height: 1080, duration: d(10.0), frame_rate: d(25.0) };
    assert_eq!(s.media.add(path("a.mp4"), "/a.mp4", Some(film), Some(d(10.0))), Some(SourceId(0)));
    assert_eq!(s.media.add(path("b.wav"), "/b.wav", None, Some(d(20.0))), Some(SourceId(1)));
    assert_eq!(s.media.add(path("c.txt"), "/c.txt", None, None), None);
    s
}

fn drop_at(s: &mut Session, source: u32, track: usize, t: f64) {
    s.begin_edit();
    let Session { timeline, media, .. } = s;
    timeline.drop_source(media, SourceId(source), track, d(t));
    s.commit_edit();
}

fn clips(s: &Session) -> Vec<usize> {
    s.timeline.tracks.iter().map(|t| t.clips.len()).collect()
}

#[test]
fn a_dropped_film_brings_its_sound_along() {
    let mut s = session();
    drop_at(&mut s, 0, 0, 3.0);
    assert_eq!(clips(&s), vec![1, 0, 1, 0]);
    let (v, a) = (s.timeline.tracks[0].clips[0], s.timeline.tracks[2].clips[0]);
    assert_eq!((v.link, a.link), (Some(0), Some(0)));
    assert_eq!((secs(v.timeline_start), secs(a.timeline_start)), (3.0, 3.0));
    assert_ne!(v.id, a.id);
    assert!(s.desk.dirty);
    drop_at(&mut s, 1, 0, 0.0);
    assert_eq!(clips(&s), vec![1, 0, 1, 0]);
}

#[test]
fn undo_and_redo_walk_the_history() {
    let mut s = session();
    drop_at(&mut s, 0, 0, 0.0);
    s.desk.clock.position = d(4.0);
    assert!(s.timeline.is_splittable(s.desk.clock.position));
    s.split_at_playhead();
    assert_eq!(clips(&s), vec![2, 0, 2, 0]);
    s.undo();
    assert_eq!(clips(&s), vec![1, 0, 1, 0]);
    s.undo();
    assert_eq!(clips(&s), vec![0, 0, 0, 0]);
    s.undo();
    s.redo();
    s.redo();
    assert_eq!(clips(&s), vec![2, 0, 2, 0]);
    assert_eq!((s.undo_stack.len(), s.redo_stack.len()), (2, 0));
}

#[test]
fn an_edit_that_changed_nothing_is_no_step() {
    let mut s = session();
    s.begin_edit();
    s.commit_edit();
    assert_eq!(s.undo_stack.len(), 0);
    assert!(!s.desk.dirty);
    s.begin_edit();
    drop_at(&mut s, 0, 0, 0.0);
    drop_at(&mut s, 1, 3, 0.0);
    s.commit_edit();
    assert_eq!(s.undo_stack.len(), 1);
}

#[test]
fn the_history_forgets_its_oldest_steps() {
    let mut s = session();
    for i in 0..UNDO_LIMIT + 5 {
        drop_at(&mut s, 1, 3, i as f64 * 30.0);
    }
    assert_eq!(s.undo_stack.len(), UNDO_LIMIT);
}

#[test]
fn deleting_takes_linked_clips_along() {
    let mut s = session();
    drop_at(&mut s, 0, 0, 0.0);
    drop_at(&mut s, 1, 3, 0.0);
    assert!(!s.has_selection());
    s.select_clip_at(0, 0);
    assert!(s.has_selection());
    s.delete_selected();
    assert_eq!(clips(&s), vec![0, 0, 0, 1]);
    assert_eq!(s.desk.selected, None);
}

#[test]
fn removing_a_source_takes_its_clips_and_its_row() {
    let mut s = session();
    drop_at(&mut s, 0, 0, 0.0);
    drop_at(&mut s, 1, 3, 0.0);
    s.remove_source(SourceId(0));
    assert_eq!(clips(&s), vec![0, 0, 0, 1]);
    assert_eq!(s.media.ids(), vec![SourceId(1)]);
    s.undo();
    assert_eq!(clips(&s), vec![1, 0, 1, 1]);
    assert_eq!(s.media.ids(), vec![SourceId(0), SourceId(1)]);
}

#[test]
fn typing_that_is_given_up_leaves_no_trace() {
    let mut s = session();
    s.add_title();
    let before = s.undo_stack.len();
    let id = SourceId(2);
    let words = s.media.title(id).unwrap().text.clone();
    s.type_into_title("ab\u{7}c\n");
    assert_eq!(s.media.title(id).unwrap().text, format!("{words}abc\n"));
    s.backspace_title();
    s.backspace_title();
    assert_eq!(s.media.title(id).unwrap().text, format!("{words}ab"));
    s.cancel_title_edit();
    assert_eq!(s.media.title(id).unwrap().text, words);
    assert_eq!(s.undo_stack.len(), before);
    assert!(!s.typing_title());
}

#[test]
fn typing_that_is_finished_is_one_step() {
    let mut s = session();
    s.add_title();
    let before = s.undo_stack.len();
    s.type_into_title("!");
    s.type_into_title("?");
    s.finish_title_edit();
    assert_eq!(s.undo_stack.len(), before + 1);
    let title = s.media.title(SourceId(2)).unwrap();
    assert!(title.text.ends_with("!?"));
    assert_eq!(s.media.get(SourceId(2)).unwrap().name, title.pool_name());
}

#[test]
fn the_playhead_steps_jumps_and_parks() {
    let mut s = session();
    drop_at(&mut s, 0, 0, 2.0);
    s.goto_edit_point(true);
    assert_eq!(secs(s.desk.clock.position), 2.0);
    s.step_frame(d(1.0));
    assert_eq!(secs(s.desk.clock.position), 2.0 + 1.0 / 25.0);
    s.desk.clock.position = d(99.0);
    s.desk.clock.playing = true;
    s.park_playhead();
    assert_eq!(secs(s.desk.clock.position), 12.0);
    assert!(!s.desk.clock.playing);
    s.toggle_playback();
    assert!(s.desk.clock.playing);
    assert_eq!(secs(s.desk.clock.position), 0.0);
}

#[test]
fn the_canvas_follows_the_first_clip_until_it_is_pinned() {
    let mut s = session();
    assert_eq!((s.canvas().width, s.canvas().height), (1920, 1080));
    drop_at(&mut s, 0, 0, 0.0);
    assert_eq!(secs(s.canvas().fps), 25.0);
    s.desk.dirty = false;
    s.apply_project_choice(ProjectChoice::Fps(Setting::Fixed(d(50.0))));
    assert_eq!(secs(s.canvas().fps), 50.0);
    assert!(s.desk.dirty);
    s.apply_project_choice(ProjectChoice::Resolution(Setting::Fixed((1281, 721))));
    assert_eq!((s.canvas().width, s.canvas().height), (1280, 720));
}

#[test]
fn a_clip_is_dragged_along_its_lane() {
    let mut s = session();
    drop_at(&mut s, 0, 0, 0.0);
    drop_at(&mut s, 1, 3, 30.0);
    assert!(s.is_laid() && s.is_graspable());
    let l = s.timeline_layout();
    let y = s.lane_top(0, &l);
    let middle = |t: f64| Point { x: l.t_to_x(d(t)), y: f(f32::from_bits(y.bits) + 30.0) };
    s.desk.cursor = middle(5.0);
    assert!(s.is_pressable());
    assert_eq!(s.begin_drag(f(0.0)), Effect::Nothing);
    assert!(matches!(s.desk.drag, DragMode::ClipMove { track: 0, idx: 0, .. }));
    assert!(s.has_selection());
    s.desk.cursor = middle(8.0);
    s.desk.snap_enabled = false;
    assert!(s.is_draggable(tone()));
    s.update_drag(tone());
    s.end_drag();
    let start = secs(s.timeline.tracks[0].clips[0].timeline_start);
    assert!((start - 3.0).abs() < 1e-3, "{start}");
    let sound = secs(s.timeline.tracks[2].clips[0].timeline_start);
    assert_eq!(start, sound);
    assert_eq!(s.undo_stack.len(), 3);
    assert_eq!(s.desk.drag, DragMode::Idle);
}

#[test]
fn a_row_is_dragged_onto_the_timeline() {
    let mut s = session();
    s.desk.cursor = Point { x: f(60.0), y: f(60.0) };
    assert_eq!(s.begin_drag(f(0.0)), Effect::Nothing);
    assert_eq!(s.desk.drag, DragMode::PoolDrag { source: SourceId(0) });
    let l = s.timeline_layout();
    let y = f32::from_bits(s.lane_top(0, &l).bits) + 5.0;
    s.desk.cursor = Point { x: l.clips_x, y: f(y) };
    s.update_drag(tone());
    assert!(s.is_landable());
    s.end_drag();
    assert_eq!(clips(&s), vec![1, 0, 1, 0]);
    assert_eq!(secs(s.timeline.tracks[0].clips[0].timeline_start), 0.0);
}

/// Where a lane is, a little inside it.
fn on_lane(s: &Session, track: usize) -> Point {
    let l = s.timeline_layout();
    let y = f32::from_bits(s.lane_top(track, &l).bits) + 5.0;
    Point { x: l.clips_x, y: f(y) }
}

#[test]
fn a_drop_needs_names_only_for_what_it_adds() {
    let mut s = session();
    s.timeline.next_clip = u32::MAX - 1;
    s.timeline.next_link = u32::MAX;
    s.desk.drag = DragMode::PoolDrag { source: SourceId(0) };
    s.desk.cursor = on_lane(&s, 0);
    assert!(!s.is_landable());
    s.desk.cursor = on_lane(&s, 3);
    assert!(s.is_landable());
    s.desk.drag = DragMode::PoolDrag { source: SourceId(1) };
    s.end_drag();
    assert_eq!(clips(&s), vec![0, 0, 0, 1]);
    assert_eq!(s.timeline.tracks[3].clips[0].id, u32::MAX - 1);
    s.desk.drag = DragMode::PoolDrag { source: SourceId(1) };
    assert!(!s.is_landable());
    s.desk.cursor = on_lane(&s, 0);
    assert!(s.is_landable());
    s.end_drag();
    assert_eq!(clips(&s), vec![0, 0, 0, 1]);
}

#[test]
fn a_press_off_the_timeline_does_not_read_it() {
    let mut s = session();
    drop_at(&mut s, 0, 0, 0.0);
    s.desk.cursor = on_lane(&s, 1);
    assert!(s.is_pressable());
    s.timeline.tracks[0].clips[0].timeline_start = d(f64::NAN);
    assert!(!s.is_pressable());
    s.desk.cursor = Point { x: f(60.0), y: f(60.0) };
    assert!(s.is_pressable());
    assert_eq!(s.begin_drag(f(0.0)), Effect::Nothing);
    assert_eq!(s.desk.drag, DragMode::PoolDrag { source: SourceId(0) });
}

#[test]
fn trims_stay_inside_the_source_and_keep_links_in_step() {
    let mut s = session();
    drop_at(&mut s, 0, 0, 2.0);
    let Session { timeline, media, .. } = &mut s;
    let both = |t: &vedit::timeline::Timeline| {
        let (a, b) = (t.tracks[0].clips[0], t.tracks[2].clips[0]);
        assert_eq!((a.source_in, a.source_out), (b.source_in, b.source_out));
        assert_eq!(a.timeline_start, b.timeline_start);
        (secs(a.source_in), secs(a.source_out), secs(a.timeline_start))
    };
    timeline.apply_trim_right_delta(media, 0, 0, d(-3.0));
    assert_eq!(both(timeline), (0.0, 7.0, 2.0));
    timeline.apply_trim_right_delta(media, 2, 0, d(100.0));
    assert_eq!(both(timeline), (0.0, 10.0, 2.0));
    timeline.apply_trim_left_delta(0, 0, d(4.0));
    assert_eq!(both(timeline), (4.0, 10.0, 6.0));
    timeline.apply_trim_left_delta(0, 0, d(100.0));
    assert!((both(timeline).0 - 9.95).abs() < 1e-12);
    timeline.apply_trim_left_delta(0, 0, d(-100.0));
    let (head, tail, start) = both(timeline);
    assert!(head >= 0.0 && start >= 0.0 && head < 1e-12 && tail == 10.0);
    timeline.apply_trim_right_delta(media, 0, 0, d(-100.0));
    assert!((both(timeline).1 - 0.05).abs() < 1e-12);
}

#[test]
fn the_wheel_zooms_over_the_timeline_only() {
    let mut s = session();
    drop_at(&mut s, 0, 0, 0.0);
    assert_eq!(notches(f(60.0)), f(1.5));
    s.desk.cursor = Point { x: f(60.0), y: f(60.0) };
    assert!(s.is_turnable(f(1.0), false, d(f64::NAN)));
    s.wheel(f(0.0), f(1.0), false, d(f64::NAN));
    assert_eq!(secs(s.view_window().1), 10.0);
    s.desk.cursor = on_lane(&s, 0);
    assert!(!s.is_turnable(f(1.0), false, d(f64::NAN)));
    assert!(s.is_turnable(f(1.0), true, d(f64::NAN)) && s.is_turnable(f(1.0), false, d(2.0)));
    s.wheel(f(0.0), f(1.0), false, d(2.0));
    assert_eq!(secs(s.view_window().1), 5.0);
}

#[test]
fn a_level_is_nudged_inside_its_range() {
    let mut s = session();
    drop_at(&mut s, 0, 0, 0.0);
    let gains = tone().gains;
    s.select_clip_at(2, 0);
    s.nudge_selected_level(f(1.0), false, f(9.0), gains);
    assert_eq!(s.timeline.tracks[2].clips[0].gain, f(2.0));
    s.select_clip_at(0, 0);
    s.nudge_selected_level(f(-1.0), false, f(9.0), gains);
    let opacity = f32::from_bits(s.timeline.tracks[0].clips[0].opacity.bits);
    assert!((opacity - 0.95).abs() < 1e-6);
    s.nudge_selected_level(f(1.0), false, f(9.0), gains);
    s.nudge_selected_level(f(1.0), false, f(9.0), gains);
    assert_eq!(s.timeline.tracks[0].clips[0].opacity, f(1.0));
}

#[test]
fn zooming_narrows_the_view_and_fitting_widens_it_again() {
    let mut s = session();
    drop_at(&mut s, 0, 0, 0.0);
    let l = s.timeline_layout();
    assert!(s.is_zoomable(d(2.0)) && !s.is_zoomable(d(f64::NAN)));
    s.zoom_timeline(d(2.0), l.clips_x);
    assert_eq!(secs(s.view_window().1), 5.0);
    s.pan_timeline(d(1000.0));
    assert_eq!(secs(s.view_window().0), 5.0);
    s.zoom_timeline_to_fit();
    assert_eq!((secs(s.view_window().0), secs(s.view_window().1)), (0.0, 10.0));
}

#[test]
fn an_export_needs_something_to_export() {
    let mut s = session();
    assert_eq!(s.export_step(), ExportStep::NothingThere);
    assert!(!s.can_export() && s.export_video_spec().is_none());
    drop_at(&mut s, 0, 0, 0.0);
    assert_eq!(s.export_step(), ExportStep::AskWhere);
    assert_eq!(s.export_sources(), vec![SourceId(0)]);
    assert_eq!(s.export_video_spec().unwrap().width, 1920);
    s.desk.exporting = true;
    assert_eq!(s.export_step(), ExportStep::Cancel);
    assert!(!s.can_export());
}

#[test]
fn an_export_says_how_it_ended() {
    assert_eq!(export_notice(&Outcome::Cancelled, "x.mp4").mood, Mood::Plain);
    let failed = export_notice(&Outcome::Failed("disk full".to_owned()), "x.mp4");
    assert_eq!((failed.mood, failed.text.as_str()), (Mood::Bad, "Export failed: disk full"));
    let done = export_notice(&Outcome::Done("/out/x.mp4".to_owned()), "x.mp4");
    assert!(done.text.contains("x.mp4"));
}

#[test]
fn keys_mean_what_they_say() {
    assert_eq!(command(Key::Z, true, false, false), Command::Undo);
    assert_eq!(command(Key::Z, true, true, true), Command::Redo);
    assert_eq!(command(Key::Z, false, true, false), Command::ZoomToFit);
    assert_eq!(command(Key::S, false, false, false), Command::Split);
    assert_eq!(command(Key::S, false, false, true), Command::Nothing);
    assert_eq!(command(Key::S, true, true, false), Command::Save { ask: true });
    assert_eq!(command(Key::ArrowLeft, false, true, true), Command::GotoEditPoint { forward: false });
    assert_eq!(command(Key::Other, true, true, false), Command::Nothing);
    assert_eq!(command(Key::Backspace, false, false, false), Command::DeleteSelected);
    assert_eq!(command(Key::Enter, false, false, false), Command::Nothing);
}

#[test]
fn keys_type_while_a_title_is_in_hand() {
    assert_eq!(typing(Key::Escape, false), Typing::Cancel);
    assert_eq!(typing(Key::Backspace, true), Typing::Erase);
    assert_eq!(typing(Key::Enter, false), Typing::Accept);
    assert_eq!(typing(Key::Enter, true), Typing::Break);
    assert_eq!(typing(Key::Z, false), Typing::Insert);
}

#[test]
fn a_press_needs_names_only_where_it_splits() {
    let mut s = session();
    drop_at(&mut s, 0, 0, 0.0);
    s.desk.clock.position = d(4.0);
    s.timeline.next_clip = u32::MAX;
    assert!(!s.timeline.is_splittable(d(4.0)));
    s.desk.buttons.split = vedit::ui::Rect { x: f(80.0), y: f(400.0), w: f(30.0), h: f(20.0) };
    s.desk.cursor = Point { x: f(600.0), y: f(300.0) };
    assert!(s.is_pressable());
    s.desk.cursor = Point { x: f(90.0), y: f(410.0) };
    assert!(!s.is_pressable());
}

#[test]
fn a_new_project_starts_over() {
    let mut s = session();
    drop_at(&mut s, 0, 0, 0.0);
    s.new_project();
    assert_eq!(clips(&s), vec![0, 0, 0, 0]);
    assert!(s.media.ids().is_empty() && s.undo_stack.is_empty() && !s.desk.dirty);
    assert_eq!(s.timeline.tracks[1].kind, TrackKind::Video);
    assert_eq!(s.timeline.tracks[2].kind, TrackKind::Audio);
}

#[test]
fn an_export_takes_its_files_and_its_titles_along() {
    let mut s = session();
    drop_at(&mut s, 0, 0, 0.0);
    s.add_title();
    s.finish_title_edit();
    drop_at(&mut s, 2, 1, 0.0);
    let luggage = s.export_luggage();
    let files: Vec<u32> = luggage.files.iter().map(|(id, _)| id.0).collect();
    assert_eq!(files, vec![0]);
    assert_eq!(luggage.files[0].1, path("a.mp4"));
    assert_eq!(luggage.titles.len(), 1);
    assert_eq!(luggage.titles[0].0, SourceId(2));
    assert!(luggage.titles[0].1.same(s.media.title(SourceId(2)).unwrap()));
}

#[test]
fn the_first_footage_sets_the_format() {
    let mut s = session();
    assert_eq!(reference_video_source(&s.timeline, &s.media), None);
    s.add_title();
    s.finish_title_edit();
    drop_at(&mut s, 2, 0, 0.0);
    assert_eq!(reference_video_source(&s.timeline, &s.media), None);
    drop_at(&mut s, 0, 1, 30.0);
    assert_eq!(reference_video_source(&s.timeline, &s.media), Some(SourceId(0)));
}

#[test]
fn only_titles_can_be_typed_into() {
    let mut s = session();
    drop_at(&mut s, 0, 0, 0.0);
    s.select_clip_at(0, 0);
    s.edit_selected_title();
    assert!(!s.typing_title());
    s.add_title();
    s.finish_title_edit();
    drop_at(&mut s, 2, 1, 0.0);
    s.select_clip_at(1, 0);
    s.edit_selected_title();
    assert!(s.typing_title());
}

#[test]
fn the_view_follows_a_playhead_that_runs_out_of_it() {
    let mut s = session();
    drop_at(&mut s, 0, 0, 0.0);
    let l = s.timeline_layout();
    s.zoom_timeline(d(5.0), l.clips_x);
    s.follow_playhead(d(6.0));
    assert_eq!(secs(s.view_window().0), 0.0);
    s.desk.clock.playing = true;
    s.follow_playhead(d(1.0));
    assert_eq!(secs(s.view_window().0), 0.0);
    s.follow_playhead(d(6.0));
    let start = secs(s.view_window().0);
    assert!(start > 5.0 && start < 6.0, "{start}");
}
