//! The timeline: clips, names, links, fades, boundaries.

use vedit::ieee::{Double, Single};
use vedit::layout::{db_to_y, y_to_db};
use vedit::timeline::{Clip, SourceId, Timeline, Track, TrackKind, MIN_GAIN_DB};

fn d(x: f64) -> Double {
    Double { bits: x.to_bits() }
}

fn f(x: f32) -> Single {
    Single { bits: x.to_bits() }
}

fn secs(x: Double) -> f64 {
    f64::from_bits(x.bits)
}

fn clip(start: f64, dur: f64) -> Clip {
    Clip { source_out: d(dur), timeline_start: d(start), ..Clip::default() }
}

fn timeline_with(clips: Vec<Clip>) -> Timeline {
    let mut tl = Timeline::new();
    tl.tracks.push(Track::new(TrackKind::Video));
    tl.tracks[0].clips = clips;
    for i in 0..tl.tracks[0].clips.len() {
        tl.tracks[0].clips[i].id = tl.new_clip_id();
    }
    tl
}

fn audio(clips: Vec<Clip>) -> Track {
    let mut t = Track::new(TrackKind::Audio);
    t.clips = clips;
    t
}

fn split(tl: &mut Timeline, t: f64) {
    assert!(tl.is_splittable(d(t)));
    tl.split_at(d(t));
}

#[test]
fn restore_undoes_a_split() {
    let mut tl = timeline_with(vec![clip(0.0, 10.0)]);
    let before = tl.snapshot();

    split(&mut tl, 4.0);
    assert_eq!(tl.tracks[0].clips.len(), 2);
    assert!(!tl.snapshot().same(&before));

    tl.restore(&before);
    assert_eq!(tl.tracks[0].clips.len(), 1);
    assert!(tl.snapshot().same(&before));
}

#[test]
fn restore_rewinds_link_ids_so_a_redone_split_reuses_them() {
    let mut tl = timeline_with(vec![Clip { link: Some(0), ..clip(0.0, 10.0) }]);
    tl.next_link = 1;
    let before = tl.snapshot();

    split(&mut tl, 4.0);
    let first = tl.tracks[0].clips[1].link;

    tl.restore(&before);
    split(&mut tl, 4.0);
    assert_eq!(tl.tracks[0].clips[1].link, first);
}

#[test]
fn a_split_keeps_the_left_half_s_name_and_coins_one_for_the_right() {
    let mut tl = timeline_with(vec![clip(0.0, 10.0)]);
    let original = tl.tracks[0].clips[0].id;

    split(&mut tl, 4.0);
    assert_eq!(tl.tracks[0].clips[0].id, original);
    assert_ne!(tl.tracks[0].clips[1].id, original);
}

#[test]
fn every_clip_a_split_produces_has_its_own_name() {
    let mut tl = timeline_with(vec![clip(0.0, 10.0)]);
    let id = tl.new_clip_id();
    tl.tracks.push(audio(vec![Clip { id, ..clip(0.0, 10.0) }]));

    split(&mut tl, 4.0);
    let ids: Vec<u32> =
        tl.tracks.iter().flat_map(|t| t.clips.iter().map(|c| c.id)).collect();
    let mut unique = ids.clone();
    unique.sort_unstable();
    unique.dedup();
    assert_eq!(ids.len(), unique.len(), "duplicate clip ids in {ids:?}");
}

#[test]
fn find_locates_a_clip_and_forgets_a_deleted_one() {
    let mut tl = timeline_with(vec![clip(0.0, 10.0), clip(10.0, 5.0)]);
    let second = tl.tracks[0].clips[1].id;
    assert_eq!(tl.find(second), Some((0, 1)));

    tl.tracks[0].clips.remove(0);
    assert_eq!(tl.find(second), Some((0, 0)));

    tl.tracks[0].clips.clear();
    assert_eq!(tl.find(second), None);
}

#[test]
fn restore_rewinds_clip_ids_so_a_redone_split_reuses_them() {
    let mut tl = timeline_with(vec![clip(0.0, 10.0)]);
    let before = tl.snapshot();

    split(&mut tl, 4.0);
    let first = tl.tracks[0].clips[1].id;

    tl.restore(&before);
    split(&mut tl, 4.0);
    assert_eq!(tl.tracks[0].clips[1].id, first);
}

#[test]
fn snapshot_is_a_deep_copy() {
    let mut tl = timeline_with(vec![clip(0.0, 10.0)]);
    let before = tl.snapshot();
    tl.tracks[0].clips[0].timeline_start = d(99.0);
    assert!(!tl.snapshot().same(&before));

    tl.restore(&before);
    assert_eq!(secs(tl.tracks[0].clips[0].timeline_start), 0.0);
}

#[test]
fn edit_points_from_mid_clip_are_that_clip_s_own_bounds() {
    let tl = timeline_with(vec![clip(0.0, 10.0), clip(10.0, 5.0)]);
    assert_eq!(tl.prev_edit_point(d(4.0)).map(secs), Some(0.0));
    assert_eq!(tl.next_edit_point(d(4.0)).map(secs), Some(10.0));
}

#[test]
fn repeated_jumps_walk_past_the_current_boundary() {
    let tl = timeline_with(vec![clip(0.0, 10.0), clip(10.0, 5.0)]);
    assert_eq!(tl.next_edit_point(d(10.0)).map(secs), Some(15.0));
    assert_eq!(tl.prev_edit_point(d(10.0)).map(secs), Some(0.0));
}

#[test]
fn edit_points_terminate_at_the_ends() {
    let tl = timeline_with(vec![clip(0.0, 10.0)]);
    assert_eq!(tl.prev_edit_point(d(0.0)), None);
    assert_eq!(tl.next_edit_point(d(10.0)), None);
}

#[test]
fn zero_is_reachable_when_the_first_clip_starts_later() {
    let tl = timeline_with(vec![clip(5.0, 10.0)]);
    assert_eq!(tl.prev_edit_point(d(3.0)).map(secs), Some(0.0));
}

#[test]
fn edit_points_span_every_track() {
    let mut tl = timeline_with(vec![clip(0.0, 10.0)]);
    tl.tracks.push(audio(vec![clip(3.0, 2.0)]));
    assert_eq!(tl.next_edit_point(d(1.0)).map(secs), Some(3.0));
    assert_eq!(tl.next_edit_point(d(3.0)).map(secs), Some(5.0));
}

#[test]
fn reseeding_clears_every_id_in_use() {
    let mut tl = timeline_with(vec![
        Clip { id: 7, link: Some(3), ..clip(0.0, 10.0) },
        Clip { id: 2, link: None, ..clip(10.0, 5.0) },
    ]);
    tl.tracks[0].clips[0].id = 7;
    tl.tracks[0].clips[1].id = 2;
    tl.next_clip = 0;
    tl.next_link = 0;

    tl.reseed_counters();
    assert_eq!(tl.new_clip_id(), 8);
    assert_eq!(tl.new_link_id(), 4);
}

#[test]
fn reseeding_an_empty_timeline_starts_from_zero() {
    let mut tl = timeline_with(vec![]);
    tl.next_clip = 99;
    tl.reseed_counters();
    assert_eq!(tl.new_clip_id(), 0);
    assert_eq!(tl.new_link_id(), 0);
}

#[test]
fn reseeding_ignores_clip_ids_when_seeding_links() {
    let mut tl = timeline_with(vec![clip(0.0, 10.0); 5]);
    tl.reseed_counters();
    assert_eq!(tl.new_link_id(), 0);
}

fn assert_level(clip: &Clip, t: f64, want: f32) {
    let got = f32::from_bits(clip.level(d(t)).bits);
    assert!((got - want).abs() < 1e-6, "level at {t}: got {got}, want {want}");
}

#[test]
fn a_clip_with_no_fades_plays_at_its_gain() {
    let c = Clip { gain: f(0.5), ..clip(0.0, 10.0) };
    assert_level(&c, 0.0, 0.5);
    assert_level(&c, 5.0, 0.5);
}

#[test]
fn a_fade_ramps_from_silence_to_the_clip_s_gain() {
    let c = Clip { gain: f(0.5), fade_in: d(2.0), ..clip(0.0, 10.0) };
    assert_level(&c, 0.0, 0.0);
    assert_level(&c, 1.0, 0.25);
    assert_level(&c, 2.0, 0.5);
    assert_level(&c, 6.0, 0.5);
}

#[test]
fn a_fade_out_is_measured_back_from_the_clip_s_end() {
    let c = Clip { fade_out: d(4.0), ..clip(5.0, 10.0) };
    assert_level(&c, 10.0, 1.0);
    assert_level(&c, 13.0, 0.5);
    assert_level(&c, 15.0, 0.0);
}

#[test]
fn a_level_asked_for_past_the_clip_holds_rather_than_inverting() {
    let c = Clip { fade_out: d(2.0), ..clip(0.0, 10.0) };
    assert_level(&c, 10.5, 0.0);
    assert_level(&c, -0.5, 1.0);
}

#[test]
fn overlapping_fades_still_reach_silence_at_both_ends() {
    let mut c = Clip { fade_in: d(8.0), fade_out: d(8.0), ..clip(0.0, 10.0) };
    assert!(c.is_clampable());
    c.clamp_fades();
    assert_eq!(secs(c.fade_in), 8.0);
    assert_eq!(secs(c.fade_out), 2.0);
    assert_level(&c, 0.0, 0.0);
    assert_level(&c, 10.0, 0.0);
}

#[test]
fn trimming_a_clip_shorter_pulls_its_fades_in() {
    let mut c = Clip { fade_in: d(3.0), fade_out: d(3.0), ..clip(0.0, 10.0) };
    c.source_out = d(4.0);
    c.clamp_fades();
    assert_eq!(secs(c.fade_in), 3.0);
    assert_eq!(secs(c.fade_out), 1.0);
    assert_level(&c, 3.0, 1.0);
}

#[test]
fn a_split_leaves_each_fade_on_the_end_it_hangs_off() {
    let mut tl = timeline_with(vec![Clip {
        gain: f(0.5),
        fade_in: d(1.0),
        fade_out: d(1.0),
        ..clip(0.0, 10.0)
    }]);
    split(&mut tl, 4.0);
    let (left, right) = (tl.tracks[0].clips[0], tl.tracks[0].clips[1]);
    assert_eq!((secs(left.fade_in), secs(left.fade_out)), (1.0, 0.0));
    assert_eq!((secs(right.fade_in), secs(right.fade_out)), (0.0, 1.0));
    assert_eq!((left.gain, right.gain), (f(0.5), f(0.5)));
}

#[test]
fn a_split_pulls_a_fade_inside_the_half_that_keeps_it() {
    let mut tl = timeline_with(vec![Clip { fade_out: d(6.0), ..clip(0.0, 10.0) }]);
    split(&mut tl, 8.0);
    assert_eq!(secs(tl.tracks[0].clips[1].fade_out), 2.0);
}

#[test]
fn decibels_place_the_level_line_and_read_back_from_it() {
    for db in [-40.0f32, -12.0, -6.0, 0.0, 6.0] {
        let y = db_to_y(f(100.0), f(60.0), f(db));
        let back = f32::from_bits(y_to_db(f(100.0), f(60.0), y).bits);
        assert!((back - db).abs() < 1e-4, "{db} came back as {back}");
    }
    let floor = y_to_db(f(100.0), f(60.0), f(1e9));
    assert_eq!(floor.bits, MIN_GAIN_DB);
}

#[test]
fn a_paired_drop_looks_past_an_audio_track_that_is_busy() {
    let mut tl = timeline_with(vec![]);
    tl.tracks.push(Track::new(TrackKind::Audio));
    tl.tracks.push(Track::new(TrackKind::Audio));
    tl.tracks[1].clips = vec![clip(0.0, 10.0)];

    assert_eq!(tl.free_audio_track(d(4.0), d(6.0)), Some(2));
    assert_eq!(tl.free_audio_track(d(10.0), d(20.0)), Some(1));
}

#[test]
fn every_audio_track_being_busy_is_answered_with_none() {
    let mut tl = timeline_with(vec![]);
    tl.tracks.push(Track::new(TrackKind::Audio));
    tl.tracks[1].clips = vec![clip(0.0, 10.0)];
    assert_eq!(tl.free_audio_track(d(1.0), d(2.0)), None);

    assert_eq!(tl.push_track(TrackKind::Audio), 2);
    assert_eq!(tl.free_audio_track(d(1.0), d(2.0)), Some(2));
}

#[test]
fn restore_reinstates_clips_removed_with_their_source() {
    let mut tl = timeline_with(vec![clip(0.0, 10.0), clip(20.0, 5.0)]);
    let before = tl.snapshot();

    tl.remove_source(SourceId(0));
    assert!(tl.tracks[0].clips.is_empty());

    tl.restore(&before);
    assert_eq!(tl.tracks[0].clips.len(), 2);
    assert_eq!(secs(tl.duration()), 25.0);
}

#[test]
fn a_split_ties_the_right_halves_of_linked_clips_anew() {
    let mut tl = timeline_with(vec![Clip { link: Some(0), ..clip(0.0, 10.0) }]);
    let id = tl.new_clip_id();
    tl.tracks.push(audio(vec![Clip { id, link: Some(0), ..clip(0.0, 10.0) }]));
    tl.next_link = 1;

    split(&mut tl, 4.0);
    let (a, b) = (&tl.tracks[0].clips, &tl.tracks[1].clips);
    assert_eq!((a[0].link, b[0].link), (Some(0), Some(0)));
    assert_eq!((a[1].link, b[1].link), (Some(1), Some(1)));
    assert_eq!(secs(a[0].source_out), 4.0);
    assert_eq!(secs(a[1].source_in), 4.0);
    assert_eq!(secs(a[1].timeline_start), 4.0);
}

#[test]
fn a_cut_on_a_clip_s_edge_cuts_nothing() {
    let mut tl = timeline_with(vec![clip(0.0, 10.0), clip(10.0, 5.0)]);
    split(&mut tl, 10.0);
    assert_eq!(tl.tracks[0].clips.len(), 2);
    split(&mut tl, 0.0);
    assert_eq!(tl.tracks[0].clips.len(), 2);
}

#[test]
fn a_cut_needs_names_that_last() {
    let mut tl = timeline_with(vec![clip(0.0, 10.0)]);
    tl.next_clip = u32::MAX;
    assert!(!tl.is_splittable(d(4.0)));
    assert!(tl.is_splittable(d(10.0)));
}

#[test]
fn the_topmost_picture_is_the_highest_track_s() {
    let mut tl = timeline_with(vec![clip(0.0, 10.0)]);
    tl.tracks.push(Track::new(TrackKind::Video));
    tl.tracks[1].clips = vec![Clip { source: SourceId(4), ..clip(2.0, 2.0) }];
    let on_top = |t: f64| tl.topmost_video_clip(d(t)).map(|(i, c)| (i, c.source.0));
    assert_eq!(on_top(1.0), Some((0, 0)));
    assert_eq!(on_top(3.0), Some((1, 4)));
    assert_eq!(on_top(11.0), None);
}
