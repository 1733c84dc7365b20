//! Mixing, playback, decoded sound, waveforms; reading frames; the glyph atlas.

use vedit::glyphs::{is_icon, white_pixels, Cell, GlyphMetrics, Packer, Pen};
use vedit::ieee::{Double, Single};
use vedit::sound::{
    add_voice, channel_of, mix_voices, needs_seek, silence, tick_of, voices_at, MixRun, PeakBuilder,
    Playback, StreamBuffer,
};
use vedit::take::{crop_of, footage, thumbnail_size, Ask, Reader, Shot};
use vedit::timeline::{Clip, SourceId, Track, TrackKind};
use vedit::raster::Part;

fn d(x: f64) -> Double {
    Double { bits: x.to_bits() }
}

fn f(x: f32) -> Single {
    Single { bits: x.to_bits() }
}

fn fs(xs: &[f32]) -> Vec<Single> {
    xs.iter().map(|&x| f(x)).collect()
}

fn nums(xs: &[Single]) -> Vec<f32> {
    xs.iter().map(|x| f32::from_bits(x.bits)).collect()
}

fn secs(x: Double) -> f64 {
    f64::from_bits(x.bits)
}

fn clip(source: u32, start: f64, len: f64) -> Clip {
    Clip { source: SourceId(source), source_out: d(len), timeline_start: d(start), ..Clip::default() }
}

#[test]
fn every_audio_track_has_one_voice() {
    let mut a = Track::new(TrackKind::Audio);
    a.clips = vec![clip(1, 0.0, 5.0), clip(2, 3.0, 5.0)];
    let mut v = Track::new(TrackKind::Video);
    v.clips = vec![clip(3, 0.0, 5.0)];
    let mut b = Track::new(TrackKind::Audio);
    b.clips = vec![clip(4, 4.0, 1.0)];
    let tracks = vec![a, v, b];
    let at = |t: f64| -> Vec<u32> { voices_at(&tracks, d(t)).iter().map(|c| c.source.0).collect() };
    assert_eq!(at(1.0), vec![1]);
    assert_eq!(at(4.0), vec![1, 4]);
    assert_eq!(at(6.0), vec![2]);
}

#[test]
fn voices_add_up_at_their_levels() {
    let mut mix = silence(4);
    let c = Clip { gain: f(0.5), ..clip(0, 0.0, 10.0) };
    add_voice(&mut mix, 0, &fs(&[1.0, -1.0, 0.5, 0.25]), 4, &c, d(0.0));
    assert_eq!(nums(&mix), vec![0.5, -0.5, 0.25, 0.125]);
    add_voice(&mut mix, 2, &fs(&[1.0, 1.0]), 2, &c, d(0.0));
    assert_eq!(nums(&mix), vec![0.5, -0.5, 0.75, 0.625]);
}

#[test]
fn the_tracks_of_a_block_add_together() {
    let quiet = Clip { gain: f(0.5), ..clip(0, 0.0, 10.0) };
    let loud = Clip { gain: f(2.0), ..clip(1, 0.0, 10.0) };
    let voices = vec![quiet, loud, quiet];
    let reads = vec![fs(&[1.0, -1.0, 0.5, 0.25, 9.0]), fs(&[0.25, 0.5]), fs(&[])];
    assert_eq!(nums(&mix_voices(&voices, &reads, 4, d(1.0))), vec![1.0, 0.5, 0.25, 0.125]);
    assert_eq!(nums(&mix_voices(&vec![], &vec![], 2, d(1.0))), vec![0.0, 0.0]);
}

#[test]
fn a_stream_is_sought_once_it_strayed() {
    let c = clip(0, 2.0, 10.0);
    assert!(!needs_seek(d(1.0), &c, d(3.0)));
    assert!(!needs_seek(d(1.02), &c, d(3.0)));
    assert!(needs_seek(d(1.5), &c, d(3.0)));
}

#[test]
fn the_device_hears_silence_unless_it_plays() {
    let mut p = Playback::new();
    p.extend(&fs(&[0.1, 0.2, 0.3, 0.4]));
    assert_eq!(nums(&p.render(1, 2, 48_000)), vec![0.0, 0.0]);
    p.set_playing(true);
    assert_eq!(nums(&p.render(1, 3, 48_000)), vec![0.1, 0.2, 0.0]);
    assert_eq!(nums(&p.render(2, 1, 48_000)), vec![0.3, 0.0]);
    assert_eq!(secs(p.consume_t), 1.0 / 48_000.0 + 2.0 / 48_000.0);
    p.set_position(d(-3.0));
    assert_eq!((secs(p.consume_t), p.buffer.len()), (0.0, 0));
    p.toggle();
    assert!(!p.playing);
}

#[test]
fn mixing_ahead_goes_chunk_by_chunk() {
    let p = Playback::new();
    let (at, total) = p.shortfall();
    assert_eq!(secs(at), 0.0);
    assert!(total > 0 && total % 2 == 0);
    let mut run = MixRun { at, cursor: 0, total };
    let (mut mixed, mut due) = (0, 0.0f64);
    while let Some((n, t)) = run.next_chunk() {
        assert_eq!(secs(t), due);
        mixed += n;
        due += (n / 2) as f64 / 48_000.0;
    }
    assert_eq!(mixed, total);
}

#[test]
fn a_seek_throws_away_what_lies_before_it() {
    let mut b = StreamBuffer::new();
    assert_eq!(b.begin_seek(d(1.0)), 1_000_000);
    assert_eq!(tick_of(d(-2.0)), 0);
    b.landed(d(1.0 - 2.0 / 48_000.0));
    assert_eq!(b.to_drop, 4);
    b.push(&fs(&[1.0, 2.0, 3.0]));
    assert!(b.drop_lead());
    b.push(&fs(&[4.0, 5.0, 6.0]));
    assert!(!b.drop_lead());
    let mut out = Vec::new();
    b.take(&mut out, 10);
    assert_eq!(nums(&out), vec![5.0, 6.0]);
    b.advance(2);
    assert_eq!(secs(b.position), 1.0 + 1.0 / 48_000.0);
}

#[test]
fn a_waveform_keeps_the_loudest_of_each_stretch() {
    let mut b = PeakBuilder::new(100);
    for s in [0.1, -0.5, 2.0, 0.0, 0.25] {
        b.absorb(f(s));
    }
    let w = b.finish(100);
    assert_eq!(nums(&w.peaks), vec![0.5, 1.0, 0.25]);
    assert_eq!(secs(w.bucket_seconds), 0.02);
}

fn shot(serial: u64, pts: f64) -> Option<Shot> {
    Some(Shot { serial, pts: d(pts) })
}

#[test]
fn a_reader_finds_the_frame_that_is_due() {
    let mut r = Reader::new();
    assert!(matches!(r.goto(d(1.0)), Ask::Seek(_)));
    assert_eq!(r.decoded(shot(0, 0.9)), Ask::Decode);
    assert_eq!(r.decoded(shot(1, 0.98)), Ask::Decode);
    assert_eq!(r.decoded(shot(2, 1.04)), Ask::Done);
    assert_eq!(r.due, shot(1, 0.98));
    assert_eq!(r.pending, shot(2, 1.04));
    assert_eq!(r.goto(d(1.01)), Ask::Done);
    assert_eq!(r.due, shot(1, 0.98));
    assert!(matches!(r.goto(d(0.0)), Ask::Seek(_)));
}

#[test]
fn a_crop_falls_on_even_samples() {
    let part = Part { u0: f(0.26), v0: f(0.0), u1: f(1.0), v1: f(0.49) };
    let c = crop_of(&part, 100, 50).unwrap();
    assert_eq!((c.x, c.y, c.w, c.h), (26, 0, 74, 26));
    let nothing = Part { u0: f(0.5), v0: f(0.0), u1: f(0.5), v1: f(1.0) };
    assert_eq!(crop_of(&nothing, 100, 50), None);
}

#[test]
fn a_stream_is_measured_in_seconds_and_frames() {
    let v = footage(2_500_000, 30_000, 1001, 640, 480);
    assert_eq!(secs(v.duration), 2.5);
    assert_eq!(secs(v.frame_rate), 30_000.0 / 1001.0);
    assert_eq!((v.width, v.height), (640, 480));
    let (w, h) = thumbnail_size(1920, 1080);
    assert!(w > h && h > 0);
}

#[test]
fn glyphs_get_places_of_their_own() {
    let mut p = Packer::new();
    let mut cells: Vec<Cell> = Vec::new();
    for i in 0..200u32 {
        let (w, h) = (7 + i % 5, 9 + i % 3);
        assert!(p.fits(w, h));
        let (x, y) = p.allocate(w, h);
        cells.push(Cell { x, y, w, h });
    }
    for (i, a) in cells.iter().enumerate() {
        for b in &cells[..i] {
            assert!(
                a.x + a.w <= b.x || b.x + b.w <= a.x || a.y + a.h <= b.y || b.y + b.h <= a.y,
                "{a:?} {b:?}"
            );
        }
    }
    assert!(!p.fits(1_000_000, 1));
    assert!(is_icon('\u{E13C}') && !is_icon('A'));
}

#[test]
fn the_pen_moves_on_and_lands_on_whole_pixels() {
    let mut pen = Pen::start(f(10.2), f(20.3), f(2.0));
    let g = GlyphMetrics { width: f(6.0), height: f(8.0), xmin: f(1.0), ymin: f(-2.0), advance: f(7.0) };
    let r = pen.glyph(g).unwrap();
    assert_eq!(nums(&[r.x, r.y, r.w, r.h]), vec![10.5, 17.5, 3.0, 4.0]);
    let space = GlyphMetrics { width: f(0.0), height: f(0.0), ..g };
    assert_eq!(pen.glyph(space), None);
    assert_eq!(f32::from_bits(pen.x.bits), 20.4 + 14.0);
}

#[test]
fn coverage_turns_white() {
    assert_eq!(white_pixels(&vec![0, 7]), vec![255, 255, 255, 0, 255, 255, 255, 7]);
    assert_eq!(white_pixels(&Vec::new()), Vec::<u8>::new());
}

#[test]
fn channels_come_apart() {
    let mixed = fs(&[1.0, -1.0, 2.0, -2.0]);
    assert_eq!(nums(&channel_of(&mixed, 2, 0)), vec![1.0, 2.0]);
    assert_eq!(nums(&channel_of(&mixed, 2, 1)), vec![-1.0, -2.0]);
    assert_eq!(nums(&channel_of(&mixed, 1, 1)), vec![-1.0]);
}
