//! What the canvas looks like at one instant.

use vedit::canvas::Canvas;
use vedit::compose::{layers_at, Layer, SourceSize};
use vedit::ieee::{Double, Single};
use vedit::timeline::{Clip, SourceId, Track, TrackKind, Transform};
use vedit::ui::Rect;

fn d(x: f64) -> Double {
    Double { bits: x.to_bits() }
}

fn f(x: f32) -> Single {
    Single { bits: x.to_bits() }
}

fn num(x: Single) -> f32 {
    f32::from_bits(x.bits)
}

fn sides(r: Rect) -> [f32; 4] {
    [num(r.x), num(r.y), num(r.w), num(r.h)]
}

fn canvas() -> Canvas {
    Canvas { width: 1920, height: 1080, fps: d(25.0) }
}

fn clip(source: u32, start: f64, len: f64) -> Clip {
    Clip {
        source: SourceId(source),
        source_out: d(len),
        timeline_start: d(start),
        ..Clip::default()
    }
}

fn track(kind: TrackKind, clips: Vec<Clip>) -> Track {
    let mut t = Track::new(kind);
    t.clips = clips;
    t
}

fn full_hd() -> Vec<SourceSize> {
    (0..10).map(|i| SourceSize { source: SourceId(i), size: Some((1920, 1080)) }).collect()
}

fn transform(x: f32, y: f32, scale: f32) -> Transform {
    Transform { x: f(x), y: f(y), scale: f(scale) }
}

#[test]
fn layers_come_back_bottom_track_first() {
    let tracks = vec![
        track(TrackKind::Video, vec![clip(0, 0.0, 10.0)]),
        track(TrackKind::Video, vec![clip(1, 0.0, 10.0)]),
    ];
    let layers = layers_at(&tracks, d(1.0), canvas(), &full_hd());
    assert_eq!(layers.len(), 2);
    assert_eq!(layers[0].source, SourceId(0));
    assert_eq!(layers[1].source, SourceId(1));
}

#[test]
fn audio_tracks_contribute_no_picture() {
    let tracks = vec![track(TrackKind::Audio, vec![clip(0, 0.0, 10.0)])];
    assert!(layers_at(&tracks, d(1.0), canvas(), &full_hd()).is_empty());
}

#[test]
fn a_clip_faded_to_nothing_drops_out_of_the_frame() {
    let mut c = clip(0, 0.0, 10.0);
    c.fade_out = d(2.0);
    let tracks = vec![track(TrackKind::Video, vec![c])];
    let at = |t: f64| layers_at(&tracks, d(t), canvas(), &full_hd());
    assert_eq!(num(at(9.0)[0].alpha), 0.5);
    assert!(at(10.0 - 1e-9).is_empty());
}

#[test]
fn opacity_and_fades_compound() {
    let mut c = clip(0, 0.0, 10.0);
    c.opacity = f(0.5);
    c.fade_in = d(4.0);
    let tracks = vec![track(TrackKind::Video, vec![c])];
    let layers = layers_at(&tracks, d(2.0), canvas(), &full_hd());
    assert_eq!(num(layers[0].alpha), 0.25);
}

#[test]
fn a_source_that_never_opened_is_skipped_rather_than_placed() {
    let tracks = vec![track(TrackKind::Video, vec![clip(7, 0.0, 10.0)])];
    assert!(layers_at(&tracks, d(1.0), canvas(), &Vec::new()).is_empty());
    let unopened = vec![SourceSize { source: SourceId(7), size: None }];
    assert!(layers_at(&tracks, d(1.0), canvas(), &unopened).is_empty());
}

#[test]
fn an_untransformed_clip_lands_where_the_plain_fit_puts_it() {
    let c = canvas();
    let whole = c.place(f(1920.0), f(1080.0), Transform::default());
    assert_eq!(sides(whole), [0.0, 0.0, 1920.0, 1080.0]);
    let square = c.place(f(1080.0), f(1080.0), Transform::default());
    assert_eq!(sides(square), [420.0, 0.0, 1080.0, 1080.0]);
}

#[test]
fn scale_shrinks_about_the_clips_own_centre() {
    let r = canvas().place(f(1920.0), f(1080.0), transform(0.25, 0.25, 0.5));
    assert_eq!(sides(r), [960.0, 540.0, 960.0, 540.0]);
}

#[test]
fn placement_is_resolution_independent() {
    let hd = Canvas { width: 1920, height: 1080, fps: d(25.0) };
    let uhd = Canvas { width: 3840, height: 2160, fps: d(25.0) };
    let tf = transform(0.1, -0.2, 0.5);
    let a = sides(hd.place(f(1920.0), f(1080.0), tf));
    let b = sides(uhd.place(f(1920.0), f(1080.0), tf));
    for i in 0..4 {
        assert!((a[i] * 2.0 - b[i]).abs() < 1e-3, "component {i}: {a:?} vs {b:?}");
    }
}

fn layer(rect: [f32; 4]) -> Layer {
    Layer {
        source: SourceId(0),
        source_time: d(0.0),
        rect: Rect { x: f(rect[0]), y: f(rect[1]), w: f(rect[2]), h: f(rect[3]) },
        alpha: f(1.0),
    }
}

#[test]
fn a_layer_pushed_off_an_edge_keeps_only_what_is_on_screen() {
    let shown = layer([-100.0, -50.0, 400.0, 200.0]).visible_rect(1920, 1080);
    assert_eq!(shown.map(sides), Some([0.0, 0.0, 300.0, 150.0]));
}

#[test]
fn a_layer_entirely_off_canvas_is_not_visible_at_all() {
    assert_eq!(layer([-400.0, 0.0, 400.0, 200.0]).visible_rect(1920, 1080), None);
}

#[test]
fn a_layer_shows_the_time_of_its_source() {
    let mut c = clip(3, 2.0, 10.0);
    c.source_in = d(1.5);
    let tracks = vec![track(TrackKind::Video, vec![c])];
    let layers = layers_at(&tracks, d(4.0), canvas(), &full_hd());
    assert_eq!(f64::from_bits(layers[0].source_time.bits), 3.5);
    assert!(layers_at(&tracks, d(1.0), canvas(), &full_hd()).is_empty());
}
