//! Frames of the output, put together.

use vedit::compose::SourceSize;
use vedit::export::VideoSpec;
use vedit::ieee::{Double, Single};
use vedit::picture::{assemble, placed_at, Piece, Placed};
use vedit::raster::{Frame, Part, Placement, Plane, Yuv, BLACK_UV, BLACK_Y};
use vedit::timeline::{Clip, SourceId, Track, TrackKind, Transform};

fn d(x: f64) -> Double {
    Double { bits: x.to_bits() }
}

fn f(x: f32) -> Single {
    Single { bits: x.to_bits() }
}

fn placed(x: u32, y: u32, alpha: f32) -> Placed {
    let whole = Part { u0: f(0.0), v0: f(0.0), u1: f(1.0), v1: f(1.0) };
    Placed {
        source: SourceId(0),
        source_time: d(0.0),
        place: Placement { x, y, w: 4, h: 4, src: whole },
        alpha: f(alpha),
    }
}

fn white() -> Yuv {
    Yuv { y: 235, u: 128, v: 128 }
}

fn track(clip: Clip) -> Track {
    let mut t = Track::new(TrackKind::Video);
    t.clips = vec![clip];
    t
}

#[test]
fn nothing_on_the_timeline_is_black() {
    let picture = assemble(8, 6, &Vec::new(), &Vec::new());
    assert_eq!((picture.width, picture.height), (8, 6));
    assert!(picture.y.data.iter().all(|&v| v == BLACK_Y));
    assert!(picture.u.data.iter().chain(&picture.v.data).all(|&v| v == BLACK_UV));
}

#[test]
fn later_pieces_lie_on_earlier_ones() {
    let at = vec![placed(0, 0, 1.0), placed(2, 2, 1.0), placed(0, 0, 1.0)];
    let pieces = vec![
        Piece::Footage(Frame::flat(8, 8, 100, 10, 20)),
        Piece::Footage(Frame::flat(4, 4, 200, 30, 40)),
        Piece::Missing,
    ];
    let picture = assemble(8, 8, &at, &pieces);
    assert_eq!(picture.y.get(0, 0), 100);
    assert_eq!(picture.y.get(2, 2), 200);
    assert_eq!(picture.y.get(5, 5), 200);
    assert_eq!(picture.y.get(6, 6), 100);
    assert_eq!((picture.u.get(0, 0), picture.u.get(1, 1)), (10, 30));
    assert_eq!((picture.v.get(3, 3), picture.v.get(2, 2)), (20, 40));
}

#[test]
fn a_title_reaches_the_picture_as_far_as_both_alphas_allow() {
    let at = vec![placed(0, 0, 0.5)];
    let title = |alpha: f32| {
        vec![Piece::Title { mask: Plane::flat(4, 4, 255), color: white(), alpha: f(alpha) }]
    };
    let full = assemble(8, 8, &at, &title(1.0)).y.get(1, 1);
    let half = assemble(8, 8, &at, &title(0.5)).y.get(1, 1);
    let none = assemble(8, 8, &at, &title(0.0)).y.get(1, 1);
    assert!(BLACK_Y < half && half < full && full < 235, "{half} {full}");
    assert_eq!(none, BLACK_Y);
}

#[test]
fn layers_that_miss_the_output_are_left_out() {
    let spec = VideoSpec { width: 640, height: 480, fps: d(25.0) };
    let clip = |source: u32| Clip { source: SourceId(source), source_out: d(5.0), ..Clip::default() };
    let away = Transform { x: f(9.0), y: f(0.0), scale: f(1.0) };
    let tracks =
        vec![track(clip(0)), track(Clip { transform: away, ..clip(1) }), track(clip(2))];
    let sizes: Vec<SourceSize> =
        (0..3).map(|i| SourceSize { source: SourceId(i), size: Some((640, 480)) }).collect();
    let at = placed_at(&tracks, d(1.0), spec, &sizes);
    let sources: Vec<u32> = at.iter().map(|p| p.source.0).collect();
    assert_eq!(sources, vec![0, 2]);
    assert_eq!((at[0].place.w, at[0].place.h), (640, 480));
    assert_eq!(at[1].source_time, d(1.0));
    assert!(placed_at(&tracks, d(6.0), spec, &sizes).is_empty());
}
