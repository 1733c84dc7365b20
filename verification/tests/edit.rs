//! Snapping, moving, trimming, levels and placement.

use vedit::canvas::Canvas;
use vedit::edit::{nearest_scale, nearest_snap, Landmark};
use vedit::ieee::{Double, Single};

fn d(x: f64) -> Double {
    Double { bits: x.to_bits() }
}

fn f(x: f32) -> Single {
    Single { bits: x.to_bits() }
}

fn snap(edges: &[f64], targets: &[f64], threshold: f64) -> Option<f64> {
    let edges: Vec<Double> = edges.iter().map(|&x| d(x)).collect();
    let targets: Vec<Double> = targets.iter().map(|&x| d(x)).collect();
    nearest_snap(&edges, &targets, d(threshold)).map(|x| f64::from_bits(x.bits))
}

fn scale(at: f32, marks: &[(f32, f32)], threshold: f32) -> f32 {
    let marks: Vec<Landmark> =
        marks.iter().map(|&(s, e)| Landmark { scale: f(s), extent: f(e) }).collect();
    f32::from_bits(nearest_scale(f(at), &marks, f(threshold)).bits)
}

fn assert_close(got: Option<f64>, want: f64) {
    let got = got.expect("expected a snap");
    assert!((got - want).abs() < 1e-9, "got {got}, want {want}");
}

#[test]
fn snaps_the_trailing_edge_flush_against_a_neighbour() {
    assert_close(snap(&[-0.3, 9.7], &[10.0, 15.0], 0.5), 0.3);
}

#[test]
fn snaps_by_whichever_edge_is_closest() {
    assert_close(snap(&[4.9, 14.6], &[5.0, 15.0], 0.5), 0.1);
}

#[test]
fn nothing_latches_outside_the_threshold() {
    assert_eq!(snap(&[4.0], &[5.0], 0.5), None);
}

#[test]
fn snapping_pulls_backwards_too() {
    assert_close(snap(&[10.2], &[10.0], 0.5), -0.2);
}

#[test]
fn no_targets_means_no_snap() {
    assert_eq!(snap(&[4.0, 9.0], &[], 0.5), None);
}

#[test]
fn a_scale_near_a_landmark_latches_onto_it() {
    assert_eq!(scale(0.99, &[(1.0, 1920.0)], 12.0), 1.0);
}

#[test]
fn the_pull_is_measured_where_the_edge_would_move() {
    assert_eq!(scale(0.9, &[(1.0, 1920.0)], 12.0), 0.9);
    assert_eq!(scale(0.9, &[(1.0, 200.0)], 12.0), 1.0);
}

#[test]
fn the_nearest_landmark_wins() {
    assert_eq!(scale(1.0, &[(1.01, 1920.0), (1.002, 1920.0)], 20.0), 1.002);
}

#[test]
fn impossible_candidates_are_ignored() {
    assert_eq!(scale(1.0, &[(-0.5, 1920.0), (f32::INFINITY, 1920.0)], 1e9), 1.0);
}

#[test]
fn a_picture_without_a_size_fills_the_canvas() {
    let c = Canvas { width: 640, height: 360, fps: d(30.0) };
    let r = c.fit(f(0.0), f(100.0));
    assert_eq!((r.x.bits, r.y.bits), (0, 0));
    assert_eq!((f32::from_bits(r.w.bits), f32::from_bits(r.h.bits)), (640.0, 360.0));
}
