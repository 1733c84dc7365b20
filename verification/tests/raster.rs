//! Placing layers on the output's samples, and the plane arithmetic.

use vedit::compose::Layer;
use vedit::ieee::{Double, Single};
use vedit::raster::{
    blit, color_bytes, compose, compose_color, crop_gray8, crop_yuv420p, even, even_down, even_up, fill_black,
    fit, mix, packed_rows, place_even, Frame, Part, Placement, Plane, Yuv,
};
use vedit::timeline::SourceId;
use vedit::ui::{Color, Rect};

fn d(x: f64) -> Double {
    Double { bits: x.to_bits() }
}

fn f(x: f32) -> Single {
    Single { bits: x.to_bits() }
}

fn layer(rect: [f32; 4]) -> Layer {
    Layer {
        source: SourceId(0),
        source_time: d(0.0),
        rect: Rect { x: f(rect[0]), y: f(rect[1]), w: f(rect[2]), h: f(rect[3]) },
        alpha: f(1.0),
    }
}

fn part(p: [f32; 4]) -> Part {
    Part { u0: f(p[0]), v0: f(p[1]), u1: f(p[2]), v1: f(p[3]) }
}

fn place(rect: [f32; 4], w: u32, h: u32) -> Option<Placement> {
    place_even(&layer(rect), w, h)
}

#[test]
fn a_matching_aspect_ratio_fills_the_canvas() {
    let r = fit(1920, 1080, 1280, 720);
    assert_eq!((r.x, r.y, r.w, r.h), (0, 0, 1280, 720));
}

#[test]
fn a_taller_source_gets_pillarboxed() {
    let r = fit(1000, 1000, 1920, 1080);
    assert_eq!((r.w, r.h), (1080, 1080));
    assert_eq!(r.y, 0);
    assert_eq!(r.x, 420);
}

#[test]
fn a_wider_source_gets_letterboxed() {
    let r = fit(1920, 800, 1920, 1080);
    assert_eq!((r.w, r.h), (1920, 800));
    assert_eq!(r.x, 0);
    assert_eq!(r.y, 140);
}

#[test]
fn export_every_edge_lands_on_an_even_sample() {
    let r = fit(1001, 667, 1281, 721);
    for v in [r.x, r.y, r.w, r.h] {
        assert_eq!(v % 2, 0, "{v} is odd");
    }
    assert!(r.x + r.w <= 1281 && r.y + r.h <= 721);
}

#[test]
fn the_source_never_overflows_the_canvas() {
    let r = fit(4000, 3000, 640, 480);
    assert!(r.w <= 640 && r.h <= 480);
}

#[test]
fn a_source_without_a_size_still_gets_two_samples() {
    let r = fit(0, 0, 640, 480);
    assert_eq!((r.x, r.y, r.w, r.h), (318, 238, 2, 2));
}

#[test]
fn evenness_rounds_both_ways() {
    assert_eq!((even(7), even(8), even(0), even(u32::MAX)), (6, 8, 0, u32::MAX - 1));
    assert_eq!((even_down(1), even_down(2)), (0, 2));
    assert_eq!((even_up(1), even_up(2), even_up(u32::MAX)), (2, 2, u32::MAX - 1));
    assert_eq!(even_up(u32::MAX - 1), u32::MAX - 1);
}

#[test]
fn a_layer_filling_the_canvas_asks_for_all_of_its_picture() {
    let p = place([0.0, 0.0, 1920.0, 1080.0], 1920, 1080).unwrap();
    assert_eq!((p.x, p.y, p.w, p.h), (0, 0, 1920, 1080));
    assert_eq!(p.src, part([0.0, 0.0, 1.0, 1.0]));
}

#[test]
fn raster_every_edge_lands_on_an_even_sample() {
    let p = place([13.5, 7.25, 401.0, 333.0], 1280, 720).unwrap();
    for v in [p.x, p.y, p.w, p.h] {
        assert_eq!(v % 2, 0, "{v} is odd");
    }
    assert!(p.x + p.w <= 1280 && p.y + p.h <= 720);
}

#[test]
fn a_layer_off_an_edge_is_cut_rather_than_squeezed() {
    let p = place([-200.0, 0.0, 400.0, 1080.0], 1920, 1080).unwrap();
    assert_eq!((p.x, p.y, p.w, p.h), (0, 0, 200, 1080));
    assert_eq!(p.src, part([0.5, 0.0, 1.0, 1.0]));
}

#[test]
fn a_layer_scaled_past_the_canvas_is_cropped_to_it() {
    let p = place([-1920.0, -1080.0, 5760.0, 3240.0], 1920, 1080).unwrap();
    assert_eq!((p.x, p.y, p.w, p.h), (0, 0, 1920, 1080));
    assert_eq!(p.src, part([1.0 / 3.0, 1.0 / 3.0, 2.0 / 3.0, 2.0 / 3.0]));
}

#[test]
fn a_layer_entirely_off_canvas_places_nowhere() {
    assert!(place([1920.0, 0.0, 400.0, 200.0], 1920, 1080).is_none());
    assert!(place([0.0, 0.0, 0.0, 0.0], 1920, 1080).is_none());
}

#[test]
fn a_sliver_thinner_than_a_chroma_sample_places_nowhere() {
    assert!(place([1919.5, 0.0, 1.0, 200.0], 1920, 1080).is_none());
}

#[test]
fn every_edge_goes_to_the_nearest_even_sample() {
    let at = |x: f32, w: f32| place([x, 0.0, w, 10.0], 100, 100).map(|p| (p.x, p.w, p.y, p.h));
    assert_eq!(at(1.4, 10.0), Some((2, 10, 0, 10)));
    assert_eq!(at(0.9, 10.0), Some((0, 10, 0, 10)));
    assert_eq!(at(1.0, 10.0), Some((2, 10, 0, 10)));
    assert_eq!(at(13.5, 41.0), Some((14, 40, 0, 10)));
    assert_eq!(at(91.2, 30.0), Some((92, 8, 0, 10)));
    assert_eq!(at(4.1, 0.8), None);
    let p = place([1.4, 0.0, 10.0, 10.0], 100, 100).unwrap();
    assert!((f32::from_bits(p.src.u0.bits) - 0.06).abs() < 1e-6);
    assert_eq!(p.src.u1, f(1.0));
}

fn flat_frame(w: u32, h: u32, y: u8, uv: u8) -> Frame {
    Frame::flat(w, h, y, uv, uv)
}

#[test]
fn composing_at_half_alpha_lands_between_the_two_pictures() {
    let mut canvas = flat_frame(4, 4, 0, 0);
    let over = flat_frame(2, 2, 200, 100);
    compose(&mut canvas, &over, 0, 0, f(0.5));
    assert_eq!(canvas.y.data[0], 100);
    assert_eq!(canvas.u.data[0], 50);
    assert_eq!(canvas.y.data[2], 0);
}

#[test]
fn composing_at_full_alpha_replaces_the_canvas_exactly() {
    let mut canvas = flat_frame(4, 4, 16, 128);
    let over = flat_frame(2, 2, 235, 64);
    compose(&mut canvas, &over, 2, 2, f(1.0));
    let stride = canvas.y.stride;
    assert_eq!(canvas.y.data[2 * stride + 2], 235);
    assert_eq!(canvas.y.data[0], 16);
}

#[test]
fn composing_at_zero_alpha_leaves_the_canvas_alone() {
    let mut canvas = flat_frame(4, 4, 16, 128);
    let over = flat_frame(4, 4, 235, 64);
    compose(&mut canvas, &over, 0, 0, f(0.0));
    assert_eq!(canvas.y.data[0], 16);
    assert_eq!(canvas.u.data[0], 128);
}

#[test]
fn blitting_copies_chroma_at_half_the_offset() {
    let mut canvas = flat_frame(8, 8, 0, 0);
    let over = flat_frame(4, 4, 9, 7);
    blit(&mut canvas, &over, 6, 6);
    assert_eq!(canvas.y.get(6, 6), 9);
    assert_eq!(canvas.y.get(5, 6), 0);
    assert_eq!(canvas.u.get(3, 3), 7);
    assert_eq!(canvas.u.get(2, 3), 0);
}

#[test]
fn black_is_limited_range() {
    let mut canvas = flat_frame(4, 2, 200, 3);
    fill_black(&mut canvas);
    assert!(canvas.y.data.iter().all(|v| *v == 16));
    assert!(canvas.u.data.iter().chain(canvas.v.data.iter()).all(|v| *v == 128));
}

#[test]
fn full_coverage_reaches_the_colour_exactly() {
    for (a, b) in [(0u8, 255u8), (255, 0), (200, 100), (16, 235), (7, 7)] {
        assert_eq!(mix(a, b, 255), b);
        assert_eq!(mix(a, b, 0), a);
    }
    assert_eq!(mix(0, 255, 128), 128);
    assert_eq!(mix(100, 200, 51), 120);
}

#[test]
fn a_colour_is_painted_through_its_mask() {
    let mut canvas = flat_frame(4, 4, 0, 0);
    let mut mask = Plane::flat(4, 4, 0);
    mask.put(0, 0, 255);
    mask.put(0, 1, 255);
    compose_color(&mut canvas, &mask, 0, 0, Yuv { y: 100, u: 80, v: 40 }, f(1.0));
    assert_eq!(canvas.y.get(0, 0), 100);
    assert_eq!(canvas.y.get(1, 0), 0);
    // Half of the first chroma block is covered.
    assert_eq!(canvas.u.get(0, 0), mix(0, 80, 127));
    assert_eq!(canvas.v.get(0, 0), mix(0, 40, 127));
    assert_eq!(canvas.v.get(1, 1), 0);

    let mut other = flat_frame(4, 4, 0, 0);
    compose_color(&mut other, &mask, 0, 0, Yuv { y: 100, u: 80, v: 40 }, f(0.5));
    assert_eq!(other.y.get(0, 0), mix(0, 100, 127));
    let mut untouched = flat_frame(4, 4, 5, 6);
    compose_color(&mut untouched, &mask, 0, 0, Yuv { y: 100, u: 80, v: 40 }, f(-1.0));
    assert_eq!(untouched.y.get(0, 0), 5);
}

#[test]
fn cropping_takes_the_part_it_was_asked_for() {
    let mut src = flat_frame(8, 8, 1, 2);
    src.y.put(4, 2, 77);
    src.u.put(2, 1, 66);
    let mut dst = flat_frame(4, 4, 0, 0);
    crop_yuv420p(&mut dst, &src, 2, 4);
    assert_eq!(dst.y.get(0, 0), 77);
    assert_eq!(dst.u.get(0, 0), 66);
    assert_eq!(dst.y.get(3, 3), 1);
    let mut small = Plane::flat(3, 3, 0);
    crop_gray8(&mut small, &src.y, 6, 6);
    assert_eq!(small.get(1, 1), 1);
    assert_eq!(small.get(2, 2), 0);
}

#[test]
fn a_colour_becomes_an_opaque_pixel() {
    let c = Color { r: f(1.0), g: f(0.5), b: f(-3.0), a: f(0.25) };
    assert_eq!(color_bytes(c), [255, 128, 0, 255]);
    let bright = Color { r: f(9.0), g: f(f32::NAN), b: f(0.1), a: f(1.0) };
    assert_eq!(color_bytes(bright), [255, 0, 26, 255]);
}

#[test]
fn rows_lose_their_padding() {
    let data = vec![1, 2, 9, 9, 3, 4, 9, 9, 5, 6, 9, 9];
    assert_eq!(packed_rows(&data, 4, 2, 3), vec![1, 2, 3, 4, 5, 6]);
    assert_eq!(packed_rows(&data, 4, 4, 1), vec![1, 2, 9, 9]);
}
