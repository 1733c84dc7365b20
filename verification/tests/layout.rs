//! Where things are on the timeline panel.

use vedit::ieee::{Double, Single};
use vedit::layout::{
    compute_lane_height, db_to_y, fade_handle_rect, lane_y, opacity_to_y, pool_row_close_rect,
    resolve_split, resolve_view, transform_handle_rects, viewable, y_to_db, y_to_opacity,
    TimelineLayout, MIN_CONTENT_SPAN, MIN_VIEW_SPAN,
};
use vedit::theme::{CLIP_LEVEL_INSET, SCROLLBAR_MIN_THUMB_W, TRACK_LANE_GAP};
use vedit::timeline::{TrackKind, MAX_GAIN_DB, MIN_GAIN_DB};
use vedit::ui::Rect;

const LANE_Y: f32 = 100.0;
const LANE_H: f32 = 60.0;

fn d(x: f64) -> Double {
    Double { bits: x.to_bits() }
}

fn f(x: f32) -> Single {
    Single { bits: x.to_bits() }
}

fn num(x: Single) -> f32 {
    f32::from_bits(x.bits)
}

fn secs(x: Double) -> f64 {
    f64::from_bits(x.bits)
}

fn span(x: (Double, Double)) -> (f64, f64) {
    (secs(x.0), secs(x.1))
}

fn db_to_gain(db: f32) -> f32 {
    10.0f32.powf(db / 20.0)
}

fn gain_to_db(gain: f32) -> f32 {
    if gain <= 0.0 {
        f32::from_bits(MIN_GAIN_DB)
    } else {
        (20.0 * gain.log10()).max(f32::from_bits(MIN_GAIN_DB))
    }
}

fn gain_to_y(gain: f32) -> f32 {
    num(db_to_y(f(LANE_Y), f(LANE_H), f(gain_to_db(gain))))
}

fn y_to_gain(y: f32) -> f32 {
    db_to_gain(num(y_to_db(f(LANE_Y), f(LANE_H), f(y))))
}

#[test]
fn a_level_line_lands_where_the_gain_it_was_read_from_puts_it() {
    let (min, max) = (f32::from_bits(MIN_GAIN_DB), f32::from_bits(MAX_GAIN_DB));
    for db in [min, -20.0, -6.0, 0.0, max] {
        let gain = db_to_gain(db);
        let back = y_to_gain(gain_to_y(gain));
        assert!(
            (gain_to_db(back) - db).abs() < 1e-3,
            "{db} dB came back as {} dB",
            gain_to_db(back)
        );
    }
}

#[test]
fn the_level_line_runs_top_to_bottom_within_the_inset() {
    let inset = f32::from_bits(CLIP_LEVEL_INSET);
    let top = gain_to_y(db_to_gain(f32::from_bits(MAX_GAIN_DB)));
    let bottom = gain_to_y(db_to_gain(f32::from_bits(MIN_GAIN_DB)));
    assert_eq!(top, LANE_Y + inset);
    assert_eq!(bottom, LANE_Y + LANE_H - inset);
    assert!(gain_to_y(1.0) < LANE_Y + LANE_H * 0.5);
}

#[test]
fn a_drag_off_the_end_of_the_lane_pins_to_the_end_of_the_range() {
    assert_eq!(y_to_gain(0.0), db_to_gain(f32::from_bits(MAX_GAIN_DB)));
    assert_eq!(y_to_gain(10_000.0), db_to_gain(f32::from_bits(MIN_GAIN_DB)));
}

fn handle(at: f32, x0: f32, x1: f32) -> Rect {
    fade_handle_rect(f(at), f(x0), f(x1), f(LANE_Y))
}

#[test]
fn a_fade_handle_stays_inside_the_clip_it_belongs_to() {
    let (x0, x1) = (200.0, 300.0);
    let head = handle(x0, x0, x1);
    assert_eq!(num(head.x), x0);
    let tail = handle(x1, x0, x1);
    assert_eq!(num(tail.x) + num(tail.w), x1);
}

#[test]
fn a_clip_narrower_than_a_handle_still_places_one() {
    let (x0, x1) = (200.0, 204.0);
    assert_eq!(num(handle(x1, x0, x1).x), x0);
}

fn view(start: f64, dur: f64) -> TimelineLayout {
    TimelineLayout {
        top: f(0.0),
        clips_x: f(48.0),
        clips_w: f(1000.0),
        center_y: f(400.0),
        lane_h: f(LANE_H),
        bottom: f(800.0),
        view_start: d(start),
        view_dur: d(dur),
        content: d(100.0),
    }
}

#[test]
fn a_time_maps_to_the_x_it_reads_back_from() {
    let l = view(30.0, 20.0);
    for t in [30.0, 35.0, 42.5, 50.0] {
        let back = secs(l.cursor_to_t(l.t_to_x(d(t))));
        assert!((back - t).abs() < 1e-6, "{t} came back as {back}");
    }
    assert_eq!(num(l.t_to_x(d(30.0))), num(l.clips_x));
    assert_eq!(num(l.t_to_x(d(50.0))), num(l.clips_right()));
}

#[test]
fn a_cursor_off_the_panel_reads_as_the_edge_it_ran_off() {
    let l = view(30.0, 20.0);
    assert_eq!(secs(l.cursor_to_t(f(0.0))), 30.0);
    assert_eq!(secs(l.cursor_to_t(f(9_999.0))), 50.0);
}

#[test]
fn zoom_is_what_the_pixel_threshold_converts_through() {
    assert_eq!(secs(view(0.0, 100.0).px_per_sec()), 10.0);
    assert_eq!(secs(view(0.0, 10.0).px_per_sec()), 100.0);
}

fn resolve(start: f64, dur: f64, content: f64) -> (f64, f64) {
    assert!(viewable(d(dur), d(content)));
    span(resolve_view(d(start), d(dur), d(content)))
}

#[test]
fn an_unzoomed_view_spans_the_content_however_long_it_grows() {
    assert_eq!(resolve(0.0, f64::INFINITY, 12.0), (0.0, 12.0));
    assert_eq!(resolve(0.0, f64::INFINITY, 3600.0), (0.0, 3600.0));
    assert_eq!(resolve(0.0, f64::INFINITY, 0.0), (0.0, f64::from_bits(MIN_CONTENT_SPAN)));
}

#[test]
fn a_view_cannot_be_zoomed_or_scrolled_off_the_content() {
    assert_eq!(resolve(0.0, 1e-9, 60.0).1, f64::from_bits(MIN_VIEW_SPAN));
    assert_eq!(resolve(0.0, 600.0, 60.0), (0.0, 60.0));
    assert_eq!(resolve(1000.0, 10.0, 60.0), (50.0, 10.0));
    assert_eq!(resolve(-5.0, 10.0, 60.0), (0.0, 10.0));
}

#[test]
fn a_view_that_shows_everything_has_no_thumb_to_drag() {
    assert!(view(0.0, 100.0).scroll_thumb().is_none());
    assert!(view(0.0, 40.0).scroll_thumb().is_some());
}

#[test]
fn the_thumb_measures_the_view_against_the_whole_timeline() {
    let l = view(0.0, 10.0);
    let (track, thumb) = (l.scrollbar_rect(), l.scroll_thumb().unwrap());
    assert_eq!(num(thumb.w), num(track.w) * 0.1);
    assert_eq!(num(thumb.x), num(track.x));

    let end = view(90.0, 10.0).scroll_thumb().unwrap();
    assert_eq!(num(end.x) + num(end.w), num(track.x) + num(track.w));
}

#[test]
fn dragging_the_thumb_reads_back_the_view_it_was_drawn_for() {
    for start in [0.0, 12.5, 37.0, 90.0] {
        let l = view(start, 10.0);
        let thumb = l.scroll_thumb().unwrap();
        let back = secs(l.scroll_x_to_view_start(thumb.x));
        assert!((back - start).abs() < 1e-6, "{start} came back as {back}");
    }
}

#[test]
fn a_thumb_pinned_to_its_minimum_still_reaches_both_ends() {
    let min_span = f64::from_bits(MIN_VIEW_SPAN);
    let l = view(0.0, min_span);
    let (track, thumb) = (l.scrollbar_rect(), l.scroll_thumb().unwrap());
    assert_eq!(num(thumb.w), f32::from_bits(SCROLLBAR_MIN_THUMB_W));
    assert_eq!(secs(l.scroll_x_to_view_start(track.x)), 0.0);
    let far = f(num(track.x) + num(track.w) - num(thumb.w));
    let far = secs(l.scroll_x_to_view_start(far));
    assert!((far - (100.0 - min_span)).abs() < 1e-9, "{far}");
}

#[test]
fn lanes_stack_away_from_the_divider_they_share() {
    let center = 500.0;
    let h = 40.0;
    let gap = f32::from_bits(TRACK_LANE_GAP);
    let v1 = num(lane_y(f(center), f(h), 0, TrackKind::Video));
    let v2 = num(lane_y(f(center), f(h), 1, TrackKind::Video));
    let a1 = num(lane_y(f(center), f(h), 0, TrackKind::Audio));
    assert!(v1 + h < center && a1 > center);
    assert_eq!(v2 + h + gap, v1);
    assert_eq!(center - (v1 + h), a1 - center);
}

#[test]
fn a_split_keeps_both_panels_their_minimum() {
    let split = |frac: f32, total: f32| num(resolve_split(f(frac), f(total), f(100.0), f(200.0)));
    assert_eq!(split(0.5, 1000.0), 500.0);
    assert_eq!(split(0.0, 1000.0), 100.0);
    assert_eq!(split(1.0, 1000.0), 800.0);
    assert_eq!(split(0.5, 200.0), 67.0);
}

#[test]
fn opacity_runs_straight_down_the_lane() {
    let y = |o: f32| opacity_to_y(f(LANE_Y), f(LANE_H), f(o));
    assert!(num(y(1.0)) < num(y(0.5)) && num(y(0.5)) < num(y(0.0)));
    for o in [0.0f32, 0.25, 0.5, 1.0] {
        let back = num(y_to_opacity(f(LANE_Y), f(LANE_H), y(o)));
        assert!((back - o).abs() < 1e-5, "{o} came back as {back}");
    }
}

#[test]
fn lanes_share_the_room_between_their_bounds() {
    let h = |area: f32, n: usize| num(compute_lane_height(f(area), n));
    assert!(h(10.0, 4) >= 32.0);
    assert!(h(10_000.0, 1) <= 88.0);
}

#[test]
fn the_close_box_sits_in_the_row_s_corner() {
    let r = pool_row_close_rect(f(10.0), f(36.0), f(200.0));
    assert_eq!((num(r.x), num(r.y)), (10.0 + 200.0 - 3.0 - 18.0, 39.0));
    assert_eq!((num(r.w), num(r.h)), (18.0, 18.0));
}

#[test]
fn a_picture_has_a_handle_on_every_corner() {
    let rect = Rect { x: f(100.0), y: f(50.0), w: f(320.0), h: f(180.0) };
    let corners = transform_handle_rects(rect);
    assert_eq!(corners.len(), 4);
    for (cx, cy) in [(100.0, 50.0), (420.0, 50.0), (100.0, 230.0), (420.0, 230.0)] {
        assert!(corners.iter().any(|r| r.contains(f(cx), f(cy))), "none at {cx}, {cy}");
    }
}
