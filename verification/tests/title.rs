//! Titles, drawn with a face whose every letter is a block.

use vedit::ieee::Single;
use vedit::strings::lines;
use vedit::title::{rasterize, stamp, Glyph, Mask, Title};

fn f(x: f32) -> Single {
    Single { bits: x.to_bits() }
}

fn num(x: Single) -> f32 {
    f32::from_bits(x.bits)
}

/// A letter of the face at a size: a block that stands on the baseline.
fn glyph(c: char, px: f32) -> Glyph {
    if c.is_whitespace() {
        let advance = f(px * 0.3);
        return Glyph { width: 0, height: 0, xmin: 0, ymin: 0, advance, bitmap: Vec::new() };
    }
    let (w, h) = ((px * 0.5).ceil() as u32, (px * 0.7).ceil() as u32);
    Glyph {
        width: w,
        height: h,
        xmin: 0,
        ymin: 0,
        advance: f(px * 0.6),
        bitmap: vec![255; (w * h) as usize],
    }
}

fn draw(title: &Title, width: u32, height: u32) -> Mask {
    let px = num(title.pixels(height));
    let set: Vec<Vec<Glyph>> = lines(&title.text)
        .iter()
        .map(|l| l.chars().map(|c| glyph(c, px)).collect())
        .collect();
    rasterize(&set, f(px * 0.7), f(0.0), width, height)
}

fn title(text: &str) -> Title {
    Title { text: text.to_owned(), ..Title::default() }
}

fn at(mask: &Mask, x: u32, y: u32) -> u8 {
    mask.coverage[(y * mask.width + x) as usize]
}

fn ink(mask: &Mask) -> usize {
    mask.coverage.iter().filter(|&&c| c > 0).count()
}

#[test]
fn a_title_puts_ink_on_the_canvas() {
    let mask = draw(&Title::default(), 640, 360);
    assert_eq!((mask.width, mask.height), (640, 360));
    assert!(ink(&mask) > 0, "the default title rasterized to nothing");
}

#[test]
fn an_empty_title_is_fully_transparent() {
    assert_eq!(ink(&draw(&title(""), 320, 180)), 0);
}

#[test]
fn a_single_line_is_centred_in_the_frame() {
    let mask = draw(&Title::default(), 640, 360);
    let (mut min_x, mut max_x, mut min_y, mut max_y) = (u32::MAX, 0, u32::MAX, 0);
    for y in 0..mask.height {
        for x in 0..mask.width {
            if at(&mask, x, y) > 0 {
                min_x = min_x.min(x);
                max_x = max_x.max(x);
                min_y = min_y.min(y);
                max_y = max_y.max(y);
            }
        }
    }
    let cx = (min_x + max_x) as f32 * 0.5;
    let cy = (min_y + max_y) as f32 * 0.5;
    assert!((cx - 320.0).abs() < 12.0, "horizontal centre at {cx}");
    assert!((cy - 180.0).abs() < 12.0, "vertical centre at {cy}");
}

#[test]
fn each_line_gets_its_own_band() {
    let one = draw(&title("A"), 640, 360);
    let two = draw(&title("A\nA"), 640, 360);
    let rows = |m: &Mask| (0..m.height).filter(|&y| (0..m.width).any(|x| at(m, x, y) > 0)).count();
    assert!(rows(&two) > rows(&one), "the second line landed on the first");
}

#[test]
fn size_scales_with_the_canvas() {
    let small = draw(&Title::default(), 640, 360);
    let large = draw(&Title::default(), 1280, 720);
    let ratio = ink(&large) as f32 / ink(&small) as f32;
    assert!((3.0..5.0).contains(&ratio), "coverage ratio {ratio}");
}

#[test]
fn a_title_is_named_after_its_first_line() {
    assert_eq!(title("Chapter One\nthe beginning").pool_name(), "Chapter One");
    assert_eq!(title("  \nsecond").pool_name(), Title::default().text);
}

#[test]
fn a_title_larger_than_the_canvas_is_clipped_not_wrapped() {
    let big = Title { size: f(4.0), ..title("Enormous") };
    let mask = draw(&big, 64, 64);
    assert_eq!(mask.coverage.len(), 64 * 64);
    assert!(ink(&mask) > 0);
}

#[test]
fn stamping_keeps_the_stronger_coverage() {
    let mut mask = Mask::clear(3, 2);
    stamp(&mut mask, &vec![10, 200], 2, 1, 0, 0);
    stamp(&mut mask, &vec![90, 90], 2, 1, 0, 0);
    assert_eq!(mask.coverage, vec![90, 200, 0, 0, 0, 0]);
    stamp(&mut mask, &vec![50, 60, 70, 80], 2, 2, 2, 1);
    assert_eq!(mask.coverage, vec![90, 200, 0, 0, 0, 50]);
    stamp(&mut mask, &vec![1], 1, 1, -1, 0);
    assert_eq!(mask.coverage, vec![90, 200, 0, 0, 0, 50]);
}

#[test]
fn the_caret_stands_after_the_text() {
    let t = title("Hi").with_caret();
    assert_eq!(t.text.chars().count(), 3);
    assert!(t.text.starts_with("Hi"));
    assert!(!title("Hi").same(&t) && title("Hi").same(&title("Hi")));
}
