//! Frames as they are drawn.

use vedit::chrome::Status;
use vedit::export::Progress;
use vedit::frame::Stage;
use vedit::ieee::{Double, Single};
use vedit::lane::{tallest_of, Level};
use vedit::media::Footage;
use vedit::panel::Ascents;
use vedit::project::MediaPath;
use vedit::rows::{describe, thumb_rect, FileNote};
use vedit::scene::{draw_menu_row, draw_tooltip, plate, Across, Label, Mark, Room, Sheet};
use vedit::session::Session;
use vedit::sound::Waveform;
use vedit::theme::{paint, BTN_BG_HOVER, CLIP_LABEL_COLOR, CLIP_SELECTED_BORDER};
use vedit::timeline::SourceId;
use vedit::ui::{Color, Rect, TooltipSide};

fn d(x: f64) -> Double {
    Double { bits: x.to_bits() }
}

fn f(x: f32) -> Single {
    Single { bits: x.to_bits() }
}

fn num(x: Single) -> f32 {
    f32::from_bits(x.bits)
}

fn rect(x: f32, y: f32, w: f32, h: f32) -> Rect {
    Rect { x: f(x), y: f(y), w: f(w), h: f(h) }
}

fn white() -> Color {
    Color { r: f(1.0), g: f(1.0), b: f(1.0), a: f(1.0) }
}

fn session() -> Session {
    let mut s = Session::new(f(1280.0), f(720.0));
    let film = Footage { width: 1920, height: 1080, duration: d(10.0), frame_rate: d(25.0) };
    let path = MediaPath { absolute: true, parts: vec!["a.mp4".to_owned()] };
    let _ = s.media.add(path, "/a.mp4", Some(film), Some(d(10.0)));
    s.begin_edit();
    let Session { timeline, media, .. } = &mut s;
    timeline.drop_source(media, SourceId(0), 0, d(0.0));
    s.commit_edit();
    s
}

fn stage(s: &Session) -> Stage {
    let level = || Level { db: f(0.0), text: "0.0 dB".to_owned() };
    Stage {
        levels: s.timeline.tracks.iter().map(|t| t.clips.iter().map(|_| level()).collect()).collect(),
        waves: vec![Waveform { peaks: vec![f(0.5); 500], bucket_seconds: d(0.02) }],
        notes: vec![FileNote { decimals: "25.000".to_owned(), sample_rate: 48_000, channels: 2 }],
        ascents: Ascents { sm: f(9.0), md: f(10.0), lg: f(11.0), xl: f(12.0), icon: f(14.0) },
        pool_label_w: f(80.0),
        timeline_label_w: f(60.0),
        glyph_h: f(8.0),
        glyph_ymin: f(1.0),
        decimals: "25.000".to_owned(),
        progress: None,
        status: None,
    }
}

fn texts(sheet: &Sheet) -> Vec<String> {
    sheet
        .marks
        .iter()
        .filter_map(|m| match m {
            Mark::Text(l) => Some(l.text.clone()),
            _ => None,
        })
        .collect()
}

#[test]
fn a_frame_shows_the_panels_and_records_the_controls() {
    let mut s = session();
    let g = stage(&s);
    let mut sheet = Sheet::new();
    assert!(!s.render(&mut sheet, &g));
    let words = texts(&sheet);
    for w in ["MEDIA POOL", "PREVIEW", "TIMELINE", "V1", "V2", "A1", "A2", "a.mp4"] {
        assert!(words.iter().any(|t| t == w), "no {w} in {words:?}");
    }
    assert!(words.contains(&"1920x1080 @ 25 fps".to_owned()));
    assert!(words.contains(&"00:00.000 / 00:10.000".to_owned()));
    assert!(sheet.marks.iter().any(|m| matches!(m, Mark::Picture { source: SourceId(0), .. })));
    assert!(sheet.marks.iter().any(|m| matches!(m, Mark::Thumb { source: SourceId(0), .. })));
    assert_eq!(s.desk.last_playing_source, Some(SourceId(0)));
    assert_eq!(num(s.desk.buttons.split.x), 85.0);
    assert!(num(s.desk.buttons.open.x) < num(s.desk.buttons.save.x));
    assert!(num(s.desk.preview_canvas.w) > 0.0);
}

#[test]
fn what_is_clipped_is_unclipped_again() {
    let mut s = session();
    let g = stage(&s);
    let mut sheet = Sheet::new();
    let _ = s.render(&mut sheet, &g);
    let mut open = false;
    for m in &sheet.marks {
        match m {
            Mark::Clip { .. } => {
                assert!(!open);
                open = true;
            }
            Mark::Unclip => {
                assert!(open);
                open = false;
            }
            _ => {}
        }
    }
    assert!(!open);
}

#[test]
fn an_open_menu_records_its_rows() {
    let mut s = session();
    s.desk.project_menu_open = true;
    let g = stage(&s);
    let mut sheet = Sheet::new();
    let _ = s.render(&mut sheet, &g);
    assert_eq!(s.menu_items.len(), 14);
    let rows: Vec<(String, Color)> = sheet
        .marks
        .iter()
        .filter_map(|m| match m {
            Mark::Text(l) if l.size == f(12.0) => Some((l.text.clone(), l.color)),
            _ => None,
        })
        .collect();
    let rows = &rows[rows.len() - 14..];
    let (chosen, plain) = (paint(CLIP_SELECTED_BORDER), paint(CLIP_LABEL_COLOR));
    assert_eq!(rows[0], ("Match first clip".to_owned(), chosen));
    assert_eq!(rows[1], ("3840 x 2160".to_owned(), plain));
    assert_eq!(rows[6].0, "23.976");
    assert_eq!(rows[13].0, "60");
}

#[test]
fn a_menu_row_lights_up_under_the_cursor() {
    let r = rect(10.0, 20.0, 132.0, 22.0);
    let mut still = Sheet::new();
    draw_menu_row(&mut still, r, "60", false, true, f(10.0));
    assert_eq!(still.marks.len(), 1);
    match &still.marks[0] {
        Mark::Text(l) => {
            assert_eq!((l.across, num(l.baseline)), (Across::From(f(20.0)), 36.0));
            assert_eq!(l.color, paint(CLIP_SELECTED_BORDER));
        }
        m => panic!("{m:?}"),
    }
    let mut lit = Sheet::new();
    draw_menu_row(&mut lit, r, "60", true, false, f(10.0));
    assert_eq!(lit.marks[0], Mark::Fill { rect: r, color: paint(BTN_BG_HOVER) });
    assert_eq!(lit.marks.len(), 2);
}

#[test]
fn a_frame_is_drawn_without_waveforms() {
    let mut s = session();
    let mut g = stage(&s);
    let mut full = Sheet::new();
    let _ = s.render(&mut full, &g);
    g.waves = Vec::new();
    let mut flat = Sheet::new();
    let _ = s.render(&mut flat, &g);
    assert!(flat.marks.len() < full.marks.len());
    assert_eq!(texts(&flat), texts(&full));
}

#[test]
fn a_running_export_shows_its_progress() {
    let mut s = session();
    let mut g = stage(&s);
    g.progress = Some(Progress { done: 42, total: 100 });
    let mut sheet = Sheet::new();
    assert!(!s.render(&mut sheet, &g));
    assert!(texts(&sheet).contains(&"Exporting\u{2026} 42%".to_owned()));
    g.progress = None;
    g.status = Some(Status { message: "Saved".to_owned(), color: white(), age: d(1.0) });
    let mut fresh = Sheet::new();
    assert!(!s.render(&mut fresh, &g));
    assert!(texts(&fresh).contains(&"Saved".to_owned()));
    g.status = Some(Status { message: "Saved".to_owned(), color: white(), age: d(60.0) });
    assert!(s.render(&mut Sheet::new(), &g));
}

#[test]
fn a_label_is_placed_once_it_is_measured() {
    let label = |across: Across, room: Room| Label {
        text: "x".to_owned(),
        size: f(11.0),
        color: white(),
        across,
        baseline: f(20.0),
        room,
        plated: false,
    };
    let at = |l: Label, w: f32| l.settle("x", f(w)).map(num);
    assert_eq!(at(label(Across::From(f(3.5)), Room::Any), 10.0), Some(3.5));
    assert_eq!(at(label(Across::Until(f(100.0)), Room::Any), 10.4), Some(90.0));
    assert_eq!(at(label(Across::Amid { x: f(10.0), w: f(30.0) }, Room::Any), 10.0), Some(20.0));
    let band = Room::Within { lo: f(0.0), hi: f(12.0) };
    assert_eq!(at(label(Across::From(f(3.0)), band), 10.0), None);
    let tight = Room::Beside { pad: f(5.0), w: f(20.0) };
    assert_eq!(at(label(Across::From(f(3.0)), tight), 10.0), Some(3.0));
    assert_eq!(at(label(Across::From(f(3.0)), tight), 11.0), None);
    let cut = Room::Shorten(f(8.0));
    assert_eq!(at(label(Across::From(f(3.0)), cut), 8.0), Some(3.0));
    assert_eq!(at(label(Across::From(f(3.0)), cut), 0.0), Some(3.0));
    assert_eq!(label(Across::From(f(3.0)), cut).settle("", f(0.0)), None);
}

#[test]
fn a_tooltip_stands_clear_of_its_control() {
    let anchor = rect(100.0, 50.0, 32.0, 26.0);
    let mut below = Sheet::new();
    draw_tooltip(&mut below, anchor, "Split", TooltipSide::Below, f(40.0), f(9.0));
    let mut above = Sheet::new();
    draw_tooltip(&mut above, anchor, "Split", TooltipSide::Above, f(40.0), f(9.0));
    let body = |s: &Sheet| match &s.marks[4] {
        Mark::Fill { rect, .. } => (num(rect.x), num(rect.y), num(rect.w), num(rect.h)),
        m => panic!("{m:?}"),
    };
    assert_eq!(body(&below), (87.0, 83.0, 58.0, 19.0));
    assert_eq!(body(&above), (87.0, 24.0, 58.0, 19.0));
}

#[test]
fn a_source_is_described_by_its_format() {
    let s = session();
    let note = FileNote { decimals: "29.970".to_owned(), sample_rate: 44_100, channels: 1 };
    let film = s.media.get(SourceId(0)).unwrap();
    assert_eq!(describe(film, &note), "1920x1080 @ 25 fps");
    let mut s = Session::new(f(800.0), f(600.0));
    let path = MediaPath { absolute: true, parts: vec!["b.wav".to_owned()] };
    let _ = s.media.add(path, "/b.wav", None, Some(d(3.0)));
    assert_eq!(describe(s.media.get(SourceId(0)).unwrap(), &note), "44100 Hz mono");
    let six = FileNote { channels: 6, ..note };
    assert_eq!(describe(s.media.get(SourceId(0)).unwrap(), &six), "44100 Hz 6 ch");
}

#[test]
fn pictures_are_fitted_into_their_slots() {
    let r = thumb_rect(rect(16.0, 42.0, 92.0, 52.0), 160, 90);
    assert_eq!((num(r.w), num(r.h)), (92.0, 52.0));
    let tall = thumb_rect(rect(0.0, 0.0, 92.0, 52.0), 50, 100);
    assert_eq!((num(tall.x), num(tall.w), num(tall.h)), (33.0, 26.0, 52.0));
    let p = plate(f(10.0), f(20.0), f(30.0), f(8.0), f(2.0));
    assert_eq!((num(p.x), num(p.w)), (7.0, 36.0));
}

#[test]
fn the_tallest_peak_stands_for_its_column() {
    let peaks = vec![f(0.1), f(0.7), f(0.3), f(0.9)];
    assert_eq!(num(tallest_of(&peaks, 0, 3)), 0.7);
    assert_eq!(num(tallest_of(&peaks, 2, 2)), 0.0);
}
