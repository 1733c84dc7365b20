//! Drawing the settings menu, and recording where its rows came out.

use crate::canvas::ProjectChoice;
use crate::edit::Point;
use crate::fmt::{decimal, decimal_of, fmt_fps, rate_text};
use crate::ieee::{double, single, Double, Single};
use crate::project::Setting;
use crate::scene::{
    chip, draw_chip, draw_menu_row, menu_row, Across, Caption, Label, Room, Sheet, Stroke,
};
use crate::session::{MenuItem, Session, Sitting};
use crate::theme::{
    paint, EIGHT_PT, MENU_BG, MENU_BORDER, MENU_FPS_COL_GAP, MENU_FPS_COL_W, MENU_GAP,
    MENU_HEADER_COLOR, MENU_PAD, MENU_RES_W, MENU_ROW_GAP, MENU_ROW_H, MENU_SECTION_GAP,
    MENU_SHADOW, TWO_PT, TYPE_SM,
};
use crate::ui::Rect;
use vstd::prelude::*;
use vstd::string::StringExecFns;

verus! {

/// The resolutions that the menu offers.
pub const RES_PRESETS: [(u32, u32); 4] = [(3840, 2160), (2560, 1440), (1920, 1080), (1280, 720)];

/// The frame rates that the menu offers, as doubles, column by column: film, standard,
/// high. They are 23.976, 24; 25, 29.97, 30; 50, 59.94, 60.
pub const FPS_COLUMNS: [u64; 8] = [
    0x4037_f9db_22d0_e560,
    0x4038_0000_0000_0000,
    0x4039_0000_0000_0000,
    0x403d_f851_eb85_1eb8,
    0x403e_0000_0000_0000,
    0x4049_0000_0000_0000,
    0x404d_f851_eb85_1eb8,
    0x404e_0000_0000_0000,
];

/// The column and the row of the `k`-th frame rate.
pub open spec fn spec_fps_cell(k: usize) -> (usize, usize) {
    if k < 2 {
        (0, k)
    } else if k < 5 {
        (1, (k - 2) as usize)
    } else {
        (2, (k - 5) as usize)
    }
}

/// The column and the row of the `k`-th frame rate.
#[verifier::when_used_as_spec(spec_fps_cell)]
pub fn fps_cell(k: usize) -> (r: (usize, usize))
    ensures
        r == spec_fps_cell(k),
{
    if k < 2 {
        (0, k)
    } else if k < 5 {
        (1, k - 2)
    } else {
        (2, k - 5)
    }
}

/// The `k`-th frame rate to three decimals.
pub open spec fn fps_decimals(k: int) -> Seq<char> {
    if k == 0 {
        "23.976"@
    } else if k == 3 {
        "29.970"@
    } else if k == 6 {
        "59.940"@
    } else {
        ""@
    }
}

/// The `k`-th frame rate to three decimals, where it is not a whole number.
fn decimals_of(k: usize) -> (r: &'static str)
    ensures
        r@ == fps_decimals(k as int),
{
    if k == 0 {
        "23.976"
    } else if k == 3 {
        "29.970"
    } else if k == 6 {
        "59.940"
    } else {
        ""
    }
}

/// A row that was drawn: where, what it sets, its words, and whether it is set.
pub struct Entry {
    pub rect: Rect,
    pub choice: ProjectChoice,
    pub text: Seq<char>,
    pub chosen: bool,
}

/// The measures of the menu: the menu itself, the width of a row, the height of a heading.
#[derive(Clone, Copy)]
pub struct MenuFrame {
    pub rect: Rect,
    pub body_w: Single,
    pub header_h: Single,
}

/// The distance from one row to the next.
pub open spec fn row_stride() -> Single {
    single(MENU_ROW_H).plus(single(MENU_ROW_GAP))
}

/// The height `n` rows further down.
pub open spec fn rows_down(y: Single, n: nat) -> Single
    decreases n,
{
    if n == 0 {
        y
    } else {
        rows_down(y, (n - 1) as nat).plus(row_stride())
    }
}

/// Where the menu is: below its button where there is room, else above it, and inside the
/// window.
pub open spec fn menu_frame(anchor: Rect, win_w: Single, win_h: Single, ascent: Single) -> MenuFrame {
    let two = single(TWO_PT);
    let pad = single(MENU_PAD);
    let grid = single(MENU_FPS_COL_W).times(Single::from_u64(3)).plus(
        single(MENU_FPS_COL_GAP).times(two),
    );
    let body_w = single(MENU_RES_W).max(grid);
    let w = body_w.plus(pad.times(two));
    let header_h = ascent.plus(single(EIGHT_PT)).round();
    let h = pad.times(two).plus(header_h).plus(row_stride().times(Single::from_u64(5))).plus(
        single(MENU_SECTION_GAP),
    ).plus(header_h).plus(row_stride().times(Single::from_u64(4)));
    let below = anchor.y.plus(anchor.h).plus(single(MENU_GAP));
    let above = anchor.y.minus(single(MENU_GAP)).minus(h);
    let y = (if below.plus(h).le(win_h.minus(pad)) {
        below
    } else {
        above.max(pad)
    }).round();
    let x = anchor.x.plus(anchor.w).minus(w).min(win_w.minus(w).minus(pad)).max(pad).round();
    MenuFrame { rect: Rect { x, y, w, h }, body_w, header_h }
}

/// Where the menu is.
pub fn menu_place(anchor: Rect, win_w: Single, win_h: Single, ascent: Single) -> (r: MenuFrame)
    ensures
        r == menu_frame(anchor, win_w, win_h, ascent),
{
    let two: Single = single(TWO_PT);
    let pad: Single = single(MENU_PAD);
    let step: Single = single(MENU_ROW_H).plus(single(MENU_ROW_GAP));
    let grid: Single = single(MENU_FPS_COL_W).times(Single::from_u64(3)).plus(
        single(MENU_FPS_COL_GAP).times(two),
    );
    let body_w: Single = single(MENU_RES_W).max(grid);
    let w: Single = body_w.plus(pad.times(two));
    let header_h: Single = ascent.plus(single(EIGHT_PT)).round();
    let h: Single = pad.times(two).plus(header_h).plus(step.times(Single::from_u64(5))).plus(
        single(MENU_SECTION_GAP),
    ).plus(header_h).plus(step.times(Single::from_u64(4)));
    let below: Single = anchor.y.plus(anchor.h).plus(single(MENU_GAP));
    let above: Single = anchor.y.minus(single(MENU_GAP)).minus(h);
    let y: Single = (if below.plus(h).le(win_h.minus(pad)) {
        below
    } else {
        above.max(pad)
    }).round();
    let x: Single = anchor.x.plus(anchor.w).minus(w).min(win_w.minus(w).minus(pad)).max(
        pad,
    ).round();
    MenuFrame { rect: Rect { x, y, w, h }, body_w, header_h }
}

impl MenuFrame {
    /// The top of the resolutions.
    pub open spec fn res_top(self) -> Single {
        self.rect.y.plus(single(MENU_PAD)).plus(self.header_h)
    }

    /// The top of the heading over the frame rates.
    pub open spec fn rate_heading(self) -> Single {
        rows_down(self.res_top(), 5).plus(single(MENU_SECTION_GAP))
    }

    /// The top of the frame rates.
    pub open spec fn rate_top(self) -> Single {
        self.rate_heading().plus(self.header_h)
    }

    /// A row over the whole width.
    pub open spec fn wide_row(self, y: Single) -> Rect {
        Rect { x: self.rect.x.plus(single(MENU_PAD)), y, w: self.body_w, h: single(MENU_ROW_H) }
    }

    /// The `k`-th of the resolutions; the first follows the footage.
    pub open spec fn res_entry(self, k: int, res: Setting<(u32, u32)>) -> Entry {
        let setting = if k == 0 {
            Setting::Auto
        } else {
            Setting::Fixed(RES_PRESETS[k - 1])
        };
        Entry {
            rect: self.wide_row(rows_down(self.res_top(), k as nat)),
            choice: ProjectChoice::Resolution(setting),
            text: if k == 0 {
                "Match first clip"@
            } else {
                decimal_of(RES_PRESETS[k - 1].0 as nat) + " x "@ + decimal_of(
                    RES_PRESETS[k - 1].1 as nat,
                )
            },
            chosen: setting == res,
        }
    }

    /// The frame rate that follows the footage.
    pub open spec fn auto_entry(self, fps: Setting<Double>) -> Entry {
        Entry {
            rect: self.wide_row(self.rate_top()),
            choice: ProjectChoice::Fps(Setting::Auto),
            text: "Match first clip"@,
            chosen: fps.alike(Setting::Auto),
        }
    }

    /// The `k`-th of the frame rates.
    pub open spec fn rate_entry(self, k: int, fps: Setting<Double>) -> Entry {
        let (col, row) = fps_cell(k as usize);
        let rate = double(FPS_COLUMNS[k]);
        Entry {
            rect: Rect {
                x: self.rect.x.plus(single(MENU_PAD)).plus(
                    Single::from_u64(col as u64).times(
                        single(MENU_FPS_COL_W).plus(single(MENU_FPS_COL_GAP)),
                    ),
                ),
                y: self.rate_top().plus(row_stride()).plus(
                    Single::from_u64(row as u64).times(row_stride()),
                ),
                w: single(MENU_FPS_COL_W),
                h: single(MENU_ROW_H),
            },
            choice: ProjectChoice::Fps(Setting::Fixed(rate)),
            text: rate_text(rate, fps_decimals(k)),
            chosen: fps.alike(Setting::Fixed(rate)),
        }
    }
}

/// A row as drawn.
pub open spec fn row_strokes(e: Entry, p: Point, ascent: Single) -> Seq<Stroke> {
    menu_row(e.rect, e.text, e.rect.contains(p.x, p.y), e.chosen, ascent)
}

/// A row as recorded.
pub open spec fn row_item(e: Entry) -> MenuItem {
    MenuItem { rect: e.rect, choice: e.choice }
}

/// Rows as drawn, one after another.
pub open spec fn row_marks(es: Seq<Entry>, p: Point, ascent: Single) -> Seq<Stroke>
    decreases es.len(),
{
    if es.len() == 0 {
        Seq::empty()
    } else {
        row_marks(es.drop_last(), p, ascent) + row_strokes(es.last(), p, ascent)
    }
}

/// Rows as recorded.
pub open spec fn row_items(es: Seq<Entry>) -> Seq<MenuItem> {
    Seq::new(es.len(), |i: int| row_item(es[i]))
}

/// The resolutions of the menu.
#[verifier::opaque]
pub open spec fn res_entries(f: MenuFrame, res: Setting<(u32, u32)>) -> Seq<Entry> {
    Seq::new(5, |k: int| f.res_entry(k, res))
}

/// The frame rates of the menu.
#[verifier::opaque]
pub open spec fn rate_entries(f: MenuFrame, fps: Setting<Double>) -> Seq<Entry> {
    seq![f.auto_entry(fps)] + Seq::new(8, |k: int| f.rate_entry(k, fps))
}

/// A heading of the menu.
pub open spec fn menu_heading(text: Seq<char>, x: Single, y: Single, ascent: Single) -> Stroke {
    Stroke::Text(
        Caption {
            text,
            size: single(TYPE_SM),
            color: paint(MENU_HEADER_COLOR),
            across: Across::From(x.plus(single(MENU_PAD)).round()),
            baseline: y.plus(ascent).round(),
            room: Room::Any,
            plated: false,
        },
    )
}

/// Draws a heading of the menu.
fn draw_menu_heading(sheet: &mut Sheet, text: &str, x: Single, y: Single, ascent: Single)
    ensures
        final(sheet)@ == old(sheet)@.push(menu_heading(text@, x, y, ascent)),
{
    sheet.text(
        Label {
            text: text.to_owned(),
            size: single(TYPE_SM),
            color: paint(MENU_HEADER_COLOR),
            across: Across::From(x.plus(single(MENU_PAD)).round()),
            baseline: y.plus(ascent).round(),
            room: Room::Any,
            plated: false,
        },
    );
}

/// Draws a row and records it.
fn push_menu_row(
    sheet: &mut Sheet,
    items: &mut Vec<MenuItem>,
    rect: Rect,
    text: String,
    chosen: bool,
    choice: ProjectChoice,
    p: Point,
    ascent: Single,
)
    ensures
        ({
            let e = Entry { rect, choice, text: text@, chosen };
            &&& final(sheet)@ == old(sheet)@ + row_strokes(e, p, ascent)
            &&& final(items)@ == old(items)@.push(row_item(e))
        }),
{
    let hovered: bool = rect.contains(p.x, p.y);
    draw_menu_row(sheet, rect, text.as_str(), hovered, chosen, ascent);
    items.push(MenuItem { rect, choice });
}

/// A row over the whole width.
fn wide(f: &MenuFrame, y: Single) -> (r: Rect)
    ensures
        r == f.wide_row(y),
{
    Rect { x: f.rect.x.plus(single(MENU_PAD)), y, w: f.body_w, h: single(MENU_ROW_H) }
}

/// Draws the resolutions. Returns the height below them.
fn draw_resolutions(
    sheet: &mut Sheet,
    items: &mut Vec<MenuItem>,
    f: &MenuFrame,
    res: &Setting<(u32, u32)>,
    p: Point,
    ascent: Single,
) -> (y: Single)
    ensures
        final(sheet)@ == old(sheet)@ + row_marks(res_entries(*f, *res), p, ascent),
        final(items)@ == old(items)@ + row_items(res_entries(*f, *res)),
        y == rows_down(f.res_top(), 5),
{
    proof {
        reveal(res_entries);
    }
    let step: Single = single(MENU_ROW_H).plus(single(MENU_ROW_GAP));
    let presets: [(u32, u32); 4] = RES_PRESETS;
    let mut y: Single = f.rect.y.plus(single(MENU_PAD)).plus(f.header_h);
    let mut k: usize = 0;
    let ghost es = res_entries(*f, *res);
    while k < 5
        invariant
            k <= 5,
            presets == RES_PRESETS,
            step == row_stride(),
            y == rows_down(f.res_top(), k as nat),
            es.len() == 5,
            forall|i: int| 0 <= i < 5 ==> #[trigger] es[i] == f.res_entry(i, *res),
            sheet@ =~= old(sheet)@ + row_marks(es.take(k as int), p, ascent),
            items@ =~= old(items)@ + row_items(es.take(k as int)),
        decreases 5 - k,
    {
        proof {
            assert(es[k as int] == f.res_entry(k as int, *res));
        }
        let setting: Setting<(u32, u32)> = if k == 0 {
            Setting::Auto
        } else {
            Setting::Fixed(presets[k - 1])
        };
        let text: String = if k == 0 {
            "Match first clip".to_owned()
        } else {
            let w: String = decimal(presets[k - 1].0 as u64);
            let h: String = decimal(presets[k - 1].1 as u64);
            w.concat(" x ").concat(h.as_str())
        };
        let chosen: bool = setting.same_size(res);
        push_menu_row(
            sheet,
            items,
            wide(f, y),
            text,
            chosen,
            ProjectChoice::Resolution(setting),
            p,
            ascent,
        );
        y = y.plus(step);
        k += 1;
        proof {
            assert(rows_down(f.res_top(), k as nat) == rows_down(
                f.res_top(),
                (k - 1) as nat,
            ).plus(row_stride()));
            assert(es.take(k as int) =~= es.take(k - 1).push(es[k - 1]));
            assert(es.take(k as int).drop_last() =~= es.take(k - 1));
        }
    }
    proof {
        assert(es.take(5) =~= es);
    }
    y
}

/// Draws the frame rates, the first of them at a height.
fn draw_rates(
    sheet: &mut Sheet,
    items: &mut Vec<MenuItem>,
    f: &MenuFrame,
    fps: &Setting<Double>,
    p: Point,
    top: Single,
    ascent: Single,
)
    requires
        top == f.rate_top(),
    ensures
        final(sheet)@ == old(sheet)@ + row_marks(rate_entries(*f, *fps), p, ascent),
        final(items)@ == old(items)@ + row_items(rate_entries(*f, *fps)),
{
    proof {
        reveal(rate_entries);
    }
    let step: Single = single(MENU_ROW_H).plus(single(MENU_ROW_GAP));
    let rates: [u64; 8] = FPS_COLUMNS;
    let ghost es = rate_entries(*f, *fps);
    let automatic: bool = fps.same(&Setting::Auto);
    push_menu_row(
        sheet,
        items,
        wide(f, top),
        "Match first clip".to_owned(),
        automatic,
        ProjectChoice::Fps(Setting::Auto),
        p,
        ascent,
    );
    let below: Single = top.plus(step);
    let mut k: usize = 0;
    proof {
        assert(es.take(1) =~= seq![f.auto_entry(*fps)]);
        assert(es.take(1).drop_last() =~= Seq::empty());
        reveal_with_fuel(row_marks, 2);
    }
    while k < 8
        invariant
            k <= 8,
            rates == FPS_COLUMNS,
            step == row_stride(),
            below == f.rate_top().plus(row_stride()),
            es.len() == 9,
            forall|i: int| 0 <= i < 8 ==> #[trigger] es[i + 1] == f.rate_entry(i, *fps),
            sheet@ =~= old(sheet)@ + row_marks(es.take(k + 1), p, ascent),
            items@ =~= old(items)@ + row_items(es.take(k + 1)),
        decreases 8 - k,
    {
        proof {
            assert(es[k as int + 1] == f.rate_entry(k as int, *fps));
        }
        let rate: Double = double(rates[k]);
        let cell: (usize, usize) = fps_cell(k);
        let rect: Rect = Rect {
            x: f.rect.x.plus(single(MENU_PAD)).plus(
                Single::from_u64(cell.0 as u64).times(
                    single(MENU_FPS_COL_W).plus(single(MENU_FPS_COL_GAP)),
                ),
            ),
            y: below.plus(Single::from_u64(cell.1 as u64).times(step)),
            w: single(MENU_FPS_COL_W),
            h: single(MENU_ROW_H),
        };
        let chosen: bool = fps.same(&Setting::Fixed(rate));
        let text: String = fmt_fps(rate, decimals_of(k));
        push_menu_row(
            sheet,
            items,
            rect,
            text,
            chosen,
            ProjectChoice::Fps(Setting::Fixed(rate)),
            p,
            ascent,
        );
        k += 1;
        proof {
            assert(es.take(k + 1) =~= es.take(k as int).push(es[k as int]));
            assert(es.take(k + 1).drop_last() =~= es.take(k as int));
        }
    }
    proof {
        assert(es.take(9) =~= es);
    }
}

impl Sitting {
    /// Where the menu of the session is.
    pub open spec fn menu_at(self, ascent: Single) -> MenuFrame {
        menu_frame(self.desk.buttons.project, self.desk.width, self.desk.height, ascent)
    }

    /// The settings menu: its chip, a heading and its rows twice. `ascent` is that of the
    /// headings.
    #[verifier::opaque]
    pub open spec fn menu_strokes(self, ascent: Single, row_ascent: Single) -> Seq<Stroke> {
        let f = self.menu_at(ascent);
        let p = self.desk.cursor;
        chip(
            f.rect.x,
            f.rect.y,
            f.rect.w,
            f.rect.h,
            paint(MENU_SHADOW),
            paint(MENU_BORDER),
            paint(MENU_BG),
        ) + seq![
            menu_heading("RESOLUTION"@, f.rect.x, f.rect.y.plus(single(MENU_PAD)), ascent),
        ] + row_marks(res_entries(f, self.res), p, row_ascent) + seq![
            menu_heading("FRAME RATE"@, f.rect.x, f.rate_heading(), ascent),
        ] + row_marks(rate_entries(f, self.fps), p, row_ascent)
    }

    /// With the rows of the menu recorded.
    #[verifier::opaque]
    pub open spec fn with_menu(self, ascent: Single) -> Sitting {
        let f = self.menu_at(ascent);
        Sitting {
            menu: row_items(res_entries(f, self.res)) + row_items(rate_entries(f, self.fps)),
            ..self
        }
    }
}

impl Session {
    /// Draws the settings menu at its button, and records its rows. `ascent` is that of its
    /// headings.
    pub fn draw_project_menu(&mut self, sheet: &mut Sheet, ascent: Single, row_ascent: Single)
        ensures
            final(self)@ == old(self)@.with_menu(ascent),
            final(sheet)@ == old(sheet)@ + old(self)@.menu_strokes(ascent, row_ascent),
    {
        let f: MenuFrame = menu_place(
            self.desk.buttons.project,
            self.desk.width,
            self.desk.height,
            ascent,
        );
        let p: Point = self.desk.cursor;
        let mut items: Vec<MenuItem> = Vec::new();
        draw_chip(sheet, f.rect, paint(MENU_SHADOW), paint(MENU_BORDER), paint(MENU_BG));
        draw_menu_heading(
            sheet,
            "RESOLUTION",
            f.rect.x,
            f.rect.y.plus(single(MENU_PAD)),
            ascent,
        );
        let y: Single = draw_resolutions(
            sheet,
            &mut items,
            &f,
            &self.canvas_res,
            p,
            row_ascent,
        );
        let heading: Single = y.plus(single(MENU_SECTION_GAP));
        draw_menu_heading(sheet, "FRAME RATE", f.rect.x, heading, ascent);
        draw_rates(
            sheet,
            &mut items,
            &f,
            &self.canvas_fps,
            p,
            heading.plus(f.header_h),
            row_ascent,
        );
        proof {
            reveal(Sitting::menu_strokes);
            assert(sheet@ =~= old(sheet)@ + old(self)@.menu_strokes(ascent, row_ascent));
            reveal(Sitting::with_menu);
            assert(items@ =~= row_items(res_entries(f, self@.res)) + row_items(
                rate_entries(f, self@.fps),
            ));
        }
        self.menu_items = items;
    }
}

} // verus!
