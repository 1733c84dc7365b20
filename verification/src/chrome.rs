//! Drawing the controls: the headings, the toolbar and its readout, the transport bar.
//!
//! Each records where it drew a control, which is where the next press looks for it.

use crate::canvas::Canvas;
use crate::edit::Point;
use crate::export::Progress;
use crate::fmt::{
    decimal, decimal_of, fmt_fps, format_timecode, rate_text, timecode,
};
use crate::ieee::{double, single, Double, Single};
use crate::panel::Ascents;
use crate::scene::{
    button, draw_button, filled, Across, Caption, Label, Mark, Room, Sheet, Stroke,
};
use crate::session::{Buttons, Desk, Session, Sitting};
use crate::theme::{
    paint, EXPORT_BAR_FILL, EXPORT_BAR_H, EXPORT_BAR_TRACK, EXPORT_READOUT_GAP, EXPORT_READOUT_W,
    HALF_PT, HUNDRED_PT, ICON_DELETE, ICON_IMPORT, ICON_NEXT_EDIT, ICON_NEXT_FRAME, ICON_OPEN,
    ICON_PAUSE, ICON_PLAY, ICON_PREV_EDIT, ICON_PREV_FRAME, ICON_REDO, ICON_RENDER, ICON_SAVE,
    ICON_SETTINGS, ICON_SNAP, ICON_SPLIT, ICON_STOP, ICON_UNDO, LABEL_COLOR, LABEL_PAD,
    POOL_LIST_TOP, STATUS_INFO, STATUS_SECONDS, THREE_PT, TIMELINE_TOP_PAD, TIMER_COLOR,
    TRANSPORT_BAR_H, TRANSPORT_BTN_H, TRANSPORT_BTN_W, TRANSPORT_GAP, TYPE_LG, TYPE_SM, TYPE_XL,
};
use crate::timeline::ZERO;
use crate::ui::{BtnState, Color, Rect, TooltipSide};
use vstd::prelude::*;
use vstd::string::StringExecFns;

verus! {

/// One and a half, as a single.
pub const ONE_AND_A_HALF: u32 = 0x3fc0_0000;

/// A heading.
pub open spec fn heading(text: Seq<char>, x: Single, baseline: Single) -> Stroke {
    Stroke::Text(
        Caption {
            text,
            size: single(TYPE_LG),
            color: paint(LABEL_COLOR),
            across: Across::From(x),
            baseline,
            room: Room::Any,
            plated: false,
        },
    )
}

/// Draws a heading.
fn draw_heading(sheet: &mut Sheet, text: &str, x: Single, baseline: Single)
    ensures
        final(sheet)@ == old(sheet)@.push(heading(text@, x, baseline)),
{
    sheet.text(
        Label {
            text: text.to_owned(),
            size: single(TYPE_LG),
            color: paint(LABEL_COLOR),
            across: Across::From(x),
            baseline,
            room: Room::Any,
            plated: false,
        },
    );
}

/// A control: its button, and its tooltip while the cursor is on it.
#[verifier::opaque]
pub open spec fn control(
    rect: Rect,
    icon: char,
    tip: Seq<char>,
    state: BtnState,
    cursor: Point,
    ascent: Single,
) -> Seq<Stroke> {
    let hovered = rect.contains(cursor.x, cursor.y);
    button(rect, icon, ascent, hovered, state) + (if hovered {
        seq![Stroke::Tip { anchor: rect, text: tip, side: TooltipSide::Below }]
    } else {
        Seq::empty()
    })
}

/// Draws a control.
fn draw_control(
    sheet: &mut Sheet,
    rect: Rect,
    icon: char,
    tip: &str,
    state: BtnState,
    cursor: Point,
    ascent: Single,
)
    ensures
        final(sheet)@ == old(sheet)@ + control(rect, icon, tip@, state, cursor, ascent),
{
    proof {
        reveal(control);
    }
    let hovered: bool = rect.contains(cursor.x, cursor.y);
    draw_button(sheet, rect, icon, ascent, hovered, state);
    if hovered {
        sheet.add_mark(
            Mark::Tip { anchor: rect, text: tip.to_owned(), side: TooltipSide::Below },
        );
    }
    proof {
        assert(sheet@ =~= old(sheet)@ + control(rect, icon, tip@, state, cursor, ascent));
    }
}

/// The state of a button that acts only where there is something to do.
pub open spec fn spec_available(yes: bool) -> BtnState {
    if yes {
        BtnState::Normal
    } else {
        BtnState::Disabled
    }
}

/// The state of a button that acts only where there is something to do.
#[verifier::when_used_as_spec(spec_available)]
pub fn available(yes: bool) -> (r: BtnState)
    ensures
        r == spec_available(yes),
{
    if yes {
        BtnState::Normal
    } else {
        BtnState::Disabled
    }
}

/// A button of the usual size.
pub open spec fn plain_box(x: Single, y: Single) -> Rect {
    Rect { x, y, w: single(TRANSPORT_BTN_W), h: single(TRANSPORT_BTN_H) }
}

/// A button of the usual size.
fn plain(x: Single, y: Single) -> (r: Rect)
    ensures
        r == plain_box(x, y),
{
    Rect { x, y, w: single(TRANSPORT_BTN_W), h: single(TRANSPORT_BTN_H) }
}

/// Where buttons start beside a heading of this width.
pub open spec fn beside(label_w: Single) -> Single {
    single(LABEL_PAD).plus(label_w).plus(
        single(LABEL_PAD).times(single(ONE_AND_A_HALF)),
    ).round()
}

/// Where buttons start beside a heading of this width.
fn start_beside(label_w: Single) -> (r: Single)
    ensures
        r == beside(label_w),
{
    single(LABEL_PAD).plus(label_w).plus(
        single(LABEL_PAD).times(single(ONE_AND_A_HALF)),
    ).round()
}

/// Where the button left of another is.
pub open spec fn left_of(x: Single) -> Single {
    x.minus(single(TRANSPORT_GAP)).minus(single(TRANSPORT_BTN_W)).round()
}

/// Where the button left of another is.
fn leftward(x: Single) -> (r: Single)
    ensures
        r == left_of(x),
{
    x.minus(single(TRANSPORT_GAP)).minus(single(TRANSPORT_BTN_W)).round()
}

/// The distance from one button of a row to the next.
pub open spec fn stride() -> Single {
    single(TRANSPORT_BTN_W).plus(single(TRANSPORT_GAP))
}

impl Desk {
    /// Where the import button is, beside a heading of this width.
    pub open spec fn import_box(self, label_w: Single) -> Rect {
        plain_box(
            beside(label_w),
            single(POOL_LIST_TOP).minus(single(TRANSPORT_BTN_H)).times(single(HALF_PT)).round(),
        )
    }

    /// The line that the toolbar is centred on.
    pub open spec fn toolbar_y(self) -> Single {
        self.timeline_top().plus(single(TIMELINE_TOP_PAD).times(single(HALF_PT)))
    }

    /// Where the controls of the toolbar are, beside a heading of this width: the edits
    /// from the left, the project from the right.
    pub open spec fn toolbar(self, label_w: Single) -> Buttons {
        let y = self.toolbar_y().minus(
            single(TRANSPORT_BTN_H).times(single(HALF_PT)),
        ).round();
        let x = beside(label_w);
        let n = |k: u64| x.plus(stride().times(Single::from_u64(k)));
        let export = self.width.minus(single(LABEL_PAD)).minus(single(TRANSPORT_BTN_W)).round();
        let project = left_of(export);
        let save = left_of(project);
        Buttons {
            split: plain_box(x, y),
            delete: plain_box(x.plus(stride()), y),
            undo: plain_box(n(2), y),
            redo: plain_box(n(3), y),
            snap: plain_box(n(4), y),
            export: plain_box(export, y),
            project: plain_box(project, y),
            save: plain_box(save, y),
            open: plain_box(left_of(save), y),
            ..self.buttons
        }
    }

    /// Where the transport buttons are: a row in the middle under the preview.
    pub open spec fn transport_box(self, i: u64) -> Rect {
        let row_w = single(TRANSPORT_BTN_W).times(Single::from_u64(5)).plus(
            single(TRANSPORT_GAP).times(Single::from_u64(4)),
        );
        let row_x = self.media_pool_w().plus(
            self.preview_w().minus(row_w).times(single(HALF_PT)),
        ).round();
        plain_box(
            row_x.plus(Single::from_u64(i).times(stride())),
            self.bar_y().minus(single(TRANSPORT_BTN_H).times(single(HALF_PT))).round(),
        )
    }

    /// The line that the transport bar is centred on.
    pub open spec fn bar_y(self) -> Single {
        self.preview_h().plus(single(TRANSPORT_BAR_H).times(single(HALF_PT)))
    }
}

impl Sitting {
    /// With the controls recorded where they are.
    pub open spec fn with_buttons(self, b: Buttons) -> Sitting {
        Sitting { desk: Desk { buttons: b, ..self.desk }, ..self }
    }

    /// The headings above the pool and the preview, and the import button.
    #[verifier::opaque]
    pub open spec fn headings(self, label_w: Single, a: Ascents) -> Seq<Stroke> {
        let baseline = single(LABEL_PAD).plus(a.lg);
        seq![heading("MEDIA POOL"@, single(LABEL_PAD), baseline)] + control(
            self.desk.import_box(label_w),
            ICON_IMPORT,
            "Import media (O)"@,
            BtnState::Normal,
            self.desk.cursor,
            a.icon,
        ) + seq![
            heading(
                "PREVIEW"@,
                self.desk.media_pool_w().plus(single(LABEL_PAD)),
                baseline,
            ),
        ]
    }

    /// With the import button recorded.
    #[verifier::opaque]
    pub open spec fn headed(self, label_w: Single) -> Sitting {
        self.with_buttons(
            Buttons { pool_open: self.desk.import_box(label_w), ..self.desk.buttons },
        )
    }
}

/// What the settings button says: the canvas as it came out.
pub open spec fn canvas_tip(c: Canvas, decimals: Seq<char>) -> Seq<char> {
    "Project canvas: "@ + decimal_of(c.width as nat) + "x"@ + decimal_of(c.height as nat)
        + " @ "@ + rate_text(c.fps, decimals)
}

/// What the settings button says. `decimals` is the canvas's frame rate to three.
pub fn project_tip(c: &Canvas, decimals: &str) -> (r: String)
    ensures
        r@ == canvas_tip(*c, decimals@),
{
    let w: String = decimal(c.width as u64);
    let h: String = decimal(c.height as u64);
    let fps: String = fmt_fps(c.fps, decimals);
    let r: String = "Project canvas: ".to_owned().concat(w.as_str()).concat("x").concat(
        h.as_str(),
    ).concat(" @ ").concat(fps.as_str());
    proof {
        assert(r@ =~= canvas_tip(*c, decimals@));
    }
    r
}

impl Session {
    /// Records where the controls are.
    fn place_buttons(&mut self, b: Buttons)
        ensures
            final(self)@ == old(self)@.with_buttons(b),
    {
        self.desk.buttons = b;
    }

    /// Draws the headings above the pool and the preview, and the import button. The
    /// pool's heading comes out `label_w` wide.
    pub fn draw_panel_labels(&mut self, sheet: &mut Sheet, label_w: Single, a: &Ascents)
        requires
            old(self)@.desk.divides(),
        ensures
            final(self)@ == old(self)@.headed(label_w),
            final(sheet)@ == old(sheet)@ + old(self)@.headings(label_w, *a),
    {
        proof {
            reveal(Sitting::headings);
            reveal(Sitting::headed);
        }
        let baseline: Single = single(LABEL_PAD).plus(a.lg);
        draw_heading(sheet, "MEDIA POOL", single(LABEL_PAD), baseline);
        let rect: Rect = plain(
            start_beside(label_w),
            single(POOL_LIST_TOP).minus(single(TRANSPORT_BTN_H)).times(single(HALF_PT)).round(),
        );
        draw_control(
            sheet,
            rect,
            ICON_IMPORT,
            "Import media (O)",
            BtnState::Normal,
            self.desk.cursor,
            a.icon,
        );
        draw_heading(
            sheet,
            "PREVIEW",
            self.desk.media_pool_w().plus(single(LABEL_PAD)),
            baseline,
        );
        proof {
            assert(sheet@ =~= old(sheet)@ + old(self)@.headings(label_w, *a));
        }
        self.place_buttons(Buttons { pool_open: rect, ..self.desk.buttons });
    }
}

/// A message left of the project's buttons: its words, its colour, how old it is in
/// seconds.
pub struct Status {
    pub message: String,
    pub color: Color,
    pub age: Double,
}

/// A line of the readout.
pub open spec fn readout_text(
    text: Seq<char>,
    color: Color,
    right: Single,
    baseline: Single,
    room: Room,
) -> Stroke {
    Stroke::Text(
        Caption {
            text,
            size: single(TYPE_SM),
            color,
            across: Across::Until(right),
            baseline,
            room,
            plated: false,
        },
    )
}

/// How far a render has come: the percentage, and a bar under it.
#[verifier::opaque]
pub open spec fn readout_bar(p: Progress, center_y: Single, right: Single, ascent: Single) -> Seq<
    Stroke,
> {
    let left = right.minus(single(EXPORT_READOUT_W));
    let block_h = ascent.plus(single(THREE_PT)).plus(single(EXPORT_BAR_H));
    let top = center_y.minus(block_h.times(single(HALF_PT))).round();
    let y = top.plus(ascent).plus(single(THREE_PT)).round();
    let done = single(EXPORT_READOUT_W).times(p.fraction()).round();
    seq![
        readout_text(
            "Exporting\u{2026} "@ + decimal_of(
                p.fraction().times(single(HUNDRED_PT)).round().to_u64() as nat,
            ) + "%"@,
            paint(STATUS_INFO),
            right,
            top.plus(ascent),
            Room::Any,
        ),
        filled(
            left,
            y,
            single(EXPORT_READOUT_W),
            single(EXPORT_BAR_H),
            paint(EXPORT_BAR_TRACK),
        ),
    ] + (if single(0).lt(done) {
        seq![filled(left, y, done, single(EXPORT_BAR_H), paint(EXPORT_BAR_FILL))]
    } else {
        Seq::empty()
    })
}

/// Draws how far a render has come.
fn draw_progress(sheet: &mut Sheet, p: &Progress, center_y: Single, right: Single, ascent: Single)
    ensures
        final(sheet)@ == old(sheet)@ + readout_bar(*p, center_y, right, ascent),
{
    proof {
        reveal(readout_bar);
    }
    let left: Single = right.minus(single(EXPORT_READOUT_W));
    let block_h: Single = ascent.plus(single(THREE_PT)).plus(single(EXPORT_BAR_H));
    let top: Single = center_y.minus(block_h.times(single(HALF_PT))).round();
    let y: Single = top.plus(ascent).plus(single(THREE_PT)).round();
    let done: Single = single(EXPORT_READOUT_W).times(p.fraction()).round();
    let percent: String = decimal(p.fraction().times(single(HUNDRED_PT)).round().to_u64());
    sheet.text(
        Label {
            text: "Exporting\u{2026} ".to_owned().concat(percent.as_str()).concat("%"),
            size: single(TYPE_SM),
            color: paint(STATUS_INFO),
            across: Across::Until(right),
            baseline: top.plus(ascent),
            room: Room::Any,
            plated: false,
        },
    );
    sheet.fill(
        left,
        y,
        single(EXPORT_READOUT_W),
        single(EXPORT_BAR_H),
        paint(EXPORT_BAR_TRACK),
    );
    if single(0).lt(done) {
        sheet.fill(left, y, done, single(EXPORT_BAR_H), paint(EXPORT_BAR_FILL));
    }
    proof {
        assert(sheet@ =~= old(sheet)@ + readout_bar(*p, center_y, right, ascent));
    }
}

/// The readout: how far a render has come while one runs, else the last message while it
/// is fresh.
#[verifier::opaque]
pub open spec fn readout(
    progress: Option<Progress>,
    message: Option<(Seq<char>, Color, Double)>,
    center_y: Single,
    open_x: Single,
    ascent: Single,
) -> Seq<Stroke> {
    let right = open_x.minus(single(EXPORT_READOUT_GAP));
    match (progress, message) {
        (Some(p), _) => readout_bar(p, center_y, right, ascent),
        (None, Some((text, color, age))) => if age.lt(double(STATUS_SECONDS)) {
            seq![
                readout_text(
                    text,
                    color,
                    right,
                    center_y.plus(ascent.times(single(HALF_PT))).round(),
                    Room::Shorten(single(EXPORT_READOUT_W)),
                ),
            ]
        } else {
            Seq::empty()
        },
        (None, None) => Seq::empty(),
    }
}

/// A message as words, colour and age.
pub open spec fn said(s: Option<Status>) -> Option<(Seq<char>, Color, Double)> {
    match s {
        Some(s) => Some((s.message@, s.color, s.age)),
        None => None,
    }
}

/// Draws the readout left of the open button, centred on a line. Returns whether the
/// message has had its time.
pub fn draw_export_readout(
    sheet: &mut Sheet,
    progress: &Option<Progress>,
    status: &Option<Status>,
    center_y: Single,
    open_x: Single,
    ascent: Single,
) -> (stale: bool)
    ensures
        final(sheet)@ == old(sheet)@ + readout(
            *progress,
            said(*status),
            center_y,
            open_x,
            ascent,
        ),
        stale == (*progress is None && (*status matches Some(s) && !s.age.lt(
            double(STATUS_SECONDS),
        ))),
{
    proof {
        reveal(readout);
    }
    let right: Single = open_x.minus(single(EXPORT_READOUT_GAP));
    let mut stale: bool = false;
    if let Some(p) = progress {
        draw_progress(sheet, p, center_y, right, ascent);
    } else if let Some(s) = status {
        if s.age.lt(double(STATUS_SECONDS)) {
            sheet.text(
                Label {
                    text: s.message.clone(),
                    size: single(TYPE_SM),
                    color: s.color,
                    across: Across::Until(right),
                    baseline: center_y.plus(ascent.times(single(HALF_PT))).round(),
                    room: Room::Shorten(single(EXPORT_READOUT_W)),
                    plated: false,
                },
            );
        } else {
            stale = true;
        }
    }
    proof {
        assert(sheet@ =~= old(sheet)@ + readout(
            *progress,
            said(*status),
            center_y,
            open_x,
            ascent,
        ));
    }
    stale
}

impl Sitting {
    /// Opening and saving. There is nothing to save where nothing changed.
    #[verifier::opaque]
    pub open spec fn file_controls(self, b: Buttons, a: Ascents) -> Seq<Stroke> {
        control(
            b.open,
            ICON_OPEN,
            "Open project (Ctrl+O)"@,
            BtnState::Normal,
            self.desk.cursor,
            a.icon,
        ) + control(
            b.save,
            ICON_SAVE,
            if self.desk.dirty {
                "Save project (Ctrl+S)"@
            } else {
                "No unsaved changes"@
            },
            available(self.desk.dirty),
            self.desk.cursor,
            a.icon,
        )
    }

    /// The edits.
    #[verifier::opaque]
    pub open spec fn edit_controls(self, b: Buttons, a: Ascents) -> Seq<Stroke> {
        control(
            b.split,
            ICON_SPLIT,
            "Split at playhead (S)"@,
            BtnState::Normal,
            self.desk.cursor,
            a.icon,
        ) + control(
            b.delete,
            ICON_DELETE,
            "Delete clip (Del)"@,
            available(self.chosen() is Some),
            self.desk.cursor,
            a.icon,
        ) + control(
            b.undo,
            ICON_UNDO,
            "Undo (Ctrl+Z)"@,
            available(self.past.len() > 0),
            self.desk.cursor,
            a.icon,
        ) + control(
            b.redo,
            ICON_REDO,
            "Redo (Ctrl+Shift+Z)"@,
            available(self.future.len() > 0),
            self.desk.cursor,
            a.icon,
        ) + control(
            b.snap,
            ICON_SNAP,
            "Snap to clip edges (N)"@,
            BtnState::Toggle(self.desk.snap_enabled),
            self.desk.cursor,
            a.icon,
        )
    }

    /// The settings and the export, which runs or stops.
    #[verifier::opaque]
    pub open spec fn output_controls(self, b: Buttons, decimals: Seq<char>, a: Ascents) -> Seq<
        Stroke,
    > {
        let exporting = self.desk.exporting;
        control(
            b.project,
            ICON_SETTINGS,
            canvas_tip(self.canvas(), decimals),
            BtnState::Toggle(self.desk.project_menu_open),
            self.desk.cursor,
            a.icon,
        ) + control(
            b.export,
            if exporting {
                ICON_STOP
            } else {
                ICON_RENDER
            },
            if exporting {
                "Cancel this export"@
            } else {
                "Export to MP4 (Ctrl+E)"@
            },
            available(exporting || double(ZERO).lt(self.reel.length())),
            self.desk.cursor,
            a.icon,
        )
    }

    /// The toolbar of the timeline: its heading, its controls and its readout on one line.
    #[verifier::opaque]
    pub open spec fn toolbar_strokes(
        self,
        label_w: Single,
        decimals: Seq<char>,
        progress: Option<Progress>,
        message: Option<(Seq<char>, Color, Double)>,
        a: Ascents,
    ) -> Seq<Stroke> {
        let b = self.desk.toolbar(label_w);
        let y = self.desk.toolbar_y();
        seq![
            heading(
                "TIMELINE"@,
                single(LABEL_PAD),
                y.plus(a.lg.times(single(HALF_PT))).round(),
            ),
        ] + self.file_controls(b, a) + self.edit_controls(b, a) + self.output_controls(
            b,
            decimals,
            a,
        ) + readout(progress, message, y, b.open.x, a.sm)
    }

    /// With the controls of the toolbar recorded.
    #[verifier::opaque]
    pub open spec fn tooled(self, label_w: Single) -> Sitting {
        self.with_buttons(self.desk.toolbar(label_w))
    }
}

impl Session {
    /// Where the controls of the toolbar are.
    fn toolbar(&self, label_w: Single) -> (r: Buttons)
        requires
            self@.desk.divides(),
        ensures
            r == self@.desk.toolbar(label_w),
    {
        let center_y: Single = self.desk.timeline_top().plus(
            single(TIMELINE_TOP_PAD).times(single(HALF_PT)),
        );
        let y: Single = center_y.minus(single(TRANSPORT_BTN_H).times(single(HALF_PT))).round();
        let x: Single = start_beside(label_w);
        let step: Single = single(TRANSPORT_BTN_W).plus(single(TRANSPORT_GAP));
        let export: Single = self.desk.width.minus(single(LABEL_PAD)).minus(
            single(TRANSPORT_BTN_W),
        ).round();
        let project: Single = leftward(export);
        let save: Single = leftward(project);
        Buttons {
            split: plain(x, y),
            delete: plain(x.plus(step), y),
            undo: plain(x.plus(step.times(Single::from_u64(2))), y),
            redo: plain(x.plus(step.times(Single::from_u64(3))), y),
            snap: plain(x.plus(step.times(Single::from_u64(4))), y),
            export: plain(export, y),
            project: plain(project, y),
            save: plain(save, y),
            open: plain(leftward(save), y),
            ..self.desk.buttons
        }
    }

    /// Draws opening and saving.
    fn draw_file_controls(&self, sheet: &mut Sheet, b: &Buttons, a: &Ascents)
        ensures
            final(sheet)@ == old(sheet)@ + self@.file_controls(*b, *a),
    {
        proof {
            reveal(Sitting::file_controls);
        }
        let p: Point = self.desk.cursor;
        draw_control(
            sheet,
            b.open,
            ICON_OPEN,
            "Open project (Ctrl+O)",
            BtnState::Normal,
            p,
            a.icon,
        );
        let tip: &str = if self.desk.dirty {
            "Save project (Ctrl+S)"
        } else {
            "No unsaved changes"
        };
        draw_control(sheet, b.save, ICON_SAVE, tip, available(self.desk.dirty), p, a.icon);
        proof {
            assert(sheet@ =~= old(sheet)@ + self@.file_controls(*b, *a));
        }
    }

    /// Draws the edits.
    fn draw_edit_controls(&self, sheet: &mut Sheet, b: &Buttons, a: &Ascents)
        ensures
            final(sheet)@ == old(sheet)@ + self@.edit_controls(*b, *a),
    {
        proof {
            reveal(Sitting::edit_controls);
        }
        let p: Point = self.desk.cursor;
        let n: BtnState = BtnState::Normal;
        let some: bool = self.has_selection();
        let back: bool = self.undo_stack.len() > 0;
        let forth: bool = self.redo_stack.len() > 0;
        let snap: BtnState = BtnState::Toggle(self.desk.snap_enabled);
        draw_control(sheet, b.split, ICON_SPLIT, "Split at playhead (S)", n, p, a.icon);
        draw_control(
            sheet,
            b.delete,
            ICON_DELETE,
            "Delete clip (Del)",
            available(some),
            p,
            a.icon,
        );
        draw_control(sheet, b.undo, ICON_UNDO, "Undo (Ctrl+Z)", available(back), p, a.icon);
        draw_control(
            sheet,
            b.redo,
            ICON_REDO,
            "Redo (Ctrl+Shift+Z)",
            available(forth),
            p,
            a.icon,
        );
        draw_control(sheet, b.snap, ICON_SNAP, "Snap to clip edges (N)", snap, p, a.icon);
        proof {
            assert(sheet@ =~= old(sheet)@ + self@.edit_controls(*b, *a));
        }
    }

    /// Draws the settings and the export.
    fn draw_output_controls(&self, sheet: &mut Sheet, b: &Buttons, decimals: &str, a: &Ascents)
        ensures
            final(sheet)@ == old(sheet)@ + self@.output_controls(*b, decimals@, *a),
    {
        proof {
            reveal(Sitting::output_controls);
        }
        let p: Point = self.desk.cursor;
        let exporting: bool = self.desk.exporting;
        let menu: BtnState = BtnState::Toggle(self.desk.project_menu_open);
        let canvas_words: String = project_tip(&self.canvas(), decimals);
        draw_control(
            sheet,
            b.project,
            ICON_SETTINGS,
            canvas_words.as_str(),
            menu,
            p,
            a.icon,
        );
        let icon: char = if exporting {
            ICON_STOP
        } else {
            ICON_RENDER
        };
        let tip: &str = if exporting {
            "Cancel this export"
        } else {
            "Export to MP4 (Ctrl+E)"
        };
        let can: bool = exporting || self.can_export();
        draw_control(sheet, b.export, icon, tip, available(can), p, a.icon);
        proof {
            assert(sheet@ =~= old(sheet)@ + self@.output_controls(*b, decimals@, *a));
        }
    }

    /// Draws the toolbar of the timeline. Its heading comes out `label_w` wide; `decimals`
    /// is the canvas's frame rate to three. Returns whether the message has had its time.
    pub fn draw_timeline_toolbar(
        &mut self,
        sheet: &mut Sheet,
        label_w: Single,
        decimals: &str,
        progress: &Option<Progress>,
        status: &Option<Status>,
        a: &Ascents,
    ) -> (stale: bool)
        requires
            old(self)@.desk.divides(),
        ensures
            final(self)@ == old(self)@.tooled(label_w),
            final(sheet)@ == old(sheet)@ + old(self)@.toolbar_strokes(
                label_w,
                decimals@,
                *progress,
                said(*status),
                *a,
            ),
            stale == (*progress is None && (*status matches Some(s) && !s.age.lt(
                double(STATUS_SECONDS),
            ))),
    {
        let b: Buttons = self.toolbar(label_w);
        let y: Single = self.desk.timeline_top().plus(
            single(TIMELINE_TOP_PAD).times(single(HALF_PT)),
        );
        draw_heading(
            sheet,
            "TIMELINE",
            single(LABEL_PAD),
            y.plus(a.lg.times(single(HALF_PT))).round(),
        );
        self.draw_file_controls(sheet, &b, a);
        self.draw_edit_controls(sheet, &b, a);
        self.draw_output_controls(sheet, &b, decimals, a);
        let stale: bool = draw_export_readout(sheet, progress, status, y, b.open.x, a.sm);
        proof {
            reveal(Sitting::toolbar_strokes);
            assert(sheet@ =~= old(sheet)@ + old(self)@.toolbar_strokes(
                label_w,
                decimals@,
                *progress,
                said(*status),
                *a,
            ));
            reveal(Sitting::tooled);
        }
        self.place_buttons(b);
        stale
    }
}

/// What a transport button does, as its icon and its words.
pub open spec fn transport_face(i: int, playing: bool) -> (char, Seq<char>) {
    if i == 0 {
        (ICON_PREV_EDIT, "Prev edit (Shift+Left)"@)
    } else if i == 1 {
        (ICON_PREV_FRAME, "Prev frame (Left)"@)
    } else if i == 2 {
        if playing {
            (ICON_PAUSE, "Pause (Space)"@)
        } else {
            (ICON_PLAY, "Play (Space)"@)
        }
    } else if i == 3 {
        (ICON_NEXT_FRAME, "Next frame (Right)"@)
    } else {
        (ICON_NEXT_EDIT, "Next edit (Shift+Right)"@)
    }
}

/// The first of the boxes from `from` on that holds a point.
pub open spec fn first_box_at(boxes: Seq<Rect>, p: Point, from: int) -> Option<int>
    decreases boxes.len() - from,
{
    if from < 0 || from >= boxes.len() {
        None
    } else if boxes[from].contains(p.x, p.y) {
        Some(from)
    } else {
        first_box_at(boxes, p, from + 1)
    }
}

/// The transport buttons from `i` on, the one under the cursor lit.
pub open spec fn transport_row(
    boxes: Seq<Rect>,
    lit: Option<int>,
    playing: bool,
    ascent: Single,
    i: int,
) -> Seq<Stroke>
    decreases boxes.len() - i,
{
    if i < 0 || i >= boxes.len() {
        Seq::empty()
    } else {
        button(
            boxes[i],
            transport_face(i, playing).0,
            ascent,
            lit == Some(i),
            BtnState::Normal,
        ) + transport_row(boxes, lit, playing, ascent, i + 1)
    }
}

impl Sitting {
    /// Where the transport buttons are.
    pub open spec fn transport_boxes(self) -> [Rect; 5] {
        [
            self.desk.transport_box(0),
            self.desk.transport_box(1),
            self.desk.transport_box(2),
            self.desk.transport_box(3),
            self.desk.transport_box(4),
        ]
    }

    /// With the transport buttons recorded.
    #[verifier::opaque]
    pub open spec fn barred(self) -> Sitting {
        self.with_buttons(Buttons { transport: self.transport_boxes(), ..self.desk.buttons })
    }

    /// The transport bar: the timer at the right, the buttons, a tooltip above the one
    /// under the cursor.
    #[verifier::opaque]
    pub open spec fn transport_bar(self, t: Double, a: Ascents) -> Seq<Stroke> {
        let boxes = self.transport_boxes()@;
        let playing = self.desk.clock.playing;
        let lit = first_box_at(boxes, self.desk.cursor, 0);
        let timer = Stroke::Text(
            Caption {
                text: timecode(t) + " / "@ + timecode(self.reel.length()),
                size: single(TYPE_XL),
                color: paint(TIMER_COLOR),
                across: Across::Until(self.desk.width.minus(single(LABEL_PAD))),
                baseline: self.desk.bar_y().plus(a.xl.times(single(HALF_PT))).round(),
                room: Room::Any,
                plated: false,
            },
        );
        seq![timer] + transport_row(boxes, lit, playing, a.icon, 0) + (match lit {
            Some(i) => seq![
                Stroke::Tip {
                    anchor: boxes[i],
                    text: transport_face(i, playing).1,
                    side: TooltipSide::Above,
                },
            ],
            None => Seq::empty(),
        })
    }
}

/// What a transport button does, as its icon and its words.
fn face_of(i: usize, playing: bool) -> (r: (char, &'static str))
    ensures
        (r.0, r.1@) == transport_face(i as int, playing),
{
    if i == 0 {
        (ICON_PREV_EDIT, "Prev edit (Shift+Left)")
    } else if i == 1 {
        (ICON_PREV_FRAME, "Prev frame (Left)")
    } else if i == 2 {
        if playing {
            (ICON_PAUSE, "Pause (Space)")
        } else {
            (ICON_PLAY, "Play (Space)")
        }
    } else if i == 3 {
        (ICON_NEXT_FRAME, "Next frame (Right)")
    } else {
        (ICON_NEXT_EDIT, "Next edit (Shift+Right)")
    }
}

/// The first of the boxes that holds a point.
fn box_at(boxes: &[Rect; 5], p: Point) -> (r: Option<usize>)
    ensures
        match r {
            Some(i) => i < 5 && first_box_at(boxes@, p, 0) == Some(i as int),
            None => first_box_at(boxes@, p, 0) is None,
        },
{
    let mut i: usize = 0;
    while i < 5
        invariant
            i <= 5,
            first_box_at(boxes@, p, 0) == first_box_at(boxes@, p, i as int),
        decreases 5 - i,
    {
        if boxes[i].contains(p.x, p.y) {
            return Some(i);
        }
        i += 1;
    }
    None
}

/// Draws the transport buttons.
fn draw_transport_row(
    sheet: &mut Sheet,
    boxes: &[Rect; 5],
    lit: Option<usize>,
    playing: bool,
    ascent: Single,
)
    ensures
        final(sheet)@ == old(sheet)@ + transport_row(
            boxes@,
            (match lit {
                Some(i) => Some(i as int),
                None => None,
            }),
            playing,
            ascent,
            0,
        ),
{
    let ghost l: Option<int> = match lit {
        Some(i) => Some(i as int),
        None => None,
    };
    let ghost all = transport_row(boxes@, l, playing, ascent, 0);
    let mut i: usize = 0;
    while i < 5
        invariant
            i <= 5,
            l == (match lit {
                Some(i) => Some(i as int),
                None => None,
            }),
            old(sheet)@ + all == sheet@ + transport_row(boxes@, l, playing, ascent, i as int),
        decreases 5 - i,
    {
        let ghost before = sheet@;
        let ghost rest = transport_row(boxes@, l, playing, ascent, i as int);
        let ghost tail = transport_row(boxes@, l, playing, ascent, i + 1);
        let hovered: bool = match lit {
            Some(k) => k == i,
            None => false,
        };
        let face: (char, &'static str) = face_of(i, playing);
        draw_button(sheet, boxes[i], face.0, ascent, hovered, BtnState::Normal);
        proof {
            assert(before + rest =~= sheet@ + tail);
        }
        i += 1;
    }
    proof {
        assert(sheet@ + Seq::<Stroke>::empty() =~= sheet@);
    }
}

impl Session {
    /// Where a transport button is.
    fn transport_at(&self, i: u64) -> (r: Rect)
        requires
            self@.desk.divides(),
        ensures
            r == self@.desk.transport_box(i),
    {
        let row_w: Single = single(TRANSPORT_BTN_W).times(Single::from_u64(5)).plus(
            single(TRANSPORT_GAP).times(Single::from_u64(4)),
        );
        let row_x: Single = self.desk.media_pool_w().plus(
            self.desk.preview_w().minus(row_w).times(single(HALF_PT)),
        ).round();
        let bar_y: Single = self.desk.preview_h().plus(
            single(TRANSPORT_BAR_H).times(single(HALF_PT)),
        );
        plain(
            row_x.plus(
                Single::from_u64(i).times(single(TRANSPORT_BTN_W).plus(single(TRANSPORT_GAP))),
            ),
            bar_y.minus(single(TRANSPORT_BTN_H).times(single(HALF_PT))).round(),
        )
    }

    /// Draws the transport bar, the playhead at `t`.
    pub fn draw_transport_bar(&mut self, sheet: &mut Sheet, t: Double, a: &Ascents)
        requires
            old(self)@.desk.divides(),
        ensures
            final(self)@ == old(self)@.barred(),
            final(sheet)@ == old(sheet)@ + old(self)@.transport_bar(t, *a),
    {
        let boxes: [Rect; 5] = [
            self.transport_at(0),
            self.transport_at(1),
            self.transport_at(2),
            self.transport_at(3),
            self.transport_at(4),
        ];
        proof {
            assert(boxes =~= self@.transport_boxes());
        }
        let playing: bool = self.desk.clock.playing;
        let bar_y: Single = self.desk.preview_h().plus(
            single(TRANSPORT_BAR_H).times(single(HALF_PT)),
        );
        let now: String = format_timecode(t);
        let length: String = format_timecode(self.timeline.duration());
        sheet.text(
            Label {
                text: now.concat(" / ").concat(length.as_str()),
                size: single(TYPE_XL),
                color: paint(TIMER_COLOR),
                across: Across::Until(self.desk.width.minus(single(LABEL_PAD))),
                baseline: bar_y.plus(a.xl.times(single(HALF_PT))).round(),
                room: Room::Any,
                plated: false,
            },
        );
        let lit: Option<usize> = box_at(&boxes, self.desk.cursor);
        draw_transport_row(sheet, &boxes, lit, playing, a.icon);
        if let Some(i) = lit {
            let face: (char, &'static str) = face_of(i, playing);
            sheet.add_mark(
                Mark::Tip {
                    anchor: boxes[i],
                    text: face.1.to_owned(),
                    side: TooltipSide::Above,
                },
            );
        }
        proof {
            reveal(Sitting::transport_bar);
            assert(sheet@ =~= old(sheet)@ + old(self)@.transport_bar(t, *a));
            reveal(Sitting::barred);
        }
        self.place_buttons(Buttons { transport: boxes, ..self.desk.buttons });
    }
}

} // verus!
