//! What a frame is drawn from: rectangles, pictures and labels, back to front.
//!
//! A label is placed once its text was measured; until then it says how. Everything else
//! is in points already.

use crate::ieee::{single, Double, Single};
use crate::raster::Part;
use crate::theme::{
    paint, BTN_BG, BTN_BG_DISABLED, BTN_BG_HOVER, BTN_LABEL, BTN_LABEL_DISABLED, BTN_TOP_HIGHLIGHT,
    CLIP_LABEL_COLOR, CLIP_LABEL_PLATE_PAD_X, CLIP_LABEL_PLATE_PAD_Y, CLIP_SELECTED_BORDER, FOUR_PT,
    HALF_PT, LABEL_PAD, ONE_PT, POOL_DUR_BG, POOL_DUR_TEXT, THREE_PT, TOGGLE_OFF, TOGGLE_ON,
    TOGGLE_STRIP_W, TOOLTIP_BG, TOOLTIP_BORDER, TOOLTIP_GAP, TOOLTIP_LABEL, TOOLTIP_PAD_X,
    TOOLTIP_PAD_Y, TOOLTIP_SHADOW, TWO_PT, TYPE_ICON, TYPE_MD, TYPE_SM,
};
use crate::timeline::SourceId;
use crate::ui::{BtnState, Color, Rect, TooltipSide};
use vstd::prelude::*;

verus! {

/// Where a label starts, given how wide it came out.
#[derive(Clone, Copy, Debug, PartialEq)]
pub enum Across {
    /// At this position.
    From(Single),
    /// So that it ends at this position, on a whole point.
    Until(Single),
    /// In the middle of a stretch, on a whole point.
    Amid { x: Single, w: Single },
}

/// When a label is drawn, given how wide it came out.
#[derive(Clone, Copy, Debug, PartialEq)]
pub enum Room {
    /// Always.
    Any,
    /// Only where all of it lies between these positions.
    Within { lo: Single, hi: Single },
    /// Only where it fits this width with so much room on either side.
    Beside { pad: Single, w: Single },
    /// Only where anything of it is left once it is cut short to this width.
    Shorten(Single),
}

/// A line of text.
#[derive(Debug, PartialEq)]
pub struct Label {
    pub text: String,
    pub size: Single,
    pub color: Color,
    pub across: Across,
    pub baseline: Single,
    pub room: Room,
    /// Whether it stands on a plate.
    pub plated: bool,
}

/// What a line of text is.
#[verifier::ext_equal]
pub struct Caption {
    pub text: Seq<char>,
    pub size: Single,
    pub color: Color,
    pub across: Across,
    pub baseline: Single,
    pub room: Room,
    pub plated: bool,
}

impl View for Label {
    type V = Caption;

    open spec fn view(&self) -> Caption {
        Caption {
            text: self.text@,
            size: self.size,
            color: self.color,
            across: self.across,
            baseline: self.baseline,
            room: self.room,
            plated: self.plated,
        }
    }
}

impl Across {
    /// Where a label of this width starts.
    pub open spec fn start(self, width: Single) -> Single {
        match self {
            Across::From(x) => x,
            Across::Until(x) => x.minus(width).round(),
            Across::Amid { x, w } => x.plus(w.minus(width).times(single(HALF_PT))).round(),
        }
    }
}

impl Caption {
    /// Where the label starts, given what shows of its text and how wide that is; none where
    /// it is not drawn. A label of which nothing shows never is.
    pub open spec fn settled(self, shown: Seq<char>, width: Single) -> Option<Single> {
        let x = self.across.start(width);
        let drawn = match self.room {
            Room::Any => true,
            Room::Within { lo, hi } => lo.le(x) && x.plus(width).le(hi),
            Room::Beside { pad, w } => width.plus(pad.times(single(TWO_PT))).le(w),
            Room::Shorten(_) => true,
        };
        if drawn && shown.len() > 0 {
            Some(x)
        } else {
            None
        }
    }
}

impl Label {
    /// Where the label starts, given what shows of its text and how wide that is; none where
    /// it is not drawn.
    pub fn settle(&self, shown: &str, width: Single) -> (r: Option<Single>)
        ensures
            r == self@.settled(shown@, width),
    {
        let x: Single = match self.across {
            Across::From(x) => x,
            Across::Until(x) => x.minus(width).round(),
            Across::Amid { x, w } => x.plus(w.minus(width).times(single(HALF_PT))).round(),
        };
        let drawn: bool = match self.room {
            Room::Any => true,
            Room::Within { lo, hi } => lo.le(x) && x.plus(width).le(hi),
            Room::Beside { pad, w } => width.plus(pad.times(single(TWO_PT))).le(w),
            Room::Shorten(_) => true,
        };
        if drawn && !shown.is_empty() {
            Some(x)
        } else {
            None
        }
    }
}

/// The plate behind a label.
pub fn plate(x: Single, baseline: Single, width: Single, ascent: Single, descent: Single) -> (r:
    Rect)
    ensures
        r == (Rect {
            x: x.minus(single(CLIP_LABEL_PLATE_PAD_X)).round(),
            y: baseline.minus(ascent).minus(single(CLIP_LABEL_PLATE_PAD_Y)).round(),
            w: width.plus(single(CLIP_LABEL_PLATE_PAD_X).times(single(TWO_PT))).round(),
            h: ascent.plus(descent).plus(
                single(CLIP_LABEL_PLATE_PAD_Y).times(single(TWO_PT)),
            ).round(),
        }),
{
    Rect {
        x: x.minus(single(CLIP_LABEL_PLATE_PAD_X)).round(),
        y: baseline.minus(ascent).minus(single(CLIP_LABEL_PLATE_PAD_Y)).round(),
        w: width.plus(single(CLIP_LABEL_PLATE_PAD_X).times(single(TWO_PT))).round(),
        h: ascent.plus(descent).plus(
            single(CLIP_LABEL_PLATE_PAD_Y).times(single(TWO_PT)),
        ).round(),
    }
}

/// One thing to draw.
#[derive(Debug, PartialEq)]
pub enum Mark {
    Fill { rect: Rect, color: Color },
    /// From here on nothing shows outside these positions.
    Clip { left: Single, right: Single },
    /// From here on everything shows.
    Unclip,
    /// A part of a source's picture at a time, so much of it showing.
    Picture { rect: Rect, part: Part, source: SourceId, at: Double, alpha: Single },
    /// The thumbnail of a source, in the middle of a slot.
    Thumb { slot: Rect, source: SourceId },
    Text(Label),
    /// A text on a chip whose lower right corner is here.
    Pill { right: Single, bottom: Single, text: String },
    /// A tooltip of a control.
    Tip { anchor: Rect, text: String, side: TooltipSide },
}

/// What a thing to draw is.
pub enum Stroke {
    Fill { rect: Rect, color: Color },
    Clip { left: Single, right: Single },
    Unclip,
    Picture { rect: Rect, part: Part, source: SourceId, at: Double, alpha: Single },
    Thumb { slot: Rect, source: SourceId },
    Text(Caption),
    Pill { right: Single, bottom: Single, text: Seq<char> },
    Tip { anchor: Rect, text: Seq<char>, side: TooltipSide },
}

impl View for Mark {
    type V = Stroke;

    open spec fn view(&self) -> Stroke {
        match *self {
            Mark::Fill { rect, color } => Stroke::Fill { rect, color },
            Mark::Clip { left, right } => Stroke::Clip { left, right },
            Mark::Unclip => Stroke::Unclip,
            Mark::Picture { rect, part, source, at, alpha } => Stroke::Picture {
                rect,
                part,
                source,
                at,
                alpha,
            },
            Mark::Thumb { slot, source } => Stroke::Thumb { slot, source },
            Mark::Text(l) => Stroke::Text(l@),
            Mark::Pill { right, bottom, text } => Stroke::Pill { right, bottom, text: text@ },
            Mark::Tip { anchor, text, side } => Stroke::Tip { anchor, text: text@, side },
        }
    }
}

/// What is to be drawn, back to front.
pub struct Sheet {
    pub marks: Vec<Mark>,
}

impl View for Sheet {
    type V = Seq<Stroke>;

    open spec fn view(&self) -> Seq<Stroke> {
        Seq::new(self.marks@.len(), |i: int| self.marks@[i]@)
    }
}

/// A filled rectangle.
pub open spec fn filled(x: Single, y: Single, w: Single, h: Single, color: Color) -> Stroke {
    Stroke::Fill { rect: Rect { x, y, w, h }, color }
}

impl Sheet {
    /// Nothing to draw.
    pub fn new() -> (r: Sheet)
        ensures
            r@ == Seq::<Stroke>::empty(),
    {
        let r: Sheet = Sheet { marks: Vec::new() };
        proof {
            assert(r@ =~= Seq::empty());
        }
        r
    }

    /// Adds one thing on top.
    pub fn add_mark(&mut self, m: Mark)
        ensures
            final(self)@ == old(self)@.push(m@),
    {
        self.marks.push(m);
        proof {
            assert(self@ =~= old(self)@.push(m@));
        }
    }

    /// Adds a filled rectangle on top.
    pub fn fill(&mut self, x: Single, y: Single, w: Single, h: Single, color: Color)
        ensures
            final(self)@ == old(self)@.push(filled(x, y, w, h, color)),
    {
        self.add_mark(Mark::Fill { rect: Rect { x, y, w, h }, color });
    }

    /// Adds a label on top.
    pub fn text(&mut self, l: Label)
        ensures
            final(self)@ == old(self)@.push(Stroke::Text(l@)),
    {
        self.add_mark(Mark::Text(l));
    }
}

/// A button: its fill, a lit edge where it can be pressed, a strip where it is a setting,
/// its icon in the middle.
pub open spec fn button(
    rect: Rect,
    icon: char,
    ascent: Single,
    hovered: bool,
    state: BtnState,
) -> Seq<Stroke> {
    let disabled = state == BtnState::Disabled;
    let body = seq![
        Stroke::Fill {
            rect,
            color: if disabled {
                paint(BTN_BG_DISABLED)
            } else if hovered {
                paint(BTN_BG_HOVER)
            } else {
                paint(BTN_BG)
            },
        },
    ];
    let edge = if disabled {
        Seq::<Stroke>::empty()
    } else {
        seq![filled(rect.x, rect.y, rect.w, single(ONE_PT), paint(BTN_TOP_HIGHLIGHT))]
    };
    let strip = match state {
        BtnState::Toggle(on) => seq![
            filled(
                rect.x,
                rect.y,
                single(TOGGLE_STRIP_W),
                rect.h,
                if on {
                    paint(TOGGLE_ON)
                } else {
                    paint(TOGGLE_OFF)
                },
            ),
        ],
        _ => Seq::<Stroke>::empty(),
    };
    let face = seq![
        Stroke::Text(
            Caption {
                text: seq![icon],
                size: single(TYPE_ICON),
                color: if disabled {
                    paint(BTN_LABEL_DISABLED)
                } else {
                    paint(BTN_LABEL)
                },
                across: Across::Amid { x: rect.x, w: rect.w },
                baseline: rect.y.plus(rect.h.plus(ascent).times(single(HALF_PT))).round(),
                room: Room::Any,
                plated: false,
            },
        ),
    ];
    body + edge + strip + face
}

/// A text of one character.
pub fn icon_text(icon: char) -> (r: String)
    ensures
        r@ == seq![icon],
{
    let mut s: String = String::new();
    s.push(icon);
    proof {
        assert(s@ =~= seq![icon]);
    }
    s
}

/// Draws a button.
pub fn draw_button(
    sheet: &mut Sheet,
    rect: Rect,
    icon: char,
    ascent: Single,
    hovered: bool,
    state: BtnState,
)
    ensures
        final(sheet)@ == old(sheet)@ + button(rect, icon, ascent, hovered, state),
{
    let disabled: bool = match state {
        BtnState::Disabled => true,
        _ => false,
    };
    let bg: Color = if disabled {
        paint(BTN_BG_DISABLED)
    } else if hovered {
        paint(BTN_BG_HOVER)
    } else {
        paint(BTN_BG)
    };
    sheet.fill(rect.x, rect.y, rect.w, rect.h, bg);
    if !disabled {
        sheet.fill(rect.x, rect.y, rect.w, single(ONE_PT), paint(BTN_TOP_HIGHLIGHT));
    }
    if let BtnState::Toggle(on) = state {
        let color: Color = if on {
            paint(TOGGLE_ON)
        } else {
            paint(TOGGLE_OFF)
        };
        sheet.fill(rect.x, rect.y, single(TOGGLE_STRIP_W), rect.h, color);
    }
    sheet.text(
        Label {
            text: icon_text(icon),
            size: single(TYPE_ICON),
            color: if disabled {
                paint(BTN_LABEL_DISABLED)
            } else {
                paint(BTN_LABEL)
            },
            across: Across::Amid { x: rect.x, w: rect.w },
            baseline: rect.y.plus(rect.h.plus(ascent).times(single(HALF_PT))).round(),
            room: Room::Any,
            plated: false,
        },
    );
    proof {
        assert(sheet@ =~= old(sheet)@ + button(rect, icon, ascent, hovered, state));
    }
}

/// The ring of a soft shadow `g` points out.
pub open spec fn ring(x: Single, y: Single, w: Single, h: Single, g: Single, color: Color) -> Stroke {
    filled(
        x.minus(g),
        y.minus(g).plus(single(ONE_PT)),
        w.plus(g.times(single(TWO_PT))),
        h.plus(g.times(single(TWO_PT))),
        color,
    )
}

/// A chip that floats: three rings of shadow, a border, a fill.
pub open spec fn chip(
    x: Single,
    y: Single,
    w: Single,
    h: Single,
    shadow: Color,
    border: Color,
    bg: Color,
) -> Seq<Stroke> {
    let one = single(ONE_PT);
    seq![
        ring(x, y, w, h, single(THREE_PT), shadow),
        ring(x, y, w, h, single(TWO_PT), shadow),
        ring(x, y, w, h, one, shadow),
        filled(
            x.minus(one),
            y.minus(one),
            w.plus(single(TWO_PT)),
            h.plus(single(TWO_PT)),
            border,
        ),
        filled(x, y, w, h, bg),
    ]
}

/// Draws one ring of a shadow.
fn draw_ring(sheet: &mut Sheet, r: Rect, g: Single, color: Color)
    ensures
        final(sheet)@ == old(sheet)@.push(ring(r.x, r.y, r.w, r.h, g, color)),
{
    sheet.fill(
        r.x.minus(g),
        r.y.minus(g).plus(single(ONE_PT)),
        r.w.plus(g.times(single(TWO_PT))),
        r.h.plus(g.times(single(TWO_PT))),
        color,
    );
}

/// Draws a chip that floats.
pub fn draw_chip(sheet: &mut Sheet, r: Rect, shadow: Color, border: Color, bg: Color)
    ensures
        final(sheet)@ == old(sheet)@ + chip(r.x, r.y, r.w, r.h, shadow, border, bg),
{
    let one: Single = single(ONE_PT);
    draw_ring(sheet, r, single(THREE_PT), shadow);
    draw_ring(sheet, r, single(TWO_PT), shadow);
    draw_ring(sheet, r, one, shadow);
    sheet.fill(
        r.x.minus(one),
        r.y.minus(one),
        r.w.plus(single(TWO_PT)),
        r.h.plus(single(TWO_PT)),
        border,
    );
    sheet.fill(r.x, r.y, r.w, r.h, bg);
    proof {
        assert(sheet@ =~= old(sheet)@ + chip(r.x, r.y, r.w, r.h, shadow, border, bg));
    }
}

/// Where the chip of a tooltip is: in the middle of its control, above or below it.
pub open spec fn tip_box(anchor: Rect, side: TooltipSide, width: Single, ascent: Single) -> Rect {
    let w = width.plus(single(TOOLTIP_PAD_X).times(single(TWO_PT)));
    let h = ascent.plus(single(TOOLTIP_PAD_Y).times(single(TWO_PT)));
    Rect {
        x: anchor.x.plus(anchor.w.minus(w).times(single(HALF_PT))).round(),
        y: match side {
            TooltipSide::Above => anchor.y.minus(h).minus(single(TOOLTIP_GAP)).round(),
            TooltipSide::Below => anchor.y.plus(anchor.h).plus(single(TOOLTIP_GAP)).round(),
        },
        w,
        h,
    }
}

/// A tooltip whose words came out this wide.
pub open spec fn tooltip(
    anchor: Rect,
    text: Seq<char>,
    side: TooltipSide,
    width: Single,
    ascent: Single,
) -> Seq<Stroke> {
    let b = tip_box(anchor, side, width, ascent);
    chip(
        b.x,
        b.y,
        b.w,
        b.h,
        paint(TOOLTIP_SHADOW),
        paint(TOOLTIP_BORDER),
        paint(TOOLTIP_BG),
    ).push(
        Stroke::Text(
            Caption {
                text,
                size: single(TYPE_SM),
                color: paint(TOOLTIP_LABEL),
                across: Across::From(b.x.plus(single(TOOLTIP_PAD_X))),
                baseline: b.y.plus(single(TOOLTIP_PAD_Y)).plus(ascent),
                room: Room::Any,
                plated: false,
            },
        ),
    )
}

/// Draws a tooltip whose words came out this wide.
pub fn draw_tooltip(
    sheet: &mut Sheet,
    anchor: Rect,
    text: &str,
    side: TooltipSide,
    width: Single,
    ascent: Single,
)
    ensures
        final(sheet)@ == old(sheet)@ + tooltip(anchor, text@, side, width, ascent),
{
    let w: Single = width.plus(single(TOOLTIP_PAD_X).times(single(TWO_PT)));
    let h: Single = ascent.plus(single(TOOLTIP_PAD_Y).times(single(TWO_PT)));
    let x: Single = anchor.x.plus(anchor.w.minus(w).times(single(HALF_PT))).round();
    let y: Single = match side {
        TooltipSide::Above => anchor.y.minus(h).minus(single(TOOLTIP_GAP)).round(),
        TooltipSide::Below => anchor.y.plus(anchor.h).plus(single(TOOLTIP_GAP)).round(),
    };
    draw_chip(
        sheet,
        Rect { x, y, w, h },
        paint(TOOLTIP_SHADOW),
        paint(TOOLTIP_BORDER),
        paint(TOOLTIP_BG),
    );
    sheet.text(
        Label {
            text: text.to_owned(),
            size: single(TYPE_SM),
            color: paint(TOOLTIP_LABEL),
            across: Across::From(x.plus(single(TOOLTIP_PAD_X))),
            baseline: y.plus(single(TOOLTIP_PAD_Y)).plus(ascent),
            room: Room::Any,
            plated: false,
        },
    );
    proof {
        assert(sheet@ =~= old(sheet)@ + tooltip(anchor, text@, side, width, ascent));
    }
}

/// A text on a chip whose lower right corner is at a point, the text this wide.
pub open spec fn pill(
    right: Single,
    bottom: Single,
    text: Seq<char>,
    width: Single,
    ascent: Single,
) -> Seq<Stroke> {
    let w = width.plus(single(FOUR_PT).times(single(TWO_PT)));
    let h = ascent.plus(single(TWO_PT).times(single(TWO_PT)));
    let x = right.minus(w);
    let y = bottom.minus(h);
    seq![
        filled(x, y, w, h, paint(POOL_DUR_BG)),
        Stroke::Text(
            Caption {
                text,
                size: single(TYPE_SM),
                color: paint(POOL_DUR_TEXT),
                across: Across::From(x.plus(single(FOUR_PT))),
                baseline: y.plus(single(TWO_PT)).plus(ascent),
                room: Room::Any,
                plated: false,
            },
        ),
    ]
}

/// Draws a text on a chip whose lower right corner is at a point, the text this wide.
pub fn draw_pill(
    sheet: &mut Sheet,
    right: Single,
    bottom: Single,
    text: &str,
    width: Single,
    ascent: Single,
)
    ensures
        final(sheet)@ == old(sheet)@ + pill(right, bottom, text@, width, ascent),
{
    let w: Single = width.plus(single(FOUR_PT).times(single(TWO_PT)));
    let h: Single = ascent.plus(single(TWO_PT).times(single(TWO_PT)));
    let x: Single = right.minus(w);
    let y: Single = bottom.minus(h);
    sheet.fill(x, y, w, h, paint(POOL_DUR_BG));
    sheet.text(
        Label {
            text: text.to_owned(),
            size: single(TYPE_SM),
            color: paint(POOL_DUR_TEXT),
            across: Across::From(x.plus(single(FOUR_PT))),
            baseline: y.plus(single(TWO_PT)).plus(ascent),
            room: Room::Any,
            plated: false,
        },
    );
    proof {
        assert(sheet@ =~= old(sheet)@ + pill(right, bottom, text@, width, ascent));
    }
}

/// A row of a menu: lit where it is hovered, its text in the middle of its height.
pub open spec fn menu_row(
    r: Rect,
    text: Seq<char>,
    hovered: bool,
    chosen: bool,
    ascent: Single,
) -> Seq<Stroke> {
    (if hovered {
        seq![filled(r.x, r.y, r.w, r.h, paint(BTN_BG_HOVER))]
    } else {
        Seq::empty()
    }) + seq![
        Stroke::Text(
            Caption {
                text,
                size: single(TYPE_MD),
                color: paint(
                    if chosen {
                        CLIP_SELECTED_BORDER
                    } else {
                        CLIP_LABEL_COLOR
                    },
                ),
                across: Across::From(r.x.plus(single(LABEL_PAD)).round()),
                baseline: r.y.plus(r.h.plus(ascent).times(single(HALF_PT))).round(),
                room: Room::Any,
                plated: false,
            },
        ),
    ]
}

/// Draws a row of a menu. `ascent` is that of its text.
pub fn draw_menu_row(
    sheet: &mut Sheet,
    r: Rect,
    text: &str,
    hovered: bool,
    chosen: bool,
    ascent: Single,
)
    ensures
        final(sheet)@ == old(sheet)@ + menu_row(r, text@, hovered, chosen, ascent),
{
    if hovered {
        sheet.fill(r.x, r.y, r.w, r.h, paint(BTN_BG_HOVER));
    }
    sheet.text(
        Label {
            text: text.to_owned(),
            size: single(TYPE_MD),
            color: paint(
                if chosen {
                    CLIP_SELECTED_BORDER
                } else {
                    CLIP_LABEL_COLOR
                },
            ),
            across: Across::From(r.x.plus(single(LABEL_PAD)).round()),
            baseline: r.y.plus(r.h.plus(ascent).times(single(HALF_PT))).round(),
            room: Room::Any,
            plated: false,
        },
    );
    proof {
        assert(sheet@ =~= old(sheet)@ + menu_row(r, text@, hovered, chosen, ascent));
    }
}

} // verus!
