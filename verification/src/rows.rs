//! Drawing the rows of the media pool.

use crate::edit::Point;
use crate::fmt::{decimal, decimal_of, fmt_fps, format_timecode, rate_text, timecode};
use crate::ieee::{single, Single};
use crate::lane::{tallest, tallest_of};
use crate::layout::pool_row_close_rect;
use crate::media::{Item, MediaPool, Pool, Source};
use crate::panel::Ascents;
use crate::scene::{filled, icon_text, Across, Caption, Label, Mark, Room, Sheet, Stroke};
use crate::session::{Session, Sitting};
use crate::sound::{peaks_for, wave_for, Waveform};
use crate::theme::{
    paint, AUDIO_WAVE_COLOR, CLIP_LABEL_COLOR, FOUR_PT, HALF_PT, ICON_CLOSE, LABEL_PAD, ONE_PT,
    POOL_CLOSE_BG, POOL_CLOSE_BG_HOVER, POOL_CLOSE_GLYPH_COLOR, LABEL_COLOR,
    POOL_ITEM_META_GAP, POOL_LIST_TOP, POOL_ROW_COLOR, POOL_ROW_GAP, POOL_ROW_HEIGHT, POOL_ROW_PAD,
    POOL_THUMB_BG, POOL_THUMB_H, POOL_THUMB_W, POOL_WAVE_REACH, THREE_PT, TWO_PT, TYPE_LG, TYPE_MD,
    TYPE_SM,
};
use crate::timeline::SourceId;
use crate::ui::{Color, Rect};
use vstd::prelude::*;
use vstd::string::StringExecFns;

verus! {

/// The peaks that a column of a summary stands for: from where, to where.
pub open spec fn summary_span(n: int, cols: int, col: int) -> (int, int) {
    let from = n * col / cols;
    let end = n * (col + 1) / cols;
    let least = if end > from {
        end
    } else {
        from + 1
    };
    (
        from,
        if least < n {
            least
        } else {
            n
        },
    )
}

/// One column of a summary.
pub open spec fn summary_column(peak: Single, b: Rect, col: int) -> Stroke {
    let mid = b.y.plus(b.h.times(single(HALF_PT)));
    let most = b.h.times(single(POOL_WAVE_REACH)).max(single(ONE_PT));
    let half = peak.times(most).max(single(HALF_PT));
    filled(
        b.x.plus(Single::from_i64(col as i64)),
        mid.minus(half),
        single(ONE_PT),
        half.times(single(TWO_PT)),
        paint(AUDIO_WAVE_COLOR),
    )
}

/// The columns of a summary from `col` on.
pub open spec fn summary_columns(peaks: Seq<Single>, b: Rect, cols: int, col: int) -> Seq<Stroke>
    decreases cols - col,
{
    if col >= cols {
        Seq::empty()
    } else {
        let (from, to) = summary_span(peaks.len() as int, cols, col);
        seq![summary_column(tallest(peaks.subrange(from, to)), b, col)] + summary_columns(
            peaks,
            b,
            cols,
            col + 1,
        )
    }
}

/// A whole source's waveform in a box, a column to a point.
#[verifier::opaque]
pub open spec fn summary(peaks: Seq<Single>, b: Rect) -> Seq<Stroke> {
    if peaks.len() == 0 || b.w.lt(single(ONE_PT)) {
        Seq::empty()
    } else {
        summary_columns(peaks, b, b.w.to_i32() as int, 0)
    }
}

/// The span of a column lies inside the peaks and holds one.
proof fn lemma_summary_span(n: int, cols: int, col: int)
    requires
        0 < n,
        0 <= col < cols,
    ensures
        0 <= n * col / cols < n,
        0 <= n * (col + 1) / cols <= n,
        0 <= summary_span(n, cols, col).0 < summary_span(n, cols, col).1 <= n,
{
    assert(0 <= n * col) by (nonlinear_arith)
        requires
            0 < n,
            0 <= col,
    ;
    assert(n * col < cols * n) by (nonlinear_arith)
        requires
            0 < n,
            0 <= col < cols,
    ;
    assert(0 <= n * col / cols < n) by (nonlinear_arith)
        requires
            0 <= n * col < cols * n,
            0 < cols,
    ;
    assert(0 <= n * (col + 1) <= cols * n) by (nonlinear_arith)
        requires
            0 < n,
            0 <= col < cols,
    ;
    assert(0 <= n * (col + 1) / cols <= n) by (nonlinear_arith)
        requires
            0 <= n * (col + 1) <= cols * n,
            0 < cols,
    ;
}

/// A share of a count, rounded down.
fn part_of(n: usize, k: usize, of: usize) -> (r: usize)
    requires
        0 <= k <= of,
        0 < of,
    ensures
        r == n as int * k as int / of as int,
{
    proof {
        assert(n as int * k as int <= n as int * of as int) by (nonlinear_arith)
            requires
                0 <= k <= of,
                0 <= n,
        ;
        assert(n as int * of as int <= usize::MAX as int * usize::MAX as int) by (nonlinear_arith)
            requires
                0 <= n <= usize::MAX,
                0 <= of <= usize::MAX,
        ;
        assert(usize::MAX as int * usize::MAX as int <= u128::MAX as int) by (nonlinear_arith)
            requires
                0 <= usize::MAX <= u64::MAX,
        ;
        assert(0 <= n as int * k as int / of as int <= n as int) by (nonlinear_arith)
            requires
                0 <= n as int * k as int <= n as int * of as int,
                0 < of,
                0 <= n,
                0 <= k,
        ;
        assert(0 <= n as int * k as int) by (nonlinear_arith)
            requires
                0 <= n,
                0 <= k,
        ;
    }
    ((n as u128 * k as u128) / of as u128) as usize
}

/// Draws a whole source's waveform in a box, a column to a point.
pub fn draw_waveform_summary(sheet: &mut Sheet, wf: &Waveform, b: Rect)
    ensures
        final(sheet)@ == old(sheet)@ + summary(wf.peaks@, b),
{
    proof {
        reveal(summary);
    }
    if wf.peaks.len() == 0 || b.w.lt(single(ONE_PT)) {
        proof {
            assert(sheet@ =~= old(sheet)@ + Seq::<Stroke>::empty());
        }
        return;
    }
    let mid: Single = b.y.plus(b.h.times(single(HALF_PT)));
    let most: Single = b.h.times(single(POOL_WAVE_REACH)).max(single(ONE_PT));
    let cols: i32 = b.w.to_i32();
    let n: usize = wf.peaks.len();
    let ghost all = summary_columns(wf.peaks@, b, cols as int, 0);
    let mut col: i32 = 0;
    while col < cols
        invariant
            0 <= col,
            n == wf.peaks.len(),
            0 < n,
            mid == b.y.plus(b.h.times(single(HALF_PT))),
            most == b.h.times(single(POOL_WAVE_REACH)).max(single(ONE_PT)),
            old(sheet)@ + all == sheet@ + summary_columns(wf.peaks@, b, cols as int, col as int),
        decreases cols - col,
    {
        let ghost before = sheet@;
        let ghost rest = summary_columns(wf.peaks@, b, cols as int, col as int);
        let ghost tail = summary_columns(wf.peaks@, b, cols as int, col + 1);
        proof {
            lemma_summary_span(n as int, cols as int, col as int);
        }
        let from: usize = part_of(n, col as usize, cols as usize);
        let end: usize = part_of(n, (col + 1) as usize, cols as usize);
        let least: usize = if end > from {
            end
        } else {
            from + 1
        };
        let to: usize = if least < n {
            least
        } else {
            n
        };
        let peak: Single = tallest_of(&wf.peaks, from, to);
        let half: Single = peak.times(most).max(single(HALF_PT));
        sheet.fill(
            b.x.plus(Single::from_i64(col as i64)),
            mid.minus(half),
            single(ONE_PT),
            half.times(single(TWO_PT)),
            paint(AUDIO_WAVE_COLOR),
        );
        proof {
            assert(before + rest =~= sheet@ + tail);
        }
        col += 1;
    }
    proof {
        assert(sheet@ + Seq::<Stroke>::empty() =~= sheet@);
    }
}

/// Where a thumbnail of this size goes in a slot: as large as fits, in the middle, on
/// whole points.
pub open spec fn thumb_place(slot: Rect, w: u32, h: u32) -> Rect {
    let (tw, th) = (Single::from_u64(w as u64), Single::from_u64(h as u64));
    let s = slot.w.over(tw).min(slot.h.over(th));
    let dw = tw.times(s).round();
    let dh = th.times(s).round();
    Rect {
        x: slot.x.plus(slot.w.minus(dw).times(single(HALF_PT))).round(),
        y: slot.y.plus(slot.h.minus(dh).times(single(HALF_PT))).round(),
        w: dw,
        h: dh,
    }
}

/// Where a thumbnail of this size goes in a slot.
pub fn thumb_rect(slot: Rect, w: u32, h: u32) -> (r: Rect)
    ensures
        r == thumb_place(slot, w, h),
{
    let (tw, th): (Single, Single) = (Single::from_u64(w as u64), Single::from_u64(h as u64));
    let s: Single = slot.w.over(tw).min(slot.h.over(th));
    let dw: Single = tw.times(s).round();
    let dh: Single = th.times(s).round();
    Rect {
        x: slot.x.plus(slot.w.minus(dw).times(single(HALF_PT))).round(),
        y: slot.y.plus(slot.h.minus(dh).times(single(HALF_PT))).round(),
        w: dw,
        h: dh,
    }
}

/// What a row says of a file beside what the pool knows: its frame rate to three
/// decimals, its sample rate, its channels.
pub struct FileNote {
    pub decimals: String,
    pub sample_rate: u32,
    pub channels: u32,
}

/// How channels are written.
pub open spec fn channel_words(n: u32) -> Seq<char> {
    if n == 1 {
        "mono"@
    } else if n == 2 {
        "stereo"@
    } else {
        decimal_of(n as nat) + " ch"@
    }
}

/// The format of a source: its picture's, else its sound's; nothing where it has neither.
pub open spec fn format_line(item: Item, decimals: Seq<char>, rate: u32, channels: u32) -> Seq<char> {
    match (item.video, item.audio) {
        (Some(v), _) => decimal_of(v.width as nat) + "x"@ + decimal_of(v.height as nat) + " @ "@
            + rate_text(v.frame_rate, decimals) + " fps"@,
        (None, Some(_)) => decimal_of(rate as nat) + " Hz "@ + channel_words(channels),
        (None, None) => Seq::empty(),
    }
}

/// The format of a source.
pub fn describe(s: &Source, note: &FileNote) -> (r: String)
    ensures
        r@ == format_line(s@, note.decimals@, note.sample_rate, note.channels),
{
    match (&s.video, &s.audio) {
        (Some(v), _) => {
            let w: String = decimal(v.width as u64);
            let h: String = decimal(v.height as u64);
            let fps: String = fmt_fps(v.frame_rate, note.decimals.as_str());
            let r: String = w.concat("x").concat(h.as_str()).concat(" @ ").concat(
                fps.as_str(),
            ).concat(" fps");
            r
        },
        (None, Some(_)) => {
            let channels: String = if note.channels == 1 {
                "mono".to_owned()
            } else if note.channels == 2 {
                "stereo".to_owned()
            } else {
                decimal(note.channels as u64).concat(" ch")
            };
            decimal(note.sample_rate as u64).concat(" Hz ").concat(channels.as_str())
        },
        (None, None) => {
            let r: String = String::new();
            proof {
                assert(r@ =~= Seq::empty());
            }
            r
        },
    }
}

/// What every row is drawn from: how wide it is, where the cursor is, the type, and how
/// high the closing glyph reaches and starts.
#[derive(Clone, Copy)]
pub struct RowView {
    pub w: Single,
    pub cursor: Point,
    pub ascents: Ascents,
    pub glyph_h: Single,
    pub glyph_ymin: Single,
}

/// The slot of a row's thumbnail.
pub open spec fn slot_of(y: Single) -> Rect {
    Rect {
        x: single(LABEL_PAD).plus(single(POOL_ROW_PAD)),
        y: y.plus(single(POOL_ROW_PAD)),
        w: single(POOL_THUMB_W),
        h: single(POOL_THUMB_H),
    }
}

/// The left of a row: its ground, its thumbnail or its sound, its length.
#[verifier::opaque]
pub open spec fn row_picture(v: RowView, y: Single, id: SourceId, item: Item, peaks: Seq<Single>) -> Seq<
    Stroke,
> {
    let slot = slot_of(y);
    seq![
        filled(single(LABEL_PAD), y, v.w, single(POOL_ROW_HEIGHT), paint(POOL_ROW_COLOR)),
        Stroke::Fill { rect: slot, color: paint(POOL_THUMB_BG) },
    ] + (if item.video is Some {
        seq![Stroke::Thumb { slot, source: id }]
    } else {
        summary(peaks, slot)
    }) + seq![
        Stroke::Pill {
            right: slot.x.plus(slot.w).minus(single(THREE_PT)),
            bottom: slot.y.plus(slot.h).minus(single(THREE_PT)),
            text: timecode(item.length()),
        },
    ]
}

/// Draws the left of a row.
fn draw_row_picture(
    sheet: &mut Sheet,
    v: &RowView,
    y: Single,
    id: SourceId,
    media: &MediaPool,
    wf: &Waveform,
)
    requires
        media@.has(id),
    ensures
        final(sheet)@ == old(sheet)@ + row_picture(*v, y, id, media@.item(id), wf.peaks@),
{
    proof {
        reveal(row_picture);
    }
    let slot: Rect = Rect {
        x: single(LABEL_PAD).plus(single(POOL_ROW_PAD)),
        y: y.plus(single(POOL_ROW_PAD)),
        w: single(POOL_THUMB_W),
        h: single(POOL_THUMB_H),
    };
    sheet.fill(single(LABEL_PAD), y, v.w, single(POOL_ROW_HEIGHT), paint(POOL_ROW_COLOR));
    sheet.add_mark(Mark::Fill { rect: slot, color: paint(POOL_THUMB_BG) });
    let filmed: bool = match media.get(id) {
        Some(s) => s.video.is_some(),
        None => false,
    };
    if filmed {
        sheet.add_mark(Mark::Thumb { slot, source: id });
    } else {
        draw_waveform_summary(sheet, wf, slot);
    }
    sheet.add_mark(
        Mark::Pill {
            right: slot.x.plus(slot.w).minus(single(THREE_PT)),
            bottom: slot.y.plus(slot.h).minus(single(THREE_PT)),
            text: format_timecode(media.duration(id)),
        },
    );
    proof {
        assert(sheet@ =~= old(sheet)@ + row_picture(*v, y, id, media@.item(id), wf.peaks@));
    }
}

/// A line of a row.
pub open spec fn row_line(
    text: Seq<char>,
    size: Single,
    color: Color,
    x: Single,
    baseline: Single,
    room: Single,
) -> Stroke {
    Stroke::Text(
        Caption {
            text,
            size,
            color,
            across: Across::From(x),
            baseline,
            room: Room::Shorten(room),
            plated: false,
        },
    )
}

/// The words of a row: its name over its format, the pair in the middle.
#[verifier::opaque]
pub open spec fn row_words(v: RowView, y: Single, name: Seq<char>, meta: Seq<char>) -> Seq<Stroke> {
    let slot = slot_of(y);
    let x = slot.x.plus(slot.w).plus(single(POOL_ROW_PAD)).plus(single(FOUR_PT));
    let room = single(LABEL_PAD).plus(v.w).minus(single(POOL_ROW_PAD)).minus(x).max(single(0));
    let block = v.ascents.md.plus(single(POOL_ITEM_META_GAP)).plus(v.ascents.sm);
    let first = y.plus(
        single(POOL_ROW_HEIGHT).minus(block).times(single(HALF_PT)),
    ).plus(v.ascents.md).round();
    let second = first.plus(single(POOL_ITEM_META_GAP)).plus(v.ascents.sm);
    seq![
        row_line(name, single(TYPE_MD), paint(CLIP_LABEL_COLOR), x, first, room),
        row_line(meta, single(TYPE_SM), paint(LABEL_COLOR), x, second, room),
    ]
}

/// Draws the words of a row.
fn draw_row_words(sheet: &mut Sheet, v: &RowView, y: Single, name: String, meta: String)
    ensures
        final(sheet)@ == old(sheet)@ + row_words(*v, y, name@, meta@),
{
    proof {
        reveal(row_words);
    }
    let slot_x: Single = single(LABEL_PAD).plus(single(POOL_ROW_PAD));
    let x: Single = slot_x.plus(single(POOL_THUMB_W)).plus(single(POOL_ROW_PAD)).plus(
        single(FOUR_PT),
    );
    let room: Single = single(LABEL_PAD).plus(v.w).minus(single(POOL_ROW_PAD)).minus(x).max(
        single(0),
    );
    let block: Single = v.ascents.md.plus(single(POOL_ITEM_META_GAP)).plus(v.ascents.sm);
    let first: Single = y.plus(
        single(POOL_ROW_HEIGHT).minus(block).times(single(HALF_PT)),
    ).plus(v.ascents.md).round();
    let second: Single = first.plus(single(POOL_ITEM_META_GAP)).plus(v.ascents.sm);
    let ghost (n, m) = (name@, meta@);
    sheet.text(
        Label {
            text: name,
            size: single(TYPE_MD),
            color: paint(CLIP_LABEL_COLOR),
            across: Across::From(x),
            baseline: first,
            room: Room::Shorten(room),
            plated: false,
        },
    );
    sheet.text(
        Label {
            text: meta,
            size: single(TYPE_SM),
            color: paint(LABEL_COLOR),
            across: Across::From(x),
            baseline: second,
            room: Room::Shorten(room),
            plated: false,
        },
    );
    proof {
        assert(sheet@ =~= old(sheet)@ + row_words(*v, y, n, m));
    }
}

/// The closing button of the row under the cursor.
#[verifier::opaque]
pub open spec fn row_close(v: RowView, y: Single) -> Seq<Stroke> {
    let left = single(LABEL_PAD);
    let on = left.le(v.cursor.x) && v.cursor.x.le(left.plus(v.w)) && y.le(v.cursor.y)
        && v.cursor.y.le(y.plus(single(POOL_ROW_HEIGHT)));
    if on {
        let b = pool_row_close_rect(left, y, v.w);
        seq![
            Stroke::Fill {
                rect: b,
                color: if b.contains(v.cursor.x, v.cursor.y) {
                    paint(POOL_CLOSE_BG_HOVER)
                } else {
                    paint(POOL_CLOSE_BG)
                },
            },
            Stroke::Text(
                Caption {
                    text: seq![ICON_CLOSE],
                    size: single(TYPE_LG),
                    color: paint(POOL_CLOSE_GLYPH_COLOR),
                    across: Across::Amid { x: b.x, w: b.w },
                    baseline: b.y.plus(b.h.plus(v.glyph_h).times(single(HALF_PT))).plus(
                        v.glyph_ymin,
                    ).round(),
                    room: Room::Any,
                    plated: false,
                },
            ),
        ]
    } else {
        Seq::empty()
    }
}

/// Draws the closing button of the row under the cursor.
fn draw_row_close(sheet: &mut Sheet, v: &RowView, y: Single)
    ensures
        final(sheet)@ == old(sheet)@ + row_close(*v, y),
{
    proof {
        reveal(row_close);
    }
    let left: Single = single(LABEL_PAD);
    let on: bool = left.le(v.cursor.x) && v.cursor.x.le(left.plus(v.w)) && y.le(v.cursor.y)
        && v.cursor.y.le(y.plus(single(POOL_ROW_HEIGHT)));
    if on {
        let b: Rect = pool_row_close_rect(left, y, v.w);
        let color: Color = if b.contains(v.cursor.x, v.cursor.y) {
            paint(POOL_CLOSE_BG_HOVER)
        } else {
            paint(POOL_CLOSE_BG)
        };
        sheet.add_mark(Mark::Fill { rect: b, color });
        sheet.text(
            Label {
                text: icon_text(ICON_CLOSE),
                size: single(TYPE_LG),
                color: paint(POOL_CLOSE_GLYPH_COLOR),
                across: Across::Amid { x: b.x, w: b.w },
                baseline: b.y.plus(b.h.plus(v.glyph_h).times(single(HALF_PT))).plus(
                    v.glyph_ymin,
                ).round(),
                room: Room::Any,
                plated: false,
            },
        );
    }
    proof {
        assert(sheet@ =~= old(sheet)@ + row_close(*v, y));
    }
}

/// The top of a row.
pub open spec fn row_top(i: int) -> Single {
    single(POOL_LIST_TOP).plus(
        Single::from_u64(i as u64).times(single(POOL_ROW_HEIGHT).plus(single(POOL_ROW_GAP))),
    )
}

/// A row of the pool.
pub open spec fn row(
    v: RowView,
    y: Single,
    id: SourceId,
    pool: Pool,
    waves: Seq<Waveform>,
    notes: Seq<FileNote>,
) -> Seq<Stroke> {
    let item = pool.item(id);
    let note = notes[id.0 as int];
    row_picture(v, y, id, item, peaks_for(waves, id).0) + row_words(
        v,
        y,
        item.name,
        format_line(item, note.decimals@, note.sample_rate, note.channels),
    ) + row_close(v, y)
}

/// The rows of the pool from `i` on, as far as they fit above `pool_h`.
pub open spec fn rows(
    v: RowView,
    pool_h: Single,
    pool: Pool,
    waves: Seq<Waveform>,
    notes: Seq<FileNote>,
    i: int,
) -> Seq<Stroke>
    decreases pool.order.len() - i,
{
    if i < 0 || i >= pool.order.len() {
        Seq::empty()
    } else if pool_h.lt(row_top(i).plus(single(POOL_ROW_HEIGHT))) {
        Seq::empty()
    } else {
        row(v, row_top(i), pool.order[i], pool, waves, notes) + rows(
            v,
            pool_h,
            pool,
            waves,
            notes,
            i + 1,
        )
    }
}

/// Draws a row of the pool.
fn draw_row(
    sheet: &mut Sheet,
    v: &RowView,
    y: Single,
    id: SourceId,
    media: &MediaPool,
    waves: &Vec<Waveform>,
    notes: &Vec<FileNote>,
)
    requires
        media@.has(id),
        id.0 < notes.len(),
    ensures
        final(sheet)@ == old(sheet)@ + row(*v, y, id, media@, waves@, notes@),
{
    let flat: Waveform = Waveform::flat();
    draw_row_picture(sheet, v, y, id, media, wave_for(waves, id, &flat));
    if let Some(s) = media.get(id) {
        let meta: String = describe(s, &notes[id.0 as usize]);
        draw_row_words(sheet, v, y, s.name.clone(), meta);
    }
    draw_row_close(sheet, v, y);
    proof {
        assert(sheet@ =~= old(sheet)@ + row(*v, y, id, media@, waves@, notes@));
    }
}

impl Sitting {
    /// How every row is drawn.
    pub open spec fn row_view(self, a: Ascents, glyph_h: Single, glyph_ymin: Single) -> RowView {
        RowView {
            w: self.desk.media_pool_w().minus(single(LABEL_PAD).times(single(TWO_PT))).max(
                single(ONE_PT),
            ),
            cursor: self.desk.cursor,
            ascents: a,
            glyph_h,
            glyph_ymin,
        }
    }
}

impl Session {
    /// Draws the rows of the pool, as far as they fit. `waves` and `notes` are those of all
    /// sources, in the order of their names; the closing glyph reaches `glyph_h` above
    /// where it starts, `glyph_ymin` above the baseline.
    pub fn draw_media_pool_list(
        &self,
        sheet: &mut Sheet,
        waves: &Vec<Waveform>,
        notes: &Vec<FileNote>,
        a: Ascents,
        glyph_h: Single,
        glyph_ymin: Single,
    )
        requires
            self@.desk.divides(),
            self@.pool.sound(),
            notes.len() == self@.pool.sources.len(),
        ensures
            final(sheet)@ == old(sheet)@ + rows(
                self@.row_view(a, glyph_h, glyph_ymin),
                self@.desk.timeline_top(),
                self@.pool,
                waves@,
                notes@,
                0,
            ),
    {
        let pool_h: Single = self.desk.timeline_top();
        let v: RowView = RowView {
            w: self.desk.media_pool_w().minus(single(LABEL_PAD).times(single(TWO_PT))).max(
                single(ONE_PT),
            ),
            cursor: self.desk.cursor,
            ascents: a,
            glyph_h,
            glyph_ymin,
        };
        let ids: Vec<SourceId> = self.media.ids();
        let ghost all = rows(v, pool_h, self@.pool, waves@, notes@, 0);
        let mut i: usize = 0;
        while i < ids.len()
            invariant
                i <= ids.len(),
                ids@ == self@.pool.order,
                self@.pool.sound(),
                    notes.len() == self@.pool.sources.len(),
                old(sheet)@ + all == sheet@ + rows(
                    v,
                    pool_h,
                    self@.pool,
                    waves@,
                    notes@,
                    i as int,
                ),
            ensures
                sheet@ == old(sheet)@ + all,
            decreases ids.len() - i,
        {
            let ghost before = sheet@;
            let ghost rest = rows(v, pool_h, self@.pool, waves@, notes@, i as int);
            let ghost tail = rows(v, pool_h, self@.pool, waves@, notes@, i + 1);
            let y: Single = single(POOL_LIST_TOP).plus(
                Single::from_u64(i as u64).times(
                    single(POOL_ROW_HEIGHT).plus(single(POOL_ROW_GAP)),
                ),
            );
            if pool_h.lt(y.plus(single(POOL_ROW_HEIGHT))) {
                proof {
                    assert(sheet@ + rest =~= sheet@);
                }
                break;
            }
            draw_row(sheet, &v, y, ids[i], &self.media, waves, notes);
            proof {
                assert(before + rest =~= sheet@ + tail);
                assert(i + 1 == ids.len() ==> sheet@ + tail =~= sheet@);
            }
            i += 1;
        }
        proof {
            assert(sheet@ + Seq::<Stroke>::empty() =~= sheet@);
        }
    }
}

} // verus!
