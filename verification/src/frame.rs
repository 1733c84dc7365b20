//! One frame, start to finish: the order in which everything is drawn.

use crate::chrome::{said, Status};
use crate::export::Progress;
use crate::ieee::{double, single, Double, Single};
use crate::input::DragMode;
use crate::lane::Level;
use crate::layout::Splitter;
use crate::panel::{level_rows, Ascents};
use crate::rows::{rows, FileNote};
use crate::scene::{filled, Sheet, Stroke};
use crate::session::{Session, Sitting};
use crate::sound::Waveform;
use crate::theme::{
    paint, HALF_PT, MEDIA_POOL_COLOR, ONE_PT, PANEL_BORDER_COLOR, PREVIEW_COLOR,
    SPLITTER_ACTIVE_COLOR, SPLITTER_ACTIVE_W, STATUS_SECONDS, TRANSPORT_BAR_COLOR, TRANSPORT_BAR_H,
};
use vstd::prelude::*;

verus! {

/// What a frame needs beside the session: what was measured, and what goes on elsewhere.
pub struct Stage {
    /// The levels of the clips, track by track.
    pub levels: Vec<Vec<Level>>,
    /// The waveforms of all sources; an empty one for a source without sound.
    pub waves: Vec<Waveform>,
    /// What is known of the files of all sources.
    pub notes: Vec<FileNote>,
    pub ascents: Ascents,
    /// How wide the pool's heading comes out.
    pub pool_label_w: Single,
    /// How wide the timeline's heading comes out.
    pub timeline_label_w: Single,
    /// How high the closing glyph reaches, and where it starts.
    pub glyph_h: Single,
    pub glyph_ymin: Single,
    /// The canvas's frame rate to three decimals.
    pub decimals: String,
    pub progress: Option<Progress>,
    pub status: Option<Status>,
}

impl Sitting {
    /// The fields of the panels above the timeline, and their edges.
    #[verifier::opaque]
    pub open spec fn fields(self) -> Seq<Stroke> {
        let (pool_w, top) = (self.desk.media_pool_w(), self.desk.timeline_top());
        let (w, h) = (self.desk.preview_w(), self.desk.preview_h());
        let one = single(ONE_PT);
        seq![
            filled(single(0), single(0), pool_w, top, paint(MEDIA_POOL_COLOR)),
            filled(pool_w, single(0), w, h, paint(PREVIEW_COLOR)),
            filled(pool_w, h, w, single(TRANSPORT_BAR_H), paint(TRANSPORT_BAR_COLOR)),
            filled(pool_w.minus(one), single(0), one, top, paint(PANEL_BORDER_COLOR)),
            filled(pool_w, h, w, one, paint(PANEL_BORDER_COLOR)),
        ]
    }

    /// The divider that is held, or that could be.
    pub open spec fn lit_splitter(self) -> Option<Splitter> {
        match self.desk.drag {
            DragMode::Splitter(s) => Some(s),
            DragMode::Idle => self.desk.splitter_at(self.desk.cursor),
            _ => None,
        }
    }

    /// The lit divider, over both panels that it divides.
    #[verifier::opaque]
    pub open spec fn splitter_light(self) -> Seq<Stroke> {
        let (pool_w, top) = (self.desk.media_pool_w(), self.desk.timeline_top());
        let thick = single(SPLITTER_ACTIVE_W);
        let one = single(ONE_PT);
        let off = thick.minus(one).times(single(HALF_PT));
        match self.lit_splitter() {
            Some(Splitter::TopBottom) => seq![
                filled(
                    single(0),
                    top.minus(off),
                    self.desk.width,
                    thick,
                    paint(SPLITTER_ACTIVE_COLOR),
                ),
            ],
            Some(Splitter::PoolPreview) => seq![
                filled(
                    pool_w.minus(one).minus(off),
                    single(0),
                    thick,
                    top,
                    paint(SPLITTER_ACTIVE_COLOR),
                ),
            ],
            None => Seq::empty(),
        }
    }

    /// With everything recorded that a frame records: the playhead inside the timeline,
    /// the canvas, the controls.
    pub open spec fn laid_out(self, g: Stage) -> Sitting {
        let s = self.parked();
        s.previewed(s.desk.clock.position).headed(g.pool_label_w).tooled(
            g.timeline_label_w,
        ).barred()
    }

    /// With the frame drawn: the rows of the menu too, where it is open.
    pub open spec fn rendered(self, g: Stage) -> Sitting {
        let s = self.laid_out(g);
        if s.desk.project_menu_open {
            s.with_menu(g.ascents.sm)
        } else {
            s
        }
    }

    /// The frame below its controls: the panels, the preview, the timeline, the pool.
    pub open spec fn under(self, g: Stage) -> Seq<Stroke> {
        let s = self.parked();
        let t = s.desk.clock.position;
        let seen = s.previewed(t);
        s.fields() + s.preview(t) + seen.panel(
            t,
            level_rows(g.levels@),
            g.waves@,
            g.ascents.sm,
        ) + rows(
            seen.row_view(g.ascents, g.glyph_h, g.glyph_ymin),
            seen.desk.timeline_top(),
            seen.pool,
            g.waves@,
            g.notes@,
            0,
        )
    }

    /// The controls of the frame, over its panels.
    pub open spec fn over(self, g: Stage) -> Seq<Stroke> {
        let s = self.parked();
        let t = s.desk.clock.position;
        let seen = s.previewed(t);
        let headed = seen.headed(g.pool_label_w);
        let tooled = headed.tooled(g.timeline_label_w);
        let done = tooled.barred();
        seen.headings(g.pool_label_w, g.ascents) + headed.toolbar_strokes(
            g.timeline_label_w,
            g.decimals@,
            g.progress,
            said(g.status),
            g.ascents,
        ) + tooled.transport_bar(t, g.ascents) + done.splitter_light() + (
        if done.desk.project_menu_open {
            done.menu_strokes(g.ascents.sm, g.ascents.md)
        } else {
            Seq::empty()
        })
    }

    /// A frame, back to front.
    pub open spec fn frame_strokes(self, g: Stage) -> Seq<Stroke> {
        self.under(g) + self.over(g)
    }

    /// Whether a frame can be drawn: the window divides, the timeline has a view, and there is
    /// a level for every clip and a note for every source.
    pub open spec fn drawable(self, g: Stage) -> bool {
        &&& self.laid()
        &&& self.pool.sound()
        &&& self.accompanied(level_rows(g.levels@))
        &&& g.notes.len() == self.pool.sources.len()
    }
}

/// What a frame records does not change what can be drawn.
proof fn lemma_recording_keeps(a: Sitting, b: Sitting)
    requires
        a.reel == b.reel,
        a.pool == b.pool,
        a.desk.width == b.desk.width,
        a.desk.height == b.desk.height,
        a.desk.view_dur == b.desk.view_dur,
        a.desk.drag == b.desk.drag,
    ensures
        a.laid() == b.laid(),
        a.desk.divides() == b.desk.divides(),
        forall|l: Seq<Seq<Level>>| #[trigger] a.accompanied(l) == b.accompanied(l),
{
    reveal(crate::session::Desk::spec_divides);
}

impl Session {
    /// Draws the fields of the panels above the timeline.
    fn draw_fields(&self, sheet: &mut Sheet)
        requires
            self@.desk.divides(),
        ensures
            final(sheet)@ == old(sheet)@ + self@.fields(),
    {
        proof {
            reveal(Sitting::fields);
        }
        let (pool_w, top): (Single, Single) = (self.desk.media_pool_w(), self.desk.timeline_top());
        let (w, h): (Single, Single) = (self.desk.preview_w(), self.desk.preview_h());
        let one: Single = single(ONE_PT);
        sheet.fill(single(0), single(0), pool_w, top, paint(MEDIA_POOL_COLOR));
        sheet.fill(pool_w, single(0), w, h, paint(PREVIEW_COLOR));
        sheet.fill(pool_w, h, w, single(TRANSPORT_BAR_H), paint(TRANSPORT_BAR_COLOR));
        sheet.fill(pool_w.minus(one), single(0), one, top, paint(PANEL_BORDER_COLOR));
        sheet.fill(pool_w, h, w, one, paint(PANEL_BORDER_COLOR));
        proof {
            assert(sheet@ =~= old(sheet)@ + self@.fields());
        }
    }

    /// Draws the lit divider.
    fn draw_splitter_light(&self, sheet: &mut Sheet)
        requires
            self@.desk.divides(),
        ensures
            final(sheet)@ == old(sheet)@ + self@.splitter_light(),
    {
        proof {
            reveal(Sitting::splitter_light);
        }
        let (pool_w, top): (Single, Single) = (self.desk.media_pool_w(), self.desk.timeline_top());
        let thick: Single = single(SPLITTER_ACTIVE_W);
        let one: Single = single(ONE_PT);
        let off: Single = thick.minus(one).times(single(HALF_PT));
        let lit: Option<Splitter> = match self.desk.drag {
            DragMode::Splitter(s) => Some(s),
            DragMode::Idle => self.desk.splitter_at(self.desk.cursor),
            _ => None,
        };
        match lit {
            Some(Splitter::TopBottom) => {
                sheet.fill(
                    single(0),
                    top.minus(off),
                    self.desk.width,
                    thick,
                    paint(SPLITTER_ACTIVE_COLOR),
                );
            },
            Some(Splitter::PoolPreview) => {
                sheet.fill(
                    pool_w.minus(one).minus(off),
                    single(0),
                    thick,
                    top,
                    paint(SPLITTER_ACTIVE_COLOR),
                );
            },
            None => {},
        }
        proof {
            assert(sheet@ =~= old(sheet)@ + self@.splitter_light());
        }
    }

    /// Draws the panels, the preview, the timeline and the pool.
    fn draw_under(&mut self, sheet: &mut Sheet, g: &Stage)
        requires
            old(self)@.drawable(*g),
        ensures
            final(self)@ == old(self)@.parked().previewed(
                old(self)@.parked().desk.clock.position,
            ),
            final(sheet)@ == old(sheet)@ + old(self)@.under(*g),
    {
        let ghost s = self@.parked();
        self.park_playhead();
        proof {
            lemma_recording_keeps(old(self)@, s);
        }
        let t: Double = self.desk.clock.position;
        self.draw_fields(sheet);
        self.draw_preview(sheet, t);
        proof {
            reveal(Sitting::previewed);
            lemma_recording_keeps(s, self@);
        }
        self.draw_timeline_panel(sheet, t, &g.levels, &g.waves, g.ascents.sm);
        self.draw_media_pool_list(
            sheet,
            &g.waves,
            &g.notes,
            g.ascents,
            g.glyph_h,
            g.glyph_ymin,
        );
        proof {
            assert(sheet@ =~= old(sheet)@ + old(self)@.under(*g));
        }
    }

    /// Draws a frame onto a sheet, and records what the next press looks for. Returns
    /// whether the message of the readout has had its time.
    pub fn render(&mut self, sheet: &mut Sheet, g: &Stage) -> (stale: bool)
        requires
            old(self)@.drawable(*g),
        ensures
            final(self)@ == old(self)@.rendered(*g),
            final(sheet)@ == old(sheet)@ + old(self)@.frame_strokes(*g),
            stale == (g.progress is None && (g.status matches Some(s) && !s.age.lt(
                double(STATUS_SECONDS),
            ))),
    {
        let ghost s = self@.parked();
        let ghost seen = s.previewed(s.desk.clock.position);
        proof {
            lemma_recording_keeps(self@, s);
            assert(seen.desk.divides() && seen.desk.clock == s.desk.clock) by {
                reveal(Sitting::previewed);
                lemma_recording_keeps(s, seen);
            }
        }
        self.draw_under(sheet, g);
        let t: Double = self.desk.clock.position;
        self.draw_panel_labels(sheet, g.pool_label_w, &g.ascents);
        proof {
            reveal(Sitting::headed);
            lemma_recording_keeps(seen, self@);
        }
        let ghost headed = self@;
        let stale: bool = self.draw_timeline_toolbar(
            sheet,
            g.timeline_label_w,
            g.decimals.as_str(),
            &g.progress,
            &g.status,
            &g.ascents,
        );
        proof {
            reveal(Sitting::tooled);
            lemma_recording_keeps(headed, self@);
        }
        let ghost tooled = self@;
        self.draw_transport_bar(sheet, t, &g.ascents);
        proof {
            reveal(Sitting::barred);
            lemma_recording_keeps(tooled, self@);
        }
        self.draw_splitter_light(sheet);
        if self.desk.project_menu_open {
            self.draw_project_menu(sheet, g.ascents.sm, g.ascents.md);
        }
        proof {
            assert(sheet@ =~= old(sheet)@ + old(self)@.frame_strokes(*g));
        }
        stale
    }
}

} // verus!
