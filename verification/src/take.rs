//! Which decoded frame of a source is due, and what part of it is wanted.

use crate::ieee::{double, single, Double, Single};
use crate::media::Footage;
use crate::raster::{above_even, below_even, even_down, even_up, Part, Placement};
use crate::sound::{seek_tick, tick_of};
use crate::timeline::{UNITY, ZERO};
use vstd::prelude::*;

verus! {

/// How far ahead frames are decoded one by one before seeking instead, `1` second.
pub const FORWARD_DECODE_BUDGET: u64 = 0x3ff0_0000_0000_0000;

/// The height of a thumbnail.
pub const THUMB_HEIGHT: u32 = 64;

/// A million, as a double: the ticks of a second.
pub const TICKS_PER_SECOND: u64 = 0x412e_8480_0000_0000;

/// The frame rate where a stream names none, `30`.
pub const FALLBACK_RATE: u64 = 0x403e_0000_0000_0000;

/// A decoded frame: which one it is, and when it is to be shown.
#[derive(Clone, Copy, Debug, PartialEq)]
pub struct Shot {
    /// The number of the frame, in the order of decoding.
    pub serial: u64,
    pub pts: Double,
}

/// What a reader is looking for.
#[derive(Clone, Copy, Debug, PartialEq, Eq, Structural)]
pub enum Phase {
    /// Nothing: the frame that is due is known.
    Idle,
    /// The frame after the one that is due.
    Fill,
    /// The first frame after the wanted time, from a frame on that is not after it.
    Walk,
    /// The first frame after the wanted time, from a seek on.
    Hunt,
}

/// What a reader asks for next.
#[derive(Clone, Copy, Debug, PartialEq, Eq, Structural)]
pub enum Ask {
    /// Nothing more.
    Done,
    /// The next decoded frame.
    Decode,
    /// A seek to this tick with the decoder flushed, then the next decoded frame.
    Seek(i64),
}

/// Where a source has been read to.
#[derive(Clone, Copy, Debug, PartialEq)]
pub struct Reader {
    /// The frame that covers the wanted time.
    pub due: Option<Shot>,
    /// The frame after it, decoded but not due yet.
    pub pending: Option<Shot>,
    /// The last frame that a hunt has passed.
    pub last: Option<Shot>,
    pub phase: Phase,
    /// The wanted time.
    pub wanted: Double,
    /// What the due frame was last scaled into.
    pub staged_for: Option<Placement>,
}

impl Reader {
    /// Before anything was read.
    pub open spec fn fresh() -> Reader {
        Reader {
            due: None,
            pending: None,
            last: None,
            phase: Phase::Idle,
            wanted: double(ZERO),
            staged_for: None,
        }
    }

    /// Before anything was read.
    pub fn new() -> (r: Reader)
        ensures
            r == Reader::fresh(),
    {
        Reader {
            due: None,
            pending: None,
            last: None,
            phase: Phase::Idle,
            wanted: double(ZERO),
            staged_for: None,
        }
    }

    /// Whether `t` is close enough ahead of the due frame to decode on.
    pub open spec fn in_reach(self, t: Double) -> bool {
        self.due matches Some(d) && d.pts.le(t) && t.le(d.pts.plus(double(FORWARD_DECODE_BUDGET)))
    }

    /// Whether a preview has to seek to show `t`: it went back, or is far ahead.
    pub open spec fn out_of_reach(self, t: Double) -> bool {
        match self.due {
            Some(d) => t.lt(d.pts) || d.pts.plus(double(FORWARD_DECODE_BUDGET)).lt(t),
            None => true,
        }
    }

    /// On the way to `t` from the due frame on.
    pub open spec fn walking(self, t: Double) -> (Reader, Ask) {
        match self.pending {
            None => (Reader { phase: Phase::Fill, wanted: t, ..self }, Ask::Decode),
            Some(p) => if t.lt(p.pts) {
                (Reader { phase: Phase::Idle, wanted: t, ..self }, Ask::Done)
            } else {
                (Reader { phase: Phase::Walk, wanted: t, ..self }, Ask::Decode)
            },
        }
    }

    /// On the way to `t` from a seek on. A render forgets the frame that was due.
    pub open spec fn hunting(self, t: Double, forget: bool) -> (Reader, Ask) {
        (
            Reader {
                due: if forget {
                    None
                } else {
                    self.due
                },
                pending: None,
                last: None,
                phase: Phase::Hunt,
                wanted: t,
                staged_for: None,
            },
            Ask::Seek(seek_tick(t)),
        )
    }

    /// With another frame due; what was scaled from the one before is of no use.
    pub open spec fn with_due(self, d: Shot) -> Reader {
        Reader { due: Some(d), staged_for: None, phase: Phase::Idle, ..self }
    }

    /// After the decoder gave a frame, or none.
    pub open spec fn fed(self, shot: Option<Shot>) -> (Reader, Ask) {
        match (self.phase, shot) {
            (Phase::Idle, _) => (self, Ask::Done),
            (Phase::Fill, None) => (Reader { phase: Phase::Idle, ..self }, Ask::Done),
            (Phase::Fill, Some(s)) => {
                let held = Reader { pending: Some(s), ..self };
                if self.wanted.lt(s.pts) {
                    (Reader { phase: Phase::Idle, ..held }, Ask::Done)
                } else {
                    (Reader { phase: Phase::Walk, ..held }, Ask::Decode)
                }
            },
            (Phase::Walk, Some(s)) => if s.pts.le(self.wanted) {
                (Reader { pending: Some(s), ..self }, Ask::Decode)
            } else {
                match self.pending {
                    Some(p) => (Reader { pending: Some(s), ..self.with_due(p) }, Ask::Done),
                    None => (Reader { phase: Phase::Idle, pending: Some(s), ..self }, Ask::Done),
                }
            },
            (Phase::Walk, None) => match self.pending {
                Some(p) => (Reader { pending: None, ..self.with_due(p) }, Ask::Done),
                None => (Reader { phase: Phase::Idle, ..self }, Ask::Done),
            },
            (Phase::Hunt, Some(s)) => if self.wanted.lt(s.pts) {
                (
                    Reader {
                        pending: Some(s),
                        last: None,
                        ..self.with_due(
                            match self.last {
                                Some(l) => l,
                                None => s,
                            },
                        )
                    },
                    Ask::Done,
                )
            } else {
                (Reader { last: Some(s), ..self }, Ask::Decode)
            },
            (Phase::Hunt, None) => match self.last {
                Some(l) => (Reader { last: None, ..self.with_due(l) }, Ask::Done),
                None => (Reader { phase: Phase::Idle, ..self }, Ask::Done),
            },
        }
    }

    /// After the decoder gave several frames.
    pub open spec fn fed_all(self, shots: Seq<Shot>) -> Reader
        decreases shots.len(),
    {
        if shots.len() == 0 {
            self
        } else {
            self.fed_all(shots.drop_last()).fed(Some(shots.last())).0
        }
    }

    /// Makes the frame that covers `t` the due one, as a render does.
    pub fn stage(&mut self, t: Double) -> (ask: Ask)
        ensures
            (*final(self), ask) == if old(self).in_reach(t) {
                old(self).walking(t)
            } else {
                old(self).hunting(t, true)
            },
    {
        let near: bool = match self.due {
            Some(d) => d.pts.le(t) && t.le(d.pts.plus(double(FORWARD_DECODE_BUDGET))),
            None => false,
        };
        if near {
            self.walk(t)
        } else {
            self.hunt(t, true)
        }
    }

    /// Makes the frame that covers `t` the due one, as a preview does.
    pub fn goto(&mut self, t: Double) -> (ask: Ask)
        ensures
            (*final(self), ask) == if old(self).out_of_reach(t) {
                old(self).hunting(t, false)
            } else {
                old(self).walking(t)
            },
    {
        let far: bool = match self.due {
            Some(d) => t.lt(d.pts) || d.pts.plus(double(FORWARD_DECODE_BUDGET)).lt(t),
            None => true,
        };
        if far {
            self.hunt(t, false)
        } else {
            self.walk(t)
        }
    }

    /// Sets out for `t` from the due frame on.
    fn walk(&mut self, t: Double) -> (ask: Ask)
        ensures
            (*final(self), ask) == old(self).walking(t),
    {
        self.wanted = t;
        match self.pending {
            None => {
                self.phase = Phase::Fill;
                Ask::Decode
            },
            Some(p) => {
                if t.lt(p.pts) {
                    self.phase = Phase::Idle;
                    Ask::Done
                } else {
                    self.phase = Phase::Walk;
                    Ask::Decode
                }
            },
        }
    }

    /// Sets out for `t` from a seek on.
    fn hunt(&mut self, t: Double, forget: bool) -> (ask: Ask)
        ensures
            (*final(self), ask) == old(self).hunting(t, forget),
    {
        if forget {
            self.due = None;
        }
        self.pending = None;
        self.last = None;
        self.phase = Phase::Hunt;
        self.wanted = t;
        self.staged_for = None;
        Ask::Seek(tick_of(t))
    }

    /// Makes a frame the due one.
    fn set_due(&mut self, d: Shot)
        ensures
            *final(self) == old(self).with_due(d),
    {
        self.due = Some(d);
        self.staged_for = None;
        self.phase = Phase::Idle;
    }

    /// Takes in what the decoder gave, and asks for more where it is not enough.
    pub fn decoded(&mut self, shot: Option<Shot>) -> (ask: Ask)
        ensures
            (*final(self), ask) == old(self).fed(shot),
    {
        match (self.phase, shot) {
            (Phase::Idle, _) => Ask::Done,
            (Phase::Fill, None) => {
                self.phase = Phase::Idle;
                Ask::Done
            },
            (Phase::Fill, Some(s)) => {
                self.pending = Some(s);
                if self.wanted.lt(s.pts) {
                    self.phase = Phase::Idle;
                    Ask::Done
                } else {
                    self.phase = Phase::Walk;
                    Ask::Decode
                }
            },
            (Phase::Walk, Some(s)) => {
                if s.pts.le(self.wanted) {
                    self.pending = Some(s);
                    Ask::Decode
                } else {
                    match self.pending {
                        Some(p) => {
                            self.set_due(p);
                        },
                        None => {
                            self.phase = Phase::Idle;
                        },
                    }
                    self.pending = Some(s);
                    Ask::Done
                }
            },
            (Phase::Walk, None) => {
                match self.pending {
                    Some(p) => {
                        self.set_due(p);
                        self.pending = None;
                    },
                    None => {
                        self.phase = Phase::Idle;
                    },
                }
                Ask::Done
            },
            (Phase::Hunt, Some(s)) => {
                if self.wanted.lt(s.pts) {
                    let d: Shot = match self.last {
                        Some(l) => l,
                        None => s,
                    };
                    self.set_due(d);
                    self.last = None;
                    self.pending = Some(s);
                    Ask::Done
                } else {
                    self.last = Some(s);
                    Ask::Decode
                }
            },
            (Phase::Hunt, None) => {
                match self.last {
                    Some(l) => {
                        self.set_due(l);
                        self.last = None;
                    },
                    None => {
                        self.phase = Phase::Idle;
                    },
                }
                Ask::Done
            },
        }
    }

    /// Whether the due frame has to be scaled anew for a placement.
    pub fn is_stale(&self, placement: &Placement) -> (r: bool)
        ensures
            r == !(self.staged_for matches Some(p) && p.alike(*placement)),
    {
        match self.staged_for {
            Some(p) => !p.same(placement),
            None => true,
        }
    }

    /// Records what the due frame was scaled into; nothing where that failed.
    pub fn staged(&mut self, placement: Option<Placement>)
        ensures
            *final(self) == (Reader { staged_for: placement, ..*old(self) }),
    {
        self.staged_for = placement;
    }
}

/// A hunt ends on the last frame that is not after the wanted time: where every frame but
/// the last is not after it and the last one is, the one before that becomes due and the
/// last one waits; with only one frame it is that one.
pub proof fn lemma_a_hunt_finds_the_frame(r: Reader, t: Double, forget: bool, shots: Seq<Shot>)
    requires
        shots.len() > 0,
        forall|i: int| 0 <= i < shots.len() - 1 ==> !t.lt((#[trigger] shots[i]).pts),
        t.lt(shots.last().pts),
    ensures
        ({
            let e = r.hunting(t, forget).0.fed_all(shots);
            &&& e.phase == Phase::Idle
            &&& e.pending == Some(shots.last())
            &&& e.due == Some(
                if shots.len() > 1 {
                    shots[shots.len() - 2]
                } else {
                    shots.last()
                },
            )
        }),
{
    let front = shots.drop_last();
    lemma_hunt_goes_on(r.hunting(t, forget).0, t, front);
}

/// A hunt goes on over frames that are not after the wanted time, and remembers the last.
proof fn lemma_hunt_goes_on(h: Reader, t: Double, shots: Seq<Shot>)
    requires
        h.phase == Phase::Hunt,
        h.last is None,
        h.wanted == t,
        forall|i: int| 0 <= i < shots.len() ==> !t.lt((#[trigger] shots[i]).pts),
    ensures
        h.fed_all(shots) == (Reader {
            last: if shots.len() > 0 {
                Some(shots.last())
            } else {
                None
            },
            ..h
        }),
    decreases shots.len(),
{
    if shots.len() > 0 {
        let front = shots.drop_last();
        assert forall|i: int| 0 <= i < front.len() implies !t.lt((#[trigger] front[i]).pts) by {
            assert(front[i] == shots[i]);
        }
        lemma_hunt_goes_on(h, t, front);
        assert(!t.lt(shots[shots.len() - 1].pts));
    }
}

/// Decoding on ends on the last frame that is not after the wanted time as well.
pub proof fn lemma_a_walk_finds_the_frame(r: Reader, t: Double, shots: Seq<Shot>)
    requires
        r.pending matches Some(p) && !t.lt(p.pts),
        shots.len() > 0,
        forall|i: int| 0 <= i < shots.len() - 1 ==> (#[trigger] shots[i]).pts.le(t),
        !shots.last().pts.le(t),
    ensures
        ({
            let e = r.walking(t).0.fed_all(shots);
            &&& e.phase == Phase::Idle
            &&& e.pending == Some(shots.last())
            &&& e.due == if shots.len() > 1 {
                Some(shots[shots.len() - 2])
            } else {
                r.pending
            }
        }),
{
    let front = shots.drop_last();
    lemma_walk_goes_on(r.walking(t).0, t, front);
}

/// Decoding on goes on over frames that are not after the wanted time.
proof fn lemma_walk_goes_on(w: Reader, t: Double, shots: Seq<Shot>)
    requires
        w.phase == Phase::Walk,
        w.wanted == t,
        forall|i: int| 0 <= i < shots.len() ==> (#[trigger] shots[i]).pts.le(t),
    ensures
        w.fed_all(shots) == (Reader {
            pending: if shots.len() > 0 {
                Some(shots.last())
            } else {
                w.pending
            },
            ..w
        }),
    decreases shots.len(),
{
    if shots.len() > 0 {
        let front = shots.drop_last();
        assert forall|i: int| 0 <= i < front.len() implies (#[trigger] front[i]).pts.le(t) by {
            assert(front[i] == shots[i]);
        }
        lemma_walk_goes_on(w, t, front);
        assert(shots[shots.len() - 1].pts.le(t));
    }
}

impl Part {
    /// The whole picture.
    pub open spec fn is_whole(self) -> bool {
        self.u0.same(single(0)) && self.v0.same(single(0)) && self.u1.same(single(UNITY))
            && self.v1.same(single(UNITY))
    }

    /// Whether this is the whole picture.
    pub fn whole(&self) -> (r: bool)
        ensures
            r == self.is_whole(),
    {
        self.u0.same(single(0)) && self.v0.same(single(0)) && self.u1.same(single(UNITY))
            && self.v1.same(single(UNITY))
    }

    /// Whether the two are the same part, number by number.
    pub open spec fn alike(self, o: Part) -> bool {
        self.u0.same(o.u0) && self.v0.same(o.v0) && self.u1.same(o.u1) && self.v1.same(o.v1)
    }
}

impl Placement {
    /// Whether the two are the same placement, number by number.
    pub open spec fn alike(self, o: Placement) -> bool {
        self.x == o.x && self.y == o.y && self.w == o.w && self.h == o.h && self.src.alike(o.src)
    }

    /// Whether the two are the same placement, number by number.
    pub fn same(&self, o: &Placement) -> (r: bool)
        ensures
            r == self.alike(*o),
    {
        self.x == o.x && self.y == o.y && self.w == o.w && self.h == o.h && self.src.u0.same(
            o.src.u0,
        ) && self.src.v0.same(o.src.v0) && self.src.u1.same(o.src.u1) && self.src.v1.same(o.src.v1)
    }
}

/// A rectangle of samples to cut out.
#[derive(Clone, Copy, Debug, PartialEq, Eq, Structural)]
pub struct Crop {
    pub x: u32,
    pub y: u32,
    pub w: u32,
    pub h: u32,
}

/// A share of a side in samples, to the nearest.
pub open spec fn share_of(f: Single, side: u32) -> u32 {
    f.times(Single::from_u64(side as u64)).round().to_u32()
}

/// The samples that a part of a picture covers along one side, on even samples: from
/// where, to where.
pub open spec fn even_span(a: Single, b: Single, side: u32) -> (int, int) {
    let end = above_even(share_of(b, side) as int);
    let most = below_even(side as int);
    (
        below_even(share_of(a, side) as int),
        if end < most {
            end
        } else {
            most
        },
    )
}

/// The samples that a part of a picture covers, on even samples; none where it covers
/// nothing.
pub open spec fn cropped(src: Part, sw: u32, sh: u32) -> Option<Crop> {
    let (x0, x1) = even_span(src.u0, src.u1, sw);
    let (y0, y1) = even_span(src.v0, src.v1, sh);
    if x1 <= x0 || y1 <= y0 {
        None
    } else {
        Some(Crop { x: x0 as u32, y: y0 as u32, w: (x1 - x0) as u32, h: (y1 - y0) as u32 })
    }
}

/// The samples that a part of a picture covers, on even samples.
pub fn crop_of(src: &Part, sw: u32, sh: u32) -> (r: Option<Crop>)
    ensures
        r == cropped(*src, sw, sh),
        r matches Some(c) ==> c.x + c.w <= sw && c.y + c.h <= sh && c.x % 2 == 0 && c.y % 2 == 0
            && c.w % 2 == 0 && c.h % 2 == 0,
{
    let w: Single = Single::from_u64(sw as u64);
    let h: Single = Single::from_u64(sh as u64);
    let x0: u32 = even_down(src.u0.times(w).round().to_u32());
    let y0: u32 = even_down(src.v0.times(h).round().to_u32());
    let xe: u32 = even_up(src.u1.times(w).round().to_u32());
    let ye: u32 = even_up(src.v1.times(h).round().to_u32());
    let xm: u32 = even_down(sw);
    let ym: u32 = even_down(sh);
    let x1: u32 = if xe < xm {
        xe
    } else {
        xm
    };
    let y1: u32 = if ye < ym {
        ye
    } else {
        ym
    };
    if x1 <= x0 || y1 <= y0 {
        return None;
    }
    Some(Crop { x: x0, y: y0, w: x1 - x0, h: y1 - y0 })
}

/// A share of a side in samples, to the nearest, at most the side.
pub open spec fn share_within(f: Single, side: u32) -> u32 {
    f.times(Single::from_u64(side as u64)).round().min(Single::from_u64(side as u64)).to_u32()
}

/// The samples that a part of a mask covers; none where it covers nothing.
pub open spec fn mask_cropped(src: Part, w: u32, h: u32) -> Option<Crop> {
    let (x0, x1) = (share_of(src.u0, w), share_within(src.u1, w));
    let (y0, y1) = (share_of(src.v0, h), share_within(src.v1, h));
    if x1 <= x0 || y1 <= y0 {
        None
    } else {
        Some(Crop { x: x0, y: y0, w: (x1 - x0) as u32, h: (y1 - y0) as u32 })
    }
}

/// How the picture of a title gets into a placement.
#[derive(Clone, Copy, Debug, PartialEq, Eq, Structural)]
pub enum TitleCut {
    /// The mask as it is.
    Mask,
    /// The mask scaled.
    Scaled,
    /// A part of the mask.
    Cropped(Crop),
    /// A part of the mask, scaled.
    CroppedAndScaled(Crop),
    /// Nothing.
    Nothing,
}

/// How the picture of a title drawn at `width x height` gets into a placement.
pub open spec fn title_cut_of(p: Placement, width: u32, height: u32) -> TitleCut {
    if p.src.is_whole() {
        if p.w == width && p.h == height {
            TitleCut::Mask
        } else {
            TitleCut::Scaled
        }
    } else {
        match mask_cropped(p.src, width, height) {
            None => TitleCut::Nothing,
            Some(c) => if c.w == p.w && c.h == p.h {
                TitleCut::Cropped(c)
            } else {
                TitleCut::CroppedAndScaled(c)
            },
        }
    }
}

/// How the picture of a title drawn at `width x height` gets into a placement.
pub fn title_cut(p: &Placement, width: u32, height: u32) -> (r: TitleCut)
    ensures
        r == title_cut_of(*p, width, height),
{
    if p.src.whole() {
        if p.w == width && p.h == height {
            return TitleCut::Mask;
        }
        return TitleCut::Scaled;
    }
    let w: Single = Single::from_u64(width as u64);
    let h: Single = Single::from_u64(height as u64);
    let x0: u32 = p.src.u0.times(w).round().to_u32();
    let y0: u32 = p.src.v0.times(h).round().to_u32();
    let x1: u32 = p.src.u1.times(w).round().min(w).to_u32();
    let y1: u32 = p.src.v1.times(h).round().min(h).to_u32();
    if x1 <= x0 || y1 <= y0 {
        return TitleCut::Nothing;
    }
    let c: Crop = Crop { x: x0, y: y0, w: x1 - x0, h: y1 - y0 };
    if c.w == p.w && c.h == p.h {
        TitleCut::Cropped(c)
    } else {
        TitleCut::CroppedAndScaled(c)
    }
}

/// What is known of a video stream from its numbers: its length from ticks, its rate from
/// a fraction.
pub open spec fn footage_of(ticks: i64, num: i64, den: i64, width: u32, height: u32) -> Footage {
    let n = Double::from_i64(num);
    let d = Double::from_i64(den);
    Footage {
        width,
        height,
        duration: if ticks > 0 {
            Double::from_i64(ticks).over(double(TICKS_PER_SECOND))
        } else {
            double(ZERO)
        },
        frame_rate: if double(ZERO).lt(n) && double(ZERO).lt(d) {
            n.over(d)
        } else {
            double(FALLBACK_RATE)
        },
    }
}

/// What is known of a video stream from its numbers.
pub fn footage(ticks: i64, num: i64, den: i64, width: u32, height: u32) -> (r: Footage)
    ensures
        r == footage_of(ticks, num, den, width, height),
{
    let n: Double = Double::from_i64(num);
    let d: Double = Double::from_i64(den);
    Footage {
        width,
        height,
        duration: if ticks > 0 {
            Double::from_i64(ticks).over(double(TICKS_PER_SECOND))
        } else {
            double(ZERO)
        },
        frame_rate: if double(ZERO).lt(n) && double(ZERO).lt(d) {
            n.over(d)
        } else {
            double(FALLBACK_RATE)
        },
    }
}

/// The size of a thumbnail: at most as high as a thumbnail is, with the picture's shape.
pub open spec fn thumb_of(width: u32, height: u32) -> (u32, u32) {
    let h = if height > THUMB_HEIGHT {
        THUMB_HEIGHT
    } else if height < 1 {
        1
    } else {
        height
    };
    let w = Double::from_u64(h as u64).times(Double::from_u64(width as u64)).over(
        Double::from_u64(height as u64),
    ).round().to_u32();
    (
        if w < 1 {
            1
        } else {
            w
        },
        h,
    )
}

/// The size of a thumbnail: at most as high as a thumbnail is, with the picture's shape.
pub fn thumbnail_size(width: u32, height: u32) -> (r: (u32, u32))
    ensures
        r == thumb_of(width, height),
{
    let h: u32 = if height > THUMB_HEIGHT {
        THUMB_HEIGHT
    } else if height < 1 {
        1
    } else {
        height
    };
    let w: u32 = Double::from_u64(h as u64).times(Double::from_u64(width as u64)).over(
        Double::from_u64(height as u64),
    ).round().to_u32();
    (
        if w < 1 {
            1
        } else {
            w
        },
        h,
    )
}

} // verus!
