//! A frame of the output: what goes into it, and putting it together.

use crate::canvas::Canvas;
use crate::compose::{layers, layers_at, size_from, Layer, SourceSize};
use crate::export::VideoSpec;
use crate::ieee::{Double, Single};
use crate::raster::{
    color_laid, compose, compose_color, picture_laid, place_even, placement, Frame, Placement,
    Plane, Yuv, BLACK_UV, BLACK_Y,
};
use crate::session::Sitting;
use crate::timeline::{lanes, lemma_first_covering, Lane, SourceId, Track};
use vstd::prelude::*;

verus! {

/// A layer that lands on the samples of the output.
#[derive(Copy, Clone, Debug, PartialEq)]
pub struct Placed {
    pub source: SourceId,
    /// What to show of the source.
    pub source_time: Double,
    pub place: Placement,
    pub alpha: Single,
}

/// The layers that land on the samples of the output, in order.
pub open spec fn placed_of(ls: Seq<Layer>, width: u32, height: u32) -> Seq<Placed>
    decreases ls.len(),
{
    if ls.len() == 0 {
        Seq::empty()
    } else {
        let before = placed_of(ls.drop_last(), width, height);
        let l = ls.last();
        match placement(l, width, height) {
            Some(place) => before.push(
                Placed { source: l.source, source_time: l.source_time, place, alpha: l.alpha },
            ),
            None => before,
        }
    }
}

/// The canvas that a render fills.
pub open spec fn canvas_of(spec: VideoSpec) -> Canvas {
    Canvas { width: spec.width, height: spec.height, fps: spec.fps }
}

/// What goes into the frame that shows at `t`, bottom layer first.
pub open spec fn placed(
    ls: Seq<Lane>,
    t: Double,
    spec: VideoSpec,
    sizes: Seq<SourceSize>,
) -> Seq<Placed> {
    placed_of(layers(ls, t, canvas_of(spec), sizes), spec.width, spec.height)
}

/// What goes into the frame that shows at `t`, bottom layer first.
pub fn placed_at(
    tracks: &Vec<Track>,
    t: Double,
    spec: VideoSpec,
    sizes: &Vec<SourceSize>,
) -> (r: Vec<Placed>)
    ensures
        r@ == placed(lanes(tracks@), t, spec, sizes@),
{
    let canvas: Canvas = Canvas { width: spec.width, height: spec.height, fps: spec.fps };
    let ls: Vec<Layer> = layers_at(tracks, t, canvas, sizes);
    let mut out: Vec<Placed> = Vec::new();
    let mut i: usize = 0;
    proof {
        assert(ls@.take(0) =~= Seq::empty());
    }
    while i < ls.len()
        invariant
            i <= ls.len(),
            out@ == placed_of(ls@.take(i as int), spec.width, spec.height),
        decreases ls.len() - i,
    {
        proof {
            assert(ls@.take(i + 1).drop_last() =~= ls@.take(i as int));
        }
        let l: Layer = ls[i];
        match place_even(&l, spec.width, spec.height) {
            Some(place) => {
                out.push(
                    Placed { source: l.source, source_time: l.source_time, place, alpha: l.alpha },
                );
            },
            None => {},
        }
        i += 1;
    }
    proof {
        assert(ls@.take(ls.len() as int) =~= ls@);
    }
    out
}

/// Whether two lists give the same size for the source of every clip.
pub open spec fn sizes_agree(tracks: Seq<Lane>, a: Seq<SourceSize>, b: Seq<SourceSize>) -> bool {
    forall|i: int, k: int|
        0 <= i < tracks.len() && 0 <= k < tracks[i].clips.len() ==> size_from(
            a,
            (#[trigger] tracks[i].clips[k]).source,
            0,
        ) == size_from(b, tracks[i].clips[k].source, 0)
}

/// The layers depend on the sizes of the sources that the clips use, and on no others.
proof fn lemma_same_layers(
    tracks: Seq<Lane>,
    t: Double,
    canvas: Canvas,
    a: Seq<SourceSize>,
    b: Seq<SourceSize>,
)
    requires
        sizes_agree(tracks, a, b),
    ensures
        layers(tracks, t, canvas, a) == layers(tracks, t, canvas, b),
    decreases tracks.len(),
{
    if tracks.len() > 0 {
        let front = tracks.drop_last();
        assert(sizes_agree(front, a, b)) by {
            assert forall|i: int, k: int|
                0 <= i < front.len() && 0 <= k < front[i].clips.len() implies size_from(
                a,
                (#[trigger] front[i].clips[k]).source,
                0,
            ) == size_from(b, front[i].clips[k].source, 0) by {
                assert(front[i].clips[k] == tracks[i].clips[k]);
            }
        }
        lemma_same_layers(front, t, canvas, a, b);
        let last = tracks.len() - 1;
        if let Some(i) = tracks.last().active(t) {
            lemma_first_covering(tracks.last().clips, t, 0);
            assert(tracks.last().clips[i] == tracks[last].clips[i]);
        }
    }
}

/// What is exported is what was seen: at every time the file holds the layers that the
/// preview shows, placed on the output, as long as the files still give pictures of the
/// sizes that the pool knows.
pub proof fn lemma_the_file_holds_what_the_preview_shows(
    s: Sitting,
    t: Double,
    sizes: Seq<SourceSize>,
)
    requires
        s.export_picture() is Some,
        sizes_agree(s.reel.tracks, sizes, s.pool.sizes(s.canvas())),
    ensures
        ({
            let c = s.canvas();
            let seen = layers(s.reel.tracks, t, c, s.pool.sizes(c));
            placed(s.reel.tracks, t, s.export_picture()->0, sizes) == placed_of(
                seen,
                c.width,
                c.height,
            )
        }),
{
    lemma_same_layers(s.reel.tracks, t, s.canvas(), sizes, s.pool.sizes(s.canvas()));
}

/// What a source gave for a layer, in the size of its placement.
pub enum Piece {
    Footage(Frame),
    /// A title: its coverage, its colour, and the alpha of that.
    Title { mask: Plane, color: Yuv, alpha: Single },
    /// Nothing came.
    Missing,
}

impl Piece {
    /// Its planes are whole.
    pub open spec fn sound(self) -> bool {
        match self {
            Piece::Footage(f) => f.sound(),
            Piece::Title { mask, color: _, alpha: _ } => mask.sound(),
            Piece::Missing => true,
        }
    }
}

/// `new` is `dst` with one more piece painted on it.
pub open spec fn piece_laid(dst: Frame, new: Frame, at: Placed, piece: Piece) -> bool {
    &&& new.sound()
    &&& new.same_shape(&dst)
    &&& match piece {
        Piece::Footage(f) => picture_laid(&dst, &new, &f, at.place.x, at.place.y, at.alpha),
        Piece::Title { mask, color, alpha } => color_laid(
            &dst,
            &new,
            &mask,
            at.place.x,
            at.place.y,
            color,
            alpha.times(at.alpha),
        ),
        Piece::Missing => new == dst,
    }
}

/// A frame of black, of the given size.
pub open spec fn is_black(f: Frame, width: u32, height: u32) -> bool {
    &&& f.sound()
    &&& f.width == width && f.height == height
    &&& f.y.width == width && f.y.stride == width && f.y.rows == height
    &&& f.u.width == (width + 1) / 2 && f.u.stride == f.u.width && f.u.rows == (height + 1) / 2
    &&& f.v.same_shape(&f.u)
    &&& forall|r: int, c: int| #[trigger] f.y.spans(r, c) ==> f.y.at(r, c) == BLACK_Y
    &&& forall|r: int, c: int| #[trigger] f.u.spans(r, c) ==> f.u.at(r, c) == BLACK_UV
    &&& forall|r: int, c: int| #[trigger] f.v.spans(r, c) ==> f.v.at(r, c) == BLACK_UV
}

/// The stages of a frame: black, then with each piece painted on the one before.
pub open spec fn built(
    stages: Seq<Frame>,
    width: u32,
    height: u32,
    at: Seq<Placed>,
    pieces: Seq<Piece>,
) -> bool {
    &&& stages.len() == pieces.len() + 1
    &&& is_black(stages[0], width, height)
    &&& forall|i: int|
        0 <= i < pieces.len() ==> piece_laid(
            stages[i],
            #[trigger] stages[i + 1],
            at[i],
            pieces[i],
        )
}

/// Whether two planes hold the same samples.
pub open spec fn planes_alike(a: Plane, b: Plane) -> bool {
    a.same_shape(&b) && forall|r: int, c: int| #[trigger] a.spans(r, c) ==> a.at(r, c) == b.at(r, c)
}

/// Whether two frames hold the same samples.
pub open spec fn frames_alike(a: Frame, b: Frame) -> bool {
    planes_alike(a.y, b.y) && planes_alike(a.u, b.u) && planes_alike(a.v, b.v)
}

/// The same piece painted on frames that hold the same gives frames that hold the same.
proof fn lemma_piece_determines(
    a: Frame,
    next_a: Frame,
    b: Frame,
    next_b: Frame,
    at: Placed,
    piece: Piece,
)
    requires
        frames_alike(a, b),
        piece_laid(a, next_a, at, piece),
        piece_laid(b, next_b, at, piece),
    ensures
        frames_alike(next_a, next_b),
{
    assert forall|r: int, c: int| #[trigger] next_a.y.spans(r, c) implies next_a.y.at(r, c)
        == next_b.y.at(r, c) by {
        assert(a.y.spans(r, c) && next_b.y.spans(r, c));
    }
    assert forall|r: int, c: int| #[trigger] next_a.u.spans(r, c) implies next_a.u.at(r, c)
        == next_b.u.at(r, c) by {
        assert(a.u.spans(r, c) && next_b.u.spans(r, c));
    }
    assert forall|r: int, c: int| #[trigger] next_a.v.spans(r, c) implies next_a.v.at(r, c)
        == next_b.v.at(r, c) by {
        assert(a.v.spans(r, c) && next_b.v.spans(r, c));
    }
}

/// A frame is determined by its size and its pieces: however it is built from them, it
/// holds the same samples.
pub proof fn lemma_a_frame_is_determined(
    a: Seq<Frame>,
    b: Seq<Frame>,
    width: u32,
    height: u32,
    at: Seq<Placed>,
    pieces: Seq<Piece>,
)
    requires
        built(a, width, height, at, pieces),
        built(b, width, height, at, pieces),
    ensures
        frames_alike(a.last(), b.last()),
    decreases pieces.len(),
{
    let n = pieces.len() as int;
    if n == 0 {
        assert forall|r: int, c: int| #[trigger] a[0].y.spans(r, c) implies a[0].y.at(r, c)
            == b[0].y.at(r, c) by {
            assert(b[0].y.spans(r, c));
        }
        assert forall|r: int, c: int| #[trigger] a[0].u.spans(r, c) implies a[0].u.at(r, c)
            == b[0].u.at(r, c) by {
            assert(b[0].u.spans(r, c));
        }
        assert forall|r: int, c: int| #[trigger] a[0].v.spans(r, c) implies a[0].v.at(r, c)
            == b[0].v.at(r, c) by {
            assert(b[0].v.spans(r, c));
        }
    } else {
        let (fa, fb, fp) = (a.drop_last(), b.drop_last(), pieces.drop_last());
        assert(built(fa, width, height, at, fp)) by {
            assert forall|i: int| 0 <= i < fp.len() implies piece_laid(
                fa[i],
                #[trigger] fa[i + 1],
                at[i],
                fp[i],
            ) by {
                assert(fa[i + 1] == a[i + 1]);
            }
        }
        assert(built(fb, width, height, at, fp)) by {
            assert forall|i: int| 0 <= i < fp.len() implies piece_laid(
                fb[i],
                #[trigger] fb[i + 1],
                at[i],
                fp[i],
            ) by {
                assert(fb[i + 1] == b[i + 1]);
            }
        }
        lemma_a_frame_is_determined(fa, fb, width, height, at, fp);
        assert(a[n - 1 + 1] == a.last() && b[n - 1 + 1] == b.last());
        lemma_piece_determines(a[n - 1], a[n], b[n - 1], b[n], at[n - 1], pieces[n - 1]);
    }
}

/// Paints the pieces on black, bottom layer first.
pub fn assemble(width: u32, height: u32, at: &Vec<Placed>, pieces: &Vec<Piece>) -> (r: Frame)
    requires
        width * height <= usize::MAX,
        at.len() == pieces.len(),
        forall|i: int| 0 <= i < pieces.len() ==> (#[trigger] pieces@[i]).sound(),
    ensures
        exists|stages: Seq<Frame>| #[trigger]
            built(stages, width, height, at@, pieces@) && stages.last() == r,
{
    let mut frame: Frame = Frame::flat(width, height, BLACK_Y, BLACK_UV, BLACK_UV);
    let ghost mut stages: Seq<Frame> = seq![frame];
    let mut i: usize = 0;
    while i < pieces.len()
        invariant
            i <= pieces.len(),
            at.len() == pieces.len(),
            forall|k: int| 0 <= k < pieces.len() ==> (#[trigger] pieces@[k]).sound(),
            frame.sound(),
            stages.len() == i + 1,
            stages.last() == frame,
            is_black(stages[0], width, height),
            forall|k: int|
                0 <= k < i ==> piece_laid(stages[k], #[trigger] stages[k + 1], at@[k], pieces@[k]),
        decreases pieces.len() - i,
    {
        let ghost before = frame;
        let p: Placed = at[i];
        assert(pieces@[i as int].sound());
        match &pieces[i] {
            Piece::Footage(f) => {
                compose(&mut frame, f, p.place.x, p.place.y, p.alpha);
            },
            Piece::Title { mask, color, alpha } => {
                compose_color(
                    &mut frame,
                    mask,
                    p.place.x,
                    p.place.y,
                    *color,
                    (*alpha).times(p.alpha),
                );
            },
            Piece::Missing => {},
        }
        proof {
            assert(piece_laid(before, frame, at@[i as int], pieces@[i as int]));
            let grown = stages.push(frame);
            assert forall|k: int| 0 <= k < i + 1 implies piece_laid(
                grown[k],
                #[trigger] grown[k + 1],
                at@[k],
                pieces@[k],
            ) by {
                if k < i {
                    assert(grown[k + 1] == stages[k + 1]);
                }
            }
            stages = grown;
        }
        i += 1;
    }
    proof {
        assert(built(stages, width, height, at@, pieces@));
    }
    frame
}

} // verus!
