//! The mix: which clips sound, how loud, and the buffers between decoding and
//! playing.

use crate::export::{CHANNELS, RESEEK_THRESHOLD_SEC, SAMPLE_RATE};
use crate::hearing::{lemma_a_clock_runs_on, ordinary, runs_on};
use crate::ieee::facts::{
    lemma_double_order, lemma_double_positive, lemma_double_share, lemma_double_times_commutes,
};
use crate::ieee::near::double_upto;
use crate::ieee::{double, single, Double, Single};
use crate::timeline::{
    first_clip_at, lanes, Clip, Lane, SourceId, Track, TrackKind, ONE, UNITY, ZERO,
};
use std::collections::VecDeque;
use vstd::prelude::*;

verus! {

/// How much sound is kept queued ahead of the output, `0.15` seconds.
pub const TARGET_BUFFER_SEC: u64 = 0x3fc3_3333_3333_3333;

/// How many sample frames are mixed before the timeline is asked again.
pub const MIX_CHUNK_FRAMES: usize = 1024;

/// Ticks per second of a demuxer's clock, `1000000`.
pub const AV_TIME_BASE: u64 = 0x412e_8480_0000_0000;

/// Peaks per second of a waveform, `50`.
pub const WAVEFORM_PEAKS_PER_SEC: u64 = 0x4049_0000_0000_0000;

/// The clips that sound at `t`: the first on each audio track, track by track.
pub open spec fn sounding(tracks: Seq<Lane>, t: Double) -> Seq<Clip>
    decreases tracks.len(),
{
    if tracks.len() == 0 {
        Seq::empty()
    } else {
        let before = sounding(tracks.drop_last(), t);
        let lane = tracks.last();
        if lane.kind != TrackKind::Audio {
            before
        } else {
            match lane.active(t) {
                Some(i) => before.push(lane.clips[i]),
                None => before,
            }
        }
    }
}

/// The clips that sound at `t`: the first on each audio track, track by track.
pub fn voices_at(tracks: &Vec<Track>, t: Double) -> (r: Vec<Clip>)
    ensures
        r@ == sounding(lanes(tracks@), t),
{
    let mut out: Vec<Clip> = Vec::new();
    let mut i: usize = 0;
    let ghost ls = lanes(tracks@);
    proof {
        assert(ls.take(0) =~= Seq::empty());
    }
    while i < tracks.len()
        invariant
            i <= tracks.len(),
            ls == lanes(tracks@),
            out@ == sounding(ls.take(i as int), t),
        decreases tracks.len() - i,
    {
        proof {
            assert(ls.take(i + 1).drop_last() =~= ls.take(i as int));
        }
        if tracks[i].kind == TrackKind::Audio {
            if let Some(k) = first_clip_at(&tracks[i].clips, t) {
                out.push(tracks[i].clips[k]);
            }
        }
        i += 1;
    }
    proof {
        assert(ls.take(ls.len() as int) =~= ls);
    }
    out
}

/// Whether a stream that stands at `position` has to be sought before `clip` is
/// sampled at `t`.
pub fn needs_seek(position: Double, clip: &Clip, t: Double) -> (r: bool)
    ensures
        r == double(RESEEK_THRESHOLD_SEC).lt(position.minus(clip.source_time(t)).abs()),
{
    double(RESEEK_THRESHOLD_SEC).lt(position.minus(clip.source_time(t)).abs())
}

/// When sample `i` of a block that begins at `t` sounds.
pub open spec fn sample_time(t: Double, i: int) -> Double {
    t.plus(
        Double::from_u64((i / CHANNELS as int) as u64).times(
            double(ONE).over(Double::from_u64(SAMPLE_RATE as u64)),
        ),
    )
}

/// Adds the first `n` samples of a clip into a mix from `at` on, each at the clip's
/// level when it sounds. The block begins at `t`.
pub fn add_voice(
    mix: &mut Vec<Single>,
    at: usize,
    samples: &Vec<Single>,
    n: usize,
    clip: &Clip,
    t: Double,
)
    requires
        n <= samples.len(),
        at + n <= old(mix).len(),
    ensures
        final(mix).len() == old(mix).len(),
        forall|j: int|
            0 <= j < final(mix).len() ==> #[trigger] final(mix)@[j] == (if at <= j < at + n {
                old(mix)@[j].plus(samples@[j - at].times(clip.level(sample_time(t, j - at))))
            } else {
                old(mix)@[j]
            }),
{
    let dt: Double = double(ONE).over(Double::from_u64(SAMPLE_RATE as u64));
    let mut i: usize = 0;
    while i < n
        invariant
            i <= n,
            n <= samples.len(),
            at + n <= mix.len(),
            mix.len() == old(mix).len(),
            dt == double(ONE).over(Double::from_u64(SAMPLE_RATE as u64)),
            forall|j: int|
                0 <= j < mix.len() ==> #[trigger] mix@[j] == (if at <= j < at + i {
                    old(mix)@[j].plus(samples@[j - at].times(clip.level(sample_time(t, j - at))))
                } else {
                    old(mix)@[j]
                }),
        decreases n - i,
    {
        let level: Single = clip.level(t.plus(Double::from_u64((i / CHANNELS) as u64).times(dt)));
        let v: Single = mix[at + i].plus(samples[i].times(level));
        mix.set(at + i, v);
        i += 1;
    }
}

/// What sounds at sample `j` of a block that begins at `t`: the voices in order, each
/// added at its clip's level, from nothing on. A voice adds nothing past what was read of it.
pub open spec fn mixed(clips: Seq<Clip>, reads: Seq<Seq<Single>>, t: Double, j: int) -> Single
    decreases clips.len(),
{
    if clips.len() == 0 {
        single(0)
    } else {
        let below = mixed(clips.drop_last(), reads, t, j);
        let k = clips.len() - 1;
        if j < reads[k].len() {
            below.plus(reads[k][j].times(clips[k].level(sample_time(t, j))))
        } else {
            below
        }
    }
}

/// What was read of each voice.
pub open spec fn heard(reads: Seq<Vec<Single>>) -> Seq<Seq<Single>> {
    Seq::new(reads.len(), |i: int| reads[i]@)
}

/// Mixes the voices of a block of `n` samples that begins at `t`: tracks add together,
/// each voice at its clip's level. `reads` holds what was read of each voice, less than a
/// block where its source ran out, nothing where it has none.
pub fn mix_voices(clips: &Vec<Clip>, reads: &Vec<Vec<Single>>, n: usize, t: Double) -> (r: Vec<
    Single,
>)
    requires
        clips.len() == reads.len(),
    ensures
        r.len() == n,
        forall|j: int| 0 <= j < n ==> #[trigger] r@[j] == mixed(clips@, heard(reads@), t, j),
{
    let mut mix: Vec<Single> = silence(n);
    let mut k: usize = 0;
    while k < clips.len()
        invariant
            k <= clips.len(),
            clips.len() == reads.len(),
            mix.len() == n,
            forall|j: int|
                0 <= j < n ==> #[trigger] mix@[j] == mixed(
                    clips@.take(k as int),
                    heard(reads@),
                    t,
                    j,
                ),
        decreases clips.len() - k,
    {
        let got: usize = if reads[k].len() < n {
            reads[k].len()
        } else {
            n
        };
        add_voice(&mut mix, 0, &reads[k], got, &clips[k], t);
        proof {
            let up = clips@.take(k + 1);
            assert(up.drop_last() =~= clips@.take(k as int));
            assert(up[k as int] == clips@[k as int]);
        }
        k += 1;
    }
    proof {
        assert(clips@.take(clips.len() as int) =~= clips@);
    }
    mix
}

/// Silence of a given length.
pub fn silence(n: usize) -> (r: Vec<Single>)
    ensures
        r.len() == n,
        forall|i: int| 0 <= i < n ==> #[trigger] r@[i] == single(0),
{
    let mut out: Vec<Single> = Vec::new();
    let mut i: usize = 0;
    while i < n
        invariant
            i <= n,
            out.len() == i,
            forall|j: int| 0 <= j < i ==> #[trigger] out@[j] == single(0),
        decreases n - i,
    {
        out.push(single(0));
        i += 1;
    }
    out
}

/// What the output device plays from: sound mixed ahead, and the clock.
pub struct Playback {
    /// Interleaved samples, the next one first.
    pub buffer: VecDeque<Single>,
    /// Timeline time of the next sample; the clock that everything follows.
    pub consume_t: Double,
    pub playing: bool,
}

/// What the playback holds.
#[verifier::ext_equal]
pub struct Queue {
    pub buffer: Seq<Single>,
    pub consume_t: Double,
    pub playing: bool,
}

impl View for Playback {
    type V = Queue;

    open spec fn view(&self) -> Queue {
        Queue { buffer: self.buffer@, consume_t: self.consume_t, playing: self.playing }
    }
}

/// The samples that are kept queued ahead of the output.
pub open spec fn target_samples() -> int {
    double(TARGET_BUFFER_SEC).times(Double::from_u64(SAMPLE_RATE as u64)).to_usize() * CHANNELS
}

impl Queue {
    /// The sample at place `i`; `other` where the queue has run dry.
    pub open spec fn sample(self, i: int, other: Single) -> Single {
        if i < self.buffer.len() {
            self.buffer[i]
        } else {
            other
        }
    }

    /// How many samples are missing from the queue, whole frames only.
    pub open spec fn missing(self) -> int {
        let need = if target_samples() > self.buffer.len() {
            target_samples() - self.buffer.len()
        } else {
            0
        };
        need / CHANNELS as int * CHANNELS
    }

    /// Where the next mixed sample belongs on the timeline.
    pub open spec fn fill_time(self) -> Double {
        self.consume_t.plus(
            Double::from_u64((self.buffer.len() / CHANNELS as nat) as u64).over(
                Double::from_u64(SAMPLE_RATE as u64),
            ),
        )
    }
}

impl Playback {
    /// At the start, stopped, nothing queued.
    pub fn new() -> (r: Playback)
        ensures
            r@ == (Queue { buffer: Seq::empty(), consume_t: double(ZERO), playing: false }),
    {
        Playback { buffer: VecDeque::new(), consume_t: double(ZERO), playing: false }
    }

    /// Jumps the playhead, not before the start, and drops what was mixed ahead.
    pub fn set_position(&mut self, t: Double)
        ensures
            final(self)@ == (Queue {
                buffer: Seq::empty(),
                consume_t: t.max(double(ZERO)),
                ..old(self)@
            }),
    {
        self.consume_t = t.max(double(ZERO));
        self.buffer.clear();
    }

    /// Starts or stops. Stopping drops what was mixed ahead.
    pub fn set_playing(&mut self, playing: bool)
        ensures
            final(self)@ == (Queue {
                buffer: if playing {
                    old(self)@.buffer
                } else {
                    Seq::empty()
                },
                playing,
                ..old(self)@
            }),
    {
        self.playing = playing;
        if !playing {
            self.buffer.clear();
        }
    }

    /// Starts what is stopped and stops what plays.
    pub fn toggle(&mut self)
        ensures
            final(self)@ == (Queue {
                buffer: if old(self).playing {
                    Seq::empty()
                } else {
                    old(self)@.buffer
                },
                playing: !old(self).playing,
                ..old(self)@
            }),
    {
        let playing: bool = !self.playing;
        self.set_playing(playing);
    }

    /// Where mixing goes on, and how many samples are missing.
    pub fn shortfall(&self) -> (r: (Double, usize))
        ensures
            r.0 == self@.fill_time(),
            r.1 == self@.missing(),
    {
        proof {
            lemma_target_is_small();
        }
        let target: usize = double(TARGET_BUFFER_SEC).times(
            Double::from_u64(SAMPLE_RATE as u64),
        ).to_usize() * CHANNELS;
        let have: usize = self.buffer.len();
        let need: usize = if target > have {
            target - have
        } else {
            0
        };
        let whole: usize = need / CHANNELS * CHANNELS;
        (
            self.consume_t.plus(
                Double::from_u64((have / CHANNELS) as u64).over(
                    Double::from_u64(SAMPLE_RATE as u64),
                ),
            ),
            whole,
        )
    }

    /// Queues a mix.
    pub fn extend(&mut self, mix: &Vec<Single>)
        ensures
            final(self)@ == (Queue { buffer: old(self)@.buffer + mix@, ..old(self)@ }),
    {
        let mut i: usize = 0;
        while i < mix.len()
            invariant
                i <= mix.len(),
                self.consume_t == old(self).consume_t,
                self.playing == old(self).playing,
                self.buffer@ =~= old(self).buffer@ + mix@.take(i as int),
            decreases mix.len() - i,
        {
            self.buffer.push_back(mix[i]);
            i += 1;
        }
        proof {
            assert(mix@.take(mix.len() as int) =~= mix@);
        }
    }

    /// The next sample, or `other` where the queue has run dry.
    fn pop(&mut self, other: Single) -> (r: Single)
        ensures
            r == old(self)@.sample(0, other),
            final(self)@ == (Queue {
                buffer: if old(self)@.buffer.len() > 0 {
                    old(self)@.buffer.skip(1)
                } else {
                    Seq::empty()
                },
                ..old(self)@
            }),
    {
        match self.buffer.pop_front() {
            Some(s) => s,
            None => other,
        }
    }

    /// What the device plays next: `frames` frames of `channels` samples. The first
    /// two channels carry the mix, a dry queue gives silence, further channels stay
    /// silent, and the clock runs on by the whole block while playing.
    pub fn render(&mut self, frames: usize, channels: usize, rate: u32) -> (out: Vec<Single>)
        requires
            frames * channels <= usize::MAX,
            2 * frames <= usize::MAX,
        ensures
            out.len() == frames * channels,
            !old(self).playing ==> *final(self) == *old(self) && forall|j: int|
                0 <= j < out.len() ==> #[trigger] out@[j] == single(0),
            old(self).playing ==> {
                &&& final(self)@ == (Queue {
                    buffer: if 2 * frames < old(self)@.buffer.len() {
                        old(self)@.buffer.skip(2 * frames)
                    } else {
                        Seq::empty()
                    },
                    consume_t: old(self).consume_t.plus(
                        Double::from_u64(frames as u64).over(Double::from_u64(rate as u64)),
                    ),
                    playing: true,
                })
                &&& ordinary(old(self).consume_t, frames as int, rate as int) ==> runs_on(
                    old(self).consume_t,
                    final(self).consume_t,
                    frames as int,
                    rate as int,
                )
                &&& forall|f: int, c: int| #![trigger slot(f, c, channels as int)]
                    0 <= f < frames && 0 <= c < channels ==> out@[slot(f, c, channels as int)]
                        == played(old(self)@, f, c)
            },
    {
        let mut out: Vec<Single> = Vec::new();
        if !self.playing {
            return silence(frames * channels);
        }
        let mut f: usize = 0;
        proof {
            assert(0 * channels == 0);
            assert(old(self)@.buffer.skip(0) =~= old(self)@.buffer);
        }
        while f < frames
            invariant
                f <= frames,
                frames * channels <= usize::MAX,
                2 * frames <= usize::MAX,
                self.playing == old(self).playing,
                self.consume_t == old(self).consume_t,
                out.len() == f * channels,
                self.buffer@ =~= (if 2 * f < old(self)@.buffer.len() {
                    old(self)@.buffer.skip(2 * f)
                } else {
                    Seq::empty()
                }),
                forall|g: int, c: int| #![trigger slot(g, c, channels as int)]
                    0 <= g < f && 0 <= c < channels ==> out@[slot(g, c, channels as int)] == played(
                        old(self)@,
                        g,
                        c,
                    ),
            decreases frames - f,
        {
            let l: Single = self.pop(single(0));
            let r: Single = self.pop(l);
            let ghost before = out@;
            let mut c: usize = 0;
            while c < channels
                invariant
                    c <= channels,
                    out.len() == f * channels + c,
                    forall|k: int| 0 <= k < before.len() ==> out@[k] == before[k],
                    before.len() == f * channels,
                    forall|k: int|
                        0 <= k < c ==> #[trigger] out@[f * channels + k] == (if k == 0 {
                            l
                        } else if k == 1 {
                            r
                        } else {
                            single(0)
                        }),
                decreases channels - c,
            {
                out.push(
                    if c == 0 {
                        l
                    } else if c == 1 {
                        r
                    } else {
                        single(0)
                    },
                );
                c += 1;
            }
            proof {
                assert((f + 1) * channels == f * channels + channels) by (nonlinear_arith);
                assert forall|g: int, c: int| #![trigger slot(g, c, channels as int)]
                    0 <= g < f + 1 && 0 <= c < channels implies out@[slot(g, c, channels as int)]
                    == played(old(self)@, g, c) by {
                    if g < f {
                        assert(g * channels + c < f * channels) by (nonlinear_arith)
                            requires
                                g + 1 <= f,
                                c < channels,
                        ;
                        assert(g * channels + c >= 0) by (nonlinear_arith)
                            requires
                                g >= 0,
                                c >= 0,
                        ;
                        assert(before[slot(g, c, channels as int)] == played(old(self)@, g, c));
                    } else {
                        assert(out@[f * channels + c] == played(old(self)@, g, c));
                    }
                }
            }
            f += 1;
        }
        proof {
            if ordinary(self.consume_t, frames as int, rate as int) {
                lemma_a_clock_runs_on(self.consume_t, frames as u64, rate);
            }
        }
        self.consume_t = self.consume_t.plus(
            Double::from_u64(frames as u64).over(Double::from_u64(rate as u64)),
        );
        out
    }
}

/// Where channel `c` of frame `f` stands in an interleaved block.
pub open spec fn slot(f: int, c: int, channels: int) -> int {
    f * channels + c
}

/// What channel `c` of frame `f` plays from a queue.
pub open spec fn played(q: Queue, f: int, c: int) -> Single {
    let l = q.sample(2 * f, single(0));
    if c == 0 {
        l
    } else if c == 1 {
        q.sample(2 * f + 1, l)
    } else {
        single(0)
    }
}

/// The samples kept queued fit in any machine's counter.
proof fn lemma_target_is_small()
    ensures
        0 <= target_samples() <= SAMPLE_RATE * CHANNELS,
{
    let share = double(TARGET_BUFFER_SEC);
    lemma_double_positive(share);
    lemma_double_order(share, double(ONE));
    lemma_double_times_commutes(share, Double::from_u64(SAMPLE_RATE as u64));
    lemma_double_share(SAMPLE_RATE as u64, share);
}

/// A run of mixing ahead: chunk by chunk, the timeline asked anew for each.
#[derive(Clone, Copy, Debug, PartialEq)]
pub struct MixRun {
    /// Timeline time of the next chunk.
    pub at: Double,
    /// Samples mixed so far.
    pub cursor: usize,
    /// Samples wanted.
    pub total: usize,
}

impl MixRun {
    /// How many samples the next chunk has.
    pub open spec fn chunk(self) -> int {
        let left = self.total - self.cursor;
        if left < MIX_CHUNK_FRAMES * CHANNELS {
            left
        } else {
            MIX_CHUNK_FRAMES * CHANNELS
        }
    }

    /// The next chunk: how many samples, from when; none where the run is over. The
    /// run moves past it.
    pub fn next_chunk(&mut self) -> (r: Option<(usize, Double)>)
        requires
            old(self).cursor <= old(self).total,
        ensures
            final(self).cursor <= final(self).total,
            final(self).total == old(self).total,
            old(self).cursor == old(self).total ==> r is None && *final(self) == *old(self),
            old(self).cursor < old(self).total ==> {
                let n = old(self).chunk();
                &&& r == Some((n as usize, old(self).at))
                &&& final(self).cursor == old(self).cursor + n
                &&& final(self).at == old(self).at.plus(
                    Double::from_u64((n / CHANNELS as int) as u64).over(
                        Double::from_u64(SAMPLE_RATE as u64),
                    ),
                )
                &&& double_upto(old(self).at, 1100) ==> runs_on(
                    old(self).at,
                    final(self).at,
                    n / 2,
                    48_000,
                )
            },
    {
        if self.cursor >= self.total {
            return None;
        }
        let left: usize = self.total - self.cursor;
        let n: usize = if left < MIX_CHUNK_FRAMES * CHANNELS {
            left
        } else {
            MIX_CHUNK_FRAMES * CHANNELS
        };
        let at: Double = self.at;
        proof {
            if double_upto(at, 1100) {
                lemma_a_clock_runs_on(at, (n / 2) as u64, 48_000);
            }
        }
        self.cursor = self.cursor + n;
        self.at = at.plus(
            Double::from_u64((n / CHANNELS) as u64).over(Double::from_u64(SAMPLE_RATE as u64)),
        );
        Some((n, at))
    }
}

/// The queue between an audio decoder and its readers.
pub struct StreamBuffer {
    /// Interleaved samples, decoded and not yet read.
    pub pending: VecDeque<Single>,
    /// Source time of the next sample to be read.
    pub position: Double,
    /// Samples still to be thrown away after a seek.
    pub to_drop: usize,
}

/// What a stream's queue holds.
#[verifier::ext_equal]
pub struct StreamQueue {
    pub pending: Seq<Single>,
    pub position: Double,
    pub to_drop: usize,
}

impl View for StreamBuffer {
    type V = StreamQueue;

    open spec fn view(&self) -> StreamQueue {
        StreamQueue { pending: self.pending@, position: self.position, to_drop: self.to_drop }
    }
}

/// The demuxer tick of a time, not before the start.
pub open spec fn seek_tick(t: Double) -> i64 {
    t.max(double(ZERO)).times(double(AV_TIME_BASE)).to_i64()
}

/// The demuxer tick of a time, not before the start.
pub fn tick_of(t: Double) -> (r: i64)
    ensures
        r == seek_tick(t),
{
    t.max(double(ZERO)).times(double(AV_TIME_BASE)).to_i64()
}

/// How many frames lie between where the demuxer landed and `t`.
pub open spec fn lead_frames(t: Double, landed: Double) -> usize {
    t.minus(landed).times(Double::from_u64(SAMPLE_RATE as u64)).round().to_usize()
}

impl StreamBuffer {
    /// At the start of its source, nothing decoded.
    pub fn new() -> (r: StreamBuffer)
        ensures
            r@ == (StreamQueue { pending: Seq::empty(), position: double(ZERO), to_drop: 0 }),
    {
        StreamBuffer { pending: VecDeque::new(), position: double(ZERO), to_drop: 0 }
    }

    /// Begins a seek to `t`: what was decoded is dropped. Returns the demuxer tick to
    /// seek to.
    pub fn begin_seek(&mut self, t: Double) -> (tick: i64)
        ensures
            final(self)@ == (StreamQueue {
                pending: Seq::empty(),
                position: t.max(double(ZERO)),
                to_drop: 0,
            }),
            tick == seek_tick(t),
    {
        self.pending.clear();
        self.position = t.max(double(ZERO));
        self.to_drop = 0;
        tick_of(t)
    }

    /// The demuxer landed at `first`: what lies before the position is to be thrown
    /// away; where it landed behind, the position moves there.
    pub fn landed(&mut self, first: Double)
        requires
            2 * lead_frames(old(self).position, first) <= usize::MAX,
        ensures
            ({
                let lead = old(self).position.minus(first);
                final(self)@ == (if double(ZERO).lt(lead) {
                    StreamQueue {
                        to_drop: (lead_frames(old(self).position, first) * CHANNELS) as usize,
                        ..old(self)@
                    }
                } else if lead.lt(double(ZERO)) {
                    StreamQueue { position: first, ..old(self)@ }
                } else {
                    old(self)@
                })
            }),
    {
        let lead: Double = self.position.minus(first);
        if double(ZERO).lt(lead) {
            self.to_drop = lead.times(Double::from_u64(SAMPLE_RATE as u64)).round().to_usize()
                * CHANNELS;
        } else if lead.lt(double(ZERO)) {
            self.position = first;
        }
    }

    /// Queues decoded samples.
    pub fn push(&mut self, samples: &Vec<Single>)
        ensures
            final(self)@ == (StreamQueue { pending: old(self)@.pending + samples@, ..old(self)@ }),
    {
        let mut i: usize = 0;
        while i < samples.len()
            invariant
                i <= samples.len(),
                self.position == old(self).position,
                self.to_drop == old(self).to_drop,
                self.pending@ =~= old(self).pending@ + samples@.take(i as int),
            decreases samples.len() - i,
        {
            self.pending.push_back(samples[i]);
            i += 1;
        }
        proof {
            assert(samples@.take(samples.len() as int) =~= samples@);
        }
    }

    /// Throws away what a seek left to be thrown away, as far as it has been decoded.
    /// Says whether more has to be decoded for it.
    pub fn drop_lead(&mut self) -> (more: bool)
        ensures
            ({
                let n = if old(self).to_drop < old(self)@.pending.len() {
                    old(self).to_drop as int
                } else {
                    old(self)@.pending.len() as int
                };
                final(self)@ == (StreamQueue {
                    pending: old(self)@.pending.skip(n),
                    to_drop: (old(self).to_drop - n) as usize,
                    ..old(self)@
                })
            }),
            more == (final(self).to_drop > 0),
    {
        let n: usize = if self.to_drop < self.pending.len() {
            self.to_drop
        } else {
            self.pending.len()
        };
        let mut i: usize = 0;
        proof {
            assert(self.pending@.skip(0) =~= self.pending@);
        }
        while i < n
            invariant
                i <= n,
                n <= old(self)@.pending.len(),
                self.position == old(self).position,
                self.to_drop == old(self).to_drop,
                self.pending@ =~= old(self)@.pending.skip(i as int),
            decreases n - i,
        {
            let _ = self.pending.pop_front();
            i += 1;
        }
        self.to_drop = self.to_drop - n;
        self.to_drop > 0
    }

    /// Moves up to `wanted` samples to the end of `out`, as far as they have been
    /// decoded.
    pub fn take(&mut self, out: &mut Vec<Single>, wanted: usize)
        ensures
            ({
                let n = if wanted < old(self)@.pending.len() {
                    wanted as int
                } else {
                    old(self)@.pending.len() as int
                };
                &&& final(out)@ == old(out)@ + old(self)@.pending.take(n)
                &&& final(self)@ == (StreamQueue {
                    pending: old(self)@.pending.skip(n),
                    ..old(self)@
                })
            }),
    {
        let n: usize = if wanted < self.pending.len() {
            wanted
        } else {
            self.pending.len()
        };
        let mut i: usize = 0;
        proof {
            assert(self.pending@.skip(0) =~= self.pending@);
            assert(out@ + self.pending@.take(0) =~= out@);
        }
        while i < n
            invariant
                i <= n,
                n <= old(self)@.pending.len(),
                self.position == old(self).position,
                self.to_drop == old(self).to_drop,
                self.pending@ =~= old(self)@.pending.skip(i as int),
                out@ =~= old(out)@ + old(self)@.pending.take(i as int),
            decreases n - i,
        {
            match self.pending.pop_front() {
                Some(s) => {
                    out.push(s);
                },
                None => {},
            }
            i += 1;
        }
    }

    /// Moves the position past `written` samples that were read.
    pub fn advance(&mut self, written: usize)
        ensures
            final(self)@ == (StreamQueue {
                position: old(self).position.plus(
                    Double::from_u64((written / CHANNELS) as u64).over(
                        Double::from_u64(SAMPLE_RATE as u64),
                    ),
                ),
                ..old(self)@
            }),
            ordinary(old(self).position, written as int / 2, 48_000) ==> runs_on(
                old(self).position,
                final(self).position,
                written as int / 2,
                48_000,
            ),
    {
        proof {
            if ordinary(self.position, written as int / 2, 48_000) {
                lemma_a_clock_runs_on(self.position, (written / 2) as u64, 48_000);
            }
        }
        self.position = self.position.plus(
            Double::from_u64((written / CHANNELS) as u64).over(
                Double::from_u64(SAMPLE_RATE as u64),
            ),
        );
    }
}

/// The loudest of some samples, whatever their sign.
pub open spec fn loudest(s: Seq<Single>) -> Single
    decreases s.len(),
{
    if s.len() == 0 {
        single(0)
    } else {
        let before = loudest(s.drop_last());
        if before.lt(s.last().abs()) {
            s.last().abs()
        } else {
            before
        }
    }
}

/// The loudest of each whole bucket of `size` samples, at most 1.
pub open spec fn peaks_of(s: Seq<Single>, size: int) -> Seq<Single> {
    Seq::new(
        (s.len() as int / size) as nat,
        |k: int| loudest(s.subrange(k * size, (k + 1) * size)).min(single(UNITY)),
    )
}

/// The loudest sample of each stretch of a source, for drawing.
#[derive(Debug, PartialEq)]
pub struct Waveform {
    pub peaks: Vec<Single>,
    /// How much of the source each peak stands for, in seconds.
    pub bucket_seconds: Double,
}

/// The peaks of a source and how long each stands for; none where there is no waveform.
pub open spec fn peaks_for(waves: Seq<Waveform>, source: SourceId) -> (Seq<Single>, Double) {
    if source.0 < waves.len() {
        (waves[source.0 as int].peaks@, waves[source.0 as int].bucket_seconds)
    } else {
        (Seq::empty(), double(ZERO))
    }
}

impl Waveform {
    /// A waveform without peaks.
    pub fn flat() -> (r: Waveform)
        ensures
            r.peaks@ == Seq::<Single>::empty(),
            r.bucket_seconds == double(ZERO),
    {
        Waveform { peaks: Vec::new(), bucket_seconds: double(ZERO) }
    }
}

/// The waveform of a source, `flat` where there is none.
pub fn wave_for<'a>(waves: &'a Vec<Waveform>, source: SourceId, flat: &'a Waveform) -> (r:
    &'a Waveform)
    requires
        flat.peaks@ == Seq::<Single>::empty(),
        flat.bucket_seconds == double(ZERO),
    ensures
        (r.peaks@, r.bucket_seconds) == peaks_for(waves@, source),
{
    if (source.0 as usize) < waves.len() {
        &waves[source.0 as usize]
    } else {
        flat
    }
}

/// A waveform being built, sample by sample.
pub struct PeakBuilder {
    /// Samples per peak.
    pub size: usize,
    pub peaks: Vec<Single>,
    /// The loudest sample of the open bucket.
    pub peak: Single,
    /// Samples in the open bucket.
    pub count: usize,
    /// All samples so far.
    pub seen: Ghost<Seq<Single>>,
}

/// How many samples of a stream at `rate` one peak stands for.
pub open spec fn bucket_size(rate: u32) -> usize {
    Double::from_u64(rate as u64).over(double(WAVEFORM_PEAKS_PER_SEC)).round().max(
        double(ONE),
    ).to_usize()
}

impl PeakBuilder {
    /// The closed buckets hold the peaks of what was seen, the open one what is left.
    pub open spec fn sound(&self) -> bool {
        &&& self.size > 0
        &&& self.count < self.size
        &&& self.count == self.seen@.len() as int % self.size as int
        &&& self.peaks@ == peaks_of(self.seen@, self.size as int)
        &&& self.peak == loudest(self.seen@.skip(self.seen@.len() - self.count))
    }

    /// Nothing seen yet.
    pub fn new(rate: u32) -> (r: PeakBuilder)
        ensures
            r.sound(),
            r.seen@ == Seq::<Single>::empty(),
            r.size == bucket_size(rate),
    {
        let size: usize = Double::from_u64(rate as u64).over(
            double(WAVEFORM_PEAKS_PER_SEC),
        ).round().max(double(ONE)).to_usize();
        proof {
            lemma_double_max_one(
                Double::from_u64(rate as u64).over(double(WAVEFORM_PEAKS_PER_SEC)).round(),
            );
            assert(Seq::<Single>::empty().skip(0) =~= Seq::<Single>::empty());
            vstd::arithmetic::div_mod::lemma_fundamental_div_mod_converse(0, size as int, 0, 0);
            assert(peaks_of(Seq::empty(), size as int) =~= Seq::<Single>::empty());
        }
        PeakBuilder {
            size,
            peaks: Vec::new(),
            peak: single(0),
            count: 0,
            seen: Ghost(Seq::empty()),
        }
    }

    /// Takes in one sample.
    pub fn absorb(&mut self, s: Single)
        requires
            old(self).sound(),
        ensures
            final(self).sound(),
            final(self).seen@ == old(self).seen@.push(s),
            final(self).size == old(self).size,
    {
        proof {
            lemma_absorb(self.seen@, s, self.size as int);
        }
        let a: Single = s.abs();
        if self.peak.lt(a) {
            self.peak = a;
        }
        self.count = self.count + 1;
        self.seen = Ghost(self.seen@.push(s));
        if self.count >= self.size {
            self.peaks.push(self.peak.min(single(UNITY)));
            self.peak = single(0);
            self.count = 0;
        }
    }

    /// The finished waveform: a bucket that was begun counts too.
    pub fn finish(self, rate: u32) -> (r: Waveform)
        requires
            self.sound(),
        ensures
            r.peaks@ == (if self.seen@.len() as int % self.size as int > 0 {
                peaks_of(self.seen@, self.size as int).push(
                    loudest(
                        self.seen@.skip(
                            self.seen@.len() - self.seen@.len() as int % self.size as int,
                        ),
                    ).min(single(UNITY)),
                )
            } else {
                peaks_of(self.seen@, self.size as int)
            }),
            r.bucket_seconds == Double::from_u64(self.size as u64).over(
                Double::from_u64(rate as u64),
            ),
    {
        let mut peaks: Vec<Single> = self.peaks;
        if self.count > 0 {
            peaks.push(self.peak.min(single(UNITY)));
        }
        Waveform {
            peaks,
            bucket_seconds: Double::from_u64(self.size as u64).over(Double::from_u64(rate as u64)),
        }
    }
}

/// What one more sample does to the buckets.
proof fn lemma_absorb(was: Seq<Single>, s: Single, b: int)
    requires
        b > 0,
    ensures
        ({
            let n = was.len() as int;
            let c = n % b;
            let now = was.push(s);
            &&& 0 <= c <= n
            &&& c < b
            &&& loudest(now.skip(n - c)) == (if loudest(was.skip(n - c)).lt(s.abs()) {
                s.abs()
            } else {
                loudest(was.skip(n - c))
            })
            &&& c + 1 == b ==> {
                &&& (n + 1) % b == 0
                &&& peaks_of(now, b) == peaks_of(was, b).push(
                    loudest(now.skip(n - c)).min(single(UNITY)),
                )
                &&& loudest(now.skip(n + 1)) == single(0)
            }
            &&& c + 1 < b ==> (n + 1) % b == c + 1 && peaks_of(now, b) == peaks_of(was, b)
        }),
{
    let n = was.len() as int;
    let c = n % b;
    let k = n / b;
    let now = was.push(s);
    vstd::arithmetic::div_mod::lemma_fundamental_div_mod(n, b);
    vstd::arithmetic::div_mod::lemma_mod_bound(n, b);
    vstd::arithmetic::div_mod::lemma_div_pos_is_pos(n, b);
    assert(b * k >= 0) by (nonlinear_arith)
        requires
            b > 0,
            k >= 0,
    ;
    assert(now.skip(n - c).drop_last() =~= was.skip(n - c));
    assert forall|i: int| 0 <= i < k implies #[trigger] now.subrange(i * b, (i + 1) * b)
        == was.subrange(i * b, (i + 1) * b) by {
        assert(0 <= i * b && i * b <= (i + 1) * b && (i + 1) * b <= b * k) by (nonlinear_arith)
            requires
                0 <= i,
                i + 1 <= k,
                b > 0,
        ;
        assert(now.subrange(i * b, (i + 1) * b) =~= was.subrange(i * b, (i + 1) * b));
    }
    if c + 1 == b {
        assert(n + 1 == (k + 1) * b) by (nonlinear_arith)
            requires
                n == b * k + c,
                c + 1 == b,
        ;
        vstd::arithmetic::div_mod::lemma_fundamental_div_mod_converse(n + 1, b, k + 1, 0);
        assert(k * b == n - c) by (nonlinear_arith)
            requires
                n == b * k + c,
        ;
        assert(now.subrange(k * b, (k + 1) * b) =~= now.skip(n - c));
        assert(peaks_of(now, b) =~= peaks_of(was, b).push(
            loudest(now.skip(n - c)).min(single(UNITY)),
        ));
        assert(now.skip(n + 1) =~= Seq::empty());
    } else {
        assert(n + 1 == k * b + (c + 1)) by (nonlinear_arith)
            requires
                n == b * k + c,
        ;
        vstd::arithmetic::div_mod::lemma_fundamental_div_mod_converse(n + 1, b, k, c + 1);
        assert(peaks_of(now, b) =~= peaks_of(was, b));
    }
}

/// What is at least one has a whole part.
proof fn lemma_double_max_one(x: Double)
    ensures
        x.max(double(ONE)).to_usize() >= 1,
{
    crate::ieee::facts::lemma_double_one();
    crate::ieee::facts::lemma_double_whole_part(x.max(double(ONE)));
}

/// One channel of interleaved samples.
pub fn channel_of(mixed: &Vec<Single>, frames: usize, channel: usize) -> (r: Vec<Single>)
    requires
        channel < CHANNELS,
        CHANNELS * frames <= mixed.len(),
    ensures
        r.len() == frames,
        forall|i: int| 0 <= i < frames ==> #[trigger] r@[i] == mixed@[i * CHANNELS + channel],
{
    let mut out: Vec<Single> = Vec::new();
    let mut i: usize = 0;
    while i < frames
        invariant
            i <= frames,
            channel < CHANNELS,
            CHANNELS * frames <= mixed.len(),
            out.len() == i,
            forall|k: int| 0 <= k < i ==> #[trigger] out@[k] == mixed@[k * CHANNELS + channel],
        decreases frames - i,
    {
        out.push(mixed[i * CHANNELS + channel]);
        i += 1;
    }
    out
}

} // verus!
