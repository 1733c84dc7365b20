//! Planning and driving an offline render of the timeline.
//!
//! What a render does next is decided here, one step at a time; encoding the picture
//! or the block of sound that a step names is up to the caller.

use crate::ieee::facts::{lemma_single_one, lemma_single_zero};
use crate::ieee::{double, single, Double, Single};
use crate::media::lists;
use crate::timeline::{
    clips_of, lanes, latest_end, Clip, Lane, SourceId, Timeline, Track, TrackKind, ONE, UNITY, ZERO,
};
use vstd::prelude::*;

verus! {

/// Sample frames per second of the mix.
pub const SAMPLE_RATE: u32 = 48_000;

/// Interleaved channels of the mix.
pub const CHANNELS: usize = 2;

/// Used when a codec reports no fixed frame size.
pub const FALLBACK_FRAME_SIZE: usize = 1024;

/// Keyframe interval in seconds, `2`.
pub const GOP_SECONDS: u64 = 0x4000_0000_0000_0000;

/// `1000`, as a double.
pub const THOUSAND: u64 = 0x408f_4000_0000_0000;

/// An audio source is sought anew once it stands this far, `0.030` seconds, from
/// where the mix samples next.
pub const RESEEK_THRESHOLD_SEC: u64 = 0x3f9e_b851_eb85_1eb8;

/// Size and cadence of the rendered picture.
#[derive(Clone, Copy, Debug, PartialEq)]
pub struct VideoSpec {
    pub width: u32,
    pub height: u32,
    pub fps: Double,
}

/// How a render ended.
#[derive(Debug, PartialEq)]
pub enum Outcome {
    /// Finished, into this file.
    Done(String),
    Cancelled,
    Failed(String),
}

/// How far a render has come.
#[derive(Clone, Copy, Debug, PartialEq, Eq, Structural)]
pub struct Progress {
    pub done: u64,
    pub total: u64,
}

impl Progress {
    /// The part that is done, from 0 to 1; nothing where there is nothing to do.
    pub open spec fn spec_fraction(&self) -> Single {
        if self.total == 0 {
            single(0)
        } else {
            Single::from_u64(self.done).over(Single::from_u64(self.total)).clamp(
                single(0),
                single(UNITY),
            )
        }
    }

    /// The part that is done, from 0 to 1; nothing where there is nothing to do.
    #[verifier::when_used_as_spec(spec_fraction)]
    pub fn fraction(&self) -> (r: Single)
        ensures
            r == self.spec_fraction(),
    {
        proof {
            lemma_single_zero();
            lemma_single_one();
        }
        if self.total == 0 {
            single(0)
        } else {
            Single::from_u64(self.done).over(Single::from_u64(self.total)).clamp(
                single(0),
                single(UNITY),
            )
        }
    }
}

/// Why a render cannot start.
#[derive(Clone, Copy, Debug, PartialEq, Eq, Structural)]
pub enum ExportError {
    /// Nothing on the timeline to export.
    Empty,
    /// A clip refers to media that is no longer loaded.
    MissingMedia(SourceId),
}

impl ExportError {
    /// What to tell the user.
    pub open spec fn says(self) -> Seq<char> {
        match self {
            ExportError::Empty => "nothing on the timeline to export"@,
            ExportError::MissingMedia(_) => "a clip refers to media that is no longer loaded"@,
        }
    }

    /// What to tell the user.
    pub fn message(&self) -> (r: String)
        ensures
            r@ == self.says(),
    {
        match self {
            ExportError::Empty => "nothing on the timeline to export".to_owned(),
            ExportError::MissingMedia(_) => {
                "a clip refers to media that is no longer loaded".to_owned()
            },
        }
    }
}

/// The clips on tracks of one kind.
pub open spec fn clips_on(tracks: Seq<Lane>, kind: TrackKind) -> Seq<Clip>
    decreases tracks.len(),
{
    if tracks.len() == 0 {
        Seq::empty()
    } else {
        clips_on(tracks.drop_last(), kind) + if tracks.last().kind == kind {
            tracks.last().clips
        } else {
            Seq::empty()
        }
    }
}

/// The sources of some clips that have a file, each once, in the order in which the clips
/// name them.
pub open spec fn filed_sources(clips: Seq<Clip>, titles: Seq<SourceId>) -> Seq<SourceId>
    decreases clips.len(),
{
    if clips.len() == 0 {
        Seq::empty()
    } else {
        let so_far = filed_sources(clips.drop_last(), titles);
        let id = clips.last().source;
        if titles.contains(id) || so_far.contains(id) {
            so_far
        } else {
            so_far.push(id)
        }
    }
}

/// The files that a render opens for one kind of track: every source that a clip there
/// names is among them unless it is a title, none twice, and nothing else.
pub proof fn lemma_every_file_is_opened_once(clips: Seq<Clip>, titles: Seq<SourceId>)
    ensures
        filed_sources(clips, titles).no_duplicates(),
        forall|id: SourceId| #[trigger]
            filed_sources(clips, titles).contains(id) <==> !titles.contains(id) && exists|i: int|
                0 <= i < clips.len() && (#[trigger] clips[i]).source == id,
    decreases clips.len(),
{
    if clips.len() > 0 {
        let rest = clips.drop_last();
        lemma_every_file_is_opened_once(rest, titles);
        let so_far = filed_sources(rest, titles);
        let all = filed_sources(clips, titles);
        let last = clips.last().source;
        assert forall|id: SourceId| #[trigger] all.contains(id) <==> !titles.contains(id) && exists|
            i: int,
        |
            0 <= i < clips.len() && (#[trigger] clips[i]).source == id by {
            if all.contains(id) {
                if so_far.contains(id) {
                    let i = choose|i: int| 0 <= i < rest.len() && (#[trigger] rest[i]).source == id;
                    assert(clips[i] == rest[i]);
                } else {
                    assert(id == last);
                    assert(clips[clips.len() - 1].source == id);
                }
            } else if !titles.contains(id) && exists|i: int|
                0 <= i < clips.len() && (#[trigger] clips[i]).source == id {
                let i = choose|i: int| 0 <= i < clips.len() && (#[trigger] clips[i]).source == id;
                if i < clips.len() - 1 {
                    assert(rest[i] == clips[i]);
                    assert(so_far.contains(id));
                    let k = choose|k: int| 0 <= k < so_far.len() && so_far[k] == id;
                    assert(all[k] == id);
                } else if !so_far.contains(id) {
                    assert(all.last() == id);
                } else {
                    assert(all == so_far);
                }
                assert(false);
            }
        }
    }
}

/// The sources whose files a render opens for tracks of one kind. `titles` are those that
/// have no file.
pub fn source_ids(timeline: &Timeline, kind: TrackKind, titles: &Vec<SourceId>) -> (r: Vec<SourceId>)
    ensures
        r@ == filed_sources(clips_on(timeline@.tracks, kind), titles@),
{
    let ghost ls = timeline@.tracks;
    let mut ids: Vec<SourceId> = Vec::new();
    let mut t: usize = 0;
    proof {
        assert(ls.take(0) =~= Seq::empty());
    }
    while t < timeline.tracks.len()
        invariant
            t <= timeline.tracks.len(),
            ls == timeline@.tracks,
            ids@ == filed_sources(clips_on(ls.take(t as int), kind), titles@),
        decreases timeline.tracks.len() - t,
    {
        let ghost before = clips_on(ls.take(t as int), kind);
        proof {
            assert(ls.take(t + 1).drop_last() =~= ls.take(t as int));
            assert(ls[t as int] == timeline.tracks@[t as int]@);
        }
        if timeline.tracks[t].kind == kind {
            let ghost clips = ls[t as int].clips;
            let mut i: usize = 0;
            proof {
                assert(before + clips.take(0) =~= before);
            }
            while i < timeline.tracks[t].clips.len()
                invariant
                    t < timeline.tracks.len(),
                    clips == timeline.tracks@[t as int].clips@,
                    i <= clips.len(),
                    ids@ == filed_sources(before + clips.take(i as int), titles@),
                decreases clips.len() - i,
            {
                let id: SourceId = timeline.tracks[t].clips[i].source;
                proof {
                    assert((before + clips.take(i + 1)).drop_last() =~= before + clips.take(
                        i as int,
                    ));
                }
                if !lists(titles, id) && !lists(&ids, id) {
                    ids.push(id);
                }
                i += 1;
            }
            proof {
                assert(clips.take(clips.len() as int) =~= clips);
            }
        } else {
            proof {
                assert(before + Seq::<Clip>::empty() =~= before);
            }
        }
        t += 1;
    }
    proof {
        assert(ls.take(ls.len() as int) =~= ls);
    }
    ids
}

/// The first path given for a source from `from` on.
pub open spec fn path_from(paths: Seq<(SourceId, String)>, source: SourceId, from: int) -> Option<
    Seq<char>,
>
    decreases paths.len() - from,
{
    if from < 0 || from >= paths.len() {
        None
    } else if paths[from].0 == source {
        Some(paths[from].1@)
    } else {
        path_from(paths, source, from + 1)
    }
}

/// The path of a source's file; a clip of a source without one cannot be rendered.
pub fn path_for(paths: &Vec<(SourceId, String)>, source: SourceId) -> (r: Result<
    String,
    ExportError,
>)
    ensures
        match path_from(paths@, source, 0) {
            Some(p) => r matches Ok(q) && q@ == p,
            None => r == Err::<String, ExportError>(ExportError::MissingMedia(source)),
        },
{
    let mut i: usize = 0;
    while i < paths.len()
        invariant
            i <= paths.len(),
            path_from(paths@, source, 0) == path_from(paths@, source, i as int),
        decreases paths.len() - i,
    {
        if paths[i].0.0 == source.0 {
            return Ok(paths[i].1.clone());
        }
        i += 1;
    }
    Err(ExportError::MissingMedia(source))
}

/// The titles that some clips show, in the order given.
pub open spec fn shown_titles(titles: Seq<SourceId>, shown: Seq<SourceId>) -> Seq<SourceId>
    decreases titles.len(),
{
    if titles.len() == 0 {
        Seq::empty()
    } else {
        let so_far = shown_titles(titles.drop_last(), shown);
        if shown.contains(titles.last()) {
            so_far.push(titles.last())
        } else {
            so_far
        }
    }
}

/// The titles that a render draws up front: those that a video track shows.
pub fn titles_to_bake(timeline: &Timeline, titles: &Vec<SourceId>) -> (r: Vec<SourceId>)
    ensures
        r@ == shown_titles(
            titles@,
            filed_sources(clips_on(timeline@.tracks, TrackKind::Video), Seq::empty()),
        ),
{
    let none: Vec<SourceId> = Vec::new();
    let shown: Vec<SourceId> = source_ids(timeline, TrackKind::Video, &none);
    proof {
        assert(none@ =~= Seq::<SourceId>::empty());
    }
    let mut out: Vec<SourceId> = Vec::new();
    let mut i: usize = 0;
    proof {
        assert(titles@.take(0) =~= Seq::empty());
    }
    while i < titles.len()
        invariant
            i <= titles.len(),
            out@ == shown_titles(titles@.take(i as int), shown@),
        decreases titles.len() - i,
    {
        proof {
            assert(titles@.take(i + 1).drop_last() =~= titles@.take(i as int));
        }
        if lists(&shown, titles[i]) {
            out.push(titles[i]);
        }
        i += 1;
    }
    proof {
        assert(titles@.take(titles@.len() as int) =~= titles@);
    }
    out
}

/// What a render will produce.
#[derive(Clone, Copy, Debug, PartialEq)]
pub struct Plan {
    /// The picture, where there is one.
    pub video: Option<VideoSpec>,
    pub audio: bool,
    pub fps: Double,
    pub total_frames: u64,
    pub total_samples: u64,
}

/// Whether some track of this kind carries a clip.
pub open spec fn carries(tracks: Seq<Lane>, kind: TrackKind) -> bool {
    exists|i: int|
        0 <= i < tracks.len() && (#[trigger] tracks[i]).kind == kind && tracks[i].clips.len() > 0
}

/// Whether some track of this kind carries a clip.
fn has_clips(tracks: &Vec<Track>, kind: TrackKind) -> (r: bool)
    ensures
        r == carries(lanes(tracks@), kind),
{
    let mut i: usize = 0;
    while i < tracks.len()
        invariant
            i <= tracks.len(),
            forall|j: int|
                0 <= j < i ==> !((#[trigger] lanes(tracks@)[j]).kind == kind && lanes(
                    tracks@,
                )[j].clips.len() > 0),
        decreases tracks.len() - i,
    {
        if tracks[i].kind == kind && tracks[i].clips.len() > 0 {
            proof {
                assert(lanes(tracks@)[i as int].kind == kind);
            }
            return true;
        }
        i += 1;
    }
    false
}

/// What a render of these tracks produces; nothing where they hold nothing.
pub open spec fn plan_of(tracks: Seq<Lane>, video: Option<VideoSpec>) -> Result<Plan, ExportError> {
    let duration = latest_end(clips_of(tracks));
    let has_video = carries(tracks, TrackKind::Video);
    let has_audio = carries(tracks, TrackKind::Audio);
    if duration.le(double(ZERO)) || (!has_video && !has_audio) {
        Err(ExportError::Empty)
    } else {
        let spec = if has_video {
            video
        } else {
            None
        };
        let fps = match spec {
            Some(s) => s.fps,
            None => double(ZERO),
        };
        Ok(
            Plan {
                video: spec,
                audio: has_audio,
                fps,
                total_frames: match spec {
                    Some(_) => duration.times(fps).ceil().to_u64(),
                    None => 0,
                },
                total_samples: if has_audio {
                    duration.times(Double::from_u64(SAMPLE_RATE as u64)).ceil().to_u64()
                } else {
                    0
                },
            },
        )
    }
}

/// Plans a render of the timeline.
pub fn plan(timeline: &Timeline, video: Option<VideoSpec>) -> (r: Result<Plan, ExportError>)
    ensures
        r == plan_of(timeline@.tracks, video),
{
    let duration: Double = timeline.duration();
    let has_video: bool = has_clips(&timeline.tracks, TrackKind::Video);
    let has_audio: bool = has_clips(&timeline.tracks, TrackKind::Audio);
    if duration.le(double(ZERO)) || (!has_video && !has_audio) {
        return Err(ExportError::Empty);
    }
    let spec: Option<VideoSpec> = if has_video {
        video
    } else {
        None
    };
    let fps: Double = match spec {
        Some(s) => s.fps,
        None => double(ZERO),
    };
    let total_frames: u64 = match spec {
        Some(_) => duration.times(fps).ceil().to_u64(),
        None => 0,
    };
    let total_samples: u64 = if has_audio {
        duration.times(Double::from_u64(SAMPLE_RATE as u64)).ceil().to_u64()
    } else {
        0
    };
    Ok(Plan { video: spec, audio: has_audio, fps, total_frames, total_samples })
}

impl Plan {
    /// What the progress counts up to: frames, or samples where there is no picture.
    pub open spec fn spec_total(&self) -> u64 {
        if self.total_frames > 0 {
            self.total_frames
        } else {
            self.total_samples
        }
    }

    /// What the progress counts up to: frames, or samples where there is no picture.
    #[verifier::when_used_as_spec(spec_total)]
    pub fn total(&self) -> (r: u64)
        ensures
            r == self.spec_total(),
    {
        if self.total_frames > 0 {
            self.total_frames
        } else {
            self.total_samples
        }
    }

    /// When frame `n` shows.
    pub open spec fn frame_time(self, n: int) -> Double {
        Double::from_u64(n as u64).over(self.fps)
    }

    /// How many samples there should be before frame `n` shows.
    pub open spec fn sound_by(self, n: int) -> int {
        let want = self.frame_time(n).times(Double::from_u64(SAMPLE_RATE as u64)).round().to_u64();
        if want < self.total_samples {
            want as int
        } else {
            self.total_samples as int
        }
    }
}

/// The encoder's frame rate in thousandths, and its keyframe interval in frames.
pub fn encoder_cadence(spec: VideoSpec) -> (r: (i32, u32))
    ensures
        r.0 == spec.fps.times(double(THOUSAND)).round().to_i32(),
        r.1 == spec.fps.times(double(GOP_SECONDS)).round().max(double(ONE)).to_u32(),
{
    (
        spec.fps.times(double(THOUSAND)).round().to_i32(),
        spec.fps.times(double(GOP_SECONDS)).round().max(double(ONE)).to_u32(),
    )
}

/// The block size of an encoder that reports `frame_size`.
pub fn block_size(frame_size: usize) -> (r: usize)
    ensures
        r == (if frame_size == 0 {
            FALLBACK_FRAME_SIZE
        } else {
            frame_size
        }),
        r > 0,
{
    if frame_size == 0 {
        FALLBACK_FRAME_SIZE
    } else {
        frame_size
    }
}

/// What a render does next.
#[derive(Clone, Copy, Debug, PartialEq)]
pub enum Step {
    /// Compose and encode frame `n`, which shows at `t`.
    Picture { n: u64, t: Double },
    /// Mix and encode `frames` sample frames from sample `from`, at `t`.
    Sound { from: u64, frames: u64, t: Double },
    /// Flush the encoders and close the file.
    Finish,
    /// Give up: the render was cancelled.
    Stop,
}

/// How far a render has come, and what it is in the middle of.
#[derive(Clone, Copy, Debug, PartialEq)]
pub struct Render {
    pub plan: Plan,
    /// Samples per block of sound.
    pub block: u64,
    pub frames_done: u64,
    pub samples_done: u64,
    /// Sound is being produced up to this sample; a short block is held back unless
    /// the flag says that none will follow.
    pub goal: Option<(u64, bool)>,
    pub progress: Progress,
}

impl Render {
    /// Nothing has run past the plan.
    pub open spec fn sound(self) -> bool {
        &&& self.block > 0
        &&& self.frames_done <= self.plan.total_frames
        &&& self.samples_done <= self.plan.total_samples
        &&& !self.plan.audio ==> self.plan.total_samples == 0 && self.goal is None
        &&& (self.goal matches Some(g) ==> {
            &&& g.0 <= self.plan.total_samples
            &&& g.1 ==> g.0 == self.plan.total_samples && self.frames_done
                == self.plan.total_frames
        })
    }

    /// What is left to produce.
    pub open spec fn left(self) -> int {
        (self.plan.total_frames - self.frames_done) + (self.plan.total_samples - self.samples_done)
    }

    /// How long the next block of sound is; none where the goal has no more.
    pub open spec fn next_block(self) -> Option<int> {
        match self.goal {
            None => None,
            Some((target, last)) => {
                let remaining = if target > self.samples_done {
                    target - self.samples_done
                } else {
                    0
                };
                if remaining >= self.block {
                    Some(self.block as int)
                } else if last && remaining > 0 {
                    Some(remaining)
                } else {
                    None
                }
            },
        }
    }

    /// The progress once the goal at hand has been met.
    pub open spec fn reported(self) -> Progress {
        Progress {
            done: if self.plan.total_frames == 0 {
                self.samples_done
            } else {
                self.frames_done
            },
            total: self.progress.total,
        }
    }

    /// With a block of sound produced.
    pub open spec fn after_block(self, frames: int) -> Render {
        Render { samples_done: (self.samples_done + frames) as u64, ..self }
    }

    /// With the goal met.
    pub open spec fn settled(self) -> Render {
        if self.goal is Some || self.plan.total_frames > 0 {
            Render { goal: None, progress: self.reported(), ..self }
        } else {
            self
        }
    }

    /// With the next frame produced, and its sound asked for.
    pub open spec fn after_frame(self) -> Render {
        let n = self.frames_done + 1;
        Render {
            frames_done: n as u64,
            goal: if self.plan.audio {
                Some((self.plan.sound_by(n) as u64, false))
            } else {
                None
            },
            ..self
        }
    }

    /// The sound owed past the last frame: one more block, short where it is the last.
    pub open spec fn with_tail_goal(self) -> Render {
        let total = self.plan.total_samples;
        let next = if total - self.samples_done <= self.block {
            total as int
        } else {
            self.samples_done + self.block
        };
        Render { goal: Some((next as u64, next == total)), ..self }
    }

    /// The step of sound that begins where the render stands.
    pub open spec fn sound_step(self, frames: int) -> Step {
        Step::Sound {
            from: self.samples_done,
            frames: frames as u64,
            t: Double::from_u64(self.samples_done).over(Double::from_u64(SAMPLE_RATE as u64)),
        }
    }

    /// What a render does next, and how it stands after that.
    pub open spec fn stepped(self, cancelled: bool) -> (Render, Step) {
        match self.next_block() {
            Some(frames) => (self.after_block(frames), self.sound_step(frames)),
            None => {
                let r = self.settled();
                if r.frames_done < r.plan.total_frames {
                    if cancelled {
                        (r, Step::Stop)
                    } else {
                        (
                            r.after_frame(),
                            Step::Picture {
                                n: r.frames_done,
                                t: r.plan.frame_time(r.frames_done as int),
                            },
                        )
                    }
                } else if r.plan.audio && r.samples_done < r.plan.total_samples {
                    if cancelled {
                        (r, Step::Stop)
                    } else {
                        let g = r.with_tail_goal();
                        let frames = match g.goal {
                            Some((next, _)) => next - g.samples_done,
                            None => 0,
                        };
                        (g.after_block(frames), g.sound_step(frames))
                    }
                } else {
                    (r, Step::Finish)
                }
            },
        }
    }

    /// The start of a render.
    pub fn new(plan: Plan, block: u64) -> (r: Render)
        requires
            block > 0,
            !plan.audio ==> plan.total_samples == 0,
        ensures
            r == (Render {
                plan,
                block,
                frames_done: 0,
                samples_done: 0,
                goal: None,
                progress: Progress { done: 0, total: plan.total() },
            }),
            r.sound(),
    {
        Render {
            plan,
            block,
            frames_done: 0,
            samples_done: 0,
            goal: None,
            progress: Progress { done: 0, total: plan.total() },
        }
    }

    /// How long the next block of sound is; none where the goal has no more.
    fn block_ahead(&self) -> (r: Option<u64>)
        requires
            self.sound(),
        ensures
            match r {
                Some(n) => self.next_block() == Some(n as int),
                None => self.next_block() is None,
            },
    {
        match self.goal {
            None => None,
            Some((target, last)) => {
                let remaining: u64 = if target > self.samples_done {
                    target - self.samples_done
                } else {
                    0
                };
                if remaining >= self.block {
                    Some(self.block)
                } else if last && remaining > 0 {
                    Some(remaining)
                } else {
                    None
                }
            },
        }
    }

    /// The step of sound that begins where the render stands.
    fn step_of_sound(&self, frames: u64) -> (r: Step)
        ensures
            r == self.sound_step(frames as int),
    {
        Step::Sound {
            from: self.samples_done,
            frames,
            t: Double::from_u64(self.samples_done).over(Double::from_u64(SAMPLE_RATE as u64)),
        }
    }

    /// Says what to do next. A cancelled render stops before its next frame, or its
    /// next block past the last frame.
    pub fn step(&mut self, cancelled: bool) -> (r: Step)
        requires
            old(self).sound(),
        ensures
            (*final(self), r) == old(self).stepped(cancelled),
            final(self).sound(),
    {
        if let Some(frames) = self.block_ahead() {
            let s: Step = self.step_of_sound(frames);
            self.samples_done = self.samples_done + frames;
            return s;
        }
        if self.goal.is_some() || self.plan.total_frames > 0 {
            self.goal = None;
            self.progress = Progress {
                done: if self.plan.total_frames == 0 {
                    self.samples_done
                } else {
                    self.frames_done
                },
                total: self.progress.total,
            };
        }
        if self.frames_done < self.plan.total_frames {
            if cancelled {
                return Step::Stop;
            }
            let n: u64 = self.frames_done;
            let t: Double = Double::from_u64(n).over(self.plan.fps);
            self.frames_done = n + 1;
            if self.plan.audio {
                let want: u64 = Double::from_u64(n + 1).over(self.plan.fps).times(
                    Double::from_u64(SAMPLE_RATE as u64),
                ).round().to_u64();
                let target: u64 = if want < self.plan.total_samples {
                    want
                } else {
                    self.plan.total_samples
                };
                self.goal = Some((target, false));
            }
            Step::Picture { n, t }
        } else if self.plan.audio && self.samples_done < self.plan.total_samples {
            if cancelled {
                return Step::Stop;
            }
            let total: u64 = self.plan.total_samples;
            let next: u64 = if total - self.samples_done <= self.block {
                total
            } else {
                self.samples_done + self.block
            };
            self.goal = Some((next, next == total));
            let frames: u64 = next - self.samples_done;
            let s: Step = self.step_of_sound(frames);
            self.samples_done = next;
            s
        } else {
            Step::Finish
        }
    }
}

/// A step either ends the render or leaves less to produce, so a render ends.
pub proof fn lemma_steps_make_headway(r: Render, cancelled: bool)
    requires
        r.sound(),
    ensures
        ({
            let (next, step) = r.stepped(cancelled);
            &&& next.sound()
            &&& step is Picture || step is Sound ==> next.left() < r.left()
            &&& step is Finish || step is Stop ==> next.left() == r.left()
        }),
{
}

/// A render that finishes has produced every frame and every sample of its plan.
pub proof fn lemma_finish_is_complete(r: Render, cancelled: bool)
    requires
        r.sound(),
        r.stepped(cancelled).1 is Finish,
    ensures
        r.frames_done == r.plan.total_frames,
        r.samples_done == r.plan.total_samples,
        r.plan.total_frames > 0 ==> r.stepped(cancelled).0.progress.done == r.plan.total_frames,
{
}

/// Frames come in order, none skipped and none twice, and the sound that follows on
/// takes up where the last sound ended.
pub proof fn lemma_steps_are_contiguous(r: Render, cancelled: bool)
    requires
        r.sound(),
    ensures
        ({
            let (next, step) = r.stepped(cancelled);
            &&& step matches Step::Picture { n, t: _ } ==> n == r.frames_done && next.frames_done
                == n + 1 && next.samples_done == r.samples_done
            &&& step matches Step::Sound { from, frames, t: _ } ==> from == r.samples_done
                && next.samples_done == from + frames && next.frames_done == r.frames_done
        }),
{
}

/// A block of sound is as long as the encoder wants it, except for the one that ends
/// the sound.
pub proof fn lemma_only_the_last_block_is_short(r: Render, cancelled: bool)
    requires
        r.sound(),
        r.stepped(cancelled).1 is Sound,
    ensures
        r.stepped(cancelled).1->frames <= r.block,
        r.stepped(cancelled).1->frames < r.block ==> r.stepped(cancelled).0.samples_done
            == r.plan.total_samples,
{
}

/// A render that was not cancelled does not stop short.
pub proof fn lemma_only_cancelling_stops(r: Render)
    requires
        r.sound(),
    ensures
        !(r.stepped(false).1 is Stop),
{
}

} // verus!
