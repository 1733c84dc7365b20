//! What is heard when, and how the clocks of playback and of the streams run on.

use crate::ieee::facts::{
    lemma_double_literal, lemma_double_one, lemma_double_small, lemma_double_times,
    lemma_double_zero, lemma_holds_zero, lemma_single_has, lemma_single_of, lemma_single_one,
    lemma_single_zero,
};
use crate::ieee::laws::lemma_round_le;
use crate::ieee::model::{double_format, units, Num};
use crate::ieee::near::{
    double_upto, gap_of, lemma_close_parts, lemma_close_times, lemma_double_cut,
    lemma_double_minus_keeps_side, lemma_double_over_near, lemma_double_sums_near,
    lemma_double_times_near, lemma_double_to_whole, size,
};
use crate::ieee::numbers::{lemma_double_bits, lemma_single_bits};
use crate::ieee::{double, single, Double, Single};
use crate::sound::{
    bucket_size, lead_frames, loudest, peaks_of, played, seek_tick, sounding, target_samples, Queue,
    AV_TIME_BASE, TARGET_BUFFER_SEC, WAVEFORM_PEAKS_PER_SEC,
};
use crate::showing::first_under;
use crate::timeline::{lemma_first_covering, Lane, TrackKind, UNITY};
use crate::timing::second;
use vstd::arithmetic::power2::{
    lemma2_to64, lemma_pow2_adds, lemma_pow2_pos, lemma_pow2_unfold, pow2,
};
use vstd::prelude::*;

verus! {

/// Whether a clock that stood at `from` stands at `to` after so many frames at a rate, to
/// within a microsecond.
pub open spec fn runs_on(from: Double, to: Double, frames: int, rate: int) -> bool {
    to.is_finite() && 0x10_0000 * gap_of((units(to@) - units(from@)) * rate, frames * second())
        <= rate * second()
}

/// A clock that stands at an ordinary time, and a stretch of an ordinary length.
pub open spec fn ordinary(from: Double, frames: int, rate: int) -> bool {
    &&& double_upto(from, 1100)
    &&& 1 <= rate <= 0xffff_ffff
    &&& 0 <= frames <= 0x20_0000_0000_0000
    &&& frames <= 0x400_0000 * rate
}

/// So many frames at a rate last as many parts of a second.
pub proof fn lemma_frames_last(frames: u64, rate: u32)
    requires
        1 <= rate,
        frames <= 0x20_0000_0000_0000,
        frames <= 0x400_0000 * rate,
    ensures
        ({
            let t = Double::from_u64(frames).over(Double::from_u64(rate as u64));
            &&& double_upto(t, 1100)
            &&& gap_of(units(t@) * rate, frames * second()) <= pow2(1046) * rate
        }),
{
    let d = pow2(1074);
    let (a, b) = (Double::from_u64(frames), Double::from_u64(rate as u64));
    lemma_pow2_pos(1074);
    lemma2_to64();
    lemma_double_small(frames);
    lemma_double_small(rate as u64);
    lemma_pow2_adds(26, 1074);
    assert(rate * d > 0 && 0 <= frames * d) by (nonlinear_arith)
        requires
            rate >= 1,
            d > 0,
    ;
    assert((frames * d) * d <= pow2(1100) * (rate * d)) by (nonlinear_arith)
        requires
            frames <= 0x400_0000 * rate,
            pow2(1100) == 0x400_0000 * d,
            d > 0,
    ;
    lemma_double_over_near(a, b, 1100);
    let t = a.over(b);
    let ut = units(t@);
    let e = pow2(1046);
    assert(ut * (rate * d) == (ut * rate) * d && e * (rate * d) == (e * rate) * d)
        by (nonlinear_arith);
    lemma_close_parts(ut * rate, frames * d, e * rate, d as int);
}

/// A clock runs on by what it is moved past.
pub proof fn lemma_a_clock_runs_on(from: Double, frames: u64, rate: u32)
    requires
        ordinary(from, frames as int, rate as int),
    ensures
        runs_on(
            from,
            from.plus(Double::from_u64(frames).over(Double::from_u64(rate as u64))),
            frames as int,
            rate as int,
        ),
{
    let d = pow2(1074);
    let t = Double::from_u64(frames).over(Double::from_u64(rate as u64));
    let to = from.plus(t);
    lemma_pow2_pos(1074);
    lemma2_to64();
    lemma_frames_last(frames, rate);
    lemma_pow2_unfold(1101);
    lemma_double_sums_near(from, t, 1101);
    let (ut, us) = (units(t@), units(to@) - units(from@));
    let (e, f) = (pow2(1046), pow2(1047));
    lemma_close_times(us, ut, f as int, rate as int);
    lemma_pow2_unfold(1047);
    lemma_pow2_adds(28, 1046);
    lemma_pow2_pos(1046);
    assert(0x10_0000 * (f * rate + e * rate) <= rate * d) by (nonlinear_arith)
        requires
            f == 2 * e,
            d == 0x1000_0000 * e,
            rate >= 1,
            e > 0,
    ;
}

/// What is mixed next belongs as far after what is heard next as there is sound queued up.
pub proof fn lemma_mixing_goes_on_where_the_queue_ends(q: Queue)
    requires
        ordinary(q.consume_t, q.buffer.len() as int / 2, 48_000),
    ensures
        runs_on(q.consume_t, q.fill_time(), q.buffer.len() as int / 2, 48_000),
{
    lemma_a_clock_runs_on(q.consume_t, (q.buffer.len() / 2) as u64, 48_000);
}

/// The two sides of what is queued are played apart: of every frame, the first sample on the
/// first channel and the second on the second; nothing on any other, nor where the queue ran
/// dry.
pub proof fn lemma_both_sides_are_played(q: Queue, left: Seq<Single>, right: Seq<Single>, f: int)
    requires
        0 <= f,
        left.len() == right.len(),
        q.buffer.len() == 2 * left.len(),
        forall|k: int| 0 <= k < left.len() ==> q.buffer[2 * k] == #[trigger] left[k],
        forall|k: int| 0 <= k < right.len() ==> q.buffer[2 * k + 1] == #[trigger] right[k],
    ensures
        f < left.len() ==> played(q, f, 0) == left[f] && played(q, f, 1) == right[f],
        f >= left.len() ==> played(q, f, 0) == single(0) && played(q, f, 1) == single(0),
        forall|c: int| 2 <= c ==> #[trigger] played(q, f, c) == single(0),
{
}

/// The time between where a stream landed and where it was sought is thrown away: as many
/// frames as lie between the two, to the nearest.
pub proof fn lemma_what_lies_before_a_seek_is_thrown_away(t: Double, landed: Double)
    requires
        double_upto(t, 1100),
        double_upto(landed, 1100),
        0 <= units(t@) - units(landed@) <= 0x1_0000 * second(),
    ensures
        16 * gap_of(
            lead_frames(t, landed) * second(),
            48_000 * (units(t@) - units(landed@)),
        ) <= 9 * second(),
{
    let d = pow2(1074);
    let gone = units(t@) - units(landed@);
    let a = t.minus(landed);
    let k = Double::from_u64(48_000);
    let x = a.times(k);
    lemma_pow2_pos(1074);
    lemma2_to64();
    lemma_double_zero();
    lemma_double_small(48_000);
    lemma_pow2_adds(16, 1074);
    lemma_pow2_adds(17, 1074);
    lemma_pow2_adds(33, 1074);
    lemma_pow2_unfold(33);
    lemma_double_sums_near(t, landed, 1090);
    lemma_double_minus_keeps_side(t, landed, double(0));
    let ua = units(a@);
    assert(0 <= ua);
    assert(0 <= ua * (48_000 * d) <= pow2(1107) * d) by (nonlinear_arith)
        requires
            0 <= ua <= 0x1_0000 * d,
            pow2(1107) == 0x2_0000_0000 * d,
            d > 0,
    ;
    lemma_double_times_near(a, k, 1107);
    let ux = units(x@);
    let (e, f) = (pow2(1053), pow2(1036));
    assert(ua * (48_000 * d) == (48_000 * ua) * d) by (nonlinear_arith);
    lemma_close_parts(ux, 48_000 * ua, e as int, d as int);
    lemma_pow2_adds(21, 1053);
    lemma_pow2_adds(38, 1036);
    lemma_pow2_adds(17, 1036);
    lemma_pow2_adds(6, 32);
    lemma_pow2_pos(1036);
    lemma_nonneg_times(a, k);
    lemma_double_to_whole(x);
    lemma_double_cut(x.round());
    let n = x.round().to_u64();
    assert(n <= 0xffff_ffff) by (nonlinear_arith)
        requires
            2 * gap_of(n * d, ux) <= d,
            ux <= 48_000 * (0x1_0000 * d) + 0x2_0000 * d,
            d > 0,
    ;
}

/// A product of numbers that are not negative is not negative.
pub proof fn lemma_nonneg_times(a: Double, b: Double)
    requires
        a.is_finite(),
        b.is_finite(),
        0 <= units(a@),
        0 <= units(b@),
        a.times(b).is_finite(),
    ensures
        0 <= units(a.times(b)@),
{
    let f = double_format();
    lemma_double_times(a, b);
    lemma_double_bits();
    match (a@, b@) {
        (Num::Fin { neg: na, mag: ma }, Num::Fin { neg: nb, mag: mb }) => {
            if na != nb {
                assert(ma * mb == 0) by (nonlinear_arith)
                    requires
                        ma == 0 || mb == 0,
                ;
                lemma_pow2_pos(f.unit);
                lemma_holds_zero(f);
                lemma_round_le(f, 0, pow2(f.unit), 0);
            }
        },
        _ => {},
    }
}

/// A stream is sought by the millionths of a second of its time, none before the start.
pub proof fn lemma_a_seek_is_in_microseconds(t: Double)
    requires
        double_upto(t, 1100),
    ensures
        units(t@) <= 0 ==> seek_tick(t) == 0,
        0 <= units(t@) ==> {
            &&& 16 * (seek_tick(t) * second()) <= 16 * (1_000_000 * units(t@)) + second()
            &&& 16 * (1_000_000 * units(t@)) <= 16 * (seek_tick(t) * second()) + 17 * second()
        },
{
    let d = pow2(1074);
    let a = t.max(double(0));
    let k = double(AV_TIME_BASE);
    let x = a.times(k);
    lemma_pow2_pos(1074);
    lemma2_to64();
    lemma_double_zero();
    lemma_base();
    lemma_pow2_pos(1100);
    let ua = units(a@);
    lemma_pow2_adds(26, 1074);
    lemma_pow2_adds(20, 1100);
    assert(0 <= ua * (1_000_000 * d) <= pow2(1120) * d) by (nonlinear_arith)
        requires
            0 <= ua <= pow2(1100),
            pow2(1120) == 0x10_0000 * pow2(1100),
            d > 0,
    ;
    lemma_double_times_near(a, k, 1120);
    let ux = units(x@);
    let e = pow2(1066);
    assert(ua * (1_000_000 * d) == (1_000_000 * ua) * d) by (nonlinear_arith);
    lemma_close_parts(ux, 1_000_000 * ua, e as int, d as int);
    lemma_pow2_adds(8, 1066);
    lemma_pow2_pos(1066);
    lemma_nonneg_times(a, k);
    lemma_double_cut(x);
    let n = x.to_u64();
    if units(t@) <= 0 {
        assert(n == 0) by (nonlinear_arith)
            requires
                n * d <= ux,
                ux <= e,
                e < d,
        ;
    }
}

/// A million, as a double.
proof fn lemma_base()
    ensures
        double(AV_TIME_BASE).is_finite(),
        units(double(AV_TIME_BASE)@) == 1_000_000 * second(),
{
    vstd::arithmetic::power2::lemma2_to64_rest();
    lemma2_to64();
    lemma_double_literal(AV_TIME_BASE, 1041, 0x1e_8480_0000_0000);
    lemma_pow2_adds(33, 1041);
}

/// About a seventh of a second of sound is kept queued: fifteen hundredths of one, to the
/// frame.
pub proof fn lemma_so_much_sound_is_queued()
    ensures
        14_398 <= target_samples() <= 14_400,
{
    let d = pow2(1074);
    let s = double(TARGET_BUFFER_SEC);
    let k = Double::from_u64(48_000);
    let x = s.times(k);
    lemma_pow2_pos(1074);
    lemma2_to64();
    vstd::arithmetic::power2::lemma2_to64_rest();
    lemma_double_small(48_000);
    lemma_double_literal(TARGET_BUFFER_SEC, 1019, 0x13_3333_3333_3333);
    lemma_pow2_adds(55, 1019);
    let z = pow2(1019);
    lemma_pow2_pos(1019);
    let us = units(s@);
    assert(us == 0x13_3333_3333_3333 * z && d == 0x80_0000_0000_0000 * z);
    lemma_pow2_adds(13, 1074);
    assert(0 <= us * (48_000 * d) <= pow2(1087) * d) by (nonlinear_arith)
        requires
            us == 0x13_3333_3333_3333 * z,
            d == 0x80_0000_0000_0000 * z,
            pow2(1087) == 0x2000 * d,
            z > 0,
    ;
    lemma_double_times_near(s, k, 1087);
    let ux = units(x@);
    let e = pow2(1033);
    assert(us * (48_000 * d) == (48_000 * us) * d) by (nonlinear_arith);
    lemma_close_parts(ux, 48_000 * us, e as int, d as int);
    lemma_pow2_adds(14, 1019);
    lemma_nonneg_times(s, k);
    lemma_double_cut(x);
    let n = x.to_u64();
    assert(7_199 <= n <= 7_200) by (nonlinear_arith)
        requires
            n * d <= ux < n * d + d,
            48_000 * (0x13_3333_3333_3333 * z) - 0x4000 * z <= ux <= 48_000 * (0x13_3333_3333_3333
                * z) + 0x4000 * z,
            d == 0x80_0000_0000_0000 * z,
            z > 0,
    ;
}

/// A peak stands for a fiftieth of a second: as many samples as that is of the rate, to the
/// nearest.
pub proof fn lemma_a_peak_is_a_fiftieth_of_a_second(rate: u32)
    requires
        50 <= rate,
    ensures
        2 * gap_of(50 * bucket_size(rate), rate as int) <= 50,
{
    let d = pow2(1074);
    let (a, k) = (Double::from_u64(rate as u64), double(WAVEFORM_PEAKS_PER_SEC));
    let x = a.over(k);
    lemma_pow2_pos(1074);
    lemma2_to64();
    vstd::arithmetic::power2::lemma2_to64_rest();
    lemma_double_one();
    lemma_double_small(rate as u64);
    lemma_double_literal(WAVEFORM_PEAKS_PER_SEC, 1027, 0x19_0000_0000_0000);
    lemma_pow2_adds(47, 1027);
    lemma_pow2_adds(27, 1074);
    assert(units(k@) == 50 * d);
    assert((rate * d) * d <= pow2(1101) * (50 * d) && 0 <= rate * d) by (nonlinear_arith)
        requires
            rate <= 0xffff_ffff,
            pow2(1101) == 0x800_0000 * d,
            d > 0,
    ;
    lemma_double_over_near(a, k, 1101);
    let ux = units(x@);
    let e = pow2(1047);
    assert(ux * (50 * d) == (50 * ux) * d && e * (50 * d) == (50 * e) * d) by (nonlinear_arith);
    lemma_close_parts(50 * ux, rate * d, 50 * e as int, d as int);
    lemma_pow2_adds(27, 1047);
    lemma_pow2_pos(1047);
    assert(50 * d <= rate * d && rate * d <= 0xffff_ffff * d) by (nonlinear_arith)
        requires
            50 <= rate <= 0xffff_ffff,
            d > 0,
    ;
    lemma_double_to_whole(x);
    let r = x.round();
    let n = r.to_u64();
    assert(1 <= n <= 0xffff_ffff) by (nonlinear_arith)
        requires
            2 * gap_of(n * d, ux) <= d,
            50 * ux >= 50 * d - 50 * e,
            50 * ux <= 0xffff_ffff * d + 50 * e,
            d == 0x800_0000 * e,
            e > 0,
    ;
    assert(n * d >= d && n * d < 0x1_0000_0000 * d) by (nonlinear_arith)
        requires
            1 <= n <= 0xffff_ffff,
            d > 0,
    ;
    let m = r.max(double(0x3ff0_0000_0000_0000));
    assert(m.is_finite() && units(m@) == n * d);
    lemma_double_cut(m);
    let c = m.to_u64();
    assert(c == n) by (nonlinear_arith)
        requires
            c * d <= n * d < c * d + d,
            d > 0,
    ;
    assert(2 * gap_of(50 * n, rate as int) <= 50) by (nonlinear_arith)
        requires
            2 * gap_of(n * d, ux) <= d,
            gap_of(50 * ux, rate * d) <= 50 * e,
            d == 0x800_0000 * e,
            e > 0,
    ;
}

/// The loudest of some samples is as loud as any of them, and one of them unless it is
/// silence.
pub proof fn lemma_the_loudest_is_as_loud_as_any(s: Seq<Single>, k: int)
    requires
        0 <= k < s.len(),
        forall|j: int| 0 <= j < s.len() ==> !(#[trigger] s[j]).is_nan(),
    ensures
        s[k].abs().le(loudest(s)),
        !loudest(s).is_nan(),
        loudest(s) == single(0) || exists|j: int|
            0 <= j < s.len() && loudest(s) == (#[trigger] s[j]).abs(),
    decreases s.len(),
{
    let front = s.drop_last();
    reveal_with_fuel(loudest, 2);
    lemma_single_zero();
    lemma_single_abs(s.last());
    if front.len() > 0 {
        lemma_the_loudest_is_as_loud_as_any(front, if k < front.len() {
            k
        } else {
            0
        });
        if loudest(front) != single(0) {
            let j = choose|j: int| 0 <= j < front.len() && loudest(front) == (#[trigger] front[j]).abs();
            assert(front[j] == s[j]);
        }
    }
    assert(s.last() == s[s.len() - 1]);
    if k < front.len() {
        assert(front[k] == s[k]);
        lemma_single_abs(s[k]);
    }
}

/// A number without its sign.
proof fn lemma_single_abs(x: Single)
    ensures
        x.abs()@ == crate::ieee::model::magnitude(x@),
{
    reveal(Single::spec_abs);
    lemma_single_bits();
    lemma_single_has(x);
    lemma_single_of(crate::ieee::model::magnitude(x@));
}

/// A peak stands for its own stretch of the samples: it is as loud as any sample there, or all
/// the way up.
pub proof fn lemma_a_peak_stands_for_its_stretch(s: Seq<Single>, size: int, k: int, i: int)
    requires
        0 < size,
        0 <= k,
        0 <= i < size,
        k * size + size <= s.len(),
        forall|j: int| 0 <= j < s.len() ==> !(#[trigger] s[j]).is_nan(),
    ensures
        k < peaks_of(s, size).len(),
        s[k * size + i].abs().le(peaks_of(s, size)[k]) || peaks_of(s, size)[k] == single(UNITY),
{
    let n = s.len() as int;
    vstd::arithmetic::div_mod::lemma_fundamental_div_mod(n, size);
    vstd::arithmetic::div_mod::lemma_mod_bound(n, size);
    assert(k < n / size) by (nonlinear_arith)
        requires
            n == size * (n / size) + n % size,
            n % size < size,
            k * size + size <= n,
            size > 0,
    ;
    assert((k + 1) * size == k * size + size) by (nonlinear_arith);
    assert(0 <= k * size) by (nonlinear_arith)
        requires
            0 <= k,
            0 < size,
    ;
    let part = s.subrange(k * size, (k + 1) * size);
    assert forall|j: int| 0 <= j < part.len() implies !(#[trigger] part[j]).is_nan() by {
        assert(part[j] == s[k * size + j]);
    }
    lemma_the_loudest_is_as_loud_as_any(part, i);
    assert(part[i] == s[k * size + i]);
    lemma_single_one();
}

/// What sounds is the clips under the playhead: every voice is the first clip of an audio lane
/// that covers the time, lane by lane, and no such clip is left out.
pub proof fn lemma_what_sounds_lies_under_the_playhead(tracks: Seq<Lane>, t: Double) -> (from: Seq<
    int,
>)
    ensures
        ({
            let vs = sounding(tracks, t);
            &&& from.len() == vs.len()
            &&& forall|a: int, b: int| 0 <= a < b < from.len() ==> from[a] < from[b]
            &&& forall|a: int|
                0 <= a < from.len() ==> {
                    let lane = tracks[#[trigger] from[a]];
                    &&& 0 <= from[a] < tracks.len()
                    &&& lane.kind == TrackKind::Audio
                    &&& exists|i: int| #[trigger]
                        first_under(lane.clips, t, i) && vs[a] == lane.clips[i]
                }
            &&& forall|k: int, i: int|
                0 <= k < tracks.len() && tracks[k].kind == TrackKind::Audio
                    && #[trigger] first_under(tracks[k].clips, t, i) ==> from.contains(k)
        }),
    decreases tracks.len(),
{
    if tracks.len() == 0 {
        Seq::empty()
    } else {
        let below = tracks.drop_last();
        let lane = tracks.last();
        let n = tracks.len() - 1;
        let under = lemma_what_sounds_lies_under_the_playhead(below, t);
        let vs = sounding(tracks, t);
        let ws = sounding(below, t);
        lemma_first_covering(lane.clips, t, 0);
        let sounds = lane.kind == TrackKind::Audio && lane.active(t) is Some;
        let from = if sounds {
            under.push(n)
        } else {
            under
        };
        assert forall|a: int| 0 <= a < from.len() implies {
            let lane = tracks[#[trigger] from[a]];
            &&& 0 <= from[a] < tracks.len()
            &&& lane.kind == TrackKind::Audio
            &&& exists|i: int| #[trigger] first_under(lane.clips, t, i) && vs[a] == lane.clips[i]
        } by {
            if a < under.len() {
                assert(from[a] == under[a]);
                assert(below[under[a]] == tracks[under[a]]);
                assert(vs[a] == ws[a]);
            } else {
                let i = lane.active(t)->0;
                assert(first_under(lane.clips, t, i));
            }
        }
        assert forall|k: int, i: int|
            0 <= k < tracks.len() && tracks[k].kind == TrackKind::Audio
                && #[trigger] first_under(tracks[k].clips, t, i) implies from.contains(k) by {
            if k < n {
                assert(below[k] == tracks[k]);
                assert(first_under(below[k].clips, t, i));
                assert(under.contains(k));
                let j = choose|j: int| 0 <= j < under.len() && under[j] == k;
                assert(from[j] == k);
            } else {
                assert(lane.clips[i].contains(t));
                assert(from[under.len() as int] == k);
            }
        }
        from
    }
}

} // verus!
