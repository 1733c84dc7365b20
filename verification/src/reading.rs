//! What times say when they are read back.

use crate::fmt::{
    coarse_label, decimal_of, digit, fine_label, padded, timecode, timecode_of, THOUSAND,
};
use crate::hearing::lemma_nonneg_times;
use crate::ieee::facts::{lemma_double_literal, lemma_double_zero};
use crate::ieee::model::units;
use crate::ieee::near::{double_upto, lemma_close_parts, lemma_double_cut, lemma_double_times_near};
use crate::ieee::{double, Double};
use crate::timing::second;
use vstd::arithmetic::power2::{
    lemma2_to64, lemma_pow2_adds, lemma_pow2_pos, lemma_pow2_unfold, pow2,
};
use vstd::prelude::*;

verus! {

/// Whether a text is made of digits.
pub open spec fn is_number(s: Seq<char>) -> bool {
    s.len() > 0 && forall|i: int| 0 <= i < s.len() ==> '0' <= #[trigger] s[i] <= '9'
}

/// The number that a text of digits says.
pub open spec fn reads(s: Seq<char>) -> int
    decreases s.len(),
{
    if s.len() == 0 {
        0
    } else {
        10 * reads(s.drop_last()) + (s.last() as int - '0' as int)
    }
}

/// A number in decimal says that number.
proof fn lemma_a_number_reads_back(n: nat)
    ensures
        is_number(decimal_of(n)),
        reads(decimal_of(n)) == n,
        n < 10 ==> decimal_of(n).len() == 1,
        n < 100 ==> decimal_of(n).len() <= 2,
        n < 1000 ==> decimal_of(n).len() <= 3,
    decreases n,
{
    if n < 10 {
        let s = decimal_of(n);
        assert(s.drop_last() =~= Seq::empty());
        reveal_with_fuel(reads, 2);
    } else {
        lemma_a_number_reads_back(n / 10);
        let s = decimal_of(n);
        assert(s.drop_last() =~= decimal_of(n / 10));
        assert(s.last() == digit((n % 10) as int));
    }
}

/// Zeroes in front do not change what a text says.
proof fn lemma_zeroes_in_front(s: Seq<char>, width: nat)
    requires
        is_number(s),
    ensures
        is_number(padded(s, width)),
        reads(padded(s, width)) == reads(s),
        padded(s, width).len() == (if s.len() < width {
            width
        } else {
            s.len()
        }),
    decreases width - s.len(),
{
    if s.len() < width {
        let t = seq!['0'] + s;
        lemma_zero_in_front(s);
        assert(is_number(t)) by {
            assert forall|i: int| 0 <= i < t.len() implies '0' <= #[trigger] t[i] <= '9' by {
                if i > 0 {
                    assert(t[i] == s[i - 1]);
                }
            }
        }
        lemma_zeroes_in_front(t, width);
    }
}

/// A zero in front does not change what a text says.
proof fn lemma_zero_in_front(s: Seq<char>)
    ensures
        reads(seq!['0'] + s) == reads(s),
    decreases s.len(),
{
    let t = seq!['0'] + s;
    if s.len() == 0 {
        assert(t.drop_last() =~= Seq::empty());
        reveal_with_fuel(reads, 2);
    } else {
        assert(t.drop_last() =~= seq!['0'] + s.drop_last());
        lemma_zero_in_front(s.drop_last());
    }
}

/// A timecode says its milliseconds: minutes, seconds below sixty in two digits and
/// thousandths in three.
pub proof fn lemma_a_timecode_reads_back(ms: nat) -> (parts: (Seq<char>, Seq<char>, Seq<char>))
    ensures
        ({
            let (m, s, t) = parts;
            &&& timecode_of(ms) == m + seq![':'] + s + seq!['.'] + t
            &&& is_number(m) && is_number(s) && is_number(t)
            &&& m.len() >= 2 && s.len() == 2 && t.len() == 3
            &&& reads(s) < 60 && reads(t) < 1000
            &&& ms == 60_000 * reads(m) + 1000 * reads(s) + reads(t)
        }),
{
    let (m, s, t) = (ms / 1000 / 60, ms / 1000 % 60, ms % 1000);
    lemma_a_number_reads_back(m);
    lemma_a_number_reads_back(s);
    lemma_a_number_reads_back(t);
    lemma_zeroes_in_front(decimal_of(m), 2);
    lemma_zeroes_in_front(decimal_of(s), 2);
    lemma_zeroes_in_front(decimal_of(t), 3);
    (padded(decimal_of(m), 2), padded(decimal_of(s), 2), padded(decimal_of(t), 3))
}

/// A fine label of the ruler says its hundredths of a second.
pub proof fn lemma_a_fine_label_reads_back(ms: nat) -> (parts: (Seq<char>, Seq<char>, Seq<char>))
    ensures
        ({
            let (m, s, c) = parts;
            &&& fine_label(ms) == m + seq![':'] + s + seq!['.'] + c
            &&& is_number(m) && is_number(s) && is_number(c)
            &&& s.len() == 2 && c.len() == 2
            &&& reads(s) < 60 && reads(c) < 100
            &&& 0 <= ms - (60_000 * reads(m) + 1000 * reads(s) + 10 * reads(c)) < 10
        }),
{
    let (m, s, c) = (ms / 1000 / 60, ms / 1000 % 60, ms % 1000 / 10);
    lemma_a_number_reads_back(m);
    lemma_a_number_reads_back(s);
    lemma_a_number_reads_back(c);
    lemma_zeroes_in_front(decimal_of(s), 2);
    lemma_zeroes_in_front(decimal_of(c), 2);
    (decimal_of(m), padded(decimal_of(s), 2), padded(decimal_of(c), 2))
}

/// A coarse label of the ruler says its seconds: minutes and seconds, with hours in front from
/// an hour on.
#[verifier::spinoff_prover]
#[verifier::rlimit(40)]
pub proof fn lemma_a_coarse_label_reads_back(s: nat) -> (parts: (Seq<char>, Seq<char>, Seq<char>))
    ensures
        ({
            let (h, m, t) = parts;
            &&& s < 3600 ==> coarse_label(s) == m + seq![':'] + t && reads(h) == 0
            &&& s >= 3600 ==> coarse_label(s) == h + seq![':'] + m + seq![':'] + t && m.len() == 2
            &&& is_number(h) && is_number(m) && is_number(t)
            &&& t.len() == 2
            &&& reads(m) < 60 && reads(t) < 60
            &&& s == 3600 * reads(h) + 60 * reads(m) + reads(t)
        }),
{
    let (h, m, t) = (s / 3600, s / 60 % 60, s % 60);
    lemma_hours_minutes_seconds(s);
    lemma_a_number_reads_back(h);
    lemma_a_number_reads_back(m);
    lemma_a_number_reads_back(t);
    lemma_zeroes_in_front(decimal_of(m), 2);
    lemma_zeroes_in_front(decimal_of(t), 2);
    let mid = if s >= 3600 {
        padded(decimal_of(m), 2)
    } else {
        decimal_of(m)
    };
    (decimal_of(h), mid, padded(decimal_of(t), 2))
}

/// Seconds as hours, minutes and seconds.
proof fn lemma_hours_minutes_seconds(s: nat)
    ensures
        s == 3600 * (s / 3600) + 60 * (s / 60 % 60) + s % 60,
        s / 60 % 60 < 60,
        s % 60 < 60,
        s / 3600 > 0 <==> s >= 3600,
{
    assert(s / 60 / 60 == s / 3600);
}

/// A thousand, as a double.
proof fn lemma_thousand()
    ensures
        double(THOUSAND).is_finite(),
        units(double(THOUSAND)@) == 1000 * second(),
{
    vstd::arithmetic::power2::lemma2_to64_rest();
    lemma2_to64();
    lemma_double_literal(THOUSAND, 1031, 0x1f_4000_0000_0000);
    lemma_pow2_adds(43, 1031);
}

/// A time is shown in the milliseconds that have passed by then, none before the start.
pub proof fn lemma_a_time_is_shown_in_milliseconds(t: Double) -> (ms: nat)
    requires
        double_upto(t, 1100),
    ensures
        timecode(t) == timecode_of(ms),
        units(t@) <= 0 ==> ms == 0,
        0 <= units(t@) ==> 16 * (ms * second()) <= 16 * (1000 * units(t@)) + second(),
        0 <= units(t@) ==> 16 * (1000 * units(t@)) <= 16 * (ms * second()) + 17 * second(),
{
    let d = pow2(1074);
    let a = t.max(double(0));
    let k = double(THOUSAND);
    let x = a.times(k);
    lemma_pow2_pos(1074);
    lemma_pow2_pos(1100);
    lemma2_to64();
    lemma_double_zero();
    lemma_thousand();
    let ua = units(a@);
    lemma_pow2_adds(10, 1100);
    lemma_pow2_adds(26, 1074);
    assert(0 <= ua * (1000 * d) <= pow2(1110) * d) by (nonlinear_arith)
        requires
            0 <= ua <= pow2(1100),
            pow2(1110) == 1024 * pow2(1100),
            d > 0,
    ;
    lemma_double_times_near(a, k, 1110);
    let ux = units(x@);
    let e = pow2(1056);
    assert(ua * (1000 * d) == (1000 * ua) * d) by (nonlinear_arith);
    lemma_close_parts(ux, 1000 * ua, e as int, d as int);
    lemma_pow2_adds(18, 1056);
    lemma_pow2_pos(1056);
    lemma_nonneg_times(a, k);
    lemma_double_cut(x);
    let n = x.to_u64();
    if units(t@) <= 0 {
        assert(n == 0) by (nonlinear_arith)
            requires
                n * d <= ux,
                ux <= e,
                e < d,
        ;
    }
    n as nat
}

} // verus!
