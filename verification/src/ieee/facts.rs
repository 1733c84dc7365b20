//! Facts about the operations of [`Double`] and [`Single`] that proofs elsewhere use.

use super::laws::{
    lemma_bitlen_below, lemma_bitlen_bounds, lemma_bitlen_is, lemma_decode_encode,
    lemma_encode_decode, lemma_pow2_monotone, lemma_round_ge, lemma_round_le,
    lemma_round_monotone, lemma_round_near, lemma_rounded_has,
};
use super::model::{
    alike, below, bitlen, double_format, half_up, opposite, signed, single_format,
    units, Format, Num,
};
use super::numbers::{
    double, lemma_double_bits, lemma_single_bits, single, Double, Single,
};
use vstd::arithmetic::div_mod::{
    lemma_fundamental_div_mod, lemma_fundamental_div_mod_converse, lemma_mod_bound,
};
use vstd::arithmetic::power2::{
    lemma2_to64, lemma_pow2_adds, lemma_pow2_pos, lemma_pow2_strictly_increases, lemma_pow2_unfold,
    pow2,
};
use vstd::prelude::*;

verus! {

/// A format has zero.
pub proof fn lemma_holds_zero(f: Format)
    requires
        f.sound(),
    ensures
        f.holds(0),
{
    lemma2_to64();
    lemma_pow2_pos((f.p + f.top - 1) as nat);
}

/// The sum of two numbers is a number of the format.
proof fn lemma_sum_has(f: Format, a: Num, b: Num)
    requires
        f.sound(),
        f.has(a),
        f.has(b),
    ensures
        f.has(f.sum(a, b)),
{
    lemma_holds_zero(f);
    match (a, b) {
        (Num::Fin { neg: na, mag: ma }, Num::Fin { neg: nb, mag: mb }) => {
            let s = signed(na, ma) + signed(nb, mb);
            if s < 0 {
                lemma_rounded_has(f, true, (-s) as nat, 1);
            } else if s > 0 {
                lemma_rounded_has(f, false, s as nat, 1);
            }
        },
        _ => {},
    }
}

/// The product of two numbers is a number of the format.
proof fn lemma_product_has(f: Format, a: Num, b: Num)
    requires
        f.sound(),
    ensures
        f.has(f.product(a, b)),
{
    lemma_pow2_pos(f.unit);
    match (a, b) {
        (Num::Fin { neg: na, mag: ma }, Num::Fin { neg: nb, mag: mb }) => {
            lemma_rounded_has(f, na != nb, ma * mb, pow2(f.unit));
        },
        _ => {},
    }
}

/// The quotient of two numbers is a number of the format.
proof fn lemma_quotient_has(f: Format, a: Num, b: Num)
    requires
        f.sound(),
    ensures
        f.has(f.quotient(a, b)),
{
    lemma_holds_zero(f);
    match (a, b) {
        (Num::Fin { neg: na, mag: ma }, Num::Fin { neg: nb, mag: mb }) => {
            if mb != 0 {
                lemma_rounded_has(f, na != nb, ma * pow2(f.unit), mb);
            }
        },
        _ => {},
    }
}

/// What is encoded as a double is read back from it.
pub proof fn lemma_double_of(n: Num)
    requires
        double_format().has(n),
    ensures
        Double::of(n)@ == n,
{
    lemma_double_bits();
    reveal(Double::num);
    reveal(Double::of);
    lemma_decode_encode(double_format(), n);
}

/// A double stands for a number of its format.
pub proof fn lemma_double_has(x: Double)
    ensures
        double_format().has(x@),
{
    lemma_double_bits();
    reveal(Double::num);
    lemma_encode_decode(double_format(), x.bits as nat);
}

/// The number of a sum.
pub proof fn lemma_double_plus(a: Double, b: Double)
    ensures
        a.plus(b)@ == double_format().sum(a@, b@),
{
    reveal(Double::spec_plus);
    lemma_double_bits();
    lemma_double_has(a);
    lemma_double_has(b);
    lemma_sum_has(double_format(), a@, b@);
    lemma_double_of(double_format().sum(a@, b@));
}

/// The number of a difference.
pub proof fn lemma_double_minus(a: Double, b: Double)
    ensures
        a.minus(b)@ == double_format().sum(a@, opposite(b@)),
{
    reveal(Double::spec_minus);
    lemma_double_bits();
    lemma_double_has(a);
    lemma_double_has(b);
    lemma_sum_has(double_format(), a@, opposite(b@));
    lemma_double_of(double_format().sum(a@, opposite(b@)));
}

/// The number of a product.
pub proof fn lemma_double_times(a: Double, b: Double)
    ensures
        a.times(b)@ == double_format().product(a@, b@),
{
    reveal(Double::spec_times);
    lemma_double_bits();
    lemma_product_has(double_format(), a@, b@);
    lemma_double_of(double_format().product(a@, b@));
}

/// The number of a quotient.
pub proof fn lemma_double_over(a: Double, b: Double)
    ensures
        a.over(b)@ == double_format().quotient(a@, b@),
{
    reveal(Double::spec_over);
    lemma_double_bits();
    lemma_quotient_has(double_format(), a@, b@);
    lemma_double_of(double_format().quotient(a@, b@));
}

/// The number of an opposite.
pub proof fn lemma_double_opposite(a: Double)
    ensures
        a.negate()@ == opposite(a@),
{
    reveal(Double::spec_negate);
    lemma_double_has(a);
    lemma_double_of(opposite(a@));
}

/// The zero pattern is zero.
pub proof fn lemma_double_zero()
    ensures
        double(0)@ == (Num::Fin { neg: false, mag: 0 }),
{
    reveal(Double::num);
    lemma_double_bits();
    let f = double_format();
    lemma_pow2_pos((f.p - 1) as nat);
    lemma_fundamental_div_mod_converse(0, f.hidden() as int, 0, 0);
    assert(f.inf_bits() > 0) by (nonlinear_arith)
        requires
            f.inf_bits() == (f.top + 1) * f.hidden(),
            f.hidden() > 0,
    ;
    assert(f.sign_bit() > 0) by (nonlinear_arith)
        requires
            f.sign_bit() == (f.top + 2) * f.hidden(),
            f.hidden() > 0,
    ;
}

/// Taking a number from one not below it leaves nothing negative, unless both
/// are infinite.
pub proof fn lemma_double_minus_nonneg(a: Double, b: Double)
    requires
        b.le(a),
        a.is_finite() || b.is_finite(),
    ensures
        double(0).le(a.minus(b)),
{
    lemma_double_minus(a, b);
    lemma_double_zero();
}

/// The larger of a number and zero is zero or more.
pub proof fn lemma_double_max_zero(x: Double)
    ensures
        double(0).le(x.max(double(0))),
        !x.max(double(0)).is_nan(),
{
    lemma_double_zero();
}

/// What is encoded as a single is read back from it.
pub proof fn lemma_single_of(n: Num)
    requires
        single_format().has(n),
    ensures
        Single::of(n)@ == n,
{
    lemma_single_bits();
    reveal(Single::num);
    reveal(Single::of);
    lemma_decode_encode(single_format(), n);
}

/// A single stands for a number of its format.
pub proof fn lemma_single_has(x: Single)
    ensures
        single_format().has(x@),
{
    lemma_single_bits();
    reveal(Single::num);
    lemma_encode_decode(single_format(), x.bits as nat);
}

/// The number of a sum.
pub proof fn lemma_single_plus(a: Single, b: Single)
    ensures
        a.plus(b)@ == single_format().sum(a@, b@),
{
    reveal(Single::spec_plus);
    lemma_single_bits();
    lemma_single_has(a);
    lemma_single_has(b);
    lemma_sum_has(single_format(), a@, b@);
    lemma_single_of(single_format().sum(a@, b@));
}

/// The number of a difference.
pub proof fn lemma_single_minus(a: Single, b: Single)
    ensures
        a.minus(b)@ == single_format().sum(a@, opposite(b@)),
{
    reveal(Single::spec_minus);
    lemma_single_bits();
    lemma_single_has(a);
    lemma_single_has(b);
    lemma_sum_has(single_format(), a@, opposite(b@));
    lemma_single_of(single_format().sum(a@, opposite(b@)));
}

/// The number of a product.
pub proof fn lemma_single_times(a: Single, b: Single)
    ensures
        a.times(b)@ == single_format().product(a@, b@),
{
    reveal(Single::spec_times);
    lemma_single_bits();
    lemma_product_has(single_format(), a@, b@);
    lemma_single_of(single_format().product(a@, b@));
}

/// The number of a quotient.
pub proof fn lemma_single_over(a: Single, b: Single)
    ensures
        a.over(b)@ == single_format().quotient(a@, b@),
{
    reveal(Single::spec_over);
    lemma_single_bits();
    lemma_quotient_has(single_format(), a@, b@);
    lemma_single_of(single_format().quotient(a@, b@));
}

/// The zero pattern is zero.
pub proof fn lemma_single_zero()
    ensures
        single(0)@ == (Num::Fin { neg: false, mag: 0 }),
{
    reveal(Single::num);
    lemma_single_bits();
    let f = single_format();
    lemma_pow2_pos((f.p - 1) as nat);
    lemma_fundamental_div_mod_converse(0, f.hidden() as int, 0, 0);
    assert(f.inf_bits() > 0) by (nonlinear_arith)
        requires
            f.inf_bits() == (f.top + 1) * f.hidden(),
            f.hidden() > 0,
    ;
    assert(f.sign_bit() > 0) by (nonlinear_arith)
        requires
            f.sign_bit() == (f.top + 2) * f.hidden(),
            f.hidden() > 0,
    ;
}

/// A pattern between zero and infinity, without a sign, is a number above zero.
pub proof fn lemma_double_positive(x: Double)
    requires
        0 < x.bits < 0x7ff0_0000_0000_0000,
    ensures
        double(0).lt(x),
        double(0).le(x),
        x.is_finite(),
{
    reveal(Double::num);
    lemma_double_bits();
    lemma_double_zero();
    let f = double_format();
    super::laws::lemma_bits_mag_monotone(f, 0, x.bits as nat);
    lemma_double_weights();
}

/// The weights of the double format, in numbers.
pub proof fn lemma_double_weights()
    ensures
        double_format().hidden() == 0x10_0000_0000_0000,
        double_format().inf_bits() == 0x7ff0_0000_0000_0000,
        double_format().sign_bit() == 0x8000_0000_0000_0000,
{
    vstd::arithmetic::power2::lemma2_to64_rest();
    assert(pow2(52) == 0x10_0000_0000_0000);
}

/// A pattern between zero and infinity, without a sign, is a number above zero.
pub proof fn lemma_single_positive(x: Single)
    requires
        0 < x.bits < 0x7f80_0000,
    ensures
        single(0).lt(x),
        single(0).le(x),
        x.is_finite(),
{
    reveal(Single::num);
    lemma_single_bits();
    lemma_single_zero();
    let f = single_format();
    super::laws::lemma_bits_mag_monotone(f, 0, x.bits as nat);
    lemma_single_weights();
}

/// The weights of the single format, in numbers.
pub proof fn lemma_single_weights()
    ensures
        single_format().hidden() == 0x80_0000,
        single_format().inf_bits() == 0x7f80_0000,
        single_format().sign_bit() == 0x8000_0000,
{
    lemma2_to64();
    assert(pow2(23) == 0x80_0000);
}

/// Taking a share between nothing and all of a whole number gives no more than it,
/// and nothing negative.
proof fn lemma_share(f: Format, n: nat, share: Num, lo: int, hi: int)
    requires
        f.sound(),
        f.holds(n * pow2(f.unit)),
        match share {
            Num::Nan => true,
            Num::Inf { neg: _ } => false,
            Num::Fin { neg, mag } => 0 <= signed(neg, mag) <= pow2(f.unit),
        },
        lo <= 0,
        n <= hi,
    ensures
        0 <= f.truncated(
            f.product(Num::Fin { neg: false, mag: n * pow2(f.unit) }, share),
            lo,
            hi,
        ) <= n,
{
    lemma_pow2_pos(f.unit);
    let one = pow2(f.unit);
    match share {
        Num::Fin { neg, mag } => {
            let m = n * one;
            let num = m * mag;
            assert(num <= m * one) by (nonlinear_arith)
                requires
                    num == m * mag,
                    mag <= one,
            ;
            super::laws::lemma_round_le(f, num, one, m);
            let r = f.round(num, one);
            lemma_fundamental_div_mod(r as int, one as int);
            lemma_mod_bound(r as int, one as int);
            let q = r / one;
            assert(q <= n) by (nonlinear_arith)
                requires
                    r == one * q + r % one,
                    r % one >= 0,
                    r <= n * one,
                    one > 0,
            ;
            if neg {
                assert(num == 0) by (nonlinear_arith)
                    requires
                        num == m * mag,
                        mag == 0,
                ;
                assert(0nat <= 0 * one) by (nonlinear_arith);
                lemma_holds_zero(f);
                super::laws::lemma_round_le(f, num, one, 0);
                assert(q == 0) by (nonlinear_arith)
                    requires
                        r == 0,
                        r == one * q + r % one,
                        r % one >= 0,
                        one > 0,
                        q >= 0,
                ;
            }
        },
        _ => {},
    }
}

/// A small whole number is exact as a single.
pub proof fn lemma_single_small(n: u64)
    requires
        n <= 0x100_0000,
    ensures
        Single::from_u64(n)@ == (Num::Fin { neg: false, mag: n as nat * pow2(149) }),
        single_format().holds(n as nat * pow2(149)),
{
    reveal(Single::spec_from_u64);
    let f = single_format();
    lemma_single_bits();
    lemma2_to64();
    super::engine::lemma_whole_exact(f, false, n as nat);
    lemma_rounded_has(f, false, n as nat * pow2(f.unit), 1);
    lemma_single_of(f.whole(false, n as nat));
}

/// Taking a share between nothing and all of a small whole number gives no more than
/// it, and nothing negative.
pub proof fn lemma_single_share(n: u64, share: Single)
    requires
        n <= 0x100_0000,
        n <= i32::MAX,
        share.is_nan() || (single(0).le(share) && share.le(single(0x3f80_0000))),
    ensures
        0 <= Single::from_u64(n).times(share).to_i32() <= n,
        Single::from_u64(n).times(share).to_usize() <= n,
{
    let f = single_format();
    let x = Single::from_u64(n);
    lemma_single_small(n);
    lemma_single_times(x, share);
    lemma_single_zero();
    lemma_single_one();
    lemma_single_bits();
    reveal(Single::spec_to_i32);
    reveal(Single::spec_to_usize);
    lemma_share(f, n as nat, share@, i32::MIN as int, i32::MAX as int);
    lemma_share(f, n as nat, share@, 0, usize::MAX as int);
}

/// Patterns without a sign order as their numbers do.
pub proof fn lemma_single_order(x: Single, y: Single)
    requires
        x.bits < y.bits < 0x7f80_0000,
    ensures
        x.lt(y),
        x.le(y),
{
    reveal(Single::num);
    lemma_single_bits();
    lemma_single_weights();
    super::laws::lemma_bits_mag_monotone(single_format(), x.bits as nat, y.bits as nat);
}

/// A small whole number is exact as a double.
pub proof fn lemma_double_small(n: u64)
    requires
        n <= 0x20_0000_0000_0000,
    ensures
        Double::from_u64(n)@ == (Num::Fin { neg: false, mag: n as nat * pow2(1074) }),
        double_format().holds(n as nat * pow2(1074)),
{
    reveal(Double::spec_from_u64);
    let f = double_format();
    lemma_double_bits();
    vstd::arithmetic::power2::lemma2_to64_rest();
    super::engine::lemma_whole_exact(f, false, n as nat);
    lemma_rounded_has(f, false, n as nat * pow2(f.unit), 1);
    lemma_double_of(f.whole(false, n as nat));
}

/// Taking a share between nothing and all of a small whole number gives no more than
/// it, and nothing negative.
pub proof fn lemma_double_share(n: u64, share: Double)
    requires
        n <= 0x20_0000_0000_0000,
        n <= i32::MAX,
        share.is_nan() || (double(0).le(share) && share.le(double(0x3ff0_0000_0000_0000))),
    ensures
        0 <= Double::from_u64(n).times(share).to_i32() <= n,
        Double::from_u64(n).times(share).to_usize() <= n,
{
    let f = double_format();
    let x = Double::from_u64(n);
    lemma_double_small(n);
    lemma_double_times(x, share);
    lemma_double_zero();
    lemma_double_one();
    lemma_double_bits();
    reveal(Double::spec_to_i32);
    reveal(Double::spec_to_usize);
    lemma_share(f, n as nat, share@, i32::MIN as int, i32::MAX as int);
    lemma_share(f, n as nat, share@, 0, usize::MAX as int);
}

/// Patterns without a sign order as their numbers do.
pub proof fn lemma_double_order(x: Double, y: Double)
    requires
        x.bits < y.bits < 0x7ff0_0000_0000_0000,
    ensures
        x.lt(y),
        x.le(y),
{
    reveal(Double::num);
    lemma_double_bits();
    lemma_double_weights();
    super::laws::lemma_bits_mag_monotone(double_format(), x.bits as nat, y.bits as nat);
}

/// The order of the factors does not matter.
pub proof fn lemma_double_times_commutes(a: Double, b: Double)
    ensures
        a.times(b) == b.times(a),
{
    reveal(Double::spec_times);
    match (a@, b@) {
        (Num::Fin { neg: na, mag: ma }, Num::Fin { neg: nb, mag: mb }) => {
            assert(ma * mb == mb * ma) by (nonlinear_arith);
        },
        _ => {},
    }
}

/// The pattern of one is one.
pub proof fn lemma_single_one()
    ensures
        single(0x3f80_0000)@ == (Num::Fin { neg: false, mag: pow2(149) }),
{
    reveal(Single::num);
    lemma_single_bits();
    lemma_single_weights();
    let f = single_format();
    let bits = 0x3f80_0000nat;
    lemma_fundamental_div_mod_converse(bits as int, f.hidden() as int, 127, 0);
    lemma_pow2_adds(23, 126);
    lemma2_to64();
}

/// The pattern of one half is one half.
pub proof fn lemma_single_half()
    ensures
        single(0x3f00_0000)@ == (Num::Fin { neg: false, mag: pow2(148) }),
{
    reveal(Single::num);
    lemma_single_bits();
    lemma_single_weights();
    let f = single_format();
    let bits = 0x3f00_0000nat;
    lemma_fundamental_div_mod_converse(bits as int, f.hidden() as int, 126, 0);
    lemma_pow2_adds(23, 125);
    lemma2_to64();
}

/// A magnitude with more digits than the precision is even, and its half is a
/// magnitude of the format.
proof fn lemma_half_held(f: Format, mag: nat)
    requires
        f.sound(),
        f.holds(mag),
        bitlen(mag) > f.p,
    ensures
        f.holds(mag / 2),
        mag % 2 == 0,
{
    let k = f.place(bitlen(mag));
    let half = pow2((k - 1) as nat);
    lemma_pow2_pos((k - 1) as nat);
    lemma_pow2_pos(k);
    lemma_pow2_unfold(k);
    let q = mag / pow2(k);
    lemma_fundamental_div_mod(mag as int, pow2(k) as int);
    assert(mag == 2 * (half * q)) by (nonlinear_arith)
        requires
            mag == (2 * half) * q,
    ;
    lemma_fundamental_div_mod_converse((mag / 2) as int, half as int, q as int, 0);
}

/// A magnitude of the format rounds to a whole number of the format.
proof fn lemma_single_whole_held(m: nat)
    requires
        single_format().holds(m),
    ensures
        single_format().holds(half_up(m, pow2(149)) * pow2(149)),
        m >= 0x100_0000 * pow2(149) ==> m % pow2(149) == 0,
{
    let one = pow2(149);
    lemma_single_bits();
    lemma2_to64();
    lemma_pow2_pos(149);
    lemma_fundamental_div_mod(m as int, one as int);
    lemma_mod_bound(m as int, one as int);
    let r = half_up(m, one);
    if m < 0x100_0000 * one {
        assert(m / one < 0x100_0000) by (nonlinear_arith)
            requires
                m == one * (m / one) + m % one,
                m % one >= 0,
                m < 0x100_0000 * one,
                one > 0,
        ;
        lemma_single_small(r as u64);
    } else {
        let f = single_format();
        let k = f.place(bitlen(m));
        lemma_pow2_adds(24, 149);
        lemma_bitlen_bounds(m);
        if bitlen(m) < 174 {
            lemma_pow2_monotone(bitlen(m), 173);
        }
        let i = (k - 149) as nat;
        lemma_pow2_adds(149, i);
        lemma_pow2_pos(k);
        lemma_fundamental_div_mod(m as int, pow2(k) as int);
        let q = m / pow2(k);
        assert(m == (pow2(i) * q) * one) by (nonlinear_arith)
            requires
                m == (one * pow2(i)) * q,
        ;
        lemma_fundamental_div_mod_converse(m as int, one as int, (pow2(i) * q) as int, 0);
    }
}

/// Twice the rounded half of a number is the even number nearest to it.
pub proof fn lemma_single_twice_rounded_half(x: Single)
    requires
        single(0).le(x),
        x@ matches Num::Fin { neg: _, mag } && mag < 0x2_0000_0000 * pow2(149),
    ensures
        x@ matches Num::Fin { neg: _, mag } && mag - pow2(149) <= 2 * x.times(
            single(0x3f00_0000),
        ).round().to_u32() * pow2(149) <= mag + pow2(149),
{
    let f = single_format();
    let one = pow2(149);
    let half = single(0x3f00_0000);
    lemma_single_bits();
    lemma_single_zero();
    lemma_single_half();
    lemma_single_has(x);
    lemma_single_times(x, half);
    lemma_single_has(x.times(half));
    lemma2_to64();
    lemma_pow2_pos(149);
    lemma_pow2_unfold(149);
    let mag = match x@ {
        Num::Fin { neg: _, mag } => mag,
        _ => 0,
    };
    let num = mag * pow2(148);
    let m = f.round(num, one);
    if bitlen(mag) > f.p {
        lemma_half_held(f, mag);
        assert(num == (mag / 2) * one) by (nonlinear_arith)
            requires
                num == mag * pow2(148),
                one == 2 * pow2(148),
                mag == 2 * (mag / 2),
        ;
        lemma_round_le(f, num, one, mag / 2);
        lemma_round_ge(f, num, one, mag / 2);
    } else {
        lemma_bitlen_bounds(mag);
        lemma_pow2_monotone(bitlen(mag), 24);
        lemma_pow2_adds(26, 123);
        lemma_pow2_pos(123);
        assert(one >= 0x400_0000) by (nonlinear_arith)
            requires
                one == 0x400_0000 * pow2(123),
                pow2(123) > 0,
        ;
        assert(num <= mag * one) by (nonlinear_arith)
            requires
                num == mag * pow2(148),
                one == 2 * pow2(148),
        ;
        lemma_round_le(f, num, one, mag);
        lemma_fundamental_div_mod_converse(m as int, one as int, 0, m as int);
    }
    lemma_single_whole_held(m);
    let r = half_up(m, one);
    reveal(Single::spec_round);
    reveal(Single::spec_to_u32);
    lemma_single_of(f.nearest(x.times(half)@));
    lemma_fundamental_div_mod(m as int, one as int);
    lemma_mod_bound(m as int, one as int);
    lemma_fundamental_div_mod_converse((r * one) as int, one as int, r as int, 0);
    assert(one * (m / one) == (m / one) * one) by (nonlinear_arith);
    assert((m / one + 1) * one == (m / one) * one + one) by (nonlinear_arith);
    assert(m < 0x1_0000_0000 * one ==> m / one < 0x1_0000_0000) by (nonlinear_arith)
        requires
            m == one * (m / one) + m % one,
            m % one >= 0,
            one > 0,
    ;
    assert(m < 0x100_0000 * one ==> m / one < 0x100_0000) by (nonlinear_arith)
        requires
            m == one * (m / one) + m % one,
            m % one >= 0,
            one > 0,
    ;
    assert(r <= u32::MAX);
    assert((2 * r) * one == 2 * (r * one)) by (nonlinear_arith);
}

/// The pattern of one is one.
pub proof fn lemma_double_one()
    ensures
        double(0x3ff0_0000_0000_0000)@ == (Num::Fin { neg: false, mag: pow2(1074) }),
{
    reveal(Double::num);
    lemma_double_bits();
    lemma_double_weights();
    let f = double_format();
    let bits = 0x3ff0_0000_0000_0000nat;
    lemma_fundamental_div_mod_converse(bits as int, f.hidden() as int, 1023, 0);
    lemma_pow2_adds(52, 1022);
}

/// What is not below one is cast to at least one.
pub proof fn lemma_double_whole_part(x: Double)
    requires
        double(0x3ff0_0000_0000_0000).le(x),
    ensures
        x.to_usize() >= 1,
{
    reveal(Double::spec_to_usize);
    lemma_double_one();
    lemma_pow2_pos(1074);
    match x@ {
        Num::Fin { neg, mag } => {
            let one = pow2(1074);
            lemma_fundamental_div_mod(mag as int, one as int);
            lemma_mod_bound(mag as int, one as int);
            let q = mag / one;
            if q == 0 {
                assert(one * q == 0) by (nonlinear_arith)
                    requires
                        q == 0,
                ;
            }
        },
        _ => {},
    }
}

/// A sum that is not above a number of the format does not round above it; nor below,
/// where it is not below.
pub proof fn lemma_sum_keeps_side(f: Format, na: bool, ma: nat, nb: bool, mb: nat, nm: bool, mm: nat)
    requires
        f.sound(),
        f.holds(mm),
    ensures
        ({
            let s = signed(na, ma) + signed(nb, mb);
            let m = Num::Fin { neg: nm, mag: mm };
            let r = f.sum(Num::Fin { neg: na, mag: ma }, Num::Fin { neg: nb, mag: mb });
            &&& !(r is Nan)
            &&& s <= signed(nm, mm) ==> below(r, m) || alike(r, m)
            &&& s >= signed(nm, mm) ==> below(m, r) || alike(m, r)
        }),
{
    let s = signed(na, ma) + signed(nb, mb);
    let v = signed(nm, mm);
    if s > 0 {
        let n = s as nat;
        if s <= v {
            lemma_round_le(f, n, 1, mm);
        }
        if s >= v && v > 0 {
            lemma_round_ge(f, n, 1, mm);
        }
    } else if s < 0 {
        let n = (-s) as nat;
        if s >= v {
            lemma_round_le(f, n, 1, mm);
        }
        if s <= v && v < 0 {
            lemma_round_ge(f, n, 1, mm);
        }
    }
}

/// What is above a sum of two numbers leaves room for one of them beside the other.
pub proof fn lemma_single_leaves_room(total: Single, a: Single, b: Single)
    requires
        !total.is_nan(),
        a.is_finite(),
        b.is_finite(),
        !total.le(a.plus(b)),
    ensures
        a.le(total.minus(b)),
{
    let f = single_format();
    lemma_single_bits();
    lemma_single_plus(a, b);
    lemma_single_minus(total, b);
    lemma_single_has(total);
    lemma_single_has(a);
    match (total@, a@, b@) {
        (
            Num::Fin { neg: nt, mag: mt },
            Num::Fin { neg: na, mag: ma },
            Num::Fin { neg: nb, mag: mb },
        ) => {
            lemma_sum_keeps_side(f, na, ma, nb, mb, nt, mt);
            lemma_sum_keeps_side(f, nt, mt, !nb, mb, na, ma);
        },
        _ => {},
    }
}

/// Adding what is not negative does not lower a number.
pub proof fn lemma_single_plus_grows(a: Single, b: Single)
    requires
        a.is_finite(),
        single(0).le(b),
    ensures
        a.le(a.plus(b)),
{
    lemma_single_bits();
    lemma_single_plus(a, b);
    lemma_single_has(a);
    lemma_single_zero();
    match (a@, b@) {
        (Num::Fin { neg: na, mag: ma }, Num::Fin { neg: nb, mag: mb }) => {
            lemma_sum_keeps_side(single_format(), na, ma, nb, mb, na, ma);
        },
        _ => {},
    }
}

/// A pattern with a sign, short of infinity, is a number not above zero.
pub proof fn lemma_single_negative(x: Single)
    requires
        0x8000_0000 <= x.bits < 0xff80_0000,
    ensures
        x.le(single(0)),
        x.is_finite(),
{
    reveal(Single::num);
    lemma_single_zero();
    lemma_single_weights();
}

/// A share, from nothing to all, of a magnitude is no more than it.
proof fn lemma_part_of(f: Format, neg: bool, mag: nat, share: nat)
    requires
        f.sound(),
        f.holds(mag),
        share <= pow2(f.unit),
    ensures
        f.rounded(neg, mag * share, pow2(f.unit)) matches Num::Fin { neg: n, mag: m } && n == neg && m
            <= mag && (mag == 0 || share == 0 ==> m == 0),
{
    lemma_pow2_pos(f.unit);
    assert(mag * share <= mag * pow2(f.unit)) by (nonlinear_arith)
        requires
            share <= pow2(f.unit),
    ;
    lemma_round_le(f, mag * share, pow2(f.unit), mag);
    if mag == 0 || share == 0 {
        assert(mag * share == 0) by (nonlinear_arith)
            requires
                mag == 0 || share == 0,
        ;
        lemma_holds_zero(f);
        lemma_round_le(f, 0, pow2(f.unit), 0);
    }
}

/// Taking a share, from nothing to all, of a finite number leaves no more of it, on the same
/// side of zero.
pub proof fn lemma_single_part(x: Single, share: Single)
    requires
        x.is_finite(),
        single(0).le(share),
        share.le(single(0x3f80_0000)),
    ensures
        single(0).le(x) ==> single(0).le(x.times(share)) && x.times(share).le(x),
        share.same(single(0)) ==> x.times(share).same(single(0)),
        x.times(share).is_finite(),
{
    lemma_single_times(x, share);
    lemma_single_has(x);
    lemma_single_zero();
    lemma_single_one();
    lemma_single_bits();
    let f = single_format();
    match (x@, share@) {
        (Num::Fin { neg: na, mag: ma }, Num::Fin { neg: nb, mag: mb }) => {
            lemma_part_of(f, na != nb, ma, mb);
        },
        _ => {},
    }
}

/// Taking a share, from nothing to all, of a share gives a share.
pub proof fn lemma_double_part(x: Double, share: Double)
    requires
        double(0).le(x),
        x.le(double(0x3ff0_0000_0000_0000)),
        double(0).le(share),
        share.le(double(0x3ff0_0000_0000_0000)),
    ensures
        double(0).le(x.times(share)),
        x.times(share).le(double(0x3ff0_0000_0000_0000)),
        x.same(double(0)) || share.same(double(0)) ==> x.times(share).same(double(0)),
{
    lemma_double_times(x, share);
    lemma_double_has(x);
    lemma_double_zero();
    lemma_double_one();
    lemma_double_bits();
    let f = double_format();
    match (x@, share@) {
        (Num::Fin { neg: na, mag: ma }, Num::Fin { neg: nb, mag: mb }) => {
            lemma_part_of(f, na != nb, ma, mb);
        },
        _ => {},
    }
}

/// A share stays one at the other precision, and nothing stays nothing.
pub proof fn lemma_share_to_single(x: Double)
    requires
        double(0).le(x),
        x.le(double(0x3ff0_0000_0000_0000)),
    ensures
        single(0).le(x.to_single()),
        x.to_single().le(single(0x3f80_0000)),
        x.same(double(0)) ==> x.to_single().same(single(0)),
{
    lemma_double_zero();
    lemma_double_one();
    lemma_single_zero();
    lemma_single_one();
    lemma_single_bits();
    lemma_double_bits();
    let f = single_format();
    let d = double_format();
    match x@ {
        Num::Fin { neg, mag } => {
            let one = pow2(f.unit);
            lemma_single_has(single(0x3f80_0000));
            lemma_pow2_pos(d.unit);
            assert(mag * one <= one * pow2(d.unit)) by (nonlinear_arith)
                requires
                    mag <= pow2(d.unit),
            ;
            lemma_round_le(f, mag * one, pow2(d.unit), one);
            if mag == 0 {
                lemma_holds_zero(f);
                assert(mag * one == 0) by (nonlinear_arith)
                    requires
                        mag == 0,
                ;
                lemma_round_le(f, 0, pow2(d.unit), 0);
            }
            lemma_rounded_has(f, neg, mag * one, pow2(d.unit));
            reveal(Double::spec_to_single);
            lemma_single_of(f.converted(d, x@));
        },
        _ => {},
    }
}

/// What is not after a time is no way into a ramp that starts there.
pub proof fn lemma_ramp_not_begun(t: Double, start: Double, len: Double)
    requires
        t.le(start),
        t.is_finite(),
        start.is_finite(),
        len.is_finite(),
        double(0).lt(len),
    ensures
        t.minus(start).over(len).clamp(double(0), double(0x3ff0_0000_0000_0000)).same(double(0)),
{
    lemma_double_minus(t, start);
    lemma_double_over(t.minus(start), len);
    lemma_double_zero();
    lemma_double_one();
    lemma_double_bits();
    let f = double_format();
    let d = t.minus(start)@;
    lemma_holds_zero(f);
    lemma_pow2_pos(f.unit);
    match (d, len@) {
        (Num::Fin { neg: _, mag: m }, Num::Fin { neg: _, mag: l }) => {
            if m == 0 {
                assert(m * pow2(f.unit) == 0) by (nonlinear_arith)
                    requires
                        m == 0,
                ;
                lemma_round_le(f, 0, l, 0);
            }
        },
        _ => {},
    }
}

/// How far a ramp has come is a share.
pub proof fn lemma_ramp_is_a_share(from: Double, to: Double, len: Double)
    requires
        from.is_finite(),
        to.is_finite(),
        len.is_finite(),
        double(0).lt(len),
    ensures
        ({
            let r = to.minus(from).over(len).clamp(double(0), double(0x3ff0_0000_0000_0000));
            double(0).le(r) && r.le(double(0x3ff0_0000_0000_0000))
        }),
{
    lemma_double_minus(to, from);
    lemma_double_over(to.minus(from), len);
    lemma_double_zero();
    lemma_double_one();
}

/// Adding more does not give less.
pub proof fn lemma_double_plus_monotone(a: Double, x: Double, y: Double)
    requires
        a.is_finite(),
        x.le(y),
    ensures
        a.plus(x).le(a.plus(y)),
{
    let f = double_format();
    lemma_double_bits();
    lemma_double_plus(a, x);
    lemma_double_plus(a, y);
    match (a@, x@, y@) {
        (
            Num::Fin { neg: na, mag: ma },
            Num::Fin { neg: nx, mag: mx },
            Num::Fin { neg: ny, mag: my },
        ) => {
            let s = signed(na, ma) + signed(nx, mx);
            let t = signed(na, ma) + signed(ny, my);
            if 0 < s {
                lemma_round_monotone(f, s as nat, t as nat);
            } else if t < 0 {
                lemma_round_monotone(f, (-t) as nat, (-s) as nat);
            }
        },
        _ => {},
    }
}

/// A sum of at most `2^m` units is a number of at most `2^m` units, off by no more than one
/// part in `2^54` of that.
pub proof fn lemma_double_plus_near(a: Double, b: Double, m: nat)
    requires
        a.is_finite(),
        b.is_finite(),
        54 <= m < 2098,
        -pow2(m) <= units(a@) + units(b@) <= pow2(m),
    ensures
        a.plus(b).is_finite(),
        -pow2(m) <= units(a.plus(b)@) <= pow2(m),
        -pow2((m - 54) as nat) <= units(a.plus(b)@) - (units(a@) + units(b@)) <= pow2(
            (m - 54) as nat,
        ),
{
    let f = double_format();
    lemma_double_bits();
    lemma_double_plus(a, b);
    lemma_pow2_pos(m);
    lemma_pow2_pos((m - 54) as nat);
    lemma_pow2_strictly_increases(m, 2098);
    let s = units(a@) + units(b@);
    let n = (if s < 0 {
        -s
    } else {
        s
    }) as nat;
    if n > 0 {
        if n == pow2(m) {
            lemma_power_held(f, m);
            lemma_round_le(f, n, 1, n);
            lemma_round_ge(f, n, 1, n);
        } else {
            let k = f.place(bitlen(n));
            lemma_bitlen_below(n, m);
            lemma_round_near(f, n);
            lemma_pow2_monotone(bitlen(n), m);
            if k == 0 {
                lemma2_to64();
            } else {
                lemma_pow2_unfold(k);
                lemma_pow2_monotone((k - 1) as nat, (m - 54) as nat);
            }
        }
    }
}

/// A difference of at most `2^m` units is a number of at most `2^m` units, off by no more
/// than one part in `2^54` of that.
pub proof fn lemma_double_minus_near(a: Double, b: Double, m: nat)
    requires
        a.is_finite(),
        b.is_finite(),
        54 <= m < 2098,
        -pow2(m) <= units(a@) - units(b@) <= pow2(m),
    ensures
        a.minus(b).is_finite(),
        -pow2(m) <= units(a.minus(b)@) <= pow2(m),
        -pow2((m - 54) as nat) <= units(a.minus(b)@) - (units(a@) - units(b@)) <= pow2(
            (m - 54) as nat,
        ),
{
    lemma_double_opposite(b);
    lemma_double_minus(a, b);
    lemma_double_plus(a, b.negate());
    lemma_double_plus_near(a, b.negate(), m);
}

/// A power of two is a magnitude of the format.
pub proof fn lemma_power_held(f: Format, m: nat)
    requires
        f.sound(),
        m < f.p + f.top - 1,
    ensures
        f.holds(pow2(m)),
{
    lemma_pow2_strictly_increases(m, (f.p + f.top - 1) as nat);
    lemma_pow2_unfold(m + 1);
    lemma_pow2_pos(m);
    lemma_bitlen_is(pow2(m), m + 1);
    let k = f.place(m + 1);
    lemma_pow2_adds((m - k) as nat, k);
    lemma_pow2_pos(k);
    lemma_fundamental_div_mod_converse(pow2(m) as int, pow2(k) as int, pow2((m - k) as nat) as int, 0);
}

/// What the bits of an ordinary positive single stand for: its digits, at a place.
pub proof fn lemma_single_literal(bits: u32, place: nat, digits: nat)
    requires
        bits == place * 0x80_0000 + digits,
        0x80_0000 <= digits < 0x100_0000,
        place <= 253,
    ensures
        single(bits)@ == (Num::Fin { neg: false, mag: digits * pow2(place) }),
{
    reveal(Single::num);
    lemma_single_bits();
    lemma_single_weights();
    let f = single_format();
    lemma_fundamental_div_mod_converse(
        bits as int,
        f.hidden() as int,
        place as int + 1,
        digits - 0x80_0000,
    );
    lemma2_to64();
}

/// What the bits of an ordinary positive double stand for: its digits, at a place.
pub proof fn lemma_double_literal(bits: u64, place: nat, digits: nat)
    requires
        bits == place * 0x10_0000_0000_0000 + digits,
        0x10_0000_0000_0000 <= digits < 0x20_0000_0000_0000,
        place <= 2045,
    ensures
        double(bits)@ == (Num::Fin { neg: false, mag: digits * pow2(place) }),
{
    reveal(Double::num);
    lemma_double_bits();
    lemma_double_weights();
    let f = double_format();
    lemma_fundamental_div_mod_converse(
        bits as int,
        f.hidden() as int,
        place as int + 1,
        digits - 0x10_0000_0000_0000,
    );
    lemma2_to64();
}

/// What the bits of an ordinary negative single stand for: its digits, at a place.
pub proof fn lemma_single_negative_literal(bits: u32, place: nat, digits: nat)
    requires
        bits == 0x8000_0000 + place * 0x80_0000 + digits,
        0x80_0000 <= digits < 0x100_0000,
        place <= 253,
    ensures
        single(bits)@ == (Num::Fin { neg: true, mag: digits * pow2(place) }),
{
    reveal(Single::num);
    lemma_single_bits();
    lemma_single_weights();
    let f = single_format();
    lemma_fundamental_div_mod_converse(
        bits - 0x8000_0000,
        f.hidden() as int,
        place as int + 1,
        digits - 0x80_0000,
    );
    lemma2_to64();
}

} // verus!
