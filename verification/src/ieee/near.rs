//! How far the results of the operations lie from the exact ones.
//!
//! Numbers are counted in units, the smallest step of their format: `2^149` of them make
//! one as a [`Single`], `2^1074` as a [`Double`].

use super::facts::{
    lemma_double_has, lemma_double_minus, lemma_double_of, lemma_double_one, lemma_double_over,
    lemma_double_plus,
    lemma_double_small, lemma_double_times, lemma_double_zero, lemma_power_held,
    lemma_share_to_single, lemma_single_half, lemma_single_has, lemma_single_minus, lemma_single_of, lemma_single_one,
    lemma_single_over, lemma_single_plus, lemma_single_small, lemma_single_times, lemma_single_zero,
    lemma_sum_keeps_side,
};
use super::laws::{
    lemma_bitlen_below, lemma_bitlen_bounds, lemma_half_even_near, lemma_pow2_monotone, lemma_round_ge, lemma_round_le,
};
use super::model::{
    bitlen, double_format, half_even, half_up, opposite, signed, single_format, units, up, Format,
    Num,
};
use super::numbers::{
    double, lemma_double_bits, lemma_single_bits, single, Double, Single,
};
use vstd::arithmetic::div_mod::{
    lemma_fundamental_div_mod, lemma_fundamental_div_mod_converse, lemma_mod_bound,
};
use vstd::arithmetic::power2::{
    lemma2_to64, lemma_pow2_adds, lemma_pow2_pos, lemma_pow2_strictly_increases, lemma_pow2_unfold,
    pow2,
};
use vstd::prelude::*;

verus! {

/// Whether two counts differ by no more than `e`.
pub open spec fn within(a: int, b: int, e: int) -> bool {
    -e <= a - b <= e
}

/// A fraction of at most `2^m` units rounds to a magnitude of at most `2^m` units, off by no
/// more than half of a last place there.
proof fn lemma_rounded_near(f: Format, neg: bool, num: nat, den: nat, m: nat)
    requires
        f.sound(),
        den > 0,
        num <= pow2(m) * den,
        f.p < m < f.p + f.top - 1,
    ensures
        f.rounded(neg, num, den) matches Num::Fin { neg: n, mag } && n == neg && mag <= pow2(m)
            && within((mag * den) as int, num as int, (pow2((m - f.p - 1) as nat) * den) as int),
{
    let r = f.round(num, den);
    let e = pow2((m - f.p - 1) as nat);
    lemma_pow2_pos((m - f.p - 1) as nat);
    lemma_power_held(f, m);
    lemma_round_le(f, num, den, pow2(m));
    lemma_pow2_strictly_increases(m, (f.p + f.top - 1) as nat);
    if num == pow2(m) * den {
        lemma_round_ge(f, num, den, pow2(m));
        assert(e * den >= 0) by (nonlinear_arith)
            requires
                e > 0,
                den > 0,
        ;
    } else {
        let q = num / den;
        lemma_fundamental_div_mod(num as int, den as int);
        lemma_mod_bound(num as int, den as int);
        assert(q < pow2(m)) by (nonlinear_arith)
            requires
                num == den * q + num % den,
                num % den >= 0,
                num < pow2(m) * den,
                den > 0,
        ;
        lemma_bitlen_below(q, m);
        let k = f.place(bitlen(q));
        let w = pow2(k);
        lemma_pow2_pos(k);
        lemma_pow2_monotone(k, (m - f.p) as nat);
        lemma_pow2_unfold((m - f.p) as nat);
        assert(den * w > 0) by (nonlinear_arith)
            requires
                den > 0,
                w > 0,
        ;
        lemma_half_even_near(num, den * w);
        let h = half_even(num, den * w);
        assert(h * (den * w) == (h * w) * den) by (nonlinear_arith);
        assert(den * w <= 2 * (e * den)) by (nonlinear_arith)
            requires
                w <= 2 * e,
                den > 0,
        ;
    }
}

/// A sum of at most `2^m` units.
proof fn lemma_sum_near(f: Format, a: Num, b: Num, m: nat)
    requires
        f.sound(),
        a is Fin,
        b is Fin,
        f.p < m < f.p + f.top - 1,
        -pow2(m) <= units(a) + units(b) <= pow2(m),
    ensures
        f.sum(a, b) is Fin,
        -pow2(m) <= units(f.sum(a, b)) <= pow2(m),
        within(units(f.sum(a, b)), units(a) + units(b), pow2((m - f.p - 1) as nat) as int),
{
    let s = units(a) + units(b);
    lemma_pow2_pos((m - f.p - 1) as nat);
    if s < 0 {
        lemma_rounded_near(f, true, (-s) as nat, 1, m);
    } else if s > 0 {
        lemma_rounded_near(f, false, s as nat, 1, m);
    }
}

/// A product of at most `2^m` units.
proof fn lemma_product_near(f: Format, a: Num, b: Num, m: nat)
    requires
        f.sound(),
        a is Fin,
        b is Fin,
        f.p < m < f.p + f.top - 1,
        -(pow2(m) * pow2(f.unit)) <= units(a) * units(b) <= pow2(m) * pow2(f.unit),
    ensures
        f.product(a, b) is Fin,
        -pow2(m) <= units(f.product(a, b)) <= pow2(m),
        within(
            units(f.product(a, b)) * pow2(f.unit),
            units(a) * units(b),
            (pow2((m - f.p - 1) as nat) * pow2(f.unit)) as int,
        ),
{
    lemma_pow2_pos(f.unit);
    match (a, b) {
        (Num::Fin { neg: na, mag: ma }, Num::Fin { neg: nb, mag: mb }) => {
            assert(signed(na, ma) * signed(nb, mb) == signed(na != nb, ma * mb)) by {
                assert((-(ma as int)) * (-(mb as int)) == ma * mb) by (nonlinear_arith);
                assert((-(ma as int)) * (mb as int) == -(ma * mb)) by (nonlinear_arith);
                assert((ma as int) * (-(mb as int)) == -(ma * mb)) by (nonlinear_arith);
            }
            assert(ma * mb >= 0) by (nonlinear_arith);
            lemma_rounded_near(f, na != nb, ma * mb, pow2(f.unit), m);
            let r = f.round(ma * mb, pow2(f.unit));
            assert((-(r as int)) * pow2(f.unit) == -(r * pow2(f.unit))) by (nonlinear_arith);
        },
        _ => {},
    }
}

/// The size of a count.
pub open spec fn size(a: int) -> int {
    if a < 0 {
        -a
    } else {
        a
    }
}

/// A quotient of at most `2^m` units.
proof fn lemma_quotient_near(f: Format, a: Num, b: Num, m: nat)
    requires
        f.sound(),
        a is Fin,
        b is Fin,
        units(b) != 0,
        f.p < m < f.p + f.top - 1,
        size(units(a)) * pow2(f.unit) <= pow2(m) * size(units(b)),
    ensures
        f.quotient(a, b) is Fin,
        -pow2(m) <= units(f.quotient(a, b)) <= pow2(m),
        within(
            units(f.quotient(a, b)) * units(b),
            units(a) * pow2(f.unit),
            pow2((m - f.p - 1) as nat) * size(units(b)),
        ),
{
    match (a, b) {
        (Num::Fin { neg: na, mag: ma }, Num::Fin { neg: nb, mag: mb }) => {
            let u = pow2(f.unit);
            lemma_pow2_pos(f.unit);
            lemma_rounded_near(f, na != nb, ma * u, mb, m);
            let r = f.round(ma * u, mb);
            assert(signed(na != nb, r) * signed(nb, mb) == signed(na, r * mb)) by {
                assert((-(r as int)) * (-(mb as int)) == r * mb) by (nonlinear_arith);
                assert((-(r as int)) * (mb as int) == -(r * mb)) by (nonlinear_arith);
                assert((r as int) * (-(mb as int)) == -(r * mb)) by (nonlinear_arith);
                assert(r * mb >= 0) by (nonlinear_arith);
            }
            assert(signed(na, ma) * u == signed(na, ma * u)) by {
                assert((-(ma as int)) * u == -(ma * u)) by (nonlinear_arith);
                assert(ma * u >= 0) by (nonlinear_arith);
            }
            assert(r * mb >= 0 && ma * u >= 0) by (nonlinear_arith);
        },
        _ => {},
    }
}

/// A single of at most `2^m` units.
pub open spec fn single_upto(x: Single, m: nat) -> bool {
    x.is_finite() && -pow2(m) <= units(x@) <= pow2(m)
}

/// A double of at most `2^m` units.
pub open spec fn double_upto(x: Double, m: nat) -> bool {
    x.is_finite() && -pow2(m) <= units(x@) <= pow2(m)
}

/// A sum of singles.
pub proof fn lemma_single_plus_near(a: Single, b: Single, m: nat)
    requires
        a.is_finite(),
        b.is_finite(),
        24 < m < 277,
        -pow2(m) <= units(a@) + units(b@) <= pow2(m),
    ensures
        single_upto(a.plus(b), m),
        within(units(a.plus(b)@), units(a@) + units(b@), pow2((m - 25) as nat) as int),
{
    lemma_single_bits();
    lemma_single_plus(a, b);
    lemma_sum_near(single_format(), a@, b@, m);
}

/// A difference of singles.
pub proof fn lemma_single_minus_near(a: Single, b: Single, m: nat)
    requires
        a.is_finite(),
        b.is_finite(),
        24 < m < 277,
        -pow2(m) <= units(a@) - units(b@) <= pow2(m),
    ensures
        single_upto(a.minus(b), m),
        within(units(a.minus(b)@), units(a@) - units(b@), pow2((m - 25) as nat) as int),
{
    lemma_single_bits();
    lemma_single_minus(a, b);
    lemma_sum_near(single_format(), a@, opposite(b@), m);
}

/// A product of singles.
pub proof fn lemma_single_times_near(a: Single, b: Single, m: nat)
    requires
        a.is_finite(),
        b.is_finite(),
        24 < m < 277,
        -(pow2(m) * pow2(149)) <= units(a@) * units(b@) <= pow2(m) * pow2(149),
    ensures
        single_upto(a.times(b), m),
        within(
            units(a.times(b)@) * pow2(149),
            units(a@) * units(b@),
            (pow2((m - 25) as nat) * pow2(149)) as int,
        ),
{
    lemma_single_bits();
    lemma_single_times(a, b);
    lemma_product_near(single_format(), a@, b@, m);
}

/// A product of doubles.
pub proof fn lemma_double_times_near(a: Double, b: Double, m: nat)
    requires
        a.is_finite(),
        b.is_finite(),
        53 < m < 2098,
        -(pow2(m) * pow2(1074)) <= units(a@) * units(b@) <= pow2(m) * pow2(1074),
    ensures
        double_upto(a.times(b), m),
        within(
            units(a.times(b)@) * pow2(1074),
            units(a@) * units(b@),
            (pow2((m - 54) as nat) * pow2(1074)) as int,
        ),
{
    lemma_double_bits();
    lemma_double_times(a, b);
    lemma_product_near(double_format(), a@, b@, m);
}

/// A quotient of doubles.
pub proof fn lemma_double_over_near(a: Double, b: Double, m: nat)
    requires
        a.is_finite(),
        b.is_finite(),
        units(b@) != 0,
        53 < m < 2098,
        size(units(a@)) * pow2(1074) <= pow2(m) * size(units(b@)),
    ensures
        double_upto(a.over(b), m),
        within(
            units(a.over(b)@) * units(b@),
            units(a@) * pow2(1074),
            pow2((m - 54) as nat) * size(units(b@)),
        ),
{
    lemma_double_bits();
    lemma_double_over(a, b);
    lemma_quotient_near(double_format(), a@, b@, m);
}

/// A double that is not negative as a whole number: the nearest one, and the next one up.
pub proof fn lemma_double_to_whole(x: Double)
    requires
        x.is_finite(),
        0 <= units(x@) < 0x10_0000_0000_0000 * pow2(1074),
    ensures
        x.round().to_u64() <= 0x10_0000_0000_0000,
        2 * gap_of(x.round().to_u64() * pow2(1074), units(x@)) <= pow2(1074),
        x.round().is_finite(),
        units(x.round()@) == x.round().to_u64() * pow2(1074),
        x.ceil().to_u64() <= 0x10_0000_0000_0000,
        units(x@) <= x.ceil().to_u64() * pow2(1074) < units(x@) + pow2(1074),
{
    let f = double_format();
    let one = pow2(1074);
    lemma_double_bits();
    lemma_pow2_pos(1074);
    reveal(Double::spec_round);
    reveal(Double::spec_ceil);
    reveal(Double::spec_to_u64);
    let (neg, m) = match x@ {
        Num::Fin { neg, mag } => (neg, mag),
        _ => (false, 0),
    };
    let q = m / one;
    lemma_fundamental_div_mod(m as int, one as int);
    lemma_mod_bound(m as int, one as int);
    assert(q < 0x10_0000_0000_0000) by (nonlinear_arith)
        requires
            m == one * q + m % one,
            m % one >= 0,
            m < 0x10_0000_0000_0000 * one,
            one > 0,
    ;
    assert(one * q == q * one) by (nonlinear_arith);
    assert((q + 1) * one == q * one + one) by (nonlinear_arith);
    if m == 0 {
        assert(q == 0) by {
            lemma_fundamental_div_mod_converse(0, one as int, 0, 0);
        }
    }
    let h = half_up(m, one);
    let c = if neg {
        q
    } else {
        up(m, one)
    };
    lemma_double_small(h as u64);
    lemma_double_small(c as u64);
    lemma_double_of(f.nearest(x@));
    lemma_double_of(f.ceiled(x@));
    lemma_fundamental_div_mod_converse((h * one) as int, one as int, h as int, 0);
    lemma_fundamental_div_mod_converse((c * one) as int, one as int, c as int, 0);
}

/// How far two counts are apart.
pub open spec fn gap_of(a: int, b: int) -> int {
    size(a - b)
}

/// The whole number nearest to a single.
pub proof fn lemma_single_to_whole(x: Single)
    requires
        x.is_finite(),
        -(0x80_0000 * pow2(149)) < units(x@) < 0x80_0000 * pow2(149),
    ensures
        -0x80_0000 <= x.round().to_i32() <= 0x80_0000,
        2 * gap_of(x.round().to_i32() * pow2(149), units(x@)) <= pow2(149),
        units(x.round()@) == x.round().to_i32() * pow2(149),
        x.round().is_finite(),
{
    let f = single_format();
    let one = pow2(149);
    lemma_single_bits();
    lemma_pow2_pos(149);
    reveal(Single::spec_round);
    reveal(Single::spec_to_i32);
    let (neg, m) = match x@ {
        Num::Fin { neg, mag } => (neg, mag),
        _ => (false, 0),
    };
    let q = m / one;
    lemma_fundamental_div_mod(m as int, one as int);
    lemma_mod_bound(m as int, one as int);
    assert(q < 0x80_0000) by (nonlinear_arith)
        requires
            m == one * q + m % one,
            m % one >= 0,
            m < 0x80_0000 * one,
            one > 0,
    ;
    assert(one * q == q * one) by (nonlinear_arith);
    assert((q + 1) * one == q * one + one) by (nonlinear_arith);
    let h = half_up(m, one);
    lemma_single_small(h as u64);
    lemma_single_of(f.nearest(x@));
    lemma_fundamental_div_mod_converse((h * one) as int, one as int, h as int, 0);
    assert((-(h as int)) * one == -(h * one)) by (nonlinear_arith);
}

/// A number times one is itself.
pub proof fn lemma_double_times_one(x: Double)
    requires
        x.is_finite(),
    ensures
        double(0x3ff0_0000_0000_0000).times(x).is_finite(),
        units(double(0x3ff0_0000_0000_0000).times(x)@) == units(x@),
        x.times(double(0x3ff0_0000_0000_0000)).is_finite(),
        units(x.times(double(0x3ff0_0000_0000_0000))@) == units(x@),
{
    let one = double(0x3ff0_0000_0000_0000);
    let f = double_format();
    lemma_double_one();
    lemma_double_bits();
    lemma_double_has(x);
    lemma_double_times(one, x);
    lemma_double_times(x, one);
    lemma_pow2_pos(1074);
    if let Num::Fin { neg: _, mag } = x@ {
        assert(pow2(1074) * mag == mag * pow2(1074)) by (nonlinear_arith);
        lemma_round_le(f, mag * pow2(1074), pow2(1074), mag);
        lemma_round_ge(f, mag * pow2(1074), pow2(1074), mag);
    }
}

/// A number times one is itself.
pub proof fn lemma_single_times_one(x: Single)
    requires
        x.is_finite(),
    ensures
        x.times(single(0x3f80_0000)).is_finite(),
        units(x.times(single(0x3f80_0000))@) == units(x@),
{
    let one = single(0x3f80_0000);
    let f = single_format();
    lemma_single_one();
    lemma_single_bits();
    lemma_single_has(x);
    lemma_single_times(x, one);
    lemma_pow2_pos(149);
    if let Num::Fin { neg: _, mag } = x@ {
        lemma_round_le(f, mag * pow2(149), pow2(149), mag);
        lemma_round_ge(f, mag * pow2(149), pow2(149), mag);
    }
}

/// A share as a single, and one as one.
pub proof fn lemma_share_to_single_near(x: Double)
    requires
        x.is_finite(),
        0 <= units(x@) <= pow2(1074),
    ensures
        x.to_single().is_finite(),
        0 <= units(x.to_single()@) <= pow2(149),
        within(
            units(x.to_single()@) * pow2(1074),
            units(x@) * pow2(149),
            (pow2(124) * pow2(1074)) as int,
        ),
        units(x@) == pow2(1074) ==> units(x.to_single()@) == pow2(149),
{
    let f = single_format();
    lemma_single_bits();
    lemma_double_bits();
    lemma_pow2_pos(149);
    lemma_pow2_pos(1074);
    lemma_double_zero();
    lemma_double_one();
    lemma_share_to_single(x);
    lemma_single_zero();
    lemma_single_one();
    reveal(Double::spec_to_single);
    if let Num::Fin { neg, mag } = x@ {
        let one = pow2(149);
        let num = mag * one;
        assert(num <= one * pow2(1074)) by (nonlinear_arith)
            requires
                mag <= pow2(1074),
                num == mag * one,
        ;
        lemma_rounded_near(f, neg, num, pow2(1074), 149);
        super::laws::lemma_rounded_has(f, neg, num, pow2(1074));
        lemma_single_of(f.converted(double_format(), x@));
        if mag == 0 {
            assert(num == 0) by (nonlinear_arith)
                requires
                    num == mag * one,
                    mag == 0,
            ;
        }
        if mag == pow2(1074) {
            lemma_single_has(single(0x3f80_0000));
            assert(num == one * pow2(1074)) by (nonlinear_arith)
                requires
                    num == mag * one,
                    mag == pow2(1074),
            ;
            lemma_round_ge(f, num, pow2(1074), one);
        }
        let u = units(x.to_single()@);
        if neg {
            assert(u == 0);
            assert(u * pow2(1074) == 0) by (nonlinear_arith)
                requires
                    u == 0,
            ;
        }
    }
}

/// A difference does not round past a number.
pub proof fn lemma_double_minus_keeps_side(a: Double, b: Double, c: Double)
    requires
        a.is_finite(),
        b.is_finite(),
        c.is_finite(),
    ensures
        units(a@) - units(b@) <= units(c@) ==> a.minus(b).le(c),
        units(c@) <= units(a@) - units(b@) ==> c.le(a.minus(b)),
{
    lemma_double_bits();
    lemma_double_minus(a, b);
    lemma_double_has(c);
    match (a@, b@, c@) {
        (
            Num::Fin { neg: na, mag: ma },
            Num::Fin { neg: nb, mag: mb },
            Num::Fin { neg: nc, mag: mc },
        ) => {
            lemma_sum_keeps_side(double_format(), na, ma, !nb, mb, nc, mc);
        },
        _ => {},
    }
}

/// A sum does not round past a number.
pub proof fn lemma_double_plus_keeps_side(a: Double, b: Double, c: Double)
    requires
        a.is_finite(),
        b.is_finite(),
        c.is_finite(),
    ensures
        units(a@) + units(b@) <= units(c@) ==> a.plus(b).le(c),
        units(c@) <= units(a@) + units(b@) ==> c.le(a.plus(b)),
{
    lemma_double_bits();
    lemma_double_plus(a, b);
    lemma_double_has(c);
    match (a@, b@, c@) {
        (
            Num::Fin { neg: na, mag: ma },
            Num::Fin { neg: nb, mag: mb },
            Num::Fin { neg: nc, mag: mc },
        ) => {
            lemma_sum_keeps_side(double_format(), na, ma, nb, mb, nc, mc);
        },
        _ => {},
    }
}

/// What is not below a length is at least once that length, and what lies inside one is a
/// share of it.
pub proof fn lemma_double_ratio(a: Double, len: Double)
    requires
        len.is_finite(),
        0 < units(len@),
        double(0).le(a),
    ensures
        len.le(a) ==> double(0x3ff0_0000_0000_0000).le(a.over(len)),
        a.le(len) ==> double(0).le(a.over(len)) && a.over(len).le(double(0x3ff0_0000_0000_0000)),
{
    let f = double_format();
    lemma_double_zero();
    lemma_double_one();
    lemma_double_bits();
    lemma_double_over(a, len);
    lemma_double_has(double(0x3ff0_0000_0000_0000));
    lemma_pow2_pos(1074);
    match (a@, len@) {
        (Num::Fin { neg: na, mag: ma }, Num::Fin { neg: _, mag: ml }) => {
            let num = ma * pow2(1074);
            if ml <= ma {
                assert(pow2(1074) * ml <= num) by (nonlinear_arith)
                    requires
                        ml <= ma,
                        num == ma * pow2(1074),
                ;
                lemma_round_ge(f, num, ml, pow2(1074));
            }
            if ma <= ml {
                assert(num <= pow2(1074) * ml) by (nonlinear_arith)
                    requires
                        ma <= ml,
                        num == ma * pow2(1074),
                ;
                lemma_round_le(f, num, ml, pow2(1074));
            }
            if ma == 0 {
                assert(num == 0) by (nonlinear_arith)
                    requires
                        ma == 0,
                        num == ma * pow2(1074),
                ;
                super::facts::lemma_holds_zero(f);
                lemma_round_le(f, 0, ml, 0);
            }
        },
        _ => {},
    }
}

/// What rounds to something finite is off by no more than half of a last place: one part in
/// `2^p`, and a unit.
proof fn lemma_rounded_part(f: Format, neg: bool, num: nat, den: nat)
    requires
        f.sound(),
        den > 0,
        f.rounded(neg, num, den) is Fin,
    ensures
        pow2(f.p) * gap_of((f.round(num, den) * den) as int, num as int) <= num + pow2(f.p) * den,
{
    let q = num / den;
    lemma_fundamental_div_mod(num as int, den as int);
    lemma_mod_bound(num as int, den as int);
    let k = f.place(bitlen(q));
    let w = pow2(k);
    lemma_pow2_pos(k);
    lemma_pow2_pos(f.p);
    assert(den * w > 0) by (nonlinear_arith)
        requires
            den > 0,
            w > 0,
    ;
    lemma_half_even_near(num, den * w);
    let h = half_even(num, den * w);
    assert(h * (den * w) == (h * w) * den) by (nonlinear_arith);
    let g = gap_of((f.round(num, den) * den) as int, num as int);
    assert(2 * g <= den * w);
    let t = pow2(f.p);
    if k == 0 {
        lemma2_to64();
        assert(t * g <= num + t * den) by (nonlinear_arith)
            requires
                2 * g <= den * w,
                w == 1,
                g >= 0,
        ;
    } else {
        lemma_bitlen_bounds(q);
        lemma_pow2_adds(k, f.p);
        lemma_pow2_unfold((k + f.p) as nat);
        let b = pow2((k + f.p - 1) as nat);
        assert(t * g <= num + t * den) by (nonlinear_arith)
            requires
                2 * g <= den * w,
                w * t == 2 * b,
                b <= q,
                num == den * q + num % den,
                num % den >= 0,
                den > 0,
                t > 0,
        ;
    }
}

/// How far a product of singles is off, as a part of it.
pub proof fn lemma_single_times_part(a: Single, b: Single)
    requires
        a.is_finite(),
        b.is_finite(),
        a.times(b).is_finite(),
    ensures
        0x100_0000 * gap_of(units(a.times(b)@) * pow2(149), units(a@) * units(b@)) <= size(
            units(a@) * units(b@),
        ) + 0x100_0000 * pow2(149),
{
    let f = single_format();
    lemma_single_bits();
    lemma_single_times(a, b);
    lemma_pow2_pos(149);
    lemma2_to64();
    match (a@, b@) {
        (Num::Fin { neg: na, mag: ma }, Num::Fin { neg: nb, mag: mb }) => {
            assert(signed(na, ma) * signed(nb, mb) == signed(na != nb, ma * mb)) by {
                assert((-(ma as int)) * (-(mb as int)) == ma * mb) by (nonlinear_arith);
                assert((-(ma as int)) * (mb as int) == -(ma * mb)) by (nonlinear_arith);
                assert((ma as int) * (-(mb as int)) == -(ma * mb)) by (nonlinear_arith);
            }
            assert(ma * mb >= 0) by (nonlinear_arith);
            lemma_rounded_part(f, na != nb, ma * mb, pow2(149));
            let r = f.round(ma * mb, pow2(149));
            assert((-(r as int)) * pow2(149) == -(r * pow2(149))) by (nonlinear_arith);
        },
        _ => {},
    }
}

/// A quotient of singles of at most `2^m` units.
pub proof fn lemma_single_over_near(a: Single, b: Single, m: nat)
    requires
        a.is_finite(),
        b.is_finite(),
        units(b@) != 0,
        24 < m < 277,
        size(units(a@)) * pow2(149) <= pow2(m) * size(units(b@)),
    ensures
        single_upto(a.over(b), m),
        within(
            units(a.over(b)@) * units(b@),
            units(a@) * pow2(149),
            pow2((m - 25) as nat) * size(units(b@)),
        ),
{
    lemma_single_bits();
    lemma_single_over(a, b);
    lemma_quotient_near(single_format(), a@, b@, m);
}

/// How far a quotient of positive singles is off, as a part of it.
pub proof fn lemma_single_over_part(a: Single, b: Single)
    requires
        a.is_finite(),
        b.is_finite(),
        0 <= units(a@),
        0 < units(b@),
        a.over(b).is_finite(),
    ensures
        0 <= units(a.over(b)@),
        0x100_0000 * gap_of(units(a.over(b)@) * units(b@), units(a@) * pow2(149)) <= units(a@)
            * pow2(149) + 0x100_0000 * units(b@),
{
    let f = single_format();
    lemma_single_bits();
    lemma_single_over(a, b);
    lemma_pow2_pos(149);
    lemma2_to64();
    match (a@, b@) {
        (Num::Fin { neg: na, mag: ma }, Num::Fin { neg: nb, mag: mb }) => {
            let u = pow2(149);
            lemma_rounded_part(f, na != nb, ma * u, mb);
            let r = f.round(ma * u, mb);
            if na != nb {
                assert(ma * u == 0) by (nonlinear_arith)
                    requires
                        ma == 0,
                ;
                super::facts::lemma_holds_zero(f);
                lemma_round_le(f, 0, mb, 0);
            }
        },
        _ => {},
    }
}

/// Half of a number.
pub proof fn lemma_half_near(x: Single, m: nat)
    requires
        24 < m < 277,
        single_upto(x, m),
    ensures
        single_upto(x.times(single(0x3f00_0000)), m),
        within(
            2 * units(x.times(single(0x3f00_0000))@),
            units(x@),
            2 * pow2((m - 25) as nat) as int,
        ),
{
    let p = pow2(149);
    let h = pow2(148);
    lemma_single_half();
    lemma_pow2_pos(148);
    lemma_pow2_unfold(149);
    let u = units(x@);
    let top = pow2(m);
    assert(-(top * p) <= u * h <= top * p) by (nonlinear_arith)
        requires
            -top <= u <= top,
            p == 2 * h,
            h > 0,
    ;
    lemma_single_times_near(x, single(0x3f00_0000), m);
    let r = units(x.times(single(0x3f00_0000))@);
    let e = pow2((m - 25) as nat);
    assert(within(2 * r, u, 2 * e as int)) by (nonlinear_arith)
        requires
            -(e * p) <= r * p - u * h <= e * p,
            p == 2 * h,
            h > 0,
    ;
}

/// A small whole number with a sign is exact as a single.
pub proof fn lemma_single_small_signed(n: i64)
    requires
        -0x100_0000 <= n <= 0x100_0000,
    ensures
        Single::from_i64(n).is_finite(),
        units(Single::from_i64(n)@) == n * pow2(149),
{
    reveal(Single::spec_from_i64);
    let f = single_format();
    let m = (if n < 0 {
        -(n as int)
    } else {
        n as int
    }) as nat;
    lemma_single_bits();
    lemma2_to64();
    lemma_pow2_pos(149);
    super::engine::lemma_whole_exact(f, n < 0, m);
    super::laws::lemma_rounded_has(f, n < 0, m * pow2(f.unit), 1);
    lemma_single_of(f.whole(n < 0, m));
    assert((-(m as int)) * pow2(149) == -(m * pow2(149))) by (nonlinear_arith);
}

/// A single that is not negative as a whole number, what lies below one dropped.
pub proof fn lemma_single_cut(x: Single)
    requires
        x.is_finite(),
        0 <= units(x@) < 0x80_0000 * pow2(149),
    ensures
        0 <= x.to_i32() < 0x80_0000,
        x.to_i32() * pow2(149) <= units(x@) < x.to_i32() * pow2(149) + pow2(149),
        x.to_u32() == x.to_i32(),
        x.to_i32() <= 255 ==> x.to_u8() == x.to_i32(),
{
    let one = pow2(149);
    lemma_single_bits();
    lemma_pow2_pos(149);
    reveal(Single::spec_to_i32);
    reveal(Single::spec_to_u32);
    reveal(Single::spec_to_u8);
    let m = match x@ {
        Num::Fin { neg, mag } => mag,
        _ => 0,
    };
    let q = m / one;
    lemma_fundamental_div_mod(m as int, one as int);
    lemma_mod_bound(m as int, one as int);
    assert(q < 0x80_0000) by (nonlinear_arith)
        requires
            m == one * q + m % one,
            m % one >= 0,
            m < 0x80_0000 * one,
            one > 0,
    ;
    assert(one * q == q * one) by (nonlinear_arith);
    if m == 0 {
        lemma_fundamental_div_mod_converse(0, one as int, 0, 0);
    }
}

/// A sum or a difference of singles does not round past nothing.
pub proof fn lemma_single_keeps_sign(a: Single, b: Single)
    requires
        a.is_finite(),
        b.is_finite(),
    ensures
        a.plus(b).is_finite() && units(a@) + units(b@) >= 0 ==> units(a.plus(b)@) >= 0,
        a.minus(b).is_finite() && units(a@) - units(b@) >= 0 ==> units(a.minus(b)@) >= 0,
{
    lemma_single_plus(a, b);
    lemma_single_minus(a, b);
}

/// A sum or a difference of doubles of at most `2^m` units.
pub proof fn lemma_double_sums_near(a: Double, b: Double, m: nat)
    requires
        a.is_finite(),
        b.is_finite(),
        53 < m < 2098,
    ensures
        -pow2(m) <= units(a@) + units(b@) <= pow2(m) ==> double_upto(a.plus(b), m) && within(
            units(a.plus(b)@),
            units(a@) + units(b@),
            pow2((m - 54) as nat) as int,
        ),
        -pow2(m) <= units(a@) - units(b@) <= pow2(m) ==> double_upto(a.minus(b), m) && within(
            units(a.minus(b)@),
            units(a@) - units(b@),
            pow2((m - 54) as nat) as int,
        ),
{
    lemma_double_bits();
    lemma_double_plus(a, b);
    lemma_double_minus(a, b);
    if -pow2(m) <= units(a@) + units(b@) <= pow2(m) {
        lemma_sum_near(double_format(), a@, b@, m);
    }
    if -pow2(m) <= units(a@) - units(b@) <= pow2(m) {
        lemma_sum_near(double_format(), a@, opposite(b@), m);
    }
}

/// A single as a double.
pub proof fn lemma_single_to_double_near(x: Single, m: nat)
    requires
        1074 <= m < 2098,
        single_upto(x, (m - 925) as nat),
    ensures
        double_upto(x.to_double(), m),
        0 <= units(x@) ==> 0 <= units(x.to_double()@),
        within(
            units(x.to_double()@) * pow2(149),
            units(x@) * pow2(1074),
            (pow2((m - 54) as nat) * pow2(149)) as int,
        ),
{
    let f = double_format();
    let (p, d) = (pow2(149), pow2(1074));
    lemma_single_bits();
    lemma_double_bits();
    lemma_pow2_pos(149);
    lemma_pow2_pos(1074);
    reveal(Single::spec_to_double);
    lemma_pow2_adds(149, 925);
    lemma_pow2_adds(925, (m - 925) as nat);
    if let Num::Fin { neg, mag } = x@ {
        let num = mag * d;
        let (a, b) = (pow2((m - 925) as nat), pow2(925));
        assert(num <= pow2(m) * p) by (nonlinear_arith)
            requires
                mag <= a,
                num == mag * d,
                d == p * b,
                pow2(m) == b * a,
                p > 0,
                b >= 0,
        ;
        lemma_rounded_near(f, neg, num, p, m);
        super::laws::lemma_rounded_has(f, neg, num, p);
        lemma_double_of(f.converted(single_format(), x@));
        let r = f.round(num, p);
        assert((-(r as int)) * p == -(r * p) && (-(mag as int)) * d == -(mag * d)) by (nonlinear_arith);
        if mag == 0 {
            assert(num == 0) by (nonlinear_arith)
                requires
                    num == mag * d,
                    mag == 0,
            ;
            super::facts::lemma_holds_zero(f);
            lemma_round_le(f, 0, p, 0);
        }
    }
}

/// A double as a single.
pub proof fn lemma_double_to_single_near(x: Double, m: nat)
    requires
        149 <= m < 277,
        double_upto(x, m + 925),
    ensures
        single_upto(x.to_single(), m),
        within(
            units(x.to_single()@) * pow2(1074),
            units(x@) * pow2(149),
            (pow2((m - 25) as nat) * pow2(1074)) as int,
        ),
{
    let f = single_format();
    let (p, d) = (pow2(149), pow2(1074));
    lemma_single_bits();
    lemma_double_bits();
    lemma_pow2_pos(149);
    lemma_pow2_pos(1074);
    reveal(Double::spec_to_single);
    lemma_pow2_adds(149, 925);
    lemma_pow2_adds(925, m);
    if let Num::Fin { neg, mag } = x@ {
        let num = mag * p;
        let b = pow2(925);
        assert(num <= pow2(m) * d) by (nonlinear_arith)
            requires
                mag <= b * pow2(m),
                num == mag * p,
                d == p * b,
                p > 0,
                b >= 0,
        ;
        lemma_rounded_near(f, neg, num, d, m);
        super::laws::lemma_rounded_has(f, neg, num, d);
        lemma_single_of(f.converted(double_format(), x@));
        let r = f.round(num, d);
        assert((-(r as int)) * d == -(r * d) && (-(mag as int)) * p == -(mag * p)) by (nonlinear_arith);
    }
}

/// Of two counts that are close, so are equal multiples.
pub proof fn lemma_close_times(a: int, b: int, e: int, k: int)
    requires
        gap_of(a, b) <= e,
        0 <= k,
    ensures
        gap_of(a * k, b * k) <= e * k,
{
    assert(gap_of(a * k, b * k) <= e * k) by (nonlinear_arith)
        requires
            gap_of(a, b) <= e,
            0 <= k,
    ;
}

/// Equal multiples that are close come from counts that are.
pub proof fn lemma_close_parts(a: int, b: int, e: int, k: int)
    requires
        gap_of(a * k, b * k) <= e * k,
        0 < k,
    ensures
        gap_of(a, b) <= e,
{
    assert(gap_of(a, b) <= e) by (nonlinear_arith)
        requires
            gap_of(a * k, b * k) <= e * k,
            0 < k,
    ;
}

/// A double that is not negative as a whole number, what lies below one dropped.
pub proof fn lemma_double_cut(x: Double)
    requires
        x.is_finite(),
        0 <= units(x@) < 0x10_0000_0000_0000 * pow2(1074),
    ensures
        x.to_u64() < 0x10_0000_0000_0000,
        x.to_u64() * pow2(1074) <= units(x@) < x.to_u64() * pow2(1074) + pow2(1074),
        x.to_i64() == x.to_u64(),
        x.to_u64() <= 0xffff_ffff ==> x.to_u32() == x.to_u64() && x.to_usize() == x.to_u64(),
{
    let one = pow2(1074);
    lemma_double_bits();
    lemma_pow2_pos(1074);
    reveal(Double::spec_to_u64);
    reveal(Double::spec_to_i64);
    reveal(Double::spec_to_u32);
    reveal(Double::spec_to_usize);
    let m = match x@ {
        Num::Fin { neg, mag } => mag,
        _ => 0,
    };
    let q = m / one;
    lemma_fundamental_div_mod(m as int, one as int);
    lemma_mod_bound(m as int, one as int);
    assert(q < 0x10_0000_0000_0000) by (nonlinear_arith)
        requires
            m == one * q + m % one,
            m % one >= 0,
            m < 0x10_0000_0000_0000 * one,
            one > 0,
    ;
    assert(one * q == q * one) by (nonlinear_arith);
    if m == 0 {
        lemma_fundamental_div_mod_converse(0, one as int, 0, 0);
    }
}

} // verus!
