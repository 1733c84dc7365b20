//! Correctly rounding arithmetic on bit patterns.
//!
//! Everything here works on patterns held in a `u64`, for any format a [`Layout`]
//! describes.

use super::laws::{
    kept, lemma_bitlen_bounds, lemma_bitlen_below, lemma_bitlen_is, lemma_bitlen_shift,
    lemma_bits_mag_monotone, lemma_decode_encode, lemma_div_scale, lemma_encode_decode,
    lemma_kept_bounds, lemma_mag_bits, lemma_pow2_monotone, lemma_round_kept, stands_for,
};
use super::model::{alike, below, bitlen, double_format, single_format, up, Format, Num};
use vstd::arithmetic::div_mod::{
    lemma_fundamental_div_mod, lemma_fundamental_div_mod_converse, lemma_mod_bound,
};
use vstd::arithmetic::power2::{
    lemma2_to64, lemma2_to64_rest, lemma_pow2_adds, lemma_pow2_pos, lemma_pow2_strictly_increases,
    lemma_pow2_unfold, pow2,
};
use vstd::prelude::*;

verus! {

/// The numbers that describe a format.
#[derive(Clone, Copy)]
pub struct Layout {
    /// Bits of precision.
    pub precision: u32,
    /// The exponent of `1.0` in units.
    pub unit: u32,
    /// The largest biased exponent of a finite number.
    pub top: u32,
    /// The weight of the lowest exponent bit.
    pub hidden: u64,
    /// The pattern of positive infinity.
    pub inf: u64,
    /// The weight of the sign bit.
    pub sign: u64,
}

impl View for Layout {
    type V = Format;

    open spec fn view(&self) -> Format {
        Format { p: self.precision as nat, unit: self.unit as nat, top: self.top as nat }
    }
}

impl Layout {
    /// The derived fields agree with the format.
    pub open spec fn agrees(self) -> bool {
        &&& self@.sound()
        &&& self.unit <= 1074
        &&& self.top <= 2046
        &&& self.hidden == self@.hidden()
        &&& self.inf == self@.inf_bits()
        &&& self.sign == self@.sign_bit()
        &&& 2 * self.sign <= 0x1_0000_0000_0000_0000
    }

    /// The layout with 53 bits of precision.
    pub fn double() -> (l: Layout)
        ensures
            l.agrees(),
            l@ == double_format(),
            l.sign == 0x8000_0000_0000_0000,
    {
        proof {
            lemma2_to64_rest();
            assert(pow2(52) == 0x10_0000_0000_0000);
        }
        Layout {
            precision: 53,
            unit: 1074,
            top: 2046,
            hidden: 0x10_0000_0000_0000,
            inf: 0x7ff0_0000_0000_0000,
            sign: 0x8000_0000_0000_0000,
        }
    }

    /// The layout with 24 bits of precision.
    pub fn single() -> (l: Layout)
        ensures
            l.agrees(),
            l@ == single_format(),
            l.sign == 0x8000_0000,
    {
        proof {
            lemma2_to64();
            assert(pow2(23) == 0x80_0000);
        }
        Layout {
            precision: 24,
            unit: 149,
            top: 254,
            hidden: 0x80_0000,
            inf: 0x7f80_0000,
            sign: 0x8000_0000,
        }
    }
}

/// `1 << i` is the power of two.
proof fn lemma_one_shl(i: u128)
    requires
        i < 128,
    ensures
        (1u128 << i) == pow2(i as nat),
    decreases i,
{
    if i == 0 {
        lemma2_to64();
        assert(1u128 << 0u128 == 1u128) by (bit_vector);
    } else {
        let h = (i - 1) as u128;
        lemma_one_shl(h);
        lemma_pow2_unfold(i as nat);
        assert((1u128 << i) == 2 * (1u128 << h)) by (bit_vector)
            requires
                1 <= i < 128,
                h == i - 1,
        ;
    }
}

/// The power of two with exponent `i`.
fn power(i: u32) -> (r: u128)
    requires
        i < 128,
    ensures
        r == pow2(i as nat),
        r > 0,
{
    proof {
        lemma_one_shl(i as u128);
        lemma_pow2_pos(i as nat);
    }
    1u128 << (i as u128)
}

/// Halves the digits still to be counted: `v` keeps those above `pow2(k)`.
fn narrow(v: u128, k: u32, w: u128) -> (r: (u128, u32))
    requires
        w == pow2(k as nat),
        v < w * w,
        k <= 64,
    ensures
        r.0 < w,
        r.1 <= k,
        bitlen(v as nat) == r.1 + bitlen(r.0 as nat),
{
    if v >= w {
        proof {
            lemma_bitlen_shift(v as nat, k as nat);
            lemma_pow2_pos(k as nat);
            lemma_fundamental_div_mod(v as int, w as int);
            assert(v / w < w) by (nonlinear_arith)
                requires
                    v == w * (v / w) + v % w,
                    v % w >= 0,
                    v < w * w,
                    w > 0,
            ;
        }
        (v / w, k)
    } else {
        (v, 0)
    }
}

/// How many binary digits `x` has.
fn digits(x: u128) -> (n: u32)
    ensures
        n == bitlen(x as nat),
        n <= 128,
{
    proof {
        lemma2_to64();
    }
    let a: (u128, u32) = narrow(x, 64, 0x1_0000_0000_0000_0000);
    let b: (u128, u32) = narrow(a.0, 32, 0x1_0000_0000);
    let c: (u128, u32) = narrow(b.0, 16, 0x1_0000);
    let d: (u128, u32) = narrow(c.0, 8, 0x100);
    let e: (u128, u32) = narrow(d.0, 4, 0x10);
    let f: (u128, u32) = narrow(e.0, 2, 4);
    let g: (u128, u32) = narrow(f.0, 1, 2);
    proof {
        reveal_with_fuel(bitlen, 2);
    }
    a.1 + b.1 + c.1 + d.1 + e.1 + f.1 + g.1 + g.0 as u32
}

/// A number taken apart: `mant * pow2(exp)` units.
#[derive(Clone, Copy)]
pub struct Parts {
    pub neg: bool,
    pub mant: u64,
    pub exp: u32,
}

/// What a bit pattern turns out to be.
#[derive(Clone, Copy)]
pub enum Class {
    Nan,
    Inf { neg: bool },
    Fin { parts: Parts },
}

impl Parts {
    pub open spec fn mag(self) -> nat {
        self.mant as nat * pow2(self.exp as nat)
    }

    /// The parts are those of a number of the format.
    pub open spec fn fit(self, f: Format) -> bool {
        &&& self.mant < pow2(f.p)
        &&& self.exp < f.top
        &&& self.exp > 0 ==> self.mant >= f.hidden()
    }
}

impl Class {
    pub open spec fn num(self) -> Num {
        match self {
            Class::Nan => Num::Nan,
            Class::Inf { neg } => Num::Inf { neg },
            Class::Fin { parts } => Num::Fin { neg: parts.neg, mag: parts.mag() },
        }
    }

    pub open spec fn fit(self, f: Format) -> bool {
        match self {
            Class::Fin { parts } => parts.fit(f),
            _ => true,
        }
    }
}

/// Takes a bit pattern apart.
pub fn unpack(l: &Layout, bits: u64) -> (c: Class)
    requires
        l.agrees(),
        bits < 2 * l.sign,
    ensures
        c.num() == l@.decode(bits as nat),
        c.fit(l@),
{
    let neg: bool = bits >= l.sign;
    let rest: u64 = if neg {
        bits - l.sign
    } else {
        bits
    };
    if rest > l.inf {
        Class::Nan
    } else if rest == l.inf {
        Class::Inf { neg }
    } else {
        proof {
            lemma_pow2_pos((l@.p - 1) as nat);
            lemma_pow2_unfold(l@.p);
            lemma_fundamental_div_mod(rest as int, l.hidden as int);
            lemma_mod_bound(rest as int, l.hidden as int);
            lemma2_to64();
        }
        let field: u64 = rest / l.hidden;
        let frac: u64 = rest % l.hidden;
        proof {
            assert(field <= l.top) by (nonlinear_arith)
                requires
                    rest == l.hidden * field + frac,
                    rest < (l.top + 1) * l.hidden,
                    frac >= 0,
                    l.hidden > 0,
            ;
        }
        if field == 0 {
            assert(frac as nat * pow2(0) == frac);
            Class::Fin { parts: Parts { neg, mant: frac, exp: 0 } }
        } else {
            proof {
                lemma_pow2_monotone(l@.p, 53);
                lemma2_to64_rest();
            }
            Class::Fin { parts: Parts { neg, mant: l.hidden + frac, exp: (field - 1) as u32 } }
        }
    }
}

/// `g * pow2(e)` units, and a little more where `more` is set, with a sign, rounded.
pub open spec fn settled(f: Format, neg: bool, g: nat, e: int, more: bool) -> Num {
    let k = f.place_of(g, e);
    let m = kept(g, e, more, k) * pow2(k);
    if m >= f.limit() {
        Num::Inf { neg }
    } else {
        Num::Fin { neg, mag: m }
    }
}

/// Rounds `g * pow2(e)` units and packs the result.
pub fn pack(l: &Layout, neg: bool, g: u128, e: i32, more: bool) -> (bits: u64)
    requires
        l.agrees(),
        g < pow2(127),
        -100_000 < e < 100_000,
    ensures
        bits == l@.encode(settled(l@, neg, g as nat, e as int, more)),
        bits < 2 * l.sign,
{
    let ghost f = l@;
    let len: i32 = digits(g) as i32;
    let t: i32 = len + e;
    let k: i32 = if g > 0 && t > l.precision as i32 {
        t - l.precision as i32
    } else {
        0
    };
    let j: i32 = k - e;
    let ghost kk = f.place_of(g as nat, e as int);
    let ghost r0 = kept(g as nat, e as int, more, kk);
    proof {
        assert(kk == k);
        lemma_kept_bounds(f, g as nat, e as int, more);
        lemma_mag_bits(f, kk, r0);
        lemma_pow2_monotone(f.p, 53);
        lemma2_to64_rest();
        lemma_bitlen_bounds(g as nat);
        lemma_bitlen_below(g as nat, 127);
        lemma_pow2_pos(127);
    }
    let r: u64 = if j <= 0 {
        if g == 0 {
            proof {
                assert(0 * pow2((-j) as nat) == 0);
            }
            0
        } else {
            proof {
                if -j > 60 {
                    lemma_pow2_monotone(61, (-j) as nat);
                    assert(g * pow2((-j) as nat) >= pow2(61)) by (nonlinear_arith)
                        requires
                            g >= 1,
                            pow2((-j) as nat) >= pow2(61),
                    ;
                }
            }
            let w: u128 = power((-j) as u32);
            (g * w) as u64
        }
    } else if j >= 128 {
        proof {
            lemma_pow2_monotone(127, (j - 1) as nat);
            lemma_pow2_monotone(127, j as nat);
            lemma_fundamental_div_mod_converse(g as int, pow2(j as nat) as int, 0, g as int);
        }
        0
    } else {
        let w: u128 = power(j as u32);
        let half: u128 = power((j - 1) as u32);
        let q: u128 = g / w;
        let low: u128 = g % w;
        if low > half || (low == half && (more || q % 2 == 1)) {
            (q + 1) as u64
        } else {
            q as u64
        }
    };
    assert(r == r0);
    let rest: u64 = if k >= l.top as i32 {
        proof {
            lemma_pow2_pos((f.p - 1) as nat);
            assert(kk * f.hidden() + r0 >= f.inf_bits()) by (nonlinear_arith)
                requires
                    kk >= f.top,
                    r0 >= f.hidden(),
                    f.inf_bits() == (f.top + 1) * f.hidden(),
            ;
        }
        l.inf
    } else {
        proof {
            lemma_pow2_unfold(f.p);
            lemma_pow2_pos((f.p - 1) as nat);
            assert(k * l.hidden + r <= l.inf) by (nonlinear_arith)
                requires
                    k + 1 <= f.top,
                    r <= 2 * l.hidden,
                    l.inf == (f.top + 1) * l.hidden,
            ;
            assert(k * l.hidden >= 0) by (nonlinear_arith)
                requires
                    k >= 0,
                    l.hidden >= 0,
            ;
        }
        (k as u64) * l.hidden + r
    };
    proof {
        lemma_pow2_pos((f.p - 1) as nat);
        assert((f.top + 2) * f.hidden() == (f.top + 1) * f.hidden() + f.hidden())
            by (nonlinear_arith);
    }
    if neg {
        rest + l.sign
    } else {
        rest
    }
}

/// What stands for a fraction settles where the fraction rounds to.
proof fn lemma_settled(
    f: Format,
    neg: bool,
    g: nat,
    up: nat,
    down: nat,
    more: bool,
    num: nat,
    den: nat,
)
    requires
        f.sound(),
        den > 0,
        more ==> bitlen(g) > f.p,
        stands_for(g, up, down, more, num, den),
    ensures
        settled(f, neg, g, up - down, more) == f.rounded(neg, num, den),
{
    lemma_round_kept(f, g, up, down, more, num, den);
}

/// A whole number of `pow2(e)` units stands for itself.
proof fn lemma_settled_exact(f: Format, neg: bool, g: nat, e: nat, num: nat)
    requires
        f.sound(),
        num == g * pow2(e),
    ensures
        settled(f, neg, g, e as int, false) == f.rounded(neg, num, 1),
{
    lemma2_to64();
    lemma_pow2_pos(e);
    assert(num * pow2(0) == num && 1 * pow2(e) == pow2(e));
    lemma_fundamental_div_mod_converse(num as int, pow2(e) as int, g as int, 0);
    lemma_settled(f, neg, g, e, 0, false, num, 1);
}

/// The pattern of the quiet NaN.
fn nan(l: &Layout) -> (bits: u64)
    requires
        l.agrees(),
    ensures
        bits == l@.encode(Num::Nan),
        bits < 2 * l.sign,
{
    proof {
        lemma_decode_encode(l@, Num::Nan);
        lemma_pow2_pos((l@.p - 1) as nat);
    }
    l.inf + l.hidden / 2
}

/// The pattern of an infinity.
fn infinity(l: &Layout, neg: bool) -> (bits: u64)
    requires
        l.agrees(),
    ensures
        bits == l@.encode(Num::Inf { neg }),
        bits < 2 * l.sign,
{
    proof {
        lemma_decode_encode(l@, Num::Inf { neg });
    }
    if neg {
        l.inf + l.sign
    } else {
        l.inf
    }
}

/// The pattern of a zero.
fn zero(l: &Layout, neg: bool) -> (bits: u64)
    requires
        l.agrees(),
    ensures
        bits == l@.encode(Num::Fin { neg, mag: 0 }),
        bits < 2 * l.sign,
{
    proof {
        lemma_pow2_pos((l@.p - 1) as nat);
        lemma_mag_bits(l@, 0, 0);
        assert(0 * pow2(0) == 0);
        assert(0 * l@.hidden() == 0);
        assert(l.sign > 0) by (nonlinear_arith)
            requires
                l.sign == (l.top + 2) * l.hidden,
                l.hidden > 0,
        ;
    }
    if neg {
        l.sign
    } else {
        0
    }
}

/// The few powers of two that the sums need by value.
proof fn lemma_some_powers()
    ensures
        pow2(0) == 1,
        pow2(3) == 8,
        pow2(53) == 0x20_0000_0000_0000,
        pow2(64) == 0x1_0000_0000_0000_0000,
{
    lemma2_to64();
    lemma2_to64_rest();
}

/// The sum of two finite numbers whose digits fit side by side.
fn sum_near(l: &Layout, a: Parts, b: Parts) -> (bits: u64)
    requires
        l.agrees(),
        a.fit(l@),
        b.fit(l@),
        0 <= a.exp - b.exp <= 64,
    ensures
        bits == l@.encode(
            l@.sum(
                Num::Fin { neg: a.neg, mag: a.mag() },
                Num::Fin { neg: b.neg, mag: b.mag() },
            ),
        ),
        bits < 2 * l.sign,
{
    let ghost f = l@;
    proof {
        lemma_pow2_monotone(f.p, 53);
        lemma_some_powers();
        lemma_pow2_pos(b.exp as nat);
        lemma_pow2_pos(a.exp as nat);
    }
    let d: u32 = a.exp - b.exp;
    let w: u128 = power(d);
    let ghost q = pow2(b.exp as nat);
    proof {
        lemma_pow2_monotone(d as nat, 64);
        lemma_pow2_adds(b.exp as nat, d as nat);
        lemma_pow2_adds(53, 64);
        lemma_pow2_strictly_increases(118, 127);
        lemma_pow2_unfold(118);
        assert(a.mant as u128 * w <= pow2(53) * pow2(64)) by (nonlinear_arith)
            requires
                a.mant < pow2(53),
                w <= pow2(64),
        ;
        lemma_pow2_unfold(127);
    }
    let high: u128 = a.mant as u128 * w;
    let low: u128 = b.mant as u128;
    proof {
        assert(a.mag() == high * q) by (nonlinear_arith)
            requires
                a.mag() == a.mant as nat * (q * w),
                high == a.mant * w,
        ;
    }
    if a.neg == b.neg {
        let g: u128 = high + low;
        proof {
            assert(a.mag() + b.mag() == g as nat * q) by (nonlinear_arith)
                requires
                    a.mag() == high as nat * q,
                    b.mag() == low as nat * q,
                    g == high + low,
            ;
            lemma_settled_exact(f, a.neg, g as nat, b.exp as nat, a.mag() + b.mag());
        }
        if g == 0 {
            proof {
                assert(g as nat * q == 0) by (nonlinear_arith)
                    requires
                        g == 0,
                ;
            }
            zero(l, a.neg)
        } else {
            proof {
                assert(g as nat * q > 0) by (nonlinear_arith)
                    requires
                        g > 0,
                        q > 0,
                ;
            }
            pack(l, a.neg, g, b.exp as i32, false)
        }
    } else if high > low {
        let g: u128 = high - low;
        proof {
            assert(a.mag() - b.mag() == g as nat * q && g as nat * q > 0) by (nonlinear_arith)
                requires
                    a.mag() == high as nat * q,
                    b.mag() == low as nat * q,
                    g == high - low,
                    g > 0,
                    q > 0,
            ;
            lemma_settled_exact(
                f,
                a.neg,
                g as nat,
                b.exp as nat,
                (a.mag() - b.mag()) as nat,
            );
        }
        pack(l, a.neg, g, b.exp as i32, false)
    } else if low > high {
        let g: u128 = low - high;
        proof {
            assert(b.mag() - a.mag() == g as nat * q && g as nat * q > 0) by (nonlinear_arith)
                requires
                    a.mag() == high as nat * q,
                    b.mag() == low as nat * q,
                    g == low - high,
                    g > 0,
                    q > 0,
            ;
            lemma_settled_exact(
                f,
                b.neg,
                g as nat,
                b.exp as nat,
                (b.mag() - a.mag()) as nat,
            );
        }
        pack(l, b.neg, g, b.exp as i32, false)
    } else {
        zero(l, false)
    }
}

/// The sum of two finite numbers, the second too small to reach the digits of the first.
fn sum_far(l: &Layout, a: Parts, b: Parts) -> (bits: u64)
    requires
        l.agrees(),
        a.fit(l@),
        b.fit(l@),
        a.exp - b.exp > 64,
    ensures
        bits == l@.encode(
            l@.sum(
                Num::Fin { neg: a.neg, mag: a.mag() },
                Num::Fin { neg: b.neg, mag: b.mag() },
            ),
        ),
        bits < 2 * l.sign,
{
    let ghost f = l@;
    proof {
        lemma_pow2_monotone(f.p, 53);
        lemma_some_powers();
        lemma_pow2_pos(b.exp as nat);
        lemma_pow2_pos(a.exp as nat);
    }
    let e: u32 = a.exp - 3;
    let ghost q = pow2(e as nat);
    let wide: u128 = a.mant as u128 * 8;
    proof {
        lemma_pow2_pos(e as nat);
        lemma_pow2_pos((f.p - 1) as nat);
        lemma_pow2_adds(e as nat, 3);
        lemma_pow2_adds(53, b.exp as nat);
        lemma_pow2_monotone((53 + b.exp) as nat, e as nat);
        lemma_pow2_strictly_increases(64, 127);
        assert(a.mag() == wide as nat * q) by (nonlinear_arith)
            requires
                a.mag() == a.mant as nat * (q * 8),
                wide == a.mant * 8,
        ;
        assert(b.mag() < q) by (nonlinear_arith)
            requires
                b.mag() == b.mant as nat * pow2(b.exp as nat),
                b.mant < pow2(53),
                pow2(b.exp as nat) > 0,
                pow2(53) * pow2(b.exp as nat) <= q,
        ;
        lemma_pow2_unfold(f.p + 1);
        lemma_pow2_unfold(f.p);
        lemma_bitlen_bounds(wide as nat);
        lemma_bitlen_bounds((wide - 1) as nat);
        if bitlen(wide as nat) <= f.p {
            lemma_pow2_monotone(bitlen(wide as nat), f.p);
        }
        if bitlen((wide - 1) as nat) <= f.p {
            lemma_pow2_monotone(bitlen((wide - 1) as nat), f.p);
        }
        assert(wide as nat * q >= q) by (nonlinear_arith)
            requires
                wide >= 1,
                q > 0,
        ;
    }
    if b.mant == 0 {
        proof {
            assert(b.mag() == 0) by (nonlinear_arith)
                requires
                    b.mag() == b.mant as nat * pow2(b.exp as nat),
                    b.mant == 0,
            ;
            lemma_settled_exact(f, a.neg, wide as nat, e as nat, a.mag());
        }
        pack(l, a.neg, wide, e as i32, false)
    } else {
        proof {
            assert(b.mag() > 0) by (nonlinear_arith)
                requires
                    b.mag() == b.mant as nat * pow2(b.exp as nat),
                    b.mant > 0,
                    pow2(b.exp as nat) > 0,
            ;
            assert(1 * q == q);
        }
        if a.neg == b.neg {
            proof {
                let num = a.mag() + b.mag();
                assert(num * pow2(0) == num);
                lemma_fundamental_div_mod_converse(
                    num as int,
                    q as int,
                    wide as int,
                    b.mag() as int,
                );
                lemma_settled(f, a.neg, wide as nat, e as nat, 0, true, num, 1);
            }
            pack(l, a.neg, wide, e as i32, true)
        } else {
            proof {
                let num = (a.mag() - b.mag()) as nat;
                assert(num * pow2(0) == num);
                assert(num == (wide - 1) * q + (q - b.mag())) by (nonlinear_arith)
                    requires
                        num == wide * q - b.mag(),
                ;
                lemma_fundamental_div_mod_converse(
                    num as int,
                    q as int,
                    wide - 1,
                    q - b.mag(),
                );
                lemma_settled(f, a.neg, (wide - 1) as nat, e as nat, 0, true, num, 1);
            }
            pack(l, a.neg, wide - 1, e as i32, true)
        }
    }
}

/// The sum of two finite numbers, the first with the larger exponent.
fn sum_parts(l: &Layout, a: Parts, b: Parts) -> (bits: u64)
    requires
        l.agrees(),
        a.fit(l@),
        b.fit(l@),
        a.exp >= b.exp,
    ensures
        bits == l@.encode(
            l@.sum(
                Num::Fin { neg: a.neg, mag: a.mag() },
                Num::Fin { neg: b.neg, mag: b.mag() },
            ),
        ),
        bits < 2 * l.sign,
{
    if a.exp - b.exp <= 64 {
        sum_near(l, a, b)
    } else {
        sum_far(l, a, b)
    }
}

/// The sum of two patterns.
pub fn sum(l: &Layout, a: u64, b: u64) -> (bits: u64)
    requires
        l.agrees(),
        a < 2 * l.sign,
        b < 2 * l.sign,
    ensures
        bits == l@.encode(l@.sum(l@.decode(a as nat), l@.decode(b as nat))),
        bits < 2 * l.sign,
{
    let x: Class = unpack(l, a);
    let y: Class = unpack(l, b);
    match (x, y) {
        (Class::Fin { parts: u }, Class::Fin { parts: v }) => {
            if u.exp >= v.exp {
                sum_parts(l, u, v)
            } else {
                sum_parts(l, v, u)
            }
        },
        (Class::Inf { neg: m }, Class::Inf { neg: n }) => {
            if m == n {
                infinity(l, m)
            } else {
                nan(l)
            }
        },
        (Class::Inf { neg: m }, Class::Fin { parts: _ }) => infinity(l, m),
        (Class::Fin { parts: _ }, Class::Inf { neg: n }) => infinity(l, n),
        _ => nan(l),
    }
}

/// The product of two patterns.
pub fn product(l: &Layout, a: u64, b: u64) -> (bits: u64)
    requires
        l.agrees(),
        a < 2 * l.sign,
        b < 2 * l.sign,
    ensures
        bits == l@.encode(l@.product(l@.decode(a as nat), l@.decode(b as nat))),
        bits < 2 * l.sign,
{
    let x: Class = unpack(l, a);
    let y: Class = unpack(l, b);
    match (x, y) {
        (Class::Fin { parts: u }, Class::Fin { parts: v }) => product_parts(l, u, v),
        (Class::Inf { neg: m }, Class::Inf { neg: n }) => infinity(l, m != n),
        (Class::Inf { neg: m }, Class::Fin { parts: v }) => {
            proof {
                lemma_mag_zero(v);
            }
            if v.mant == 0 {
                nan(l)
            } else {
                infinity(l, m != v.neg)
            }
        },
        (Class::Fin { parts: u }, Class::Inf { neg: n }) => {
            proof {
                lemma_mag_zero(u);
            }
            if u.mant == 0 {
                nan(l)
            } else {
                infinity(l, u.neg != n)
            }
        },
        _ => nan(l),
    }
}

/// A magnitude is zero exactly where its mantissa is.
proof fn lemma_mag_zero(p: Parts)
    ensures
        (p.mag() == 0) == (p.mant == 0),
{
    lemma_pow2_pos(p.exp as nat);
    assert((p.mag() == 0) == (p.mant == 0)) by (nonlinear_arith)
        requires
            p.mag() == p.mant as nat * pow2(p.exp as nat),
            pow2(p.exp as nat) > 0,
    ;
}

/// The product of two finite numbers.
fn product_parts(l: &Layout, a: Parts, b: Parts) -> (bits: u64)
    requires
        l.agrees(),
        a.fit(l@),
        b.fit(l@),
    ensures
        bits == l@.encode(l@.rounded(a.neg != b.neg, a.mag() * b.mag(), pow2(l@.unit))),
        bits < 2 * l.sign,
{
    let ghost f = l@;
    proof {
        lemma_pow2_monotone(f.p, 53);
        lemma2_to64();
        lemma2_to64_rest();
        lemma_pow2_adds(53, 53);
        lemma_pow2_strictly_increases(106, 127);
        lemma_pow2_pos(f.unit);
        assert(a.mant as u128 * b.mant as u128 <= pow2(53) * pow2(53)) by (nonlinear_arith)
            requires
                a.mant < pow2(53),
                b.mant < pow2(53),
        ;
        lemma_pow2_strictly_increases(106, 128);
    }
    let g: u128 = a.mant as u128 * b.mant as u128;
    let e: i32 = a.exp as i32 + b.exp as i32 - l.unit as i32;
    proof {
        let num = a.mag() * b.mag();
        let den = pow2(f.unit);
        let ex = (a.exp + b.exp) as nat;
        lemma_pow2_adds(a.exp as nat, b.exp as nat);
        assert(num == g as nat * pow2(ex)) by (nonlinear_arith)
            requires
                num == (a.mant as nat * pow2(a.exp as nat)) * (b.mant as nat * pow2(b.exp as nat)),
                g == a.mant * b.mant,
                pow2(ex) == pow2(a.exp as nat) * pow2(b.exp as nat),
        ;
        if e >= 0 {
            lemma_pow2_adds(f.unit, e as nat);
            lemma_pow2_pos(ex);
            assert(num * pow2(0) == num);
            lemma_fundamental_div_mod_converse(num as int, pow2(ex) as int, g as int, 0);
            lemma_settled(f, a.neg != b.neg, g as nat, e as nat, 0, false, num, den);
        } else {
            let down = (-e) as nat;
            lemma_pow2_adds(ex, down);
            assert(num * pow2(down) == g as nat * den) by (nonlinear_arith)
                requires
                    num == g as nat * pow2(ex),
                    den == pow2(ex) * pow2(down),
            ;
            assert(den * pow2(0) == den);
            lemma_fundamental_div_mod_converse(
                (num * pow2(down)) as int,
                den as int,
                g as int,
                0,
            );
            lemma_settled(f, a.neg != b.neg, g as nat, 0, down, false, num, den);
        }
    }
    pack(l, a.neg != b.neg, g, e, false)
}

/// The quotient of two finite numbers, neither of them zero.
fn quotient_parts(l: &Layout, a: Parts, b: Parts) -> (bits: u64)
    requires
        l.agrees(),
        a.fit(l@),
        b.fit(l@),
        a.mant > 0,
        b.mant > 0,
    ensures
        bits == l@.encode(l@.rounded(a.neg != b.neg, a.mag() * pow2(l@.unit), b.mag())),
        bits < 2 * l.sign,
{
    let ghost f = l@;
    let len: u32 = digits(a.mant as u128);
    proof {
        lemma_pow2_monotone(f.p, 53);
        lemma_some_powers();
        lemma_bitlen_bounds(a.mant as nat);
        lemma_bitlen_below(a.mant as nat, 53);
    }
    let sh: u32 = 125 - len;
    let w: u128 = power(sh);
    proof {
        lemma_pow2_adds(len as nat, sh as nat);
        lemma_pow2_adds((len - 1) as nat, sh as nat);
        lemma_pow2_strictly_increases(125, 127);
        lemma_pow2_strictly_increases(125, 128);
        lemma_one_shl(127);
        assert(1u128 << 127u128 == 0x8000_0000_0000_0000_0000_0000_0000_0000u128) by (bit_vector);
        assert(a.mant as u128 * w < pow2(125)) by (nonlinear_arith)
            requires
                a.mant < pow2(len as nat),
                w > 0,
                pow2(125) == pow2(len as nat) * w,
        ;
        assert(a.mant as u128 * w >= pow2(124)) by (nonlinear_arith)
            requires
                a.mant >= pow2((len - 1) as nat),
                w > 0,
                pow2(124) == pow2((len - 1) as nat) * w,
        ;
    }
    let high: u128 = a.mant as u128 * w;
    let low: u128 = b.mant as u128;
    let g: u128 = high / low;
    let more: bool = high % low != 0;
    let e: i32 = a.exp as i32 - b.exp as i32 + l.unit as i32 - sh as i32;
    proof {
        lemma_fundamental_div_mod(high as int, low as int);
        lemma_mod_bound(high as int, low as int);
        assert(g <= high) by (nonlinear_arith)
            requires
                high == low * g + high % low,
                high % low >= 0,
                low >= 1,
                g >= 0,
        ;
        lemma_pow2_adds(53, 71);
        assert(g >= pow2(71)) by (nonlinear_arith)
            requires
                high == low * g + high % low,
                high % low < low,
                low < pow2(53),
                high >= pow2(53) * pow2(71),
                low > 0,
        ;
        lemma_bitlen_bounds(g as nat);
        if bitlen(g as nat) <= f.p {
            lemma_pow2_monotone(bitlen(g as nat), 71);
        }
        let num = a.mag() * pow2(f.unit);
        let den = b.mag();
        lemma_mag_zero(b);
        let (upto, down) = if e >= 0 {
            (e as nat, 0nat)
        } else {
            (0nat, (-e) as nat)
        };
        let c = pow2((b.exp + upto) as nat);
        lemma_pow2_pos((b.exp + upto) as nat);
        lemma_pow2_adds(b.exp as nat, upto);
        lemma_pow2_adds(a.exp as nat, f.unit);
        lemma_pow2_adds((a.exp + f.unit) as nat, down);
        lemma_pow2_adds(sh as nat, (b.exp + upto) as nat);
        assert(num * pow2(down) == high as nat * c) by (nonlinear_arith)
            requires
                num == (a.mant as nat * pow2(a.exp as nat)) * pow2(f.unit),
                high == a.mant * w,
                pow2(a.exp as nat) * pow2(f.unit) * pow2(down) == w * c,
        ;
        assert(den * pow2(upto) == low as nat * c) by (nonlinear_arith)
            requires
                den == b.mant as nat * pow2(b.exp as nat),
                low == b.mant,
                c == pow2(b.exp as nat) * pow2(upto),
        ;
        lemma_div_scale(high as nat, low as nat, c);
        assert(((high % low) * c != 0) == (high % low != 0)) by (nonlinear_arith)
            requires
                c > 0,
        ;
        lemma_settled(f, a.neg != b.neg, g as nat, upto, down, more, num, den);
    }
    pack(l, a.neg != b.neg, g, e, more)
}

/// A fraction of nothing rounds to zero.
proof fn lemma_rounded_zero(f: Format, neg: bool, den: nat)
    requires
        f.sound(),
        den > 0,
    ensures
        f.rounded(neg, 0, den) == (Num::Fin { neg, mag: 0 }),
{
    lemma2_to64();
    lemma_fundamental_div_mod_converse(0, den as int, 0, 0);
    assert(0 * pow2(0) == 0 && den * pow2(0) == den);
    lemma_pow2_pos((f.p + f.top - 1) as nat);
}

/// The quotient of two patterns.
pub fn quotient(l: &Layout, a: u64, b: u64) -> (bits: u64)
    requires
        l.agrees(),
        a < 2 * l.sign,
        b < 2 * l.sign,
    ensures
        bits == l@.encode(l@.quotient(l@.decode(a as nat), l@.decode(b as nat))),
        bits < 2 * l.sign,
{
    let x: Class = unpack(l, a);
    let y: Class = unpack(l, b);
    match (x, y) {
        (Class::Fin { parts: u }, Class::Fin { parts: v }) => {
            proof {
                lemma_mag_zero(u);
                lemma_mag_zero(v);
            }
            if v.mant == 0 {
                if u.mant == 0 {
                    nan(l)
                } else {
                    infinity(l, u.neg != v.neg)
                }
            } else if u.mant == 0 {
                proof {
                    lemma_rounded_zero(l@, u.neg != v.neg, v.mag());
                    assert(0 * pow2(l@.unit) == 0);
                }
                zero(l, u.neg != v.neg)
            } else {
                quotient_parts(l, u, v)
            }
        },
        (Class::Inf { neg: m }, Class::Fin { parts: v }) => infinity(l, m != v.neg),
        (Class::Fin { parts: u }, Class::Inf { neg: n }) => zero(l, u.neg != n),
        _ => nan(l),
    }
}

/// The pattern with its sign turned.
pub fn opposite(l: &Layout, a: u64) -> (bits: u64)
    requires
        l.agrees(),
        a < 2 * l.sign,
    ensures
        bits == l@.encode(super::model::opposite(l@.decode(a as nat))),
        bits < 2 * l.sign,
{
    proof {
        lemma_encode_decode(l@, a as nat);
    }
    let rest: u64 = if a >= l.sign {
        a - l.sign
    } else {
        a
    };
    if rest > l.inf {
        nan(l)
    } else if a >= l.sign {
        rest
    } else {
        a + l.sign
    }
}

/// The pattern without its sign.
pub fn magnitude(l: &Layout, a: u64) -> (bits: u64)
    requires
        l.agrees(),
        a < 2 * l.sign,
    ensures
        bits == l@.encode(super::model::magnitude(l@.decode(a as nat))),
        bits < 2 * l.sign,
{
    proof {
        lemma_encode_decode(l@, a as nat);
    }
    let rest: u64 = if a >= l.sign {
        a - l.sign
    } else {
        a
    };
    if rest > l.inf {
        nan(l)
    } else {
        rest
    }
}

/// Whether a pattern is a NaN.
pub fn is_nan(l: &Layout, a: u64) -> (r: bool)
    requires
        l.agrees(),
        a < 2 * l.sign,
    ensures
        r == (l@.decode(a as nat) is Nan),
{
    let rest: u64 = if a >= l.sign {
        a - l.sign
    } else {
        a
    };
    rest > l.inf
}

/// Whether a pattern is finite.
pub fn is_finite(l: &Layout, a: u64) -> (r: bool)
    requires
        l.agrees(),
        a < 2 * l.sign,
    ensures
        r == (l@.decode(a as nat) is Fin),
{
    let rest: u64 = if a >= l.sign {
        a - l.sign
    } else {
        a
    };
    rest < l.inf
}

/// Finite patterns compare as their magnitudes do, and only the zero pattern is zero.
proof fn lemma_rests(f: Format, a: nat, b: nat)
    requires
        f.sound(),
    ensures
        (a < b) == (f.bits_mag(a) < f.bits_mag(b)),
        (a == b) == (f.bits_mag(a) == f.bits_mag(b)),
        (a == 0) == (f.bits_mag(a) == 0),
        (b == 0) == (f.bits_mag(b) == 0),
{
    if a < b {
        lemma_bits_mag_monotone(f, a, b);
    }
    if b < a {
        lemma_bits_mag_monotone(f, b, a);
    }
    lemma_pow2_pos((f.p - 1) as nat);
    lemma_fundamental_div_mod_converse(0, f.hidden() as int, 0, 0);
    if a > 0 {
        lemma_bits_mag_monotone(f, 0, a);
    }
    if b > 0 {
        lemma_bits_mag_monotone(f, 0, b);
    }
}

/// Whether the first pattern is below the second.
pub fn less(l: &Layout, a: u64, b: u64) -> (r: bool)
    requires
        l.agrees(),
        a < 2 * l.sign,
        b < 2 * l.sign,
    ensures
        r == below(l@.decode(a as nat), l@.decode(b as nat)),
{
    let na: bool = a >= l.sign;
    let nb: bool = b >= l.sign;
    let ra: u64 = if na {
        a - l.sign
    } else {
        a
    };
    let rb: u64 = if nb {
        b - l.sign
    } else {
        b
    };
    proof {
        lemma_rests(l@, ra as nat, rb as nat);
        lemma_pow2_pos((l@.p - 1) as nat);
        assert(l.inf > 0) by (nonlinear_arith)
            requires
                l.inf == (l.top + 1) * l.hidden,
                l.hidden > 0,
        ;
    }
    if ra > l.inf || rb > l.inf {
        false
    } else if na && nb {
        ra > rb
    } else if na {
        ra > 0 || rb > 0
    } else if nb {
        false
    } else {
        ra < rb
    }
}

/// Whether the two patterns are the same number.
pub fn equal(l: &Layout, a: u64, b: u64) -> (r: bool)
    requires
        l.agrees(),
        a < 2 * l.sign,
        b < 2 * l.sign,
    ensures
        r == alike(l@.decode(a as nat), l@.decode(b as nat)),
{
    let na: bool = a >= l.sign;
    let nb: bool = b >= l.sign;
    let ra: u64 = if na {
        a - l.sign
    } else {
        a
    };
    let rb: u64 = if nb {
        b - l.sign
    } else {
        b
    };
    proof {
        lemma_rests(l@, ra as nat, rb as nat);
        lemma_pow2_pos((l@.p - 1) as nat);
        assert(l.inf > 0) by (nonlinear_arith)
            requires
                l.inf == (l.top + 1) * l.hidden,
                l.hidden > 0,
        ;
    }
    if ra > l.inf || rb > l.inf {
        false
    } else if na == nb {
        ra == rb
    } else {
        ra == 0 && rb == 0
    }
}

/// The pattern of a whole number.
pub fn whole(l: &Layout, neg: bool, n: u64) -> (bits: u64)
    requires
        l.agrees(),
    ensures
        bits == l@.encode(l@.whole(neg, n as nat)),
        bits < 2 * l.sign,
{
    proof {
        lemma_some_powers();
        lemma_pow2_strictly_increases(64, 127);
        lemma_settled_exact(
            l@,
            neg,
            n as nat,
            l@.unit,
            n as nat * pow2(l@.unit),
        );
    }
    pack(l, neg, n as u128, l.unit as i32, false)
}

/// The pattern in the format `l` nearest to a pattern of the format `from`.
pub fn convert(l: &Layout, from: &Layout, a: u64) -> (bits: u64)
    requires
        l.agrees(),
        from.agrees(),
        a < 2 * from.sign,
    ensures
        bits == l@.encode(l@.converted(from@, from@.decode(a as nat))),
        bits < 2 * l.sign,
{
    match unpack(from, a) {
        Class::Nan => nan(l),
        Class::Inf { neg } => infinity(l, neg),
        Class::Fin { parts } => {
            let e: i32 = parts.exp as i32 + l.unit as i32 - from.unit as i32;
            proof {
                lemma_pow2_monotone(from@.p, 53);
                lemma_some_powers();
                lemma_pow2_strictly_increases(64, 127);
                let num = parts.mag() * pow2(l@.unit);
                let den = pow2(from@.unit);
                let g = parts.mant as nat;
                lemma_pow2_pos(from@.unit);
                lemma_pow2_adds(parts.exp as nat, l@.unit);
                let ex = (parts.exp + l@.unit) as nat;
                assert(num == g * pow2(ex)) by (nonlinear_arith)
                    requires
                        num == (g * pow2(parts.exp as nat)) * pow2(l@.unit),
                        pow2(ex) == pow2(parts.exp as nat) * pow2(l@.unit),
                ;
                if e >= 0 {
                    lemma_pow2_adds(from@.unit, e as nat);
                    lemma_pow2_pos(ex);
                    assert(num * pow2(0) == num);
                    lemma_fundamental_div_mod_converse(num as int, pow2(ex) as int, g as int, 0);
                    lemma_settled(l@, parts.neg, g, e as nat, 0, false, num, den);
                } else {
                    let down = (-e) as nat;
                    lemma_pow2_adds(ex, down);
                    assert(num * pow2(down) == g * den) by (nonlinear_arith)
                        requires
                            num == g * pow2(ex),
                            den == pow2(ex) * pow2(down),
                    ;
                    assert(den * pow2(0) == den);
                    lemma_fundamental_div_mod_converse(
                        (num * pow2(down)) as int,
                        den as int,
                        g as int,
                        0,
                    );
                    lemma_settled(l@, parts.neg, g, 0, down, false, num, den);
                }
            }
            pack(l, parts.neg, parts.mant as u128, e, false)
        },
    }
}

/// The whole part of a number below the exponent of `1.0`, and what follows it:
/// nothing, less than a half, or at least a half.
struct Cut {
    whole: u64,
    rest: bool,
    half: bool,
}

/// Cuts a finite number whose last place lies below `1.0`.
fn cut_parts(l: &Layout, a: Parts) -> (c: Cut)
    requires
        l.agrees(),
        a.fit(l@),
        a.exp < l.unit,
    ensures
        c.whole == a.mag() / pow2(l@.unit),
        c.rest == (a.mag() % pow2(l@.unit) != 0),
        c.half == (2 * (a.mag() % pow2(l@.unit)) >= pow2(l@.unit)),
        c.whole < pow2(l@.p),
{
    let d: u32 = l.unit - a.exp;
    let ghost one = pow2(l@.unit);
    let ghost q = pow2(a.exp as nat);
    proof {
        lemma_pow2_monotone(l@.p, 53);
        lemma_some_powers();
        lemma_pow2_pos(l@.unit);
        lemma_pow2_pos(a.exp as nat);
        lemma_pow2_pos(d as nat);
        lemma_pow2_adds(d as nat, a.exp as nat);
        lemma_div_scale(a.mant as nat, pow2(d as nat), q);
        lemma_pow2_unfold(d as nat);
        lemma_pow2_pos((d - 1) as nat);
    }
    if d >= 64 {
        proof {
            lemma_pow2_monotone(63, (d - 1) as nat);
            lemma_pow2_unfold(64);
            lemma_fundamental_div_mod_converse(
                a.mant as int,
                pow2(d as nat) as int,
                0,
                a.mant as int,
            );
            lemma_cut_scale(a.mant as nat, pow2(d as nat), q);
            lemma_pow2_pos(l@.p);
        }
        Cut { whole: 0, rest: a.mant != 0, half: false }
    } else {
        let w: u128 = power(d);
        let g: u128 = a.mant as u128 / w;
        let low: u128 = a.mant as u128 % w;
        proof {
            lemma_cut_scale(low as nat, w as nat, q);
            lemma_fundamental_div_mod(a.mant as int, w as int);
            lemma_mod_bound(a.mant as int, w as int);
            assert(g <= a.mant) by (nonlinear_arith)
                requires
                    a.mant == w * g + low,
                    low >= 0,
                    w >= 1,
                    g >= 0,
            ;
            lemma_pow2_monotone(d as nat, 64);
        }
        Cut { whole: g as u64, rest: low != 0, half: low >= w / 2 }
    }
}

/// Scaling keeps how a remainder compares with nothing and with a half.
proof fn lemma_cut_scale(r: nat, d: nat, c: nat)
    requires
        c > 0,
    ensures
        (r * c == 0) == (r == 0),
        (2 * (r * c) >= d * c) == (2 * r >= d),
{
    assert((r * c == 0) == (r == 0)) by (nonlinear_arith)
        requires
            c > 0,
    ;
    assert((2 * (r * c) >= d * c) == (2 * r >= d)) by (nonlinear_arith)
        requires
            c > 0,
    ;
}

/// A whole number of the precision is a number of the format.
pub proof fn lemma_whole_exact(f: Format, neg: bool, n: nat)
    requires
        f.sound(),
        n <= pow2(f.p),
        f.unit + 2 <= f.top,
    ensures
        f.whole(neg, n) == (Num::Fin { neg, mag: n * pow2(f.unit) }),
{
    let num = n * pow2(f.unit);
    lemma2_to64();
    lemma_pow2_pos(f.unit);
    lemma_pow2_pos(f.p);
    if n == 0 {
        lemma_rounded_zero(f, neg, 1);
        assert(0 * pow2(f.unit) == 0);
    } else {
        super::laws::lemma_bitlen_scale(n, f.unit);
        lemma_bitlen_bounds(n);
        let k = f.place(bitlen(num));
        assert(num / 1 == num);
        assert(1 * pow2(k) == pow2(k));
        if n == pow2(f.p) {
            lemma_pow2_unfold(f.p + 1);
            lemma_bitlen_is(n, f.p + 1);
            lemma_pow2_adds(f.p, f.unit);
            lemma_pow2_adds((f.p - 1) as nat, f.unit + 1);
            lemma_pow2_pos(f.unit + 1);
            lemma_fundamental_div_mod_converse(
                num as int,
                pow2(f.unit + 1) as int,
                f.hidden() as int,
                0,
            );
        } else {
            lemma_bitlen_below(n, f.p);
            lemma_whole_place(f, n, k);
        }
        lemma_pow2_adds(f.p, f.unit);
        lemma_pow2_strictly_increases(f.p + f.unit, (f.p + f.top - 1) as nat);
        assert(num <= pow2(f.p) * pow2(f.unit)) by (nonlinear_arith)
            requires
                num == n * pow2(f.unit),
                n <= pow2(f.p),
        ;
    }
}

/// Rounding at a place no finer than the units of a whole number changes nothing.
proof fn lemma_whole_place(f: Format, n: nat, k: nat)
    requires
        k <= f.unit,
    ensures
        super::model::half_even(n * pow2(f.unit), 1 * pow2(k)) * pow2(k) == n * pow2(f.unit),
{
    let i = (f.unit - k) as nat;
    let num = n * pow2(f.unit);
    lemma_pow2_pos(k);
    lemma_pow2_adds(k, i);
    assert(num == (n * pow2(i)) * pow2(k)) by (nonlinear_arith)
        requires
            num == n * (pow2(k) * pow2(i)),
    ;
    lemma_fundamental_div_mod_converse(num as int, pow2(k) as int, (n * pow2(i)) as int, 0);
    assert(1 * pow2(k) == pow2(k));
}

/// How the fraction of a number is brought to a whole number.
#[derive(Clone, Copy)]
pub enum Rounding {
    Floor,
    Ceil,
    Nearest,
}

impl Rounding {
    /// What the rounding makes of a number.
    pub open spec fn apply(self, f: Format, n: Num) -> Num {
        match self {
            Rounding::Floor => f.floored(n),
            Rounding::Ceil => f.ceiled(n),
            Rounding::Nearest => f.nearest(n),
        }
    }
}

/// A number whose last place is at least `1.0` is whole.
proof fn lemma_already_whole(l: Layout, a: Parts)
    requires
        l.agrees(),
        a.exp >= l.unit,
    ensures
        a.mag() % pow2(l@.unit) == 0,
        (a.mag() / pow2(l@.unit)) * pow2(l@.unit) == a.mag(),
{
    let i = (a.exp - l.unit) as nat;
    lemma_pow2_pos(l@.unit);
    lemma_pow2_adds(i, l@.unit);
    let q = a.mant as nat * pow2(i);
    assert(a.mag() == q * pow2(l@.unit)) by (nonlinear_arith)
        requires
            a.mag() == a.mant as nat * (pow2(i) * pow2(l@.unit)),
            q == a.mant as nat * pow2(i),
    ;
    lemma_fundamental_div_mod_converse(a.mag() as int, pow2(l@.unit) as int, q as int, 0);
}

/// The pattern brought to a whole number.
pub fn to_whole(l: &Layout, how: Rounding, a: u64) -> (bits: u64)
    requires
        l.agrees(),
        a < 2 * l.sign,
        l.unit + 2 <= l.top,
    ensures
        bits == l@.encode(how.apply(l@, l@.decode(a as nat))),
        bits < 2 * l.sign,
{
    proof {
        lemma_encode_decode(l@, a as nat);
        lemma_pow2_pos(l@.unit);
    }
    match unpack(l, a) {
        Class::Nan => nan(l),
        Class::Inf { neg } => infinity(l, neg),
        Class::Fin { parts } => {
            if parts.exp >= l.unit {
                proof {
                    lemma_already_whole(*l, parts);
                }
                a
            } else {
                let c: Cut = cut_parts(l, parts);
                proof {
                    lemma_pow2_monotone(l@.p, 53);
                    lemma_some_powers();
                }
                let add_one: bool = match how {
                    Rounding::Floor => parts.neg && c.rest,
                    Rounding::Ceil => !parts.neg && c.rest,
                    Rounding::Nearest => c.half,
                };
                let n: u64 = if add_one {
                    c.whole + 1
                } else {
                    c.whole
                };
                proof {
                    lemma_whole_exact(l@, parts.neg, n as nat);
                }
                whole(l, parts.neg, n)
            }
        },
    }
}

/// The whole part of the magnitude, at most the largest `u64`.
fn whole_part(l: &Layout, a: Parts) -> (n: u64)
    requires
        l.agrees(),
        a.fit(l@),
    ensures
        n == (if a.mag() / pow2(l@.unit) > u64::MAX {
            u64::MAX as nat
        } else {
            a.mag() / pow2(l@.unit)
        }),
{
    proof {
        lemma_pow2_pos(l@.unit);
    }
    if a.exp < l.unit {
        let c: Cut = cut_parts(l, a);
        c.whole
    } else {
        let d: u32 = a.exp - l.unit;
        proof {
            lemma_already_whole(*l, a);
            lemma_pow2_adds(d as nat, l@.unit);
            let q = a.mant as nat * pow2(d as nat);
            assert(a.mag() == q * pow2(l@.unit)) by (nonlinear_arith)
                requires
                    a.mag() == a.mant as nat * (pow2(d as nat) * pow2(l@.unit)),
                    q == a.mant as nat * pow2(d as nat),
            ;
            lemma_fundamental_div_mod_converse(a.mag() as int, pow2(l@.unit) as int, q as int, 0);
            lemma_pow2_monotone(l@.p, 53);
            lemma_some_powers();
        }
        if a.mant == 0 {
            proof {
                assert(0 * pow2(d as nat) == 0);
            }
            0
        } else if d >= 64 {
            proof {
                lemma_pow2_monotone(64, d as nat);
                assert(a.mant as nat * pow2(d as nat) >= pow2(64)) by (nonlinear_arith)
                    requires
                        a.mant >= 1,
                        pow2(d as nat) >= pow2(64),
                ;
            }
            u64::MAX
        } else {
            let w: u128 = power(d);
            proof {
                lemma_pow2_monotone(d as nat, 64);
                assert(a.mant as u128 * w <= 0x20_0000_0000_0000 * 0x1_0000_0000_0000_0000)
                    by (nonlinear_arith)
                    requires
                        a.mant < 0x20_0000_0000_0000,
                        w <= 0x1_0000_0000_0000_0000,
                ;
            }
            let v: u128 = a.mant as u128 * w;
            if v > u64::MAX as u128 {
                u64::MAX
            } else {
                v as u64
            }
        }
    }
}

/// The pattern as an unsigned integer of at most `hi`, its fraction dropped.
pub fn to_unsigned(l: &Layout, a: u64, hi: u64) -> (n: u64)
    requires
        l.agrees(),
        a < 2 * l.sign,
    ensures
        n == l@.truncated(l@.decode(a as nat), 0, hi as int),
{
    match unpack(l, a) {
        Class::Nan => 0,
        Class::Inf { neg } => if neg {
            0
        } else {
            hi
        },
        Class::Fin { parts } => {
            let w: u64 = whole_part(l, parts);
            if parts.neg {
                0
            } else if w > hi {
                hi
            } else {
                w
            }
        },
    }
}

/// The pattern as a signed integer between `-hi - 1` and `hi`, its fraction dropped.
pub fn to_signed(l: &Layout, a: u64, hi: i64) -> (n: i64)
    requires
        l.agrees(),
        a < 2 * l.sign,
        hi >= 0,
    ensures
        n == l@.truncated(l@.decode(a as nat), -hi - 1, hi as int),
{
    match unpack(l, a) {
        Class::Nan => 0,
        Class::Inf { neg } => if neg {
            -hi - 1
        } else {
            hi
        },
        Class::Fin { parts } => {
            let w: u64 = whole_part(l, parts);
            if parts.neg {
                if w > hi as u64 {
                    -hi - 1
                } else {
                    -(w as i64)
                }
            } else if w > hi as u64 {
                hi
            } else {
                w as i64
            }
        },
    }
}

} // verus!
