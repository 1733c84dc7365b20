//! The two number types of the crate.
//!
//! Each holds the bit pattern of an IEEE 754 number and computes on it exactly as
//! the standard says: correctly rounded, ties to even, with infinities, NaNs and
//! signed zeroes. In contracts the operations stand for their meaning over
//! [`Num`](super::model::Num); they are opaque there, and the facts about them that
//! proofs need are in [`facts`](super::facts).

use super::engine::{self, Layout, Rounding};
use super::laws::{lemma_decode_encode, lemma_encode_decode};
use super::model::{
    alike, below, double_format, magnitude, opposite, single_format, Num,
};
use vstd::arithmetic::power2::{lemma2_to64, lemma2_to64_rest, pow2};
use vstd::prelude::*;

verus! {

/// A number of 53 bits of precision, held as its bit pattern.
#[derive(Clone, Copy, Debug, PartialEq, Eq, Structural)]
pub struct Double {
    /// The bit pattern: sign, biased exponent, fraction.
    pub bits: u64,
}

impl View for Double {
    type V = Num;

    open spec fn view(&self) -> Num {
        self.num()
    }
}

impl Double {
    /// The number that the bits stand for.
    #[verifier::opaque]
    pub open spec fn num(self) -> Num {
        double_format().decode(self.bits as nat)
    }

    /// The bits of a number.
    #[verifier::opaque]
    pub open spec fn of(n: Num) -> Double {
        Double { bits: double_format().encode(n) as u64 }
    }

    /// The sum, rounded.
    #[verifier::opaque]
    pub open spec fn spec_plus(self, o: Double) -> Double {
        Double::of(double_format().sum(self@, o@))
    }

    /// The sum, rounded.
    #[verifier::when_used_as_spec(spec_plus)]
    pub fn plus(self, o: Double) -> (r: Double)
        ensures
            r == self.spec_plus(o),
    {
        proof {
            reveal(Double::num);
            reveal(Double::of);
            reveal(Double::spec_plus);
        }
        Double { bits: engine::sum(&Layout::double(), self.bits, o.bits) }
    }

    /// The difference, rounded.
    #[verifier::opaque]
    pub open spec fn spec_minus(self, o: Double) -> Double {
        Double::of(double_format().sum(self@, opposite(o@)))
    }

    /// The difference, rounded.
    #[verifier::when_used_as_spec(spec_minus)]
    pub fn minus(self, o: Double) -> (r: Double)
        ensures
            r == self.spec_minus(o),
    {
        proof {
            reveal(Double::spec_minus);
            reveal(Double::spec_plus);
            lemma_double_negate(o);
        }
        self.plus(o.negate())
    }

    /// The product, rounded.
    #[verifier::opaque]
    pub open spec fn spec_times(self, o: Double) -> Double {
        Double::of(double_format().product(self@, o@))
    }

    /// The product, rounded.
    #[verifier::when_used_as_spec(spec_times)]
    pub fn times(self, o: Double) -> (r: Double)
        ensures
            r == self.spec_times(o),
    {
        proof {
            reveal(Double::num);
            reveal(Double::of);
            reveal(Double::spec_times);
        }
        Double { bits: engine::product(&Layout::double(), self.bits, o.bits) }
    }

    /// The quotient, rounded.
    #[verifier::opaque]
    pub open spec fn spec_over(self, o: Double) -> Double {
        Double::of(double_format().quotient(self@, o@))
    }

    /// The quotient, rounded.
    #[verifier::when_used_as_spec(spec_over)]
    pub fn over(self, o: Double) -> (r: Double)
        ensures
            r == self.spec_over(o),
    {
        proof {
            reveal(Double::num);
            reveal(Double::of);
            reveal(Double::spec_over);
        }
        Double { bits: engine::quotient(&Layout::double(), self.bits, o.bits) }
    }

    /// The number with its sign turned.
    #[verifier::opaque]
    pub open spec fn spec_negate(self) -> Double {
        Double::of(opposite(self@))
    }

    /// The number with its sign turned.
    #[verifier::when_used_as_spec(spec_negate)]
    pub fn negate(self) -> (r: Double)
        ensures
            r == self.spec_negate(),
    {
        proof {
            reveal(Double::num);
            reveal(Double::of);
            reveal(Double::spec_negate);
        }
        Double { bits: engine::opposite(&Layout::double(), self.bits) }
    }

    /// The number without its sign.
    #[verifier::opaque]
    pub open spec fn spec_abs(self) -> Double {
        Double::of(magnitude(self@))
    }

    /// The number without its sign.
    #[verifier::when_used_as_spec(spec_abs)]
    pub fn abs(self) -> (r: Double)
        ensures
            r == self.spec_abs(),
    {
        proof {
            reveal(Double::num);
            reveal(Double::of);
            reveal(Double::spec_abs);
        }
        Double { bits: engine::magnitude(&Layout::double(), self.bits) }
    }

    /// The largest whole number not above this one.
    #[verifier::opaque]
    pub open spec fn spec_floor(self) -> Double {
        Double::of(double_format().floored(self@))
    }

    /// The largest whole number not above this one.
    #[verifier::when_used_as_spec(spec_floor)]
    pub fn floor(self) -> (r: Double)
        ensures
            r == self.spec_floor(),
    {
        proof {
            reveal(Double::num);
            reveal(Double::of);
            reveal(Double::spec_floor);
        }
        Double { bits: engine::to_whole(&Layout::double(), Rounding::Floor, self.bits) }
    }

    /// The smallest whole number not below this one.
    #[verifier::opaque]
    pub open spec fn spec_ceil(self) -> Double {
        Double::of(double_format().ceiled(self@))
    }

    /// The smallest whole number not below this one.
    #[verifier::when_used_as_spec(spec_ceil)]
    pub fn ceil(self) -> (r: Double)
        ensures
            r == self.spec_ceil(),
    {
        proof {
            reveal(Double::num);
            reveal(Double::of);
            reveal(Double::spec_ceil);
        }
        Double { bits: engine::to_whole(&Layout::double(), Rounding::Ceil, self.bits) }
    }

    /// The nearest whole number, halves away from zero.
    #[verifier::opaque]
    pub open spec fn spec_round(self) -> Double {
        Double::of(double_format().nearest(self@))
    }

    /// The nearest whole number, halves away from zero.
    #[verifier::when_used_as_spec(spec_round)]
    pub fn round(self) -> (r: Double)
        ensures
            r == self.spec_round(),
    {
        proof {
            reveal(Double::num);
            reveal(Double::of);
            reveal(Double::spec_round);
        }
        Double { bits: engine::to_whole(&Layout::double(), Rounding::Nearest, self.bits) }
    }

    /// Whether this is below the other; never with a NaN.
    pub open spec fn spec_lt(self, o: Double) -> bool {
        below(self@, o@)
    }

    /// Whether this is below the other; never with a NaN.
    #[verifier::when_used_as_spec(spec_lt)]
    pub fn lt(self, o: Double) -> (r: bool)
        ensures
            r == self.spec_lt(o),
    {
        proof {
            reveal(Double::num);
        }
        engine::less(&Layout::double(), self.bits, o.bits)
    }

    /// Whether the two are the same number; never with a NaN.
    pub open spec fn spec_same(self, o: Double) -> bool {
        alike(self@, o@)
    }

    /// Whether the two are the same number; never with a NaN.
    #[verifier::when_used_as_spec(spec_same)]
    pub fn same(self, o: Double) -> (r: bool)
        ensures
            r == self.spec_same(o),
    {
        proof {
            reveal(Double::num);
        }
        engine::equal(&Layout::double(), self.bits, o.bits)
    }

    /// Whether this is not above the other; never with a NaN.
    pub open spec fn spec_le(self, o: Double) -> bool {
        below(self@, o@) || alike(self@, o@)
    }

    /// Whether this is not above the other; never with a NaN.
    #[verifier::when_used_as_spec(spec_le)]
    pub fn le(self, o: Double) -> (r: bool)
        ensures
            r == self.spec_le(o),
    {
        self.lt(o) || self.same(o)
    }

    /// Whether this is not a number.
    pub open spec fn spec_is_nan(self) -> bool {
        self@ is Nan
    }

    /// Whether this is not a number.
    #[verifier::when_used_as_spec(spec_is_nan)]
    pub fn is_nan(self) -> (r: bool)
        ensures
            r == self.spec_is_nan(),
    {
        proof {
            reveal(Double::num);
        }
        engine::is_nan(&Layout::double(), self.bits)
    }

    /// Whether this is neither infinite nor a NaN.
    pub open spec fn spec_is_finite(self) -> bool {
        self@ is Fin
    }

    /// Whether this is neither infinite nor a NaN.
    #[verifier::when_used_as_spec(spec_is_finite)]
    pub fn is_finite(self) -> (r: bool)
        ensures
            r == self.spec_is_finite(),
    {
        proof {
            reveal(Double::num);
        }
        engine::is_finite(&Layout::double(), self.bits)
    }

    /// The larger of the two; the other one where one is a NaN.
    pub open spec fn spec_max(self, o: Double) -> Double {
        if self.is_nan() || (!o.is_nan() && self.lt(o)) {
            o
        } else {
            self
        }
    }

    /// The larger of the two; the other one where one is a NaN.
    #[verifier::when_used_as_spec(spec_max)]
    pub fn max(self, o: Double) -> (r: Double)
        ensures
            r == self.spec_max(o),
    {
        if self.is_nan() || (!o.is_nan() && self.lt(o)) {
            o
        } else {
            self
        }
    }

    /// The smaller of the two; the other one where one is a NaN.
    pub open spec fn spec_min(self, o: Double) -> Double {
        if self.is_nan() || (!o.is_nan() && o.lt(self)) {
            o
        } else {
            self
        }
    }

    /// The smaller of the two; the other one where one is a NaN.
    #[verifier::when_used_as_spec(spec_min)]
    pub fn min(self, o: Double) -> (r: Double)
        ensures
            r == self.spec_min(o),
    {
        if self.is_nan() || (!o.is_nan() && o.lt(self)) {
            o
        } else {
            self
        }
    }

    /// The nearest number in `lo ..= hi`; a NaN stays one.
    pub open spec fn spec_clamp(self, lo: Double, hi: Double) -> Double {
        if self.lt(lo) {
            lo
        } else if hi.lt(self) {
            hi
        } else {
            self
        }
    }

    /// The nearest number in `lo ..= hi`; a NaN stays one.
    #[verifier::when_used_as_spec(spec_clamp)]
    pub fn clamp(self, lo: Double, hi: Double) -> (r: Double)
        requires
            lo.le(hi),
        ensures
            r == self.spec_clamp(lo, hi),
    {
        if self.lt(lo) {
            lo
        } else if hi.lt(self) {
            hi
        } else {
            self
        }
    }

    /// The whole number `n`, rounded where it has more digits than the precision.
    #[verifier::opaque]
    pub open spec fn spec_from_u64(n: u64) -> Double {
        Double::of(double_format().whole(false, n as nat))
    }

    /// The whole number `n`, rounded where it has more digits than the precision.
    #[verifier::when_used_as_spec(spec_from_u64)]
    pub fn from_u64(n: u64) -> (r: Double)
        ensures
            r == Double::spec_from_u64(n),
    {
        proof {
            reveal(Double::of);
            reveal(Double::spec_from_u64);
        }
        Double { bits: engine::whole(&Layout::double(), false, n) }
    }

    /// The whole number `n`, rounded where it has more digits than the precision.
    #[verifier::opaque]
    pub open spec fn spec_from_i64(n: i64) -> Double {
        Double::of(
            double_format().whole(
                n < 0,
                (if n < 0 {
                    -(n as int)
                } else {
                    n as int
                }) as nat,
            ),
        )
    }

    /// The whole number `n`, rounded where it has more digits than the precision.
    #[verifier::when_used_as_spec(spec_from_i64)]
    pub fn from_i64(n: i64) -> (r: Double)
        ensures
            r == Double::spec_from_i64(n),
    {
        proof {
            reveal(Double::of);
            reveal(Double::spec_from_i64);
        }
        let size: u64 = if n < 0 {
            (-(n + 1)) as u64 + 1
        } else {
            n as u64
        };
        Double { bits: engine::whole(&Layout::double(), n < 0, size) }
    }

    /// The number as a `u8`: its fraction dropped, the nearest `u8` where it is
    /// too large or too small, zero for a NaN.
    #[verifier::opaque]
    pub open spec fn spec_to_u8(self) -> u8 {
        double_format().truncated(self@, 0, u8::MAX as int) as u8
    }

    /// The number as a `u8`: its fraction dropped, the nearest `u8` where it is
    /// too large or too small, zero for a NaN.
    #[verifier::when_used_as_spec(spec_to_u8)]
    pub fn to_u8(self) -> (r: u8)
        ensures
            r == self.spec_to_u8(),
    {
        proof {
            reveal(Double::num);
            reveal(Double::spec_to_u8);
        }
        engine::to_unsigned(&Layout::double(), self.bits, u8::MAX as u64) as u8
    }

    /// The number as a `u32`: its fraction dropped, the nearest `u32` where it is
    /// too large or too small, zero for a NaN.
    #[verifier::opaque]
    pub open spec fn spec_to_u32(self) -> u32 {
        double_format().truncated(self@, 0, u32::MAX as int) as u32
    }

    /// The number as a `u32`: its fraction dropped, the nearest `u32` where it is
    /// too large or too small, zero for a NaN.
    #[verifier::when_used_as_spec(spec_to_u32)]
    pub fn to_u32(self) -> (r: u32)
        ensures
            r == self.spec_to_u32(),
    {
        proof {
            reveal(Double::num);
            reveal(Double::spec_to_u32);
        }
        engine::to_unsigned(&Layout::double(), self.bits, u32::MAX as u64) as u32
    }

    /// The number as a `u64`: its fraction dropped, the nearest `u64` where it is
    /// too large or too small, zero for a NaN.
    #[verifier::opaque]
    pub open spec fn spec_to_u64(self) -> u64 {
        double_format().truncated(self@, 0, u64::MAX as int) as u64
    }

    /// The number as a `u64`: its fraction dropped, the nearest `u64` where it is
    /// too large or too small, zero for a NaN.
    #[verifier::when_used_as_spec(spec_to_u64)]
    pub fn to_u64(self) -> (r: u64)
        ensures
            r == self.spec_to_u64(),
    {
        proof {
            reveal(Double::num);
            reveal(Double::spec_to_u64);
        }
        engine::to_unsigned(&Layout::double(), self.bits, u64::MAX)
    }

    /// The number as a `usize`: its fraction dropped, the nearest `usize` where it is
    /// too large or too small, zero for a NaN.
    #[verifier::opaque]
    pub open spec fn spec_to_usize(self) -> usize {
        double_format().truncated(self@, 0, usize::MAX as int) as usize
    }

    /// The number as a `usize`: its fraction dropped, the nearest `usize` where it is
    /// too large or too small, zero for a NaN.
    #[verifier::when_used_as_spec(spec_to_usize)]
    pub fn to_usize(self) -> (r: usize)
        ensures
            r == self.spec_to_usize(),
    {
        proof {
            reveal(Double::num);
            reveal(Double::spec_to_usize);
        }
        engine::to_unsigned(&Layout::double(), self.bits, usize::MAX as u64) as usize
    }

    /// The number as an `i32`: its fraction dropped, the nearest `i32` where it is
    /// too large or too small, zero for a NaN.
    #[verifier::opaque]
    pub open spec fn spec_to_i32(self) -> i32 {
        double_format().truncated(self@, i32::MIN as int, i32::MAX as int) as i32
    }

    /// The number as an `i32`: its fraction dropped, the nearest `i32` where it is
    /// too large or too small, zero for a NaN.
    #[verifier::when_used_as_spec(spec_to_i32)]
    pub fn to_i32(self) -> (r: i32)
        ensures
            r == self.spec_to_i32(),
    {
        proof {
            reveal(Double::num);
            reveal(Double::spec_to_i32);
        }
        engine::to_signed(&Layout::double(), self.bits, i32::MAX as i64) as i32
    }

    /// The number as an `i64`: its fraction dropped, the nearest `i64` where it is
    /// too large or too small, zero for a NaN.
    #[verifier::opaque]
    pub open spec fn spec_to_i64(self) -> i64 {
        double_format().truncated(self@, i64::MIN as int, i64::MAX as int) as i64
    }

    /// The number as an `i64`: its fraction dropped, the nearest `i64` where it is
    /// too large or too small, zero for a NaN.
    #[verifier::when_used_as_spec(spec_to_i64)]
    pub fn to_i64(self) -> (r: i64)
        ensures
            r == self.spec_to_i64(),
    {
        proof {
            reveal(Double::num);
            reveal(Double::spec_to_i64);
        }
        engine::to_signed(&Layout::double(), self.bits, i64::MAX)
    }

    /// The nearest number of the other precision.
    #[verifier::opaque]
    pub open spec fn spec_to_single(self) -> Single {
        Single::of(single_format().converted(double_format(), self@))
    }

    /// The nearest number of the other precision.
    #[verifier::when_used_as_spec(spec_to_single)]
    pub fn to_single(self) -> (r: Single)
        ensures
            r == self.spec_to_single(),
    {
        proof {
            reveal(Double::num);
            reveal(Single::of);
            reveal(Double::spec_to_single);
        }
        Single { bits: engine::convert(&Layout::single(), &Layout::double(), self.bits) as u32 }
    }
}

/// A number of 24 bits of precision, held as its bit pattern.
#[derive(Clone, Copy, Debug, PartialEq, Eq, Structural)]
pub struct Single {
    /// The bit pattern: sign, biased exponent, fraction.
    pub bits: u32,
}

impl View for Single {
    type V = Num;

    open spec fn view(&self) -> Num {
        self.num()
    }
}

impl Single {
    /// The number that the bits stand for.
    #[verifier::opaque]
    pub open spec fn num(self) -> Num {
        single_format().decode(self.bits as nat)
    }

    /// The bits of a number.
    #[verifier::opaque]
    pub open spec fn of(n: Num) -> Single {
        Single { bits: single_format().encode(n) as u32 }
    }

    /// The sum, rounded.
    #[verifier::opaque]
    pub open spec fn spec_plus(self, o: Single) -> Single {
        Single::of(single_format().sum(self@, o@))
    }

    /// The sum, rounded.
    #[verifier::when_used_as_spec(spec_plus)]
    pub fn plus(self, o: Single) -> (r: Single)
        ensures
            r == self.spec_plus(o),
    {
        proof {
            reveal(Single::num);
            reveal(Single::of);
            reveal(Single::spec_plus);
        }
        Single { bits: engine::sum(&Layout::single(), self.bits as u64, o.bits as u64) as u32 }
    }

    /// The difference, rounded.
    #[verifier::opaque]
    pub open spec fn spec_minus(self, o: Single) -> Single {
        Single::of(single_format().sum(self@, opposite(o@)))
    }

    /// The difference, rounded.
    #[verifier::when_used_as_spec(spec_minus)]
    pub fn minus(self, o: Single) -> (r: Single)
        ensures
            r == self.spec_minus(o),
    {
        proof {
            reveal(Single::spec_minus);
            reveal(Single::spec_plus);
            lemma_single_negate(o);
        }
        self.plus(o.negate())
    }

    /// The product, rounded.
    #[verifier::opaque]
    pub open spec fn spec_times(self, o: Single) -> Single {
        Single::of(single_format().product(self@, o@))
    }

    /// The product, rounded.
    #[verifier::when_used_as_spec(spec_times)]
    pub fn times(self, o: Single) -> (r: Single)
        ensures
            r == self.spec_times(o),
    {
        proof {
            reveal(Single::num);
            reveal(Single::of);
            reveal(Single::spec_times);
        }
        Single { bits: engine::product(&Layout::single(), self.bits as u64, o.bits as u64) as u32 }
    }

    /// The quotient, rounded.
    #[verifier::opaque]
    pub open spec fn spec_over(self, o: Single) -> Single {
        Single::of(single_format().quotient(self@, o@))
    }

    /// The quotient, rounded.
    #[verifier::when_used_as_spec(spec_over)]
    pub fn over(self, o: Single) -> (r: Single)
        ensures
            r == self.spec_over(o),
    {
        proof {
            reveal(Single::num);
            reveal(Single::of);
            reveal(Single::spec_over);
        }
        Single { bits: engine::quotient(&Layout::single(), self.bits as u64, o.bits as u64) as u32 }
    }

    /// The number with its sign turned.
    #[verifier::opaque]
    pub open spec fn spec_negate(self) -> Single {
        Single::of(opposite(self@))
    }

    /// The number with its sign turned.
    #[verifier::when_used_as_spec(spec_negate)]
    pub fn negate(self) -> (r: Single)
        ensures
            r == self.spec_negate(),
    {
        proof {
            reveal(Single::num);
            reveal(Single::of);
            reveal(Single::spec_negate);
        }
        Single { bits: engine::opposite(&Layout::single(), self.bits as u64) as u32 }
    }

    /// The number without its sign.
    #[verifier::opaque]
    pub open spec fn spec_abs(self) -> Single {
        Single::of(magnitude(self@))
    }

    /// The number without its sign.
    #[verifier::when_used_as_spec(spec_abs)]
    pub fn abs(self) -> (r: Single)
        ensures
            r == self.spec_abs(),
    {
        proof {
            reveal(Single::num);
            reveal(Single::of);
            reveal(Single::spec_abs);
        }
        Single { bits: engine::magnitude(&Layout::single(), self.bits as u64) as u32 }
    }

    /// The largest whole number not above this one.
    #[verifier::opaque]
    pub open spec fn spec_floor(self) -> Single {
        Single::of(single_format().floored(self@))
    }

    /// The largest whole number not above this one.
    #[verifier::when_used_as_spec(spec_floor)]
    pub fn floor(self) -> (r: Single)
        ensures
            r == self.spec_floor(),
    {
        proof {
            reveal(Single::num);
            reveal(Single::of);
            reveal(Single::spec_floor);
        }
        Single { bits: engine::to_whole(&Layout::single(), Rounding::Floor, self.bits as u64) as u32 }
    }

    /// The smallest whole number not below this one.
    #[verifier::opaque]
    pub open spec fn spec_ceil(self) -> Single {
        Single::of(single_format().ceiled(self@))
    }

    /// The smallest whole number not below this one.
    #[verifier::when_used_as_spec(spec_ceil)]
    pub fn ceil(self) -> (r: Single)
        ensures
            r == self.spec_ceil(),
    {
        proof {
            reveal(Single::num);
            reveal(Single::of);
            reveal(Single::spec_ceil);
        }
        Single { bits: engine::to_whole(&Layout::single(), Rounding::Ceil, self.bits as u64) as u32 }
    }

    /// The nearest whole number, halves away from zero.
    #[verifier::opaque]
    pub open spec fn spec_round(self) -> Single {
        Single::of(single_format().nearest(self@))
    }

    /// The nearest whole number, halves away from zero.
    #[verifier::when_used_as_spec(spec_round)]
    pub fn round(self) -> (r: Single)
        ensures
            r == self.spec_round(),
    {
        proof {
            reveal(Single::num);
            reveal(Single::of);
            reveal(Single::spec_round);
        }
        Single { bits: engine::to_whole(&Layout::single(), Rounding::Nearest, self.bits as u64) as u32 }
    }

    /// Whether this is below the other; never with a NaN.
    pub open spec fn spec_lt(self, o: Single) -> bool {
        below(self@, o@)
    }

    /// Whether this is below the other; never with a NaN.
    #[verifier::when_used_as_spec(spec_lt)]
    pub fn lt(self, o: Single) -> (r: bool)
        ensures
            r == self.spec_lt(o),
    {
        proof {
            reveal(Single::num);
        }
        engine::less(&Layout::single(), self.bits as u64, o.bits as u64)
    }

    /// Whether the two are the same number; never with a NaN.
    pub open spec fn spec_same(self, o: Single) -> bool {
        alike(self@, o@)
    }

    /// Whether the two are the same number; never with a NaN.
    #[verifier::when_used_as_spec(spec_same)]
    pub fn same(self, o: Single) -> (r: bool)
        ensures
            r == self.spec_same(o),
    {
        proof {
            reveal(Single::num);
        }
        engine::equal(&Layout::single(), self.bits as u64, o.bits as u64)
    }

    /// Whether this is not above the other; never with a NaN.
    pub open spec fn spec_le(self, o: Single) -> bool {
        below(self@, o@) || alike(self@, o@)
    }

    /// Whether this is not above the other; never with a NaN.
    #[verifier::when_used_as_spec(spec_le)]
    pub fn le(self, o: Single) -> (r: bool)
        ensures
            r == self.spec_le(o),
    {
        self.lt(o) || self.same(o)
    }

    /// Whether this is not a number.
    pub open spec fn spec_is_nan(self) -> bool {
        self@ is Nan
    }

    /// Whether this is not a number.
    #[verifier::when_used_as_spec(spec_is_nan)]
    pub fn is_nan(self) -> (r: bool)
        ensures
            r == self.spec_is_nan(),
    {
        proof {
            reveal(Single::num);
        }
        engine::is_nan(&Layout::single(), self.bits as u64)
    }

    /// Whether this is neither infinite nor a NaN.
    pub open spec fn spec_is_finite(self) -> bool {
        self@ is Fin
    }

    /// Whether this is neither infinite nor a NaN.
    #[verifier::when_used_as_spec(spec_is_finite)]
    pub fn is_finite(self) -> (r: bool)
        ensures
            r == self.spec_is_finite(),
    {
        proof {
            reveal(Single::num);
        }
        engine::is_finite(&Layout::single(), self.bits as u64)
    }

    /// The larger of the two; the other one where one is a NaN.
    pub open spec fn spec_max(self, o: Single) -> Single {
        if self.is_nan() || (!o.is_nan() && self.lt(o)) {
            o
        } else {
            self
        }
    }

    /// The larger of the two; the other one where one is a NaN.
    #[verifier::when_used_as_spec(spec_max)]
    pub fn max(self, o: Single) -> (r: Single)
        ensures
            r == self.spec_max(o),
    {
        if self.is_nan() || (!o.is_nan() && self.lt(o)) {
            o
        } else {
            self
        }
    }

    /// The smaller of the two; the other one where one is a NaN.
    pub open spec fn spec_min(self, o: Single) -> Single {
        if self.is_nan() || (!o.is_nan() && o.lt(self)) {
            o
        } else {
            self
        }
    }

    /// The smaller of the two; the other one where one is a NaN.
    #[verifier::when_used_as_spec(spec_min)]
    pub fn min(self, o: Single) -> (r: Single)
        ensures
            r == self.spec_min(o),
    {
        if self.is_nan() || (!o.is_nan() && o.lt(self)) {
            o
        } else {
            self
        }
    }

    /// The nearest number in `lo ..= hi`; a NaN stays one.
    pub open spec fn spec_clamp(self, lo: Single, hi: Single) -> Single {
        if self.lt(lo) {
            lo
        } else if hi.lt(self) {
            hi
        } else {
            self
        }
    }

    /// The nearest number in `lo ..= hi`; a NaN stays one.
    #[verifier::when_used_as_spec(spec_clamp)]
    pub fn clamp(self, lo: Single, hi: Single) -> (r: Single)
        requires
            lo.le(hi),
        ensures
            r == self.spec_clamp(lo, hi),
    {
        if self.lt(lo) {
            lo
        } else if hi.lt(self) {
            hi
        } else {
            self
        }
    }

    /// The whole number `n`, rounded where it has more digits than the precision.
    #[verifier::opaque]
    pub open spec fn spec_from_u64(n: u64) -> Single {
        Single::of(single_format().whole(false, n as nat))
    }

    /// The whole number `n`, rounded where it has more digits than the precision.
    #[verifier::when_used_as_spec(spec_from_u64)]
    pub fn from_u64(n: u64) -> (r: Single)
        ensures
            r == Single::spec_from_u64(n),
    {
        proof {
            reveal(Single::of);
            reveal(Single::spec_from_u64);
        }
        Single { bits: engine::whole(&Layout::single(), false, n) as u32 }
    }

    /// The whole number `n`, rounded where it has more digits than the precision.
    #[verifier::opaque]
    pub open spec fn spec_from_i64(n: i64) -> Single {
        Single::of(
            single_format().whole(
                n < 0,
                (if n < 0 {
                    -(n as int)
                } else {
                    n as int
                }) as nat,
            ),
        )
    }

    /// The whole number `n`, rounded where it has more digits than the precision.
    #[verifier::when_used_as_spec(spec_from_i64)]
    pub fn from_i64(n: i64) -> (r: Single)
        ensures
            r == Single::spec_from_i64(n),
    {
        proof {
            reveal(Single::of);
            reveal(Single::spec_from_i64);
        }
        let size: u64 = if n < 0 {
            (-(n + 1)) as u64 + 1
        } else {
            n as u64
        };
        Single { bits: engine::whole(&Layout::single(), n < 0, size) as u32 }
    }

    /// The number as a `u8`: its fraction dropped, the nearest `u8` where it is
    /// too large or too small, zero for a NaN.
    #[verifier::opaque]
    pub open spec fn spec_to_u8(self) -> u8 {
        single_format().truncated(self@, 0, u8::MAX as int) as u8
    }

    /// The number as a `u8`: its fraction dropped, the nearest `u8` where it is
    /// too large or too small, zero for a NaN.
    #[verifier::when_used_as_spec(spec_to_u8)]
    pub fn to_u8(self) -> (r: u8)
        ensures
            r == self.spec_to_u8(),
    {
        proof {
            reveal(Single::num);
            reveal(Single::spec_to_u8);
        }
        engine::to_unsigned(&Layout::single(), self.bits as u64, u8::MAX as u64) as u8
    }

    /// The number as a `u32`: its fraction dropped, the nearest `u32` where it is
    /// too large or too small, zero for a NaN.
    #[verifier::opaque]
    pub open spec fn spec_to_u32(self) -> u32 {
        single_format().truncated(self@, 0, u32::MAX as int) as u32
    }

    /// The number as a `u32`: its fraction dropped, the nearest `u32` where it is
    /// too large or too small, zero for a NaN.
    #[verifier::when_used_as_spec(spec_to_u32)]
    pub fn to_u32(self) -> (r: u32)
        ensures
            r == self.spec_to_u32(),
    {
        proof {
            reveal(Single::num);
            reveal(Single::spec_to_u32);
        }
        engine::to_unsigned(&Layout::single(), self.bits as u64, u32::MAX as u64) as u32
    }

    /// The number as a `u64`: its fraction dropped, the nearest `u64` where it is
    /// too large or too small, zero for a NaN.
    #[verifier::opaque]
    pub open spec fn spec_to_u64(self) -> u64 {
        single_format().truncated(self@, 0, u64::MAX as int) as u64
    }

    /// The number as a `u64`: its fraction dropped, the nearest `u64` where it is
    /// too large or too small, zero for a NaN.
    #[verifier::when_used_as_spec(spec_to_u64)]
    pub fn to_u64(self) -> (r: u64)
        ensures
            r == self.spec_to_u64(),
    {
        proof {
            reveal(Single::num);
            reveal(Single::spec_to_u64);
        }
        engine::to_unsigned(&Layout::single(), self.bits as u64, u64::MAX)
    }

    /// The number as a `usize`: its fraction dropped, the nearest `usize` where it is
    /// too large or too small, zero for a NaN.
    #[verifier::opaque]
    pub open spec fn spec_to_usize(self) -> usize {
        single_format().truncated(self@, 0, usize::MAX as int) as usize
    }

    /// The number as a `usize`: its fraction dropped, the nearest `usize` where it is
    /// too large or too small, zero for a NaN.
    #[verifier::when_used_as_spec(spec_to_usize)]
    pub fn to_usize(self) -> (r: usize)
        ensures
            r == self.spec_to_usize(),
    {
        proof {
            reveal(Single::num);
            reveal(Single::spec_to_usize);
        }
        engine::to_unsigned(&Layout::single(), self.bits as u64, usize::MAX as u64) as usize
    }

    /// The number as an `i32`: its fraction dropped, the nearest `i32` where it is
    /// too large or too small, zero for a NaN.
    #[verifier::opaque]
    pub open spec fn spec_to_i32(self) -> i32 {
        single_format().truncated(self@, i32::MIN as int, i32::MAX as int) as i32
    }

    /// The number as an `i32`: its fraction dropped, the nearest `i32` where it is
    /// too large or too small, zero for a NaN.
    #[verifier::when_used_as_spec(spec_to_i32)]
    pub fn to_i32(self) -> (r: i32)
        ensures
            r == self.spec_to_i32(),
    {
        proof {
            reveal(Single::num);
            reveal(Single::spec_to_i32);
        }
        engine::to_signed(&Layout::single(), self.bits as u64, i32::MAX as i64) as i32
    }

    /// The number as an `i64`: its fraction dropped, the nearest `i64` where it is
    /// too large or too small, zero for a NaN.
    #[verifier::opaque]
    pub open spec fn spec_to_i64(self) -> i64 {
        single_format().truncated(self@, i64::MIN as int, i64::MAX as int) as i64
    }

    /// The number as an `i64`: its fraction dropped, the nearest `i64` where it is
    /// too large or too small, zero for a NaN.
    #[verifier::when_used_as_spec(spec_to_i64)]
    pub fn to_i64(self) -> (r: i64)
        ensures
            r == self.spec_to_i64(),
    {
        proof {
            reveal(Single::num);
            reveal(Single::spec_to_i64);
        }
        engine::to_signed(&Layout::single(), self.bits as u64, i64::MAX)
    }

    /// The nearest number of the other precision.
    #[verifier::opaque]
    pub open spec fn spec_to_double(self) -> Double {
        Double::of(double_format().converted(single_format(), self@))
    }

    /// The nearest number of the other precision.
    #[verifier::when_used_as_spec(spec_to_double)]
    pub fn to_double(self) -> (r: Double)
        ensures
            r == self.spec_to_double(),
    {
        proof {
            reveal(Single::num);
            reveal(Double::of);
            reveal(Single::spec_to_double);
        }
        Double { bits: engine::convert(&Layout::double(), &Layout::single(), self.bits as u64) }
    }
}

/// Turning the sign of a double turns the sign of the number.
proof fn lemma_double_negate(x: Double)
    ensures
        x.spec_negate()@ == opposite(x@),
{
    reveal(Double::num);
    reveal(Double::of);
    reveal(Double::spec_negate);
    lemma_double_bits();
    lemma_encode_decode(double_format(), x.bits as nat);
    lemma_decode_encode(double_format(), opposite(x@));
}

/// The double format, in numbers.
pub proof fn lemma_double_bits()
    ensures
        double_format().sound(),
        2 * double_format().sign_bit() == 0x1_0000_0000_0000_0000,
{
    lemma2_to64_rest();
    assert(pow2(52) == 0x10_0000_0000_0000);
    assert(double_format().sign_bit() == 2048 * 0x10_0000_0000_0000);
}

/// Turning the sign of a single turns the sign of the number.
proof fn lemma_single_negate(x: Single)
    ensures
        x.spec_negate()@ == opposite(x@),
{
    reveal(Single::num);
    reveal(Single::of);
    reveal(Single::spec_negate);
    lemma_single_bits();
    lemma_encode_decode(single_format(), x.bits as nat);
    lemma_decode_encode(single_format(), opposite(x@));
}

/// The single format, in numbers.
pub proof fn lemma_single_bits()
    ensures
        single_format().sound(),
        2 * single_format().sign_bit() == 0x1_0000_0000,
{
    lemma2_to64();
    assert(pow2(23) == 0x80_0000);
    assert(single_format().sign_bit() == 256 * 0x80_0000);
}

/// The double with the given bits.
pub open spec fn spec_double(bits: u64) -> Double {
    Double { bits }
}

/// The double with the given bits.
#[verifier::when_used_as_spec(spec_double)]
pub fn double(bits: u64) -> (r: Double)
    ensures
        r == spec_double(bits),
{
    Double { bits }
}

/// The single with the given bits.
pub open spec fn spec_single(bits: u32) -> Single {
    Single { bits }
}

/// The single with the given bits.
#[verifier::when_used_as_spec(spec_single)]
pub fn single(bits: u32) -> (r: Single)
    ensures
        r == spec_single(bits),
{
    Single { bits }
}

} // verus!
