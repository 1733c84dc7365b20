//! What a binary floating-point number means, over the mathematical integers.
//!
//! Every finite number of a format is a whole multiple of the format's smallest
//! positive number. Magnitudes are counted in that unit, so they are naturals and
//! nothing here needs a fraction: `1.0` is `pow2(unit)` units.

use vstd::arithmetic::power2::pow2;
use vstd::prelude::*;

verus! {

/// A binary interchange format.
pub struct Format {
    /// Bits of precision, the leading one included.
    pub p: nat,
    /// `1.0` is `pow2(unit)` times the smallest positive number.
    pub unit: nat,
    /// The largest biased exponent of a finite number.
    pub top: nat,
}

/// The format with 53 bits of precision.
pub open spec fn double_format() -> Format {
    Format { p: 53, unit: 1074, top: 2046 }
}

/// The format with 24 bits of precision.
pub open spec fn single_format() -> Format {
    Format { p: 24, unit: 149, top: 254 }
}

/// A number: not a number, an infinity, or a signed count of units.
pub enum Num {
    Nan,
    Inf { neg: bool },
    Fin { neg: bool, mag: nat },
}

/// How many binary digits `n` has; none for zero.
pub open spec fn bitlen(n: nat) -> nat
    decreases n,
{
    if n == 0 {
        0
    } else {
        1 + bitlen(n / 2)
    }
}

/// The whole number nearest to `num / den`, the even one of two that are equally near.
pub open spec fn half_even(num: nat, den: nat) -> nat {
    let q = num / den;
    let r = num % den;
    if 2 * r > den || (2 * r == den && q % 2 == 1) {
        q + 1
    } else {
        q
    }
}

impl Format {
    /// The exponent of the last place of a magnitude with `digits` binary digits.
    pub open spec fn place(self, digits: nat) -> nat {
        if digits > self.p {
            (digits - self.p) as nat
        } else {
            0
        }
    }

    /// `num / den` units, rounded to the precision of the format: the nearest
    /// multiple of the last place, ties to the even multiple.
    pub open spec fn round(self, num: nat, den: nat) -> nat {
        let k = self.place(bitlen(num / den));
        half_even(num, den * pow2(k)) * pow2(k)
    }

    /// The first magnitude that is too large to be finite.
    pub open spec fn limit(self) -> nat {
        pow2((self.p + self.top - 1) as nat)
    }

    /// `num / den` units with a sign, rounded, overflowing to infinity.
    pub open spec fn rounded(self, neg: bool, num: nat, den: nat) -> Num {
        let m = self.round(num, den);
        if m >= self.limit() {
            Num::Inf { neg }
        } else {
            Num::Fin { neg, mag: m }
        }
    }

    /// Whether a finite number of the format has this magnitude.
    pub open spec fn holds(self, mag: nat) -> bool {
        mag < self.limit() && mag % pow2(self.place(bitlen(mag))) == 0
    }

    /// The weight of the lowest exponent bit in a bit pattern.
    pub open spec fn hidden(self) -> nat {
        pow2((self.p - 1) as nat)
    }

    /// The pattern of positive infinity.
    pub open spec fn inf_bits(self) -> nat {
        (self.top + 1) * self.hidden()
    }

    /// The weight of the sign bit in a bit pattern.
    pub open spec fn sign_bit(self) -> nat {
        (self.top + 2) * self.hidden()
    }

    /// The bit pattern of a magnitude, the sign bit left out.
    pub open spec fn mag_bits(self, mag: nat) -> nat {
        let k = self.place(bitlen(mag));
        k * self.hidden() + mag / pow2(k)
    }

    /// The magnitude that a finite pattern without its sign bit stands for.
    pub open spec fn bits_mag(self, rest: nat) -> nat {
        let field = rest / self.hidden();
        let frac = rest % self.hidden();
        if field == 0 {
            frac
        } else {
            (self.hidden() + frac) * pow2((field - 1) as nat)
        }
    }

    /// The bit pattern of a number; every NaN gets the same quiet pattern.
    pub open spec fn encode(self, n: Num) -> nat {
        match n {
            Num::Nan => self.inf_bits() + self.hidden() / 2,
            Num::Inf { neg } => self.inf_bits() + if neg { self.sign_bit() } else { 0 },
            Num::Fin { neg, mag } => self.mag_bits(mag) + if neg { self.sign_bit() } else { 0 },
        }
    }

    /// The number that a bit pattern stands for.
    pub open spec fn decode(self, bits: nat) -> Num {
        let neg = bits >= self.sign_bit();
        let rest = if neg { (bits - self.sign_bit()) as nat } else { bits };
        if rest > self.inf_bits() {
            Num::Nan
        } else if rest == self.inf_bits() {
            Num::Inf { neg }
        } else {
            Num::Fin { neg, mag: self.bits_mag(rest) }
        }
    }

    /// The sum.
    pub open spec fn sum(self, a: Num, b: Num) -> Num {
        match (a, b) {
            (Num::Fin { neg: na, mag: ma }, Num::Fin { neg: nb, mag: mb }) => {
                let s = signed(na, ma) + signed(nb, mb);
                if s == 0 {
                    Num::Fin { neg: na && nb, mag: 0 }
                } else if s < 0 {
                    self.rounded(true, (-s) as nat, 1)
                } else {
                    self.rounded(false, s as nat, 1)
                }
            },
            (Num::Inf { neg: na }, Num::Inf { neg: nb }) => if na == nb {
                a
            } else {
                Num::Nan
            },
            (Num::Inf { neg: _ }, Num::Fin { neg: _, mag: _ }) => a,
            (Num::Fin { neg: _, mag: _ }, Num::Inf { neg: _ }) => b,
            _ => Num::Nan,
        }
    }

    /// The product.
    pub open spec fn product(self, a: Num, b: Num) -> Num {
        match (a, b) {
            (Num::Fin { neg: na, mag: ma }, Num::Fin { neg: nb, mag: mb }) => self.rounded(
                na != nb,
                ma * mb,
                pow2(self.unit),
            ),
            (Num::Inf { neg: na }, Num::Inf { neg: nb }) => Num::Inf { neg: na != nb },
            (Num::Inf { neg: na }, Num::Fin { neg: nb, mag }) => if mag == 0 {
                Num::Nan
            } else {
                Num::Inf { neg: na != nb }
            },
            (Num::Fin { neg: na, mag }, Num::Inf { neg: nb }) => if mag == 0 {
                Num::Nan
            } else {
                Num::Inf { neg: na != nb }
            },
            _ => Num::Nan,
        }
    }

    /// The quotient.
    pub open spec fn quotient(self, a: Num, b: Num) -> Num {
        match (a, b) {
            (Num::Fin { neg: na, mag: ma }, Num::Fin { neg: nb, mag: mb }) => if mb != 0 {
                self.rounded(na != nb, ma * pow2(self.unit), mb)
            } else if ma != 0 {
                Num::Inf { neg: na != nb }
            } else {
                Num::Nan
            },
            (Num::Inf { neg: na }, Num::Fin { neg: nb, mag: _ }) => Num::Inf { neg: na != nb },
            (Num::Fin { neg: na, mag: _ }, Num::Inf { neg: nb }) => Num::Fin {
                neg: na != nb,
                mag: 0,
            },
            _ => Num::Nan,
        }
    }

    /// The whole number `n` with a sign.
    pub open spec fn whole(self, neg: bool, n: nat) -> Num {
        self.rounded(neg, n * pow2(self.unit), 1)
    }

    /// The number of this format nearest to a number of the format `from`.
    pub open spec fn converted(self, from: Format, n: Num) -> Num {
        match n {
            Num::Fin { neg, mag } => self.rounded(neg, mag * pow2(self.unit), pow2(from.unit)),
            _ => n,
        }
    }

    /// The largest whole number not above `n`.
    pub open spec fn floored(self, n: Num) -> Num {
        match n {
            Num::Fin { neg, mag } => Num::Fin {
                neg,
                mag: (if neg {
                    up(mag, pow2(self.unit))
                } else {
                    mag / pow2(self.unit)
                }) * pow2(self.unit),
            },
            _ => n,
        }
    }

    /// The smallest whole number not below `n`.
    pub open spec fn ceiled(self, n: Num) -> Num {
        match n {
            Num::Fin { neg, mag } => Num::Fin {
                neg,
                mag: (if neg {
                    mag / pow2(self.unit)
                } else {
                    up(mag, pow2(self.unit))
                }) * pow2(self.unit),
            },
            _ => n,
        }
    }

    /// The whole number nearest to `n`, halves away from zero.
    pub open spec fn nearest(self, n: Num) -> Num {
        match n {
            Num::Fin { neg, mag } => Num::Fin {
                neg,
                mag: half_up(mag, pow2(self.unit)) * pow2(self.unit),
            },
            _ => n,
        }
    }

    /// `n` with its fraction dropped, brought into `lo ..= hi`; zero where `n` is
    /// not a number.
    pub open spec fn truncated(self, n: Num, lo: int, hi: int) -> int {
        match n {
            Num::Nan => 0,
            Num::Inf { neg } => if neg {
                lo
            } else {
                hi
            },
            Num::Fin { neg, mag } => {
                let i = signed(neg, mag / pow2(self.unit));
                if i < lo {
                    lo
                } else if i > hi {
                    hi
                } else {
                    i
                }
            },
        }
    }
}

/// `n / d` rounded up.
pub open spec fn up(n: nat, d: nat) -> nat {
    if n % d == 0 {
        n / d
    } else {
        n / d + 1
    }
}

/// `n / d` rounded to the nearest whole number, halves up.
pub open spec fn half_up(n: nat, d: nat) -> nat {
    if 2 * (n % d) >= d {
        n / d + 1
    } else {
        n / d
    }
}

/// A magnitude with its sign.
pub open spec fn signed(neg: bool, mag: nat) -> int {
    if neg {
        -(mag as int)
    } else {
        mag as int
    }
}

/// The opposite number.
pub open spec fn opposite(n: Num) -> Num {
    match n {
        Num::Nan => Num::Nan,
        Num::Inf { neg } => Num::Inf { neg: !neg },
        Num::Fin { neg, mag } => Num::Fin { neg: !neg, mag },
    }
}

/// The number without its sign.
pub open spec fn magnitude(n: Num) -> Num {
    match n {
        Num::Nan => Num::Nan,
        Num::Inf { neg: _ } => Num::Inf { neg: false },
        Num::Fin { neg: _, mag } => Num::Fin { neg: false, mag },
    }
}

/// Whether `a` is below `b`; never where either is not a number.
pub open spec fn below(a: Num, b: Num) -> bool {
    match (a, b) {
        (Num::Fin { neg: na, mag: ma }, Num::Fin { neg: nb, mag: mb }) => signed(na, ma) < signed(
            nb,
            mb,
        ),
        (Num::Inf { neg: na }, Num::Inf { neg: nb }) => na && !nb,
        (Num::Inf { neg: na }, Num::Fin { neg: _, mag: _ }) => na,
        (Num::Fin { neg: _, mag: _ }, Num::Inf { neg: nb }) => !nb,
        _ => false,
    }
}

/// How many units a finite number is, with its sign; none for any other.
pub open spec fn units(n: Num) -> int {
    match n {
        Num::Fin { neg, mag } => signed(neg, mag),
        _ => 0,
    }
}

/// Whether the two are the same number; the two zeroes are.
pub open spec fn alike(a: Num, b: Num) -> bool {
    match (a, b) {
        (Num::Fin { neg: na, mag: ma }, Num::Fin { neg: nb, mag: mb }) => signed(na, ma) == signed(
            nb,
            mb,
        ),
        (Num::Inf { neg: na }, Num::Inf { neg: nb }) => na == nb,
        _ => false,
    }
}

} // verus!
