//! Facts about the model: digit counts, rounding, and the bit patterns.

use super::model::{bitlen, half_even, up, Format, Num};
use vstd::arithmetic::div_mod::{
    lemma_fundamental_div_mod, lemma_fundamental_div_mod_converse, lemma_mod_bound,
};
use vstd::arithmetic::power2::{
    lemma2_to64, lemma2_to64_rest, lemma_pow2_adds, lemma_pow2_pos, lemma_pow2_strictly_increases,
    lemma_pow2_unfold, pow2,
};
use vstd::prelude::*;

verus! {

impl Format {
    /// A format whose precision and exponents are large enough to make sense.
    pub open spec fn sound(self) -> bool {
        2 <= self.p <= 53 && 2 <= self.top && self.p <= self.unit
    }
}

/// Powers of two grow with the exponent.
pub proof fn lemma_pow2_monotone(a: nat, b: nat)
    requires
        a <= b,
    ensures
        pow2(a) <= pow2(b),
{
    if a < b {
        lemma_pow2_strictly_increases(a, b);
    }
}

/// A number lies below the power of two that its digits count, and not below the
/// one before.
pub proof fn lemma_bitlen_bounds(n: nat)
    ensures
        n < pow2(bitlen(n)),
        n > 0 ==> bitlen(n) > 0 && pow2((bitlen(n) - 1) as nat) <= n,
    decreases n,
{
    lemma2_to64();
    if n > 0 {
        lemma_bitlen_bounds(n / 2);
        lemma_pow2_unfold(bitlen(n));
        if n / 2 > 0 {
            lemma_pow2_unfold(bitlen(n / 2));
        }
    }
}

/// The power-of-two bounds fix the digit count.
pub proof fn lemma_bitlen_is(n: nat, b: nat)
    requires
        b > 0,
        pow2((b - 1) as nat) <= n < pow2(b),
    ensures
        bitlen(n) == b,
{
    lemma_bitlen_bounds(n);
    lemma_pow2_pos((b - 1) as nat);
    let c = bitlen(n);
    if c < b {
        lemma_pow2_monotone(c, (b - 1) as nat);
    }
    if c > b {
        lemma_pow2_monotone(b, (c - 1) as nat);
    }
}

/// A number below a power of two has no more digits than its exponent.
pub proof fn lemma_bitlen_below(n: nat, b: nat)
    requires
        n < pow2(b),
    ensures
        bitlen(n) <= b,
{
    lemma_bitlen_bounds(n);
    if bitlen(n) > b {
        lemma_pow2_monotone(b, (bitlen(n) - 1) as nat);
    }
}

/// Dividing by a power of two drops that many digits.
pub proof fn lemma_bitlen_shift(n: nat, k: nat)
    requires
        n >= pow2(k),
    ensures
        bitlen(n) == k + bitlen(n / pow2(k)),
{
    lemma_pow2_pos(k);
    let q = n / pow2(k);
    lemma_fundamental_div_mod(n as int, pow2(k) as int);
    lemma_mod_bound(n as int, pow2(k) as int);
    if q == 0 {
        assert(pow2(k) * q == 0) by (nonlinear_arith)
            requires
                q == 0,
        ;
    }
    lemma_bitlen_bounds(q);
    let b = bitlen(q);
    lemma_pow2_adds(k, b);
    lemma_pow2_adds(k, (b - 1) as nat);
    assert(n < pow2(k) * pow2(b)) by (nonlinear_arith)
        requires
            n == pow2(k) * q + n % pow2(k),
            n % pow2(k) < pow2(k),
            q + 1 <= pow2(b),
            pow2(k) > 0,
    ;
    assert(n >= pow2(k) * pow2((b - 1) as nat)) by (nonlinear_arith)
        requires
            n == pow2(k) * q + n % pow2(k),
            n % pow2(k) >= 0,
            q >= pow2((b - 1) as nat),
            pow2(k) > 0,
    ;
    lemma_bitlen_is(n, k + b);
}

/// Multiplying by a power of two adds that many digits.
pub proof fn lemma_bitlen_scale(n: nat, k: nat)
    requires
        n > 0,
    ensures
        bitlen(n * pow2(k)) == bitlen(n) + k,
{
    lemma_bitlen_bounds(n);
    let b = bitlen(n);
    lemma_pow2_pos(k);
    lemma_pow2_adds(b, k);
    lemma_pow2_adds((b - 1) as nat, k);
    assert(n * pow2(k) < pow2(b) * pow2(k)) by (nonlinear_arith)
        requires
            n < pow2(b),
            pow2(k) > 0,
    ;
    assert(n * pow2(k) >= pow2((b - 1) as nat) * pow2(k)) by (nonlinear_arith)
        requires
            n >= pow2((b - 1) as nat),
            pow2(k) > 0,
    ;
    lemma_bitlen_is(n * pow2(k), b + k);
}

/// Scaling both sides of a division keeps the quotient and scales the remainder.
pub proof fn lemma_div_scale(n: nat, d: nat, c: nat)
    requires
        d > 0,
        c > 0,
    ensures
        d * c > 0,
        (n * c) / (d * c) == n / d,
        (n * c) % (d * c) == (n % d) * c,
{
    let q = n / d;
    let r = n % d;
    lemma_fundamental_div_mod(n as int, d as int);
    lemma_mod_bound(n as int, d as int);
    assert(d * c > 0) by (nonlinear_arith)
        requires
            d > 0,
            c > 0,
    ;
    assert(n * c == q * (d * c) + r * c) by (nonlinear_arith)
        requires
            n == d * q + r,
    ;
    assert(0 <= r * c < d * c) by (nonlinear_arith)
        requires
            0 <= r < d,
            c > 0,
    ;
    lemma_fundamental_div_mod_converse((n * c) as int, (d * c) as int, q as int, (r * c) as int);
}

/// Rounding a fraction does not depend on how it is expanded.
pub proof fn lemma_half_even_scale(n: nat, d: nat, c: nat)
    requires
        d > 0,
        c > 0,
    ensures
        half_even(n * c, d * c) == half_even(n, d),
{
    lemma_div_scale(n, d, c);
    let r = n % d;
    assert((2 * (r * c) > d * c) == (2 * r > d)) by (nonlinear_arith)
        requires
            c > 0,
    ;
    assert((2 * (r * c) == d * c) == (2 * r == d)) by (nonlinear_arith)
        requires
            c > 0,
    ;
}

/// `g` cut after `j` binary places and rounded to nearest even, where `more` says
/// that what `g` stands for lies a little above it.
pub open spec fn cut(g: nat, j: nat, more: bool) -> nat {
    let q = g / pow2(j);
    let low = g % pow2(j);
    let half = pow2((j - 1) as nat);
    if low > half || (low == half && (more || q % 2 == 1)) {
        q + 1
    } else {
        q
    }
}

/// The floor of a fraction and whether anything is left decide how it rounds at
/// any coarser place.
pub proof fn lemma_cut(a: nat, b: nat, j: nat)
    requires
        b > 0,
        j > 0,
    ensures
        half_even(a, b * pow2(j)) == cut(a / b, j, a % b != 0),
{
    let g = a / b;
    let rho = a % b;
    let h = pow2((j - 1) as nat);
    lemma_pow2_pos(j);
    lemma_pow2_unfold(j);
    let w = pow2(j);
    let q = g / w;
    let low = g % w;
    lemma_fundamental_div_mod(a as int, b as int);
    lemma_mod_bound(a as int, b as int);
    lemma_fundamental_div_mod(g as int, w as int);
    lemma_mod_bound(g as int, w as int);
    let rem = low * b + rho;
    assert(a == q * (b * w) + rem) by (nonlinear_arith)
        requires
            a == b * g + rho,
            g == w * q + low,
            rem == low * b + rho,
    ;
    assert(0 <= rem < b * w) by (nonlinear_arith)
        requires
            0 <= rho < b,
            0 <= low < w,
            rem == low * b + rho,
    ;
    lemma_fundamental_div_mod_converse(a as int, (b * w) as int, q as int, rem as int);
    assert(b * w == 2 * (b * h)) by (nonlinear_arith)
        requires
            w == 2 * h,
    ;
    if low > h {
        assert(rem > b * h) by (nonlinear_arith)
            requires
                low >= h + 1,
                rem == low * b + rho,
                rho >= 0,
                b > 0,
        ;
    } else if low == h {
        assert(rem == b * h + rho) by (nonlinear_arith)
            requires
                low == h,
                rem == low * b + rho,
        ;
    } else {
        assert(rem < b * h) by (nonlinear_arith)
            requires
                low + 1 <= h,
                rem == low * b + rho,
                rho < b,
                b > 0,
        ;
    }
}

/// What is left of `g * pow2(e)` when the last place of the format is `pow2(k)`.
pub open spec fn kept(g: nat, e: int, more: bool, k: nat) -> nat {
    let j = k - e;
    if j <= 0 {
        g * pow2((-j) as nat)
    } else {
        cut(g, j as nat, more)
    }
}

impl Format {
    /// The last place of `g * pow2(e)`.
    pub open spec fn place_of(self, g: nat, e: int) -> nat {
        let t = bitlen(g) + e;
        if g > 0 && t > self.p {
            (t - self.p) as nat
        } else {
            0
        }
    }
}

/// `num / den` is `g * pow2(e)`, or, where `more` is set, lies strictly between
/// that and `(g + 1) * pow2(e)`. The exponent is split into `up - down`.
pub open spec fn stands_for(
    g: nat,
    up: nat,
    down: nat,
    more: bool,
    num: nat,
    den: nat,
) -> bool {
    let a = num * pow2(down);
    let b = den * pow2(up);
    g == a / b && more == (a % b != 0)
}

/// The digit count of the whole part follows from the digits of `g`.
pub proof fn lemma_place_of(
    f: Format,
    g: nat,
    up: nat,
    down: nat,
    more: bool,
    num: nat,
    den: nat,
)
    requires
        den > 0,
        g > 0 || !more,
        stands_for(g, up, down, more, num, den),
    ensures
        f.place_of(g, up - down) == f.place(bitlen(num / den)),
{
    let a = num * pow2(down);
    let b = den * pow2(up);
    lemma_pow2_pos(down);
    lemma_pow2_pos(up);
    assert(b > 0) by (nonlinear_arith)
        requires
            b == den * pow2(up),
            den > 0,
            pow2(up) > 0,
    ;
    lemma_fundamental_div_mod(a as int, b as int);
    lemma_mod_bound(a as int, b as int);
    let w = num / den;
    lemma_fundamental_div_mod(num as int, den as int);
    lemma_mod_bound(num as int, den as int);
    if g == 0 {
        assert(num == 0) by (nonlinear_arith)
            requires
                num * pow2(down) == 0,
                pow2(down) > 0,
        ;
        assert(w == 0) by (nonlinear_arith)
            requires
                0 == den * w + num % den,
                num % den >= 0,
                den > 0,
                w >= 0,
        ;
    } else {
        lemma_place_of_positive(f, g, up, down, num, den);
    }
}

/// The digit count of the whole part, where `g` has digits.
proof fn lemma_place_of_positive(f: Format, g: nat, up: nat, down: nat, num: nat, den: nat)
    requires
        den > 0,
        g > 0,
        g == (num * pow2(down)) / (den * pow2(up)),
    ensures
        f.place_of(g, up - down) == f.place(bitlen(num / den)),
{
    let a = num * pow2(down);
    let b = den * pow2(up);
    lemma_pow2_pos(down);
    lemma_pow2_pos(up);
    assert(b > 0) by (nonlinear_arith)
        requires
            b == den * pow2(up),
            den > 0,
            pow2(up) > 0,
    ;
    lemma_fundamental_div_mod(a as int, b as int);
    lemma_mod_bound(a as int, b as int);
    lemma_bitlen_bounds(g);
    let l = bitlen(g);
    let t = l + up - down;
    let w = num / den;
    lemma_fundamental_div_mod(num as int, den as int);
    lemma_mod_bound(num as int, den as int);
    lemma_pow2_adds(l, up);
    assert(a < pow2(l) * b) by (nonlinear_arith)
        requires
            a == b * g + a % b,
            a % b < b,
            g + 1 <= pow2(l),
            b > 0,
    ;
    assert(pow2(l) * b == den * pow2(l + up)) by (nonlinear_arith)
        requires
            b == den * pow2(up),
            pow2(l + up) == pow2(l) * pow2(up),
    ;
    if t <= 0 {
        lemma_pow2_monotone(l + up, down);
        assert(num < den) by (nonlinear_arith)
            requires
                num * pow2(down) < den * pow2(l + up),
                pow2(l + up) <= pow2(down),
                pow2(down) > 0,
        ;
        assert(w == 0) by (nonlinear_arith)
            requires
                num < den,
                num == den * w + num % den,
                num % den >= 0,
                w >= 0,
        ;
    } else {
        lemma_pow2_adds(t as nat, down);
        assert(num < den * pow2(t as nat)) by (nonlinear_arith)
            requires
                num * pow2(down) < den * pow2(l + up),
                pow2(l + up) == pow2(t as nat) * pow2(down),
                pow2(down) > 0,
        ;
        assert(w < pow2(t as nat)) by (nonlinear_arith)
            requires
                num < den * pow2(t as nat),
                num == den * w + num % den,
                num % den >= 0,
                den > 0,
        ;
        lemma_pow2_adds((l - 1) as nat, up);
        lemma_pow2_adds((t - 1) as nat, down);
        assert(a >= den * pow2((l - 1 + up) as nat)) by (nonlinear_arith)
            requires
                a == b * g + a % b,
                a % b >= 0,
                g >= pow2((l - 1) as nat),
                b == den * pow2(up),
                b > 0,
                pow2((l - 1 + up) as nat) == pow2((l - 1) as nat) * pow2(up),
        ;
        assert(num >= den * pow2((t - 1) as nat)) by (nonlinear_arith)
            requires
                num * pow2(down) >= den * pow2((l - 1 + up) as nat),
                pow2((l - 1 + up) as nat) == pow2((t - 1) as nat) * pow2(down),
                pow2(down) > 0,
        ;
        assert(w >= pow2((t - 1) as nat)) by (nonlinear_arith)
            requires
                num >= den * pow2((t - 1) as nat),
                num == den * w + num % den,
                num % den < den,
                den > 0,
        ;
        lemma_bitlen_is(w, t as nat);
    }
}

/// Rounding a fraction is cutting what stands for it at the format's last place.
pub proof fn lemma_round_kept(
    f: Format,
    g: nat,
    up: nat,
    down: nat,
    more: bool,
    num: nat,
    den: nat,
)
    requires
        f.sound(),
        den > 0,
        more ==> bitlen(g) > f.p,
        stands_for(g, up, down, more, num, den),
    ensures
        f.round(num, den) == kept(g, up - down, more, f.place_of(g, up - down)) * pow2(
            f.place_of(g, up - down),
        ),
{
    if more {
        lemma_bitlen_bounds(g);
    }
    lemma_place_of(f, g, up, down, more, num, den);
    let e = up - down;
    let k = f.place_of(g, e);
    let j = k - e;
    let a = num * pow2(down);
    let b = den * pow2(up);
    lemma_pow2_pos(down);
    lemma_pow2_pos(up);
    lemma_pow2_pos(k);
    assert(b > 0 && den * pow2(k) > 0) by (nonlinear_arith)
        requires
            b == den * pow2(up),
            den > 0,
            pow2(up) > 0,
            pow2(k) > 0,
    ;
    lemma_half_even_scale(num, den * pow2(k), pow2(down));
    let d = den * pow2(k) * pow2(down);
    assert(d > 0) by (nonlinear_arith)
        requires
            d == den * pow2(k) * pow2(down),
            den * pow2(k) > 0,
            pow2(down) > 0,
    ;
    lemma_pow2_adds(k, down);
    if j >= 1 {
        lemma_pow2_adds(up, j as nat);
        assert(d == b * pow2(j as nat)) by (nonlinear_arith)
            requires
                d == den * pow2(k) * pow2(down),
                b == den * pow2(up),
                pow2(k) * pow2(down) == pow2(up) * pow2(j as nat),
        ;
        lemma_cut(a, b, j as nat);
    } else {
        let i = (-j) as nat;
        lemma_pow2_adds(k + down, i);
        lemma_fundamental_div_mod(a as int, b as int);
        assert(a == (g * pow2(i)) * d) by (nonlinear_arith)
            requires
                a == b * g,
                b == den * pow2(up),
                d == den * pow2(k) * pow2(down),
                pow2(up) == pow2(k + down) * pow2(i),
                pow2(k + down) == pow2(k) * pow2(down),
        ;
        lemma_fundamental_div_mod_converse(a as int, d as int, (g * pow2(i)) as int, 0);
    }
}

/// What is kept has no more digits than the precision, up to one carry, and no
/// fewer where a place was dropped.
pub proof fn lemma_kept_bounds(f: Format, g: nat, e: int, more: bool)
    requires
        f.sound(),
    ensures
        kept(g, e, more, f.place_of(g, e)) <= pow2(f.p),
        f.place_of(g, e) > 0 ==> kept(g, e, more, f.place_of(g, e)) >= f.hidden(),
{
    let k = f.place_of(g, e);
    let j = k - e;
    let l = bitlen(g);
    lemma_bitlen_bounds(g);
    lemma_pow2_pos(f.p);
    if j <= 0 {
        let i = (-j) as nat;
        lemma_pow2_pos(i);
        if g == 0 {
            assert(g * pow2(i) == 0) by (nonlinear_arith)
                requires
                    g == 0,
            ;
        } else {
            lemma_pow2_adds(l, i);
            lemma_pow2_monotone(l + i, f.p);
            assert(g * pow2(i) <= pow2(l) * pow2(i)) by (nonlinear_arith)
                requires
                    g < pow2(l),
                    pow2(i) > 0,
            ;
            lemma_pow2_adds((l - 1) as nat, i);
            assert(g * pow2(i) >= pow2((l - 1) as nat) * pow2(i)) by (nonlinear_arith)
                requires
                    g >= pow2((l - 1) as nat),
                    pow2(i) > 0,
            ;
        }
    } else {
        let w = pow2(j as nat);
        lemma_pow2_pos(j as nat);
        lemma_pow2_pos((j - 1) as nat);
        let q = g / w;
        lemma_fundamental_div_mod(g as int, w as int);
        lemma_mod_bound(g as int, w as int);
        lemma_pow2_adds(f.p, j as nat);
        lemma_pow2_monotone(l, (f.p + j) as nat);
        assert(q < pow2(f.p)) by (nonlinear_arith)
            requires
                g == w * q + g % w,
                g % w >= 0,
                g < pow2(f.p) * w,
                w > 0,
        ;
        if k > 0 {
            lemma_pow2_adds((f.p - 1) as nat, j as nat);
            assert(q >= f.hidden()) by (nonlinear_arith)
                requires
                    g == w * q + g % w,
                    g % w < w,
                    g >= f.hidden() * w,
                    w > 0,
            ;
        }
    }
}

/// The bit pattern of `r` last places of weight `pow2(k)`.
pub proof fn lemma_mag_bits(f: Format, k: nat, r: nat)
    requires
        f.sound(),
        r <= pow2(f.p),
        k > 0 ==> r >= f.hidden(),
    ensures
        f.mag_bits(r * pow2(k)) == k * f.hidden() + r,
        (r * pow2(k) >= f.limit()) == (k * f.hidden() + r >= f.inf_bits()),
        (r * pow2(k)) % pow2(f.place(bitlen(r * pow2(k)))) == 0,
{
    let h = f.hidden();
    lemma_pow2_unfold(f.p);
    lemma_pow2_pos((f.p - 1) as nat);
    lemma_pow2_pos(k);
    let mag = r * pow2(k);
    lemma2_to64();
    if r == pow2(f.p) {
        lemma_pow2_adds(f.p, k);
        lemma_pow2_unfold(f.p + k + 1);
        lemma_pow2_pos(f.p + k);
        lemma_bitlen_is(mag, f.p + k + 1);
        lemma_pow2_adds((f.p - 1) as nat, k + 1);
        lemma_pow2_pos(k + 1);
        lemma_fundamental_div_mod_converse(mag as int, pow2(k + 1) as int, h as int, 0);
        assert((k + 1) * h + h == k * h + 2 * h) by (nonlinear_arith);
    } else if k > 0 {
        lemma_bitlen_is(r, f.p);
        lemma_bitlen_scale(r, k);
        lemma_fundamental_div_mod_converse(mag as int, pow2(k) as int, r as int, 0);
    } else {
        lemma_bitlen_below(r, f.p);
        assert(r * pow2(k) == r) by (nonlinear_arith)
            requires
                pow2(k) == 1,
        ;
        assert(pow2(0) == 1);
        lemma_fundamental_div_mod_converse(mag as int, 1, r as int, 0);
        assert(0 * h == 0);
    }
    // The limit.
    let top = f.top;
    if k >= top {
        lemma_pow2_adds((f.p - 1) as nat, k);
        lemma_pow2_monotone((f.p + top - 1) as nat, (f.p - 1 + k) as nat);
        assert(mag >= h * pow2(k)) by (nonlinear_arith)
            requires
                mag == r * pow2(k),
                r >= h,
                pow2(k) > 0,
        ;
        assert(k * h + r >= (top + 1) * h) by (nonlinear_arith)
            requires
                k >= top,
                r >= h,
                h > 0,
        ;
    } else if k == top - 1 {
        lemma_pow2_adds(f.p, k);
        assert(((r >= pow2(f.p)) == (mag >= pow2(f.p) * pow2(k)))) by (nonlinear_arith)
            requires
                mag == r * pow2(k),
                pow2(k) > 0,
        ;
        assert((top + 1) * h == k * h + 2 * h) by (nonlinear_arith)
            requires
                k == top - 1,
        ;
    } else {
        lemma_pow2_adds(f.p, k);
        lemma_pow2_strictly_increases(f.p + k, (f.p + top - 1) as nat);
        assert(mag <= pow2(f.p) * pow2(k)) by (nonlinear_arith)
            requires
                mag == r * pow2(k),
                r <= pow2(f.p),
                pow2(k) > 0,
        ;
        assert(k * h + r < (top + 1) * h) by (nonlinear_arith)
            requires
                k + 2 <= top,
                r <= 2 * h,
                h > 0,
        ;
    }
}

/// A magnitude that the format holds is read back from its bit pattern.
pub proof fn lemma_decode_mag(f: Format, mag: nat)
    requires
        f.sound(),
        f.holds(mag),
    ensures
        f.mag_bits(mag) < f.inf_bits(),
        f.bits_mag(f.mag_bits(mag)) == mag,
{
    let h = f.hidden();
    let k = f.place(bitlen(mag));
    lemma_pow2_unfold(f.p);
    lemma_pow2_pos((f.p - 1) as nat);
    lemma_pow2_pos(k);
    lemma_bitlen_bounds(mag);
    lemma2_to64();
    let m = mag / pow2(k);
    lemma_fundamental_div_mod(mag as int, pow2(k) as int);
    if k == 0 {
        lemma_pow2_monotone(bitlen(mag), f.p);
        assert(pow2(0) == 1);
        assert(m == mag) by (nonlinear_arith)
            requires
                mag == pow2(k) * m + mag % pow2(k),
                pow2(k) == 1,
                mag % pow2(k) == 0,
        ;
        assert(0 * h == 0);
        if mag < h {
            lemma_fundamental_div_mod_converse(mag as int, h as int, 0, mag as int);
        } else {
            lemma_fundamental_div_mod_converse(mag as int, h as int, 1, mag - h);
            assert((h + (mag - h)) * pow2(0) == mag);
        }
        assert((f.top + 1) * h >= 2 * h) by (nonlinear_arith)
            requires
                f.top >= 2,
                h > 0,
        ;
    } else {
        let l = bitlen(mag);
        lemma_pow2_adds(f.p, k);
        lemma_pow2_adds((f.p - 1) as nat, k);
        assert(m < pow2(f.p)) by (nonlinear_arith)
            requires
                mag == pow2(k) * m,
                mag < pow2(f.p) * pow2(k),
                pow2(k) > 0,
        ;
        assert(m >= h) by (nonlinear_arith)
            requires
                mag == pow2(k) * m,
                mag >= h * pow2(k),
                pow2(k) > 0,
        ;
        let bits = k * h + m;
        assert(bits == (k + 1) * h + (m - h)) by (nonlinear_arith)
            requires
                bits == k * h + m,
        ;
        lemma_fundamental_div_mod_converse(bits as int, h as int, (k + 1) as int, m - h);
        assert(mag == m * pow2(k)) by (nonlinear_arith)
            requires
                mag == pow2(k) * m,
        ;
        if l > f.p + f.top - 1 {
            lemma_pow2_monotone((f.p + f.top - 1) as nat, (l - 1) as nat);
        }
        assert(bits < (f.top + 1) * h) by (nonlinear_arith)
            requires
                bits == k * h + m,
                m < 2 * h,
                k + 1 <= f.top,
                h > 0,
        ;
    }
}

/// A finite bit pattern stands for a magnitude that the format holds, and is the
/// pattern of that magnitude.
pub proof fn lemma_encode_mag(f: Format, rest: nat)
    requires
        f.sound(),
        rest < f.inf_bits(),
    ensures
        f.holds(f.bits_mag(rest)),
        f.mag_bits(f.bits_mag(rest)) == rest,
{
    let h = f.hidden();
    lemma_pow2_unfold(f.p);
    lemma_pow2_pos((f.p - 1) as nat);
    lemma2_to64();
    let field = rest / h;
    let frac = rest % h;
    lemma_fundamental_div_mod(rest as int, h as int);
    lemma_mod_bound(rest as int, h as int);
    if field == 0 {
        assert(rest == frac) by (nonlinear_arith)
            requires
                rest == h * field + frac,
                field == 0,
        ;
        lemma_mag_bits(f, 0, frac);
        assert(frac * pow2(0) == frac);
        assert(0 * h == 0);
    } else {
        let k = (field - 1) as nat;
        let m = h + frac;
        lemma_mag_bits(f, k, m);
        assert(k * h + m == rest) by (nonlinear_arith)
            requires
                rest == h * field + frac,
                k == field - 1,
                m == h + frac,
        ;
    }
}

/// Larger finite patterns stand for larger magnitudes.
pub proof fn lemma_bits_mag_monotone(f: Format, a: nat, b: nat)
    requires
        f.sound(),
        a < b,
    ensures
        f.bits_mag(a) < f.bits_mag(b),
{
    let h = f.hidden();
    lemma_pow2_pos((f.p - 1) as nat);
    lemma2_to64();
    lemma_fundamental_div_mod(a as int, h as int);
    lemma_mod_bound(a as int, h as int);
    lemma_fundamental_div_mod(b as int, h as int);
    lemma_mod_bound(b as int, h as int);
    let (fa, ra) = (a / h, a % h);
    let (fb, rb) = (b / h, b % h);
    if fa > fb {
        assert(false) by (nonlinear_arith)
            requires
                a == h * fa + ra,
                b == h * fb + rb,
                a < b,
                fa >= fb + 1,
                0 <= rb < h,
                0 <= ra,
        ;
    }
    if fa == fb {
        if fa > 0 {
            let w = pow2((fa - 1) as nat);
            lemma_pow2_pos((fa - 1) as nat);
            assert((h + ra) * w < (h + rb) * w) by (nonlinear_arith)
                requires
                    ra < rb,
                    w > 0,
            ;
        }
    } else {
        let w = pow2((fb - 1) as nat);
        lemma_pow2_pos((fb - 1) as nat);
        assert((h + rb) * w >= h * w) by (nonlinear_arith)
            requires
                rb >= 0,
                w > 0,
        ;
        if fa == 0 {
            assert(h * w >= h) by (nonlinear_arith)
                requires
                    w >= 1,
                    h > 0,
            ;
        } else {
            let v = pow2((fa - 1) as nat);
            lemma_pow2_unfold(fa);
            lemma_pow2_pos((fa - 1) as nat);
            lemma_pow2_monotone(fa, (fb - 1) as nat);
            assert((h + ra) * v < h * w) by (nonlinear_arith)
                requires
                    ra < h,
                    2 * v <= w,
                    v > 0,
                    h > 0,
            ;
        }
    }
}

impl Format {
    /// Whether the format has this number.
    pub open spec fn has(self, n: Num) -> bool {
        match n {
            Num::Fin { neg: _, mag } => self.holds(mag),
            _ => true,
        }
    }
}

/// Encoding a number of the format and reading it back changes nothing.
pub proof fn lemma_decode_encode(f: Format, n: Num)
    requires
        f.sound(),
        f.has(n),
    ensures
        f.decode(f.encode(n)) == n,
        f.encode(n) < 2 * f.sign_bit(),
{
    let h = f.hidden();
    lemma_pow2_unfold(f.p);
    lemma_pow2_pos((f.p - 1) as nat);
    lemma_pow2_pos((f.p - 2) as nat);
    lemma_pow2_unfold((f.p - 1) as nat);
    assert((f.top + 2) * h == (f.top + 1) * h + h) by (nonlinear_arith);
    match n {
        Num::Fin { neg, mag } => {
            lemma_decode_mag(f, mag);
        },
        _ => {},
    }
}

/// Every pattern that is not a NaN is the encoding of what it stands for, and a
/// pattern always stands for a number of the format.
pub proof fn lemma_encode_decode(f: Format, bits: nat)
    requires
        f.sound(),
        bits < 2 * f.sign_bit(),
    ensures
        f.has(f.decode(bits)),
        f.decode(bits) !is Nan ==> f.encode(f.decode(bits)) == bits,
{
    let rest = if bits >= f.sign_bit() {
        (bits - f.sign_bit()) as nat
    } else {
        bits
    };
    if rest < f.inf_bits() {
        lemma_encode_mag(f, rest);
    }
}

/// What rounding gives is a number of the format.
pub proof fn lemma_rounded_has(f: Format, neg: bool, num: nat, den: nat)
    requires
        f.sound(),
        den > 0,
    ensures
        f.has(f.rounded(neg, num, den)),
{
    lemma2_to64();
    let g = num / den;
    assert(num * pow2(0) == num && den * pow2(0) == den);
    if num % den == 0 {
        assert(stands_for(g, 0, 0, false, num, den));
        lemma_round_kept(f, g, 0, 0, false, num, den);
        lemma_kept_bounds(f, g, 0, false);
        lemma_mag_bits(f, f.place_of(g, 0), kept(g, 0, false, f.place_of(g, 0)));
    } else {
        if num == 0 {
            lemma_fundamental_div_mod_converse(0, den as int, 0, 0);
        }
        lemma_fine_enough(f, num, den);
    }
}

/// A fraction that is not whole, expanded until it has digits to spare.
proof fn lemma_fine_enough(f: Format, num: nat, den: nat)
    requires
        f.sound(),
        den > 0,
        num > 0,
    ensures
        f.has(f.rounded(true, num, den)),
        f.has(f.rounded(false, num, den)),
{
    lemma2_to64();
    lemma_bitlen_bounds(den);
    let d = f.p + 2 + bitlen(den);
    let a = num * pow2(d);
    let g = a / den;
    lemma_pow2_pos(d);
    lemma_fundamental_div_mod(a as int, den as int);
    lemma_mod_bound(a as int, den as int);
    lemma_pow2_adds(f.p + 2, bitlen(den));
    lemma_pow2_unfold(f.p + 2);
    lemma_pow2_unfold(f.p + 1);
    lemma_pow2_pos(f.p);
    let w = pow2(f.p + 2);
    assert(a >= w * den) by (nonlinear_arith)
        requires
            a == num * pow2(d),
            num >= 1,
            pow2(d) == w * pow2(bitlen(den)),
            pow2(bitlen(den)) >= den,
            w > 0,
            pow2(d) > 0,
    ;
    assert(g >= w) by (nonlinear_arith)
        requires
            a >= w * den,
            a == den * g + a % den,
            a % den < den,
            den > 0,
    ;
    lemma_bitlen_bounds(g);
    if bitlen(g) <= f.p {
        lemma_pow2_monotone(bitlen(g), f.p + 2);
    }
    assert(den * pow2(0) == den);
    let more = a % den != 0;
    assert(stands_for(g, 0, d, more, num, den));
    lemma_round_kept(f, g, 0, d, more, num, den);
    let e = 0 - d;
    lemma_kept_bounds(f, g, e, more);
    lemma_mag_bits(f, f.place_of(g, e), kept(g, e, more, f.place_of(g, e)));
}

/// A fraction not above a whole number does not round above it.
proof fn lemma_half_even_le(n: nat, d: nat, c: nat)
    requires
        d > 0,
        n <= c * d,
    ensures
        half_even(n, d) <= c,
{
    let q = n / d;
    let r = n % d;
    lemma_fundamental_div_mod(n as int, d as int);
    lemma_mod_bound(n as int, d as int);
    if q > c {
        assert(false) by (nonlinear_arith)
            requires
                n == d * q + r,
                r >= 0,
                n <= c * d,
                q >= c + 1,
                d > 0,
        ;
    } else if q == c {
        assert(r == 0) by (nonlinear_arith)
            requires
                n == d * q + r,
                n <= c * d,
                q == c,
                r >= 0,
        ;
    }
}

/// Fewer units need no more digits.
proof fn lemma_bitlen_monotone(a: nat, b: nat)
    requires
        a <= b,
    ensures
        bitlen(a) <= bitlen(b),
{
    lemma_bitlen_bounds(b);
    lemma_bitlen_below(a, bitlen(b));
}

/// Rounding does not carry a fraction past a magnitude that the format holds.
pub proof fn lemma_round_le(f: Format, num: nat, den: nat, m: nat)
    requires
        f.sound(),
        den > 0,
        num <= m * den,
        f.holds(m),
    ensures
        f.round(num, den) <= m,
{
    let w = num / den;
    lemma_fundamental_div_mod(num as int, den as int);
    lemma_mod_bound(num as int, den as int);
    assert(w <= m) by (nonlinear_arith)
        requires
            num == den * w + num % den,
            num % den >= 0,
            num <= m * den,
            den > 0,
    ;
    lemma_bitlen_monotone(w, m);
    let k = f.place(bitlen(w));
    let km = f.place(bitlen(m));
    lemma_pow2_pos(k);
    lemma_pow2_pos(km);
    let i = (km - k) as nat;
    lemma_pow2_adds(k, i);
    let mm = m / pow2(km);
    lemma_fundamental_div_mod(m as int, pow2(km) as int);
    let c = mm * pow2(i);
    assert(m == c * pow2(k)) by (nonlinear_arith)
        requires
            m == pow2(km) * mm,
            pow2(km) == pow2(k) * pow2(i),
            c == mm * pow2(i),
    ;
    assert(den * pow2(k) > 0 && num <= c * (den * pow2(k))) by (nonlinear_arith)
        requires
            num <= m * den,
            m == c * pow2(k),
            den > 0,
            pow2(k) > 0,
    ;
    lemma_half_even_le(num, den * pow2(k), c);
    let h = half_even(num, den * pow2(k));
    assert(h * pow2(k) <= m) by (nonlinear_arith)
        requires
            h <= c,
            m == c * pow2(k),
            pow2(k) > 0,
    ;
}

/// Rounding does not pass a number of the format from above either.
pub proof fn lemma_round_ge(f: Format, num: nat, den: nat, m: nat)
    requires
        f.sound(),
        den > 0,
        m * den <= num,
        f.holds(m),
    ensures
        f.round(num, den) >= m,
{
    let w = num / den;
    lemma_fundamental_div_mod(num as int, den as int);
    lemma_mod_bound(num as int, den as int);
    assert(m <= w) by (nonlinear_arith)
        requires
            num == den * w + num % den,
            num % den < den,
            m * den <= num,
            den > 0,
    ;
    lemma_bitlen_monotone(m, w);
    let k = f.place(bitlen(w));
    lemma_pow2_pos(k);
    let d = den * pow2(k);
    assert(d > 0) by (nonlinear_arith)
        requires
            d == den * pow2(k),
            den > 0,
            pow2(k) > 0,
    ;
    let q = num / d;
    lemma_fundamental_div_mod(num as int, d as int);
    lemma_mod_bound(num as int, d as int);
    let h = half_even(num, d);
    assert(h >= q);
    if k == 0 || bitlen(w) == bitlen(m) {
        lemma2_to64();
        let c = m / pow2(k);
        lemma_fundamental_div_mod(m as int, pow2(k) as int);
        assert(m % pow2(k) == 0);
        assert(q >= c) by (nonlinear_arith)
            requires
                num == d * q + num % d,
                num % d < d,
                m * den <= num,
                m == pow2(k) * c,
                d == den * pow2(k),
                d > 0,
        ;
        assert(h * pow2(k) >= m) by (nonlinear_arith)
            requires
                h >= q,
                q >= c,
                m == pow2(k) * c,
                pow2(k) > 0,
        ;
    } else {
        let b = bitlen(w);
        lemma_bitlen_bounds(w);
        lemma_bitlen_bounds(m);
        lemma_pow2_monotone(bitlen(m), (b - 1) as nat);
        lemma_pow2_adds((f.p - 1) as nat, k);
        let top = pow2((f.p - 1) as nat);
        assert((f.p - 1) as nat + k == (b - 1) as nat);
        assert(top * pow2(k) <= w);
        assert(num >= den * w);
        assert(q >= top) by (nonlinear_arith)
            requires
                num == d * q + num % d,
                num % d < d,
                num >= den * w,
                top * pow2(k) <= w,
                d == den * pow2(k),
                d > 0,
                den > 0,
        ;
        assert(h * pow2(k) >= top * pow2(k)) by (nonlinear_arith)
            requires
                h >= q,
                q >= top,
                pow2(k) > 0,
        ;
    }
}

/// What rounding to a whole multiple of `d` takes or adds is at most half of it.
pub proof fn lemma_half_even_near(n: nat, d: nat)
    requires
        d > 0,
    ensures
        n <= half_even(n, d) * d + d / 2,
        half_even(n, d) * d <= n + d / 2,
{
    let q = n / d;
    let r = n % d;
    lemma_fundamental_div_mod(n as int, d as int);
    lemma_mod_bound(n as int, d as int);
    assert(d * q == q * d) by (nonlinear_arith);
    assert((q + 1) * d == q * d + d) by (nonlinear_arith);
}

/// A larger number does not round to a smaller multiple.
proof fn lemma_half_even_monotone(a: nat, b: nat, d: nat)
    requires
        d > 0,
        a <= b,
    ensures
        half_even(a, d) <= half_even(b, d),
{
    let (qa, ra) = (a / d, a % d);
    let (qb, rb) = (b / d, b % d);
    lemma_fundamental_div_mod(a as int, d as int);
    lemma_mod_bound(a as int, d as int);
    lemma_fundamental_div_mod(b as int, d as int);
    lemma_mod_bound(b as int, d as int);
    if qa > qb {
        assert(d * qa >= d * qb + d) by (nonlinear_arith)
            requires
                qa >= qb + 1,
                d > 0,
        ;
    }
}

/// A whole number of units rounds to between the powers of two around it, and no further
/// away than half of its last place.
pub proof fn lemma_round_near(f: Format, n: nat)
    requires
        f.sound(),
        n > 0,
    ensures
        pow2((bitlen(n) - 1) as nat) <= f.round(n, 1) <= pow2(bitlen(n)),
        n <= f.round(n, 1) + pow2(f.place(bitlen(n))) / 2,
        f.round(n, 1) <= n + pow2(f.place(bitlen(n))) / 2,
{
    let b = bitlen(n);
    let k = f.place(b);
    let w = pow2(k);
    lemma_bitlen_bounds(n);
    lemma_pow2_pos(k);
    lemma2_to64();
    assert(n / 1 == n);
    assert(1 * w == w);
    lemma_half_even_near(n, w);
    if k == 0 {
        assert(half_even(n, 1) * 1 == n);
    } else {
        let q = n / w;
        let low = pow2((f.p - 1) as nat);
        lemma_fundamental_div_mod(n as int, w as int);
        lemma_mod_bound(n as int, w as int);
        lemma_pow2_adds((f.p - 1) as nat, k);
        lemma_pow2_adds(f.p, k);
        assert(q >= low) by (nonlinear_arith)
            requires
                n == w * q + n % w,
                n % w < w,
                n >= low * w,
                w > 0,
        ;
        assert(q < pow2(f.p)) by (nonlinear_arith)
            requires
                n == w * q + n % w,
                n % w >= 0,
                n < pow2(f.p) * w,
                w > 0,
        ;
        let h = half_even(n, w);
        assert(low * w <= h * w <= pow2(f.p) * w) by (nonlinear_arith)
            requires
                low <= h <= pow2(f.p),
        ;
    }
}

/// A larger number does not round to a smaller one.
pub proof fn lemma_round_monotone(f: Format, a: nat, b: nat)
    requires
        f.sound(),
        0 < a <= b,
    ensures
        f.round(a, 1) <= f.round(b, 1),
{
    lemma_bitlen_monotone(a, b);
    lemma_bitlen_bounds(a);
    lemma2_to64();
    assert(a / 1 == a && b / 1 == b);
    if bitlen(a) == bitlen(b) {
        let w = pow2(f.place(bitlen(a)));
        lemma_pow2_pos(f.place(bitlen(a)));
        assert(1 * w == w);
        lemma_half_even_monotone(a, b, w);
        assert(half_even(a, w) * w <= half_even(b, w) * w) by (nonlinear_arith)
            requires
                half_even(a, w) <= half_even(b, w),
        ;
    } else {
        lemma_round_near(f, a);
        lemma_round_near(f, b);
        lemma_pow2_monotone(bitlen(a), (bitlen(b) - 1) as nat);
    }
}

} // verus!
