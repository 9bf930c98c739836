//! The binary interchange formats of IEEE 754: how a bit pattern denotes a
//! value, and which bit pattern is nearest to an exact rational magnitude.
//!
//! Every finite value of a format is a whole multiple of its least subnormal,
//! the format's *unit*. Magnitudes are therefore stated as integers counting
//! units, and exact results of arithmetic as ratios `n / d` of such integers.

use vstd::prelude::*;
use vstd::arithmetic::power2::{pow2, lemma_pow2_pos, lemma2_to64, lemma2_to64_rest};
use crate::numeric::rounding::{
    excess, nearest_even, nearest_even_sticky, lemma_excess_scale, lemma_excess_unique,
    lemma_mul3, lemma_mul_le, lemma_mul_lt, lemma_nearest_even_exact, lemma_nearest_even_scale,
    lemma_nearest_even_sticky, lemma_pow2_le, lemma_pow2_sum,
};

verus! {

/// A binary floating-point format: the widths of its fraction and exponent fields.
#[derive(Clone, Copy, PartialEq, Eq, Structural, Debug)]
pub struct Format {
    pub frac_bits: u32,
    pub exp_bits: u32,
}

impl Format {
    /// The single-precision format.
    pub open spec fn single() -> Format {
        Format { frac_bits: 23, exp_bits: 8 }
    }

    /// The double-precision format.
    pub open spec fn double() -> Format {
        Format { frac_bits: 52, exp_bits: 11 }
    }

    /// The formats this library computes in.
    pub open spec fn wf(self) -> bool {
        self == Format::single() || self == Format::double()
    }

    /// The number of significand bits, the implicit leading bit included.
    pub open spec fn width(self) -> nat {
        self.frac_bits as nat + 1
    }

    /// The least normal significand, `2^frac_bits`.
    pub open spec fn hidden(self) -> int {
        pow2(self.frac_bits as nat) as int
    }

    /// The magnitude bits of infinity: exponent field all ones, fraction zero.
    pub open spec fn inf(self) -> int {
        (pow2(self.exp_bits as nat) - 1) * pow2(self.frac_bits as nat)
    }

    /// The sign bit.
    pub open spec fn sign_bit(self) -> int {
        pow2((self.frac_bits + self.exp_bits) as nat) as int
    }

    /// The magnitude bits of the quiet not-a-number this library produces.
    pub open spec fn quiet_nan(self) -> int {
        self.inf() + pow2((self.frac_bits - 1) as nat)
    }

    /// The value one is `2^one_exp` units.
    pub open spec fn one_exp(self) -> nat {
        (pow2((self.exp_bits - 1) as nat) + self.frac_bits - 2) as nat
    }

    /// The magnitude bits of a bit pattern: all but the sign bit.
    pub open spec fn magnitude(self, bits: int) -> int {
        bits % self.sign_bit()
    }

    /// Whether the sign bit of a bit pattern is set.
    pub open spec fn negative(self, bits: int) -> bool {
        bits >= self.sign_bit()
    }

    /// The bit pattern with the given sign and magnitude bits.
    pub open spec fn pack(self, negative: bool, magnitude: int) -> int {
        if negative {
            self.sign_bit() + magnitude
        } else {
            magnitude
        }
    }

    /// Not a number: the exponent field all ones, the fraction not zero.
    pub open spec fn is_nan(self, bits: int) -> bool {
        self.magnitude(bits) > self.inf()
    }

    /// Infinite, of either sign.
    pub open spec fn is_infinite(self, bits: int) -> bool {
        self.magnitude(bits) == self.inf()
    }

    /// Zero, subnormal or normal.
    pub open spec fn is_finite(self, bits: int) -> bool {
        self.magnitude(bits) < self.inf()
    }

    /// Zero, of either sign.
    pub open spec fn is_zero(self, bits: int) -> bool {
        self.magnitude(bits) == 0
    }

    /// How many units the finite magnitude bits `mag` denote: the fraction
    /// alone while the exponent field is zero, else the significand with its
    /// leading bit, doubled once for each exponent step above one.
    pub open spec fn units(self, mag: int) -> int {
        let e = mag / self.hidden();
        let f = mag % self.hidden();
        if e == 0 {
            f
        } else {
            (self.hidden() + f) * pow2((e - 1) as nat)
        }
    }

    /// The value of a finite bit pattern in units, with its sign.
    pub open spec fn value(self, bits: int) -> int {
        if self.negative(bits) {
            -self.units(self.magnitude(bits))
        } else {
            self.units(self.magnitude(bits))
        }
    }

    /// The magnitude bits of the value nearest to `n / d` units, ties to the
    /// even significand, and infinity once the rounded value is out of range.
    ///
    /// With `s` the number of places by which `n / d` exceeds the significand,
    /// the value is rounded to a whole multiple of `2^s` units. Magnitude bits
    /// grow by one with each representable value, so the result is the rounded
    /// significand added to `s` steps of the exponent field.
    ///
    /// That this is the nearest value, the even one of two, and infinity from
    /// half a last place beyond the greatest finite value on, is proved in
    /// `nearest`.
    pub open spec fn round_magnitude(self, n: int, d: int) -> int {
        let s = excess(self.width(), n, d);
        let m = s * self.hidden() + nearest_even(n, d * pow2(s));
        if m >= self.inf() {
            self.inf()
        } else {
            m
        }
    }

    /// The magnitude bits nearest to `(n / d) * 2^e` units.
    pub open spec fn round_scaled(self, n: int, d: int, e: int) -> int {
        if e >= 0 {
            self.round_magnitude(n * pow2(e as nat), d)
        } else {
            self.round_magnitude(n, d * pow2((-e) as nat))
        }
    }

    /// What rounding `(q + t) * 2^e` units gives, for a `q` of `len` bits and
    /// a `t` in `[0, 1)` that is nonzero exactly if `sticky`.
    pub open spec fn assemble(self, q: int, sticky: bool, len: int, e: int) -> int {
        let s: int = if len + e - self.width() > 0 {
            len + e - self.width()
        } else {
            0
        };
        let j = s - e;
        let sig = if j >= 1 {
            nearest_even_sticky(q, sticky, j as nat)
        } else {
            q * pow2((-j) as nat)
        };
        let m = s * self.hidden() + sig;
        if m >= self.inf() {
            self.inf()
        } else {
            m
        }
    }
}

/// The constants of the two formats.
pub proof fn lemma_format_constants()
    ensures
        Format::single().hidden() == 0x80_0000,
        Format::single().inf() == 0x7f80_0000,
        Format::single().sign_bit() == 0x8000_0000,
        Format::single().quiet_nan() == 0x7fc0_0000,
        Format::single().one_exp() == 149,
        Format::single().width() == 24,
        Format::double().hidden() == 0x10_0000_0000_0000,
        Format::double().inf() == 0x7ff0_0000_0000_0000,
        Format::double().sign_bit() == 0x8000_0000_0000_0000,
        Format::double().quiet_nan() == 0x7ff8_0000_0000_0000,
        Format::double().one_exp() == 1074,
        Format::double().width() == 53,
{
    lemma2_to64();
    lemma2_to64_rest();
}

/// Rounding depends on the ratio only: a common factor changes nothing.
pub proof fn lemma_round_scale(fmt: Format, n: int, d: int, c: int)
    requires
        n >= 0,
        d > 0,
        c > 0,
    ensures
        fmt.round_magnitude(n * c, d * c) == fmt.round_magnitude(n, d),
{
    let s = excess(fmt.width(), n, d);
    lemma_excess_scale(fmt.width(), n, d, c);
    lemma_pow2_pos(s);
    let p = pow2(s) as int;
    lemma_mul3(d, c, p);
    lemma_mul_lt(0, d, p);
    lemma_nearest_even_scale(n, d * p, c);
}

/// Two ratios of equal value round alike.
pub proof fn lemma_round_ratio(fmt: Format, n1: int, d1: int, n2: int, d2: int)
    requires
        n1 >= 0,
        n2 >= 0,
        d1 > 0,
        d2 > 0,
        n1 * d2 == n2 * d1,
    ensures
        fmt.round_magnitude(n1, d1) == fmt.round_magnitude(n2, d2),
{
    lemma_round_scale(fmt, n1, d1, d2);
    lemma_round_scale(fmt, n2, d2, d1);
    lemma_mul3(d1, d2, 1);
}

/// Zero rounds to zero.
pub proof fn lemma_round_of_zero(fmt: Format, d: int)
    requires
        fmt.wf(),
        d > 0,
    ensures
        fmt.round_magnitude(0, d) == 0,
{
    lemma_format_constants();
    assert(excess(fmt.width(), 0, d) == 0);
    lemma2_to64();
    assert(d * pow2(0) == d);
    lemma_nearest_even_exact(0, d);
    assert(0 * d == 0);
    assert(0 * fmt.hidden() == 0);
}

/// Zero rounds to zero at every scale.
pub proof fn lemma_round_zero(fmt: Format, d: int, e: int)
    requires
        fmt.wf(),
        d > 0,
    ensures
        fmt.round_scaled(0, d, e) == 0,
{
    if e >= 0 {
        assert(0 * pow2(e as nat) == 0);
        lemma_round_of_zero(fmt, d);
    } else {
        lemma_pow2_pos((-e) as nat);
        lemma_mul_lt(0, d, pow2((-e) as nat) as int);
        lemma_round_of_zero(fmt, d * pow2((-e) as nat));
    }
}

/// Rounding from a floor: if `q` is the whole part of `n / d`, has `len` bits,
/// and `sticky` tells whether a fraction was dropped, then `(n / d) * 2^e`
/// rounds to what `assemble` computes from `q`, `sticky`, `len` and `e` alone.
/// A dropped fraction needs two bits of `q` beyond the significand.
pub proof fn lemma_round_from_floor(
    fmt: Format,
    n: int,
    d: int,
    q: int,
    sticky: bool,
    len: nat,
    e: int,
)
    requires
        n >= 0,
        d > 0,
        len >= 1,
        pow2((len - 1) as nat) <= q < pow2(len),
        q * d <= n < (q + 1) * d,
        sticky <==> n != q * d,
        sticky ==> len >= fmt.width() + 2,
    ensures
        fmt.round_scaled(n, d, e) == fmt.assemble(q, sticky, len as int, e),
{
    let w = fmt.width();
    let s: nat = if len + e - w > 0 {
        (len + e - w) as nat
    } else {
        0
    };
    let j = s - e;
    let top = pow2(len) as int;
    let low = pow2((len - 1) as nat) as int;
    lemma_pow2_pos(len);
    lemma_pow2_pos((len - 1) as nat);
    lemma_pow2_pos(s);
    let ps = pow2(s) as int;
    // n lies in [low * d, top * d)
    lemma_mul_le(q + 1, top, d);
    lemma_mul_le(low, q, d);
    assert(low * d <= n < top * d);
    if e >= 0 {
        let pe = pow2(e as nat) as int;
        lemma_pow2_pos(e as nat);
        let n1 = n * pe;
        lemma_mul_le(0, n, pe);
        // the excess of n1 / d is s
        lemma_pow2_sum(len, e as nat);
        lemma_pow2_le(len + e as nat, w + s);
        lemma_mul_lt(n, top * d, pe);
        assert((top * d) * pe == pow2(len + e as nat) * d) by (nonlinear_arith)
            requires
                pow2(len + e as nat) == top * pe,
        ;
        lemma_mul_le(pow2(len + e as nat) as int, pow2(w + s) as int, d);
        assert(n1 < pow2(w + s) * d);
        if s > 0 {
            assert(w + s - 1 == (len - 1) + e);
            lemma_pow2_sum((len - 1) as nat, e as nat);
            lemma_mul_le(low * d, n, pe);
            assert((low * d) * pe == pow2((w + s - 1) as nat) * d) by (nonlinear_arith)
                requires
                    pow2((w + s - 1) as nat) == low * pe,
            ;
        }
        lemma_excess_unique(w, n1, d, s);
        if j >= 1 {
            lemma_pow2_sum(j as nat, e as nat);
            let pj = pow2(j as nat) as int;
            assert(d * ps == (d * pj) * pe) by (nonlinear_arith)
                requires
                    ps == pj * pe,
            ;
            lemma_mul_lt(0, d, pj);
            lemma_nearest_even_scale(n, d * pj, pe);
            lemma_nearest_even_sticky(n, d, q, sticky, j as nat);
        } else {
            assert(!sticky);
            lemma_pow2_sum((-j) as nat, s);
            let pm = pow2((-j) as nat) as int;
            assert(n1 == (q * pm) * (d * ps)) by (nonlinear_arith)
                requires
                    n1 == n * pe,
                    n == q * d,
                    pe == pm * ps,
            ;
            lemma_mul_lt(0, d, ps);
            lemma_mul_le(0, q, pm);
            lemma_nearest_even_exact(q * pm, d * ps);
        }
    } else {
        let pe = pow2((-e) as nat) as int;
        lemma_pow2_pos((-e) as nat);
        let d1 = d * pe;
        lemma_mul_lt(0, d, pe);
        lemma_pow2_sum(w + s, (-e) as nat);
        lemma_pow2_le(len, (w + s - e) as nat);
        lemma_mul_le(top, pow2((w + s - e) as nat) as int, d);
        assert(pow2((w + s - e) as nat) * d == pow2(w + s) * d1) by (nonlinear_arith)
            requires
                pow2((w + s - e) as nat) == pow2(w + s) * pe,
                d1 == d * pe,
        ;
        assert(n < pow2(w + s) * d1);
        if s > 0 {
            assert(w + s - 1 - e == len - 1);
            lemma_pow2_sum((w + s - 1) as nat, (-e) as nat);
            assert(pow2((w + s - 1) as nat) * d1 == low * d) by (nonlinear_arith)
                requires
                    low == pow2((w + s - 1) as nat) * pe,
                    d1 == d * pe,
            ;
        }
        lemma_excess_unique(w, n, d1, s);
        lemma_pow2_sum((-e) as nat, s);
        let pj = pow2(j as nat) as int;
        assert(d1 * ps == d * pj) by (nonlinear_arith)
            requires
                pj == pe * ps,
                d1 == d * pe,
        ;
        lemma_nearest_even_sticky(n, d, q, sticky, j as nat);
    }
}

/// Rounding `(n / d) * 2^(a - b)` is rounding `(n * 2^a) / (d * 2^b)`.
pub proof fn lemma_round_scaled_split(fmt: Format, n: int, d: int, a: nat, b: nat)
    requires
        n >= 0,
        d > 0,
    ensures
        fmt.round_scaled(n, d, a - b) == fmt.round_magnitude(n * pow2(a), d * pow2(b)),
{
    let e = a - b;
    lemma_pow2_pos(a);
    lemma_pow2_pos(b);
    if e >= 0 {
        lemma_pow2_sum(e as nat, b);
        let pe = pow2(e as nat) as int;
        let pb = pow2(b) as int;
        lemma_mul_le(0, n, pe);
        lemma_round_scale(fmt, n * pe, d, pb);
        lemma_mul3(n, pe, pb);
    } else {
        lemma_pow2_sum((-e) as nat, a);
        let pe = pow2((-e) as nat) as int;
        let pa = pow2(a) as int;
        lemma_mul_lt(0, d, pe);
        lemma_round_scale(fmt, n, d * pe, pa);
        lemma_mul3(d, pe, pa);
    }
}

} // verus!
