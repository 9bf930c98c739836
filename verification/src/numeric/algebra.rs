//! Facts about the encoding and about operations whose result is exact.

use vstd::prelude::*;
use vstd::arithmetic::power2::{pow2, lemma_pow2_pos, lemma2_to64, lemma2_to64_rest};
use vstd::arithmetic::div_mod::lemma_div_pos_is_pos;
use crate::numeric::arith::narrowed;
use crate::numeric::format::{
    Format, lemma_format_constants, lemma_round_of_zero, lemma_round_ratio, lemma_round_scale,
};
use crate::numeric::rounding::{
    excess, lemma_excess_unique, lemma_mul_le, lemma_mul_lt,
    lemma_nearest_even_exact, lemma_pow2_double, lemma_pow2_le, lemma_pow2_sum,
};

verus! {

/// Sign and magnitude of a packed pattern are what was packed.
pub proof fn lemma_pack_fields(fmt: Format, negative: bool, mag: int)
    requires
        fmt.wf(),
        0 <= mag < fmt.sign_bit(),
    ensures
        fmt.valid(fmt.pack(negative, mag)),
        fmt.negative(fmt.pack(negative, mag)) == negative,
        fmt.magnitude(fmt.pack(negative, mag)) == mag,
{
    lemma_format_constants();
    let r = fmt.pack(negative, mag);
    if fmt == Format::single() {
        assert(r % 0x8000_0000 == mag);
    } else {
        assert(r % 0x8000_0000_0000_0000 == mag);
    }
}

/// A pattern is its sign and magnitude packed.
pub proof fn lemma_repack(fmt: Format, bits: int)
    requires
        fmt.wf(),
        fmt.valid(bits),
    ensures
        fmt.pack(fmt.negative(bits), fmt.magnitude(bits)) == bits,
        0 <= fmt.magnitude(bits) < fmt.sign_bit(),
{
    lemma_format_constants();
    if fmt == Format::single() {
        assert(bits % 0x8000_0000 == if bits >= 0x8000_0000 {
            bits - 0x8000_0000
        } else {
            bits
        });
    } else {
        assert(bits % 0x8000_0000_0000_0000 == if bits >= 0x8000_0000_0000_0000 {
            bits - 0x8000_0000_0000_0000
        } else {
            bits
        });
    }
}

/// The exponent field and fraction of finite magnitude bits.
pub proof fn lemma_fields(fmt: Format, mag: int)
    requires
        fmt.wf(),
        0 <= mag < fmt.inf(),
    ensures
        mag == (mag / fmt.hidden()) * fmt.hidden() + mag % fmt.hidden(),
        0 <= mag % fmt.hidden() < fmt.hidden(),
        0 <= mag / fmt.hidden() < pow2(fmt.exp_bits as nat) - 1,
{
    lemma_format_constants();
    lemma2_to64();
    if fmt == Format::single() {
        assert(mag == (mag / 0x80_0000) * 0x80_0000 + mag % 0x80_0000);
        assert(mag / 0x80_0000 < 255);
    } else {
        assert(mag == (mag / 0x10_0000_0000_0000) * 0x10_0000_0000_0000 + mag
            % 0x10_0000_0000_0000);
        assert(mag / 0x10_0000_0000_0000 < 2047);
    }
}

/// Only zero magnitude bits denote zero.
pub proof fn lemma_units_sign(fmt: Format, mag: int)
    requires
        fmt.wf(),
        0 <= mag < fmt.inf(),
    ensures
        fmt.units(mag) >= 0,
        (fmt.units(mag) == 0) == (mag == 0),
{
    lemma_fields(fmt, mag);
    lemma_format_constants();
    let e = mag / fmt.hidden();
    let f = mag % fmt.hidden();
    if e != 0 {
        lemma_pow2_pos((e - 1) as nat);
        lemma_mul_lt(0, fmt.hidden() + f, pow2((e - 1) as nat) as int);
    }
}

/// A representable magnitude rounds to its own bits.
pub proof fn lemma_round_exact(fmt: Format, mag: int)
    requires
        fmt.wf(),
        0 <= mag < fmt.inf(),
    ensures
        fmt.round_magnitude(fmt.units(mag), 1) == mag,
{
    lemma_fields(fmt, mag);
    lemma_format_constants();
    let h = fmt.hidden();
    let w = fmt.width();
    let e = mag / h;
    let f = mag % h;
    lemma_pow2_double(fmt.frac_bits as nat);
    assert(pow2(w) == 2 * h);
    if e == 0 {
        assert(f < pow2(w) * 1);
        assert(excess(w, f, 1) == 0);
        lemma_pow2_pos(0);
        lemma2_to64();
        assert(1 * pow2(0) == 1);
        lemma_nearest_even_exact(f, 1);
        assert(f * 1 == f);
        assert(0 * h == 0);
    } else {
        let s = (e - 1) as nat;
        let ps = pow2(s) as int;
        lemma_pow2_pos(s);
        let n = (h + f) * ps;
        lemma_pow2_sum(w, s);
        lemma_mul_lt(h + f, pow2(w) as int, ps);
        assert(n < pow2(w + s) * 1);
        if s > 0 {
            lemma_pow2_sum(fmt.frac_bits as nat, s);
            assert((w + s - 1) as nat == fmt.frac_bits as nat + s);
            lemma_mul_le(h, h + f, ps);
            assert(pow2((w + s - 1) as nat) * 1 <= n);
        }
        lemma_mul_le(0, h + f, ps);
        lemma_excess_unique(w, n, 1, s);
        assert(1 * ps == ps);
        lemma_nearest_even_exact(h + f, ps);
        assert(s * h + (h + f) == e * h + f) by (nonlinear_arith)
            requires
                s == e - 1,
        ;
    }
}

/// An exact result that the format can hold is returned as it is: if
/// `n / d` is the value of the finite magnitude bits `mag`, it rounds to `mag`.
pub proof fn lemma_round_representable(fmt: Format, n: int, d: int, mag: int)
    requires
        fmt.wf(),
        n >= 0,
        d > 0,
        0 <= mag < fmt.inf(),
        fmt.units(mag) * d == n,
    ensures
        fmt.round_magnitude(n, d) == mag,
{
    lemma_units_sign(fmt, mag);
    assert(n * 1 == fmt.units(mag) * d);
    lemma_round_ratio(fmt, n, d, fmt.units(mag), 1);
    lemma_round_exact(fmt, mag);
}

/// Larger magnitude bits denote a larger magnitude.
pub proof fn lemma_units_monotone(fmt: Format, m1: int, m2: int)
    requires
        fmt.wf(),
        0 <= m1 < m2 < fmt.inf(),
    ensures
        fmt.units(m1) < fmt.units(m2),
{
    lemma_fields(fmt, m1);
    lemma_fields(fmt, m2);
    lemma_format_constants();
    let h = fmt.hidden();
    let e1 = m1 / h;
    let f1 = m1 % h;
    let e2 = m2 / h;
    let f2 = m2 % h;
    assert(e1 <= e2) by (nonlinear_arith)
        requires
            m1 == e1 * h + f1,
            m2 == e2 * h + f2,
            m1 < m2,
            0 <= f1 < h,
            0 <= f2 < h,
    ;
    if e1 == e2 {
        assert(f1 < f2);
        if e1 != 0 {
            lemma_pow2_pos((e1 - 1) as nat);
            lemma_mul_lt(h + f1, h + f2, pow2((e1 - 1) as nat) as int);
        }
    } else {
        // the smaller value lies below h * 2^(e2 - 1), the larger at or above it
        let hi = pow2((e2 - 1) as nat) as int;
        lemma_pow2_pos((e2 - 1) as nat);
        lemma_mul_le(h, h + f2, hi);
        if e1 == 0 {
            lemma_mul_le(1, hi, h);
        } else {
            let lo = pow2((e1 - 1) as nat) as int;
            lemma_pow2_pos((e1 - 1) as nat);
            lemma_mul_lt(h + f1, 2 * h, lo);
            lemma_pow2_double((e1 - 1) as nat);
            lemma_pow2_le(e1 as nat, (e2 - 1) as nat);
            lemma_mul_le(pow2(e1 as nat) as int, hi, h);
            assert((2 * h) * lo == pow2(e1 as nat) * h) by (nonlinear_arith)
                requires
                    pow2(e1 as nat) == 2 * lo,
            ;
        }
    }
}

/// What is not zero does not round to zero.
pub proof fn lemma_round_nonzero(fmt: Format, n: int)
    requires
        fmt.wf(),
        n >= 1,
    ensures
        fmt.round_magnitude(n, 1) >= 1,
{
    lemma_format_constants();
    let s = excess(fmt.width(), n, 1);
    let ps = pow2(s) as int;
    lemma_pow2_pos(s);
    assert(1 * ps == ps);
    lemma_div_pos_is_pos(n, ps);
    if s == 0 {
        lemma2_to64();
        lemma_nearest_even_exact(n, 1);
        assert(n * 1 == n);
        assert(0 * fmt.hidden() == 0);
    } else {
        lemma_mul_le(1, s as int, fmt.hidden());
    }
}

/// Rounding is never negative and never beyond infinity.
pub proof fn lemma_round_range(fmt: Format, n: int, d: int)
    requires
        fmt.wf(),
        n >= 0,
        d > 0,
    ensures
        0 <= fmt.round_magnitude(n, d) <= fmt.inf(),
        fmt.round_magnitude(n, d) < fmt.sign_bit(),
{
    lemma_format_constants();
    let s = excess(fmt.width(), n, d);
    let ps = pow2(s) as int;
    lemma_pow2_pos(s);
    lemma_mul_lt(0, d, ps);
    lemma_div_pos_is_pos(n, d * ps);
    lemma_mul_le(0, s as int, fmt.hidden());
}

/// One is `2^one_exp` units, and is finite and positive.
pub proof fn lemma_units_one(fmt: Format)
    requires
        fmt.wf(),
    ensures
        fmt.units(fmt.one()) == pow2(fmt.one_exp()),
        0 < fmt.one() < fmt.inf(),
        fmt.valid(fmt.one()),
        fmt.magnitude(fmt.one()) == fmt.one(),
        !fmt.negative(fmt.one()),
        Format::single().one() == 0x3f80_0000,
        Format::double().one() == 0x3ff0_0000_0000_0000,
{
    lemma_format_constants();
    lemma2_to64();
    lemma2_to64_rest();
    if fmt == Format::single() {
        assert(fmt.one() == 127 * 0x80_0000);
        assert(fmt.one() / 0x80_0000 == 127);
        assert(fmt.one() % 0x80_0000 == 0);
        lemma_pow2_sum(23, 126);
        assert(fmt.one() % 0x8000_0000 == fmt.one());
    } else {
        assert(fmt.one() == 1023 * 0x10_0000_0000_0000);
        assert(fmt.one() / 0x10_0000_0000_0000 == 1023);
        assert(fmt.one() % 0x10_0000_0000_0000 == 0);
        lemma_pow2_sum(52, 1022);
        assert(fmt.one() % 0x8000_0000_0000_0000 == fmt.one());
    }
}

/// The value of a negated pattern is the negated value; its class is the same.
pub proof fn lemma_negated(fmt: Format, a: int)
    requires
        fmt.wf(),
        fmt.valid(a),
    ensures
        fmt.valid(fmt.negated(a)),
        fmt.magnitude(fmt.negated(a)) == fmt.magnitude(a),
        fmt.negative(fmt.negated(a)) == !fmt.negative(a),
        fmt.value(fmt.negated(a)) == -fmt.value(a),
{
    lemma_repack(fmt, a);
    lemma_pack_fields(fmt, !fmt.negative(a), fmt.magnitude(a));
}

/// A finite value less itself is zero, with the positive sign.
pub proof fn lemma_difference_self(fmt: Format, a: int)
    requires
        fmt.wf(),
        fmt.valid(a),
        fmt.is_finite(a),
    ensures
        fmt.difference(a, a) == 0,
{
    lemma_negated(fmt, a);
}

/// Zero divided by anything but zero and not-a-number is zero.
pub proof fn lemma_quotient_of_zero(fmt: Format, z: int, y: int)
    requires
        fmt.wf(),
        fmt.valid(z),
        fmt.valid(y),
        fmt.is_zero(z),
        !fmt.is_nan(y),
        !fmt.is_zero(y),
    ensures
        fmt.quotient(z, y) == fmt.pack(fmt.negative(z) != fmt.negative(y), 0),
{
    lemma_format_constants();
    lemma_repack(fmt, y);
    if fmt.is_finite(y) {
        lemma_units_sign(fmt, fmt.magnitude(y));
        lemma_units_sign(fmt, 0);
        assert(0 * pow2(fmt.one_exp()) == 0);
        lemma_round_of_zero(fmt, fmt.units(fmt.magnitude(y)));
    }
}

/// Zero times a finite value is zero.
pub proof fn lemma_product_of_zero(fmt: Format, z: int, r: int)
    requires
        fmt.wf(),
        fmt.valid(z),
        fmt.valid(r),
        fmt.is_zero(z),
        fmt.is_finite(r),
    ensures
        fmt.product(z, r) == fmt.pack(fmt.negative(z) != fmt.negative(r), 0),
{
    lemma_format_constants();
    lemma_units_sign(fmt, 0);
    assert(0 * fmt.units(fmt.magnitude(r)) == 0);
    lemma_pow2_pos(fmt.one_exp());
    lemma_round_of_zero(fmt, pow2(fmt.one_exp()) as int);
}

/// Adding a zero changes no value; and no bit of a value that is not zero.
pub proof fn lemma_sum_with_zero(fmt: Format, x: int, z: int)
    requires
        fmt.wf(),
        fmt.valid(x),
        fmt.valid(z),
        fmt.is_zero(z),
        !fmt.is_nan(x),
    ensures
        fmt.equal(fmt.sum(x, z), x),
        !fmt.is_zero(x) ==> fmt.sum(x, z) == x,
        fmt.valid(fmt.sum(x, z)),
{
    lemma_format_constants();
    lemma_repack(fmt, x);
    lemma_units_sign(fmt, 0);
    if fmt.is_finite(x) {
        let mag = fmt.magnitude(x);
        lemma_units_sign(fmt, mag);
        if mag == 0 {
            lemma_pack_fields(fmt, fmt.negative(x) && fmt.negative(z), 0);
        } else {
            lemma_round_exact(fmt, mag);
        }
    }
}

/// The difference of two finite values that are not equal is neither zero
/// nor not-a-number.
pub proof fn lemma_difference_distinct(fmt: Format, a: int, b: int)
    requires
        fmt.wf(),
        fmt.valid(a),
        fmt.valid(b),
        fmt.is_finite(a),
        fmt.is_finite(b),
        !fmt.equal(a, b),
    ensures
        fmt.valid(fmt.difference(a, b)),
        !fmt.is_nan(fmt.difference(a, b)),
        !fmt.is_zero(fmt.difference(a, b)),
{
    lemma_format_constants();
    lemma_negated(fmt, b);
    lemma_repack(fmt, a);
    lemma_repack(fmt, b);
    let ma = fmt.magnitude(a);
    let mb = fmt.magnitude(b);
    lemma_units_sign(fmt, ma);
    lemma_units_sign(fmt, mb);
    if ma < mb {
        lemma_units_monotone(fmt, ma, mb);
    } else if mb < ma {
        lemma_units_monotone(fmt, mb, ma);
    }
    let v = fmt.value(a) - fmt.value(b);
    assert(v != 0);
    let n = if v < 0 {
        -v
    } else {
        v
    };
    lemma_round_nonzero(fmt, n);
    lemma_round_range(fmt, n, 1);
    lemma_pack_fields(fmt, v < 0, fmt.round_magnitude(n, 1));
}

/// A finite value that is not zero, divided by itself, is one.
pub proof fn lemma_quotient_self(fmt: Format, a: int)
    requires
        fmt.wf(),
        fmt.valid(a),
        fmt.is_finite(a),
        !fmt.is_zero(a),
    ensures
        fmt.quotient(a, a) == fmt.one(),
{
    lemma_format_constants();
    lemma_units_one(fmt);
    let u = fmt.units(fmt.magnitude(a));
    lemma_repack(fmt, a);
    lemma_units_sign(fmt, fmt.magnitude(a));
    let one = pow2(fmt.one_exp()) as int;
    lemma_pow2_pos(fmt.one_exp());
    lemma_mul_le(0, u, one);
    assert((u * one) * 1 == one * u) by (nonlinear_arith);
    lemma_round_ratio(fmt, u * one, u, one, 1);
    lemma_round_exact(fmt, fmt.one());
}

/// One times a value is that value.
pub proof fn lemma_product_one(fmt: Format, r: int)
    requires
        fmt.wf(),
        fmt.valid(r),
        !fmt.is_nan(r),
    ensures
        fmt.product(fmt.one(), r) == r,
{
    lemma_format_constants();
    lemma_units_one(fmt);
    lemma_repack(fmt, r);
    if fmt.is_finite(r) {
        let u = fmt.units(fmt.magnitude(r));
        let one = pow2(fmt.one_exp()) as int;
        lemma_units_sign(fmt, fmt.magnitude(r));
        lemma_pow2_pos(fmt.one_exp());
        lemma_round_scale(fmt, u, 1, one);
        assert(one * u == u * one) by (nonlinear_arith);
        assert(1 * one == one);
        lemma_round_exact(fmt, fmt.magnitude(r));
    }
}

/// A value less zero is that value.
pub proof fn lemma_difference_zero(fmt: Format, x: int)
    requires
        fmt.wf(),
        fmt.valid(x),
        !fmt.is_nan(x),
    ensures
        fmt.difference(x, 0) == x,
{
    lemma_format_constants();
    lemma_negated(fmt, 0);
    lemma_repack(fmt, x);
    lemma_units_sign(fmt, 0);
    if fmt.is_finite(x) {
        let mag = fmt.magnitude(x);
        lemma_units_sign(fmt, mag);
        if mag != 0 {
            lemma_round_exact(fmt, mag);
        }
    }
}

/// A value divided by one is that value.
pub proof fn lemma_quotient_one(fmt: Format, x: int)
    requires
        fmt.wf(),
        fmt.valid(x),
        !fmt.is_nan(x),
    ensures
        fmt.quotient(x, fmt.one()) == x,
{
    lemma_format_constants();
    lemma_units_one(fmt);
    lemma_repack(fmt, x);
    if fmt.is_finite(x) {
        let u = fmt.units(fmt.magnitude(x));
        let one = pow2(fmt.one_exp()) as int;
        lemma_units_sign(fmt, fmt.magnitude(x));
        lemma_pow2_pos(fmt.one_exp());
        lemma_round_scale(fmt, u, 1, one);
        assert(1 * one == one);
        lemma_round_exact(fmt, fmt.magnitude(x));
    }
}

/// A value times one is that value.
pub proof fn lemma_product_by_one(fmt: Format, r: int)
    requires
        fmt.wf(),
        fmt.valid(r),
        !fmt.is_nan(r),
    ensures
        fmt.product(r, fmt.one()) == r,
{
    lemma_product_one(fmt, r);
    lemma_units_one(fmt);
    let a = fmt.units(fmt.magnitude(r));
    let b = fmt.units(fmt.magnitude(fmt.one()));
    assert(a * b == b * a) by (nonlinear_arith);
}

/// Zero plus a value is that value; bit for bit unless the value is zero.
pub proof fn lemma_zero_plus(fmt: Format, z: int, x: int)
    requires
        fmt.wf(),
        fmt.valid(x),
        fmt.valid(z),
        fmt.is_zero(z),
        !fmt.is_nan(x),
    ensures
        fmt.equal(fmt.sum(z, x), x),
        !fmt.is_zero(x) ==> fmt.sum(z, x) == x,
        fmt.is_zero(x) ==> fmt.sum(z, x) == fmt.pack(fmt.negative(z) && fmt.negative(x), 0),
        fmt.valid(fmt.sum(z, x)),
{
    lemma_format_constants();
    lemma_repack(fmt, x);
    lemma_units_sign(fmt, 0);
    if fmt.is_finite(x) {
        let mag = fmt.magnitude(x);
        lemma_units_sign(fmt, mag);
        if mag == 0 {
            lemma_pack_fields(fmt, fmt.negative(z) && fmt.negative(x), 0);
        } else {
            lemma_round_exact(fmt, mag);
        }
    }
}

/// Every operation on bit patterns gives a bit pattern.
pub proof fn lemma_results_are_patterns(fmt: Format, a: int, b: int)
    requires
        fmt.wf(),
        fmt.valid(a),
        fmt.valid(b),
    ensures
        fmt.valid(fmt.sum(a, b)),
        fmt.valid(fmt.difference(a, b)),
        fmt.valid(fmt.product(a, b)),
        fmt.valid(fmt.quotient(a, b)),
{
    lemma_format_constants();
    lemma_sum_is_pattern(fmt, a, b);
    lemma_negated(fmt, b);
    lemma_sum_is_pattern(fmt, a, fmt.negated(b));
    lemma_repack(fmt, a);
    lemma_repack(fmt, b);
    let neg = fmt.negative(a) != fmt.negative(b);
    lemma_pack_fields(fmt, neg, 0);
    lemma_pack_fields(fmt, neg, fmt.inf());
    lemma_pack_fields(fmt, false, fmt.quiet_nan());
    if fmt.is_finite(a) && fmt.is_finite(b) {
        let ua = fmt.units(fmt.magnitude(a));
        let ub = fmt.units(fmt.magnitude(b));
        let one = pow2(fmt.one_exp()) as int;
        lemma_units_sign(fmt, fmt.magnitude(a));
        lemma_units_sign(fmt, fmt.magnitude(b));
        lemma_pow2_pos(fmt.one_exp());
        lemma_mul_le(0, ua, ub);
        lemma_mul_le(0, ua, one);
        lemma_round_range(fmt, ua * ub, one);
        lemma_pack_fields(fmt, neg, fmt.round_magnitude(ua * ub, one));
        if !fmt.is_zero(b) {
            lemma_round_range(fmt, ua * one, ub);
            lemma_pack_fields(fmt, neg, fmt.round_magnitude(ua * one, ub));
        }
    }
}

/// A sum of bit patterns is a bit pattern.
pub proof fn lemma_sum_is_pattern(fmt: Format, a: int, b: int)
    requires
        fmt.wf(),
        fmt.valid(a),
        fmt.valid(b),
    ensures
        fmt.valid(fmt.sum(a, b)),
{
    lemma_format_constants();
    lemma_pack_fields(fmt, false, fmt.quiet_nan());
    lemma_pack_fields(fmt, fmt.negative(a) && fmt.negative(b), 0);
    if fmt.is_finite(a) && fmt.is_finite(b) {
        let v = fmt.value(a) + fmt.value(b);
        let n = if v < 0 {
            -v
        } else {
            v
        };
        lemma_round_range(fmt, n, 1);
        lemma_pack_fields(fmt, v < 0, fmt.round_magnitude(n, 1));
    }
}

/// Narrowing a double-precision pattern gives a single-precision pattern.
pub proof fn lemma_narrowed_is_pattern(a: int)
    requires
        Format::double().valid(a),
    ensures
        Format::single().valid(narrowed(a)),
{
    let wide = Format::double();
    let slim = Format::single();
    lemma_format_constants();
    lemma_repack(wide, a);
    lemma_pack_fields(slim, false, slim.quiet_nan());
    lemma_pack_fields(slim, wide.negative(a), slim.inf());
    if wide.is_finite(a) {
        let u = wide.units(wide.magnitude(a));
        let gap = pow2((wide.one_exp() - slim.one_exp()) as nat) as int;
        lemma_units_sign(wide, wide.magnitude(a));
        lemma_pow2_pos((wide.one_exp() - slim.one_exp()) as nat);
        lemma_round_range(slim, u, gap);
        lemma_pack_fields(slim, wide.negative(a), slim.round_magnitude(u, gap));
    }
}

} // verus!
