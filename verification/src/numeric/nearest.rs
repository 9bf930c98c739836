//! What rounding means: no representable value is nearer to the exact value
//! than the rounded one, and of two equally near values the one with the
//! even significand is taken.

use vstd::prelude::*;
use vstd::arithmetic::power2::{pow2, lemma_pow2_pos, lemma2_to64};
use vstd::arithmetic::div_mod::{lemma_div_pos_is_pos, lemma_fundamental_div_mod};
use crate::numeric::algebra::{lemma_fields, lemma_units_monotone};
use crate::numeric::format::{Format, lemma_format_constants};
use crate::numeric::rounding::{
    excess, nearest_even, lemma_div_mod_of, lemma_excess_bounds, lemma_mul_le, lemma_mul_lt,
    lemma_pow2_double, lemma_pow2_le, lemma_pow2_sum,
};

verus! {

/// How far apart two integers are.
pub open spec fn distance(a: int, b: int) -> int {
    if a >= b {
        a - b
    } else {
        b - a
    }
}

/// The rounded quotient is within half a denominator of the numerator, is
/// the floor of the quotient or one more, and is even where it is exactly
/// half a denominator away.
pub proof fn lemma_nearest_even_close(n: int, d: int)
    requires
        n >= 0,
        d > 0,
    ensures
        2 * distance(nearest_even(n, d) * d, n) <= d,
        nearest_even(n, d) == n / d || nearest_even(n, d) == n / d + 1,
        n / d >= 0,
        2 * distance(nearest_even(n, d) * d, n) == d ==> nearest_even(n, d) % 2 == 0,
{
    let q = n / d;
    let r = n % d;
    lemma_fundamental_div_mod(n, d);
    lemma_div_pos_is_pos(n, d);
    assert(q * d == d * q) by (nonlinear_arith);
    assert((q + 1) * d == d * q + d) by (nonlinear_arith);
}

/// No integer is nearer to `n / d` than the rounded quotient; and an integer
/// as near is the rounded quotient itself unless that is even.
pub proof fn lemma_nearest_even_least(n: int, d: int, k: int)
    requires
        n >= 0,
        d > 0,
    ensures
        distance(nearest_even(n, d) * d, n) <= distance(k * d, n),
        k != nearest_even(n, d) && distance(nearest_even(n, d) * d, n) == distance(k * d, n)
            ==> nearest_even(n, d) % 2 == 0,
{
    let m = nearest_even(n, d);
    lemma_nearest_even_close(n, d);
    if k != m {
        // k * d lies at least a whole denominator from m * d
        if k > m {
            lemma_mul_le(m + 1, k, d);
            assert((m + 1) * d == m * d + d) by (nonlinear_arith);
        } else {
            lemma_mul_le(k, m - 1, d);
            assert((m - 1) * d == m * d - d) by (nonlinear_arith);
        }
    }
}

/// The magnitude bits `s * hidden + sig` denote `sig * 2^s` units, where the
/// significand `sig` is at most twice the hidden bit, and at least the hidden
/// bit unless `s` is zero.
pub proof fn lemma_units_assembled(fmt: Format, s: nat, sig: int)
    requires
        fmt.wf(),
        0 <= sig <= 2 * fmt.hidden(),
        s > 0 ==> sig >= fmt.hidden(),
        s * fmt.hidden() + sig < fmt.inf(),
    ensures
        fmt.units(s * fmt.hidden() + sig) == sig * pow2(s),
{
    lemma_format_constants();
    lemma2_to64();
    let h = fmt.hidden();
    let mag = s * h + sig;
    lemma_pow2_pos(s);
    lemma_mul_le(0, s as int, h);
    if sig < h {
        assert(s == 0);
        assert(mag == 0 * h + sig);
        lemma_div_mod_of(0, sig, h);
        assert(sig * pow2(0) == sig);
    } else if sig < 2 * h {
        assert(mag == (s + 1) * h + (sig - h)) by (nonlinear_arith)
            requires
                mag == s * h + sig,
        ;
        lemma_div_mod_of(s as int + 1, sig - h, h);
    } else {
        assert(mag == (s + 2) * h + 0) by (nonlinear_arith)
            requires
                mag == s * h + sig,
                sig == 2 * h,
        ;
        lemma_div_mod_of(s as int + 2, 0, h);
        lemma_pow2_double(s);
        assert((h + 0) * pow2(s + 1) == sig * pow2(s)) by (nonlinear_arith)
            requires
                pow2(s + 1) == 2 * pow2(s),
                sig == 2 * h,
        ;
    }
}

/// Rounding gives a nearest value: where the result is finite, no finite
/// value of the format lies nearer to `n / d` units; and if another lies as
/// near, the result is the one with the even significand.
pub proof fn lemma_round_is_nearest(fmt: Format, n: int, d: int, other: int)
    requires
        fmt.wf(),
        n >= 0,
        d > 0,
        fmt.round_magnitude(n, d) < fmt.inf(),
        0 <= other < fmt.inf(),
    ensures
        distance(fmt.units(fmt.round_magnitude(n, d)) * d, n) <= distance(
            fmt.units(other) * d,
            n,
        ),
        other != fmt.round_magnitude(n, d) && distance(
            fmt.units(fmt.round_magnitude(n, d)) * d,
            n,
        ) == distance(fmt.units(other) * d, n) ==> fmt.round_magnitude(n, d) % 2 == 0,
{
    lemma_format_constants();
    lemma2_to64();
    let h = fmt.hidden();
    let w = fmt.width();
    let s = excess(w, n, d);
    let ps = pow2(s) as int;
    lemma_pow2_pos(s);
    let big = d * ps;
    lemma_mul_lt(0, d, ps);
    let sig = nearest_even(n, big);
    let m = fmt.round_magnitude(n, d);
    lemma_mul_le(0, s as int, h);
    lemma_nearest_even_close(n, big);
    assert(m == s * h + sig);
    // the significand is at most 2^width, and at least the hidden bit where s > 0
    lemma_excess_bounds(w, n, d);
    lemma_pow2_double(fmt.frac_bits as nat);
    lemma_pow2_sum(w, s);
    assert(n < (2 * h) * big) by (nonlinear_arith)
        requires
            n < pow2(w + s) * d,
            pow2(w + s) == pow2(w) * ps,
            pow2(w) == 2 * h,
            big == d * ps,
    ;
    lemma_fundamental_div_mod(n, big);
    let q = n / big;
    assert(q < 2 * h) by (nonlinear_arith)
        requires
            n == big * q + n % big,
            0 <= n % big,
            n < (2 * h) * big,
            big > 0,
    ;
    if s > 0 {
        lemma_pow2_sum(fmt.frac_bits as nat, s);
        assert((w + s - 1) as nat == fmt.frac_bits as nat + s);
        assert(h * big <= n) by (nonlinear_arith)
            requires
                pow2((w + s - 1) as nat) * d <= n,
                pow2((w + s - 1) as nat) == h * ps,
                big == d * ps,
        ;
        assert(q >= h) by (nonlinear_arith)
            requires
                n == big * q + n % big,
                n % big < big,
                h * big <= n,
                big > 0,
        ;
    }
    lemma_units_assembled(fmt, s, sig);
    let um = fmt.units(m);
    assert(um * d == sig * big) by (nonlinear_arith)
        requires
            um == sig * ps,
            big == d * ps,
    ;
    // where the other value lies
    lemma_fields(fmt, other);
    let e2 = other / h;
    let f2 = other % h;
    let s2: nat = if e2 == 0 {
        0
    } else {
        (e2 - 1) as nat
    };
    let k2 = if e2 == 0 {
        f2
    } else {
        h + f2
    };
    let uo = fmt.units(other);
    lemma_pow2_pos(s2);
    assert(uo == k2 * pow2(s2)) by {
        if e2 == 0 {
            assert(f2 * pow2(0) == f2);
        }
    }
    if s2 >= s {
        // the other value lies on the grid that was rounded to
        let k = k2 * pow2((s2 - s) as nat);
        lemma_pow2_sum((s2 - s) as nat, s);
        assert(uo * d == k * big) by (nonlinear_arith)
            requires
                uo == k2 * pow2(s2),
                pow2(s2) == pow2((s2 - s) as nat) * ps,
                k == k2 * pow2((s2 - s) as nat),
                big == d * ps,
        ;
        lemma_nearest_even_least(n, big, k);
        if other != m {
            if other < m {
                lemma_units_monotone(fmt, other, m);
            } else {
                lemma_units_monotone(fmt, m, other);
            }
            assert(k != sig) by (nonlinear_arith)
                requires
                    uo != um,
                    uo * d == k * big,
                    um * d == sig * big,
                    d > 0,
            ;
        }
    } else {
        // the other value lies below the least value of the grid, which is no
        // nearer than the rounded one
        lemma_pow2_le(s2 + 1, s);
        lemma_pow2_double(s2);
        assert(uo * d < h * big) by (nonlinear_arith)
            requires
                uo == k2 * pow2(s2),
                0 <= k2 < 2 * h,
                2 * pow2(s2) <= ps,
                pow2(s2) > 0,
                big == d * ps,
                d > 0,
                h > 0,
        ;
        lemma_nearest_even_least(n, big, h);
    }
    assert(m % 2 == sig % 2) by {
        if fmt == Format::single() {
            assert((s * 0x80_0000 + sig) % 2 == sig % 2);
        } else {
            assert((s * 0x10_0000_0000_0000 + sig) % 2 == sig % 2);
        }
    }
}

/// Twice the least magnitude, in units, that rounds to infinity: the greatest
/// finite value and half its last place.
pub open spec fn twice_overflow_threshold(fmt: Format) -> int {
    (4 * fmt.hidden() - 1) * pow2((pow2(fmt.exp_bits as nat) - 3) as nat)
}

/// Rounding gives infinity exactly from the greatest finite value plus half
/// its last place on.
pub proof fn lemma_round_overflows(fmt: Format, n: int, d: int)
    requires
        fmt.wf(),
        n >= 0,
        d > 0,
    ensures
        fmt.round_magnitude(n, d) == fmt.inf() <==> 2 * n >= twice_overflow_threshold(fmt) * d,
{
    lemma_format_constants();
    lemma2_to64();
    let h = fmt.hidden();
    let w = fmt.width();
    let top = (pow2(fmt.exp_bits as nat) - 3) as nat;
    let pt = pow2(top) as int;
    lemma_pow2_pos(top);
    assert(fmt.inf() == (top + 2) * h);
    let s = excess(w, n, d);
    let ps = pow2(s) as int;
    lemma_pow2_pos(s);
    let big = d * ps;
    lemma_mul_lt(0, d, ps);
    let sig = nearest_even(n, big);
    lemma_nearest_even_close(n, big);
    lemma_excess_bounds(w, n, d);
    lemma_pow2_double(fmt.frac_bits as nat);
    lemma_pow2_sum(w, s);
    assert(n < (2 * h) * big) by (nonlinear_arith)
        requires
            n < pow2(w + s) * d,
            pow2(w + s) == pow2(w) * ps,
            pow2(w) == 2 * h,
            big == d * ps,
    ;
    lemma_fundamental_div_mod(n, big);
    let q = n / big;
    let r = n % big;
    assert(q < 2 * h) by (nonlinear_arith)
        requires
            n == big * q + r,
            0 <= r,
            n < (2 * h) * big,
            big > 0,
    ;
    if s > 0 {
        lemma_pow2_sum(fmt.frac_bits as nat, s);
        assert((w + s - 1) as nat == fmt.frac_bits as nat + s);
        assert(h * big <= n) by (nonlinear_arith)
            requires
                pow2((w + s - 1) as nat) * d <= n,
                pow2((w + s - 1) as nat) == h * ps,
                big == d * ps,
        ;
        assert(q >= h) by (nonlinear_arith)
            requires
                n == big * q + r,
                r < big,
                h * big <= n,
                big > 0,
        ;
    }
    let m = s * h + sig;
    let limit = twice_overflow_threshold(fmt) * d;
    assert(limit == (4 * h - 1) * (d * pt)) by (nonlinear_arith)
        requires
            limit == ((4 * h - 1) * pt) * d,
    ;
    if s > top {
        // beyond the greatest shift everything overflows
        assert(m >= (top + 2) * h) by (nonlinear_arith)
            requires
                m == s * h + sig,
                s >= top + 1,
                sig >= h,
                h > 0,
        ;
        lemma_pow2_le(top + 1, s);
        lemma_pow2_double(top);
        assert(2 * n >= limit) by (nonlinear_arith)
            requires
                h * big <= n,
                big == d * ps,
                ps >= 2 * pt,
                limit == (4 * h - 1) * (d * pt),
                d > 0,
                pt > 0,
                h > 0,
        ;
    } else if s == top {
        assert(big == d * pt);
        assert((m >= (top + 2) * h) == (sig == 2 * h)) by (nonlinear_arith)
            requires
                m == s * h + sig,
                s == top,
                sig <= 2 * h,
        ;
        assert(2 * n == 2 * q * big + 2 * r) by (nonlinear_arith)
            requires
                n == big * q + r,
        ;
        if q == 2 * h - 1 {
            assert(q % 2 == 1) by {
                if fmt == Format::single() {
                    assert(q == 0xff_ffff);
                } else {
                    assert(q == 0x1f_ffff_ffff_ffff);
                }
            }
            assert(limit == 2 * q * big + big) by (nonlinear_arith)
                requires
                    limit == (4 * h - 1) * big,
                    q == 2 * h - 1,
            ;
        } else {
            assert(2 * n < limit) by (nonlinear_arith)
                requires
                    2 * n == 2 * q * big + 2 * r,
                    r < big,
                    q <= 2 * h - 2,
                    q >= 0,
                    limit == (4 * h - 1) * big,
                    big > 0,
            ;
        }
    } else {
        // below the greatest shift nothing overflows
        assert(m < (top + 2) * h) by (nonlinear_arith)
            requires
                m == s * h + sig,
                s + 1 <= top,
                sig <= 2 * h,
                h > 0,
        ;
        lemma_pow2_le(s + 1, top);
        lemma_pow2_double(s);
        assert(2 * n < limit) by (nonlinear_arith)
            requires
                n < (2 * h) * big,
                big == d * ps,
                2 * ps <= pt,
                limit == (4 * h - 1) * (d * pt),
                d > 0,
                ps > 0,
                h >= 1,
        ;
    }
}

} // verus!
