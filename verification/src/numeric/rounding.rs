//! Rounding of exact rational magnitudes to the nearest integer, ties to even,
//! and the count of binary places by which a magnitude exceeds a significand.

use vstd::prelude::*;
use vstd::arithmetic::power2::{pow2, lemma_pow2_pos, lemma_pow2_adds, lemma_pow2_unfold};
use vstd::arithmetic::div_mod::{
    lemma_fundamental_div_mod, lemma_fundamental_div_mod_converse,
};

verus! {

/// The integer nearest to `n / d`; of two equally near integers, the even one.
pub open spec fn nearest_even(n: int, d: int) -> int
    recommends
        n >= 0,
        d > 0,
{
    let q = n / d;
    let r = n % d;
    if 2 * r < d || (2 * r == d && q % 2 == 0) {
        q
    } else {
        q + 1
    }
}

/// The integer nearest to `(q + t) / 2^j`, ties to even, where `t` is some
/// fraction in `[0, 1)` of which only `sticky`, whether it is nonzero, is known.
/// For `j >= 1` that is enough to decide.
pub open spec fn nearest_even_sticky(q: int, sticky: bool, j: nat) -> int
    recommends
        q >= 0,
        j >= 1,
{
    let f = q / (pow2(j) as int);
    let r = q % (pow2(j) as int);
    let half = pow2((j - 1) as nat) as int;
    if r < half || (r == half && !sticky && f % 2 == 0) {
        f
    } else {
        f + 1
    }
}

/// The least `s` such that `n / d < 2^(width + s)`: by how many binary places
/// the magnitude `n / d` exceeds `width` bits.
pub open spec fn excess(width: nat, n: int, d: int) -> nat
    decreases n,
{
    if d <= 0 || n <= 0 || n < pow2(width) * d {
        0
    } else {
        1 + excess(width, n / 2, d)
    }
}

pub proof fn lemma_mul_lt(a: int, b: int, c: int)
    by (nonlinear_arith)
    requires
        a < b,
        c > 0,
    ensures
        a * c < b * c,
        c * a < c * b,
{
}

pub proof fn lemma_mul_le(a: int, b: int, c: int)
    by (nonlinear_arith)
    requires
        a <= b,
        c >= 0,
    ensures
        a * c <= b * c,
        c * a <= c * b,
{
}

pub proof fn lemma_mul_lt_cancel(a: int, b: int, c: int)
    by (nonlinear_arith)
    requires
        a * c < b * c,
        c > 0,
    ensures
        a < b,
{
}

pub proof fn lemma_mul3(a: int, b: int, c: int)
    by (nonlinear_arith)
    ensures
        (a * b) * c == a * (b * c),
        (a * b) * c == (a * c) * b,
        a * b == b * a,
{
}

pub proof fn lemma_pow2_sum(a: nat, b: nat)
    ensures
        pow2(a + b) == pow2(a) * pow2(b),
        pow2(a) > 0,
        pow2(b) > 0,
{
    lemma_pow2_adds(a, b);
    lemma_pow2_pos(a);
    lemma_pow2_pos(b);
}

pub proof fn lemma_pow2_le(a: nat, b: nat)
    requires
        a <= b,
    ensures
        pow2(a) <= pow2(b),
        pow2(a) > 0,
{
    lemma_pow2_sum(a, (b - a) as nat);
    lemma_mul_le(1, pow2((b - a) as nat) as int, pow2(a) as int);
}

pub proof fn lemma_pow2_double(a: nat)
    ensures
        pow2(a + 1) == 2 * pow2(a),
        pow2(a) > 0,
{
    lemma_pow2_unfold(a + 1);
    lemma_pow2_pos(a);
}

/// Quotient and remainder of `q * d + r` by `d`.
pub proof fn lemma_div_mod_of(q: int, r: int, d: int)
    requires
        0 <= r < d,
    ensures
        (q * d + r) / d == q,
        (q * d + r) % d == r,
{
    lemma_fundamental_div_mod_converse(q * d + r, d, q, r);
}

/// A common factor of numerator and denominator does not change the rounding.
pub proof fn lemma_nearest_even_scale(n: int, d: int, c: int)
    requires
        n >= 0,
        d > 0,
        c > 0,
    ensures
        nearest_even(n * c, d * c) == nearest_even(n, d),
{
    let q = n / d;
    let r = n % d;
    lemma_fundamental_div_mod(n, d);
    assert(n == d * q + r);
    assert(n * c == q * (d * c) + r * c) by (nonlinear_arith)
        requires
            n == d * q + r,
    ;
    lemma_mul_lt(r, d, c);
    lemma_mul_le(0, r, c);
    lemma_div_mod_of(q, r * c, d * c);
    assert(2 * (r * c) < d * c <==> 2 * r < d) by (nonlinear_arith)
        requires
            c > 0,
    ;
    assert(2 * (r * c) == d * c <==> 2 * r == d) by (nonlinear_arith)
        requires
            c > 0,
    ;
}

/// An exact multiple rounds to its quotient.
pub proof fn lemma_nearest_even_exact(q: int, d: int)
    requires
        q >= 0,
        d > 0,
    ensures
        nearest_even(q * d, d) == q,
{
    lemma_div_mod_of(q, 0, d);
}

/// The floor of a quotient and whether anything was left over decide the
/// rounding at any coarser power of two.
pub proof fn lemma_nearest_even_sticky(n: int, d: int, q: int, sticky: bool, j: nat)
    requires
        d > 0,
        q >= 0,
        q * d <= n < (q + 1) * d,
        sticky <==> n != q * d,
        j >= 1,
    ensures
        nearest_even(n, d * pow2(j)) == nearest_even_sticky(q, sticky, j),
{
    let pj = pow2(j) as int;
    let half = pow2((j - 1) as nat) as int;
    lemma_pow2_double((j - 1) as nat);
    assert(pj == 2 * half);
    let f = q / pj;
    let r = q % pj;
    lemma_fundamental_div_mod(q, pj);
    let rho = n - q * d;
    assert(0 <= rho < d) by (nonlinear_arith)
        requires
            rho == n - q * d,
            q * d <= n < (q + 1) * d,
    ;
    let big = d * pj;
    let rem = r * d + rho;
    assert(n == f * big + rem) by (nonlinear_arith)
        requires
            q == pj * f + r,
            rho == n - q * d,
            big == d * pj,
            rem == r * d + rho,
    ;
    assert(0 <= rem < big) by (nonlinear_arith)
        requires
            0 <= r < pj,
            0 <= rho < d,
            big == d * pj,
            rem == r * d + rho,
    ;
    lemma_div_mod_of(f, rem, big);
    assert(n / big == f);
    assert(n % big == rem);
    assert(big == 2 * (half * d)) by (nonlinear_arith)
        requires
            big == d * pj,
            pj == 2 * half,
    ;
    if r < half {
        assert(rem < half * d) by (nonlinear_arith)
            requires
                r + 1 <= half,
                0 <= rho < d,
                rem == r * d + rho,
        ;
    } else if r == half {
        assert(rem == half * d + rho);
    } else {
        assert(rem > half * d) by (nonlinear_arith)
            requires
                r >= half + 1,
                0 <= rho < d,
                rem == r * d + rho,
        ;
    }
}

/// `excess` is the least shift that brings the magnitude below `2^width`.
pub proof fn lemma_excess_bounds(width: nat, n: int, d: int)
    requires
        n >= 0,
        d > 0,
    ensures
        n < pow2(width + excess(width, n, d)) * d,
        excess(width, n, d) > 0 ==> pow2((width + excess(width, n, d) - 1) as nat) * d <= n,
    decreases n,
{
    if n <= 0 || n < pow2(width) * d {
        lemma_pow2_pos(width);
        lemma_mul_lt(0, pow2(width) as int, d);
    } else {
        let s = excess(width, n / 2, d);
        lemma_excess_bounds(width, n / 2, d);
        lemma_pow2_double(width + s);
        let k = pow2(width + s) * d;
        assert(pow2(width + s + 1) * d == 2 * k) by (nonlinear_arith)
            requires
                pow2(width + s + 1) == 2 * pow2(width + s),
                k == pow2(width + s) * d,
        ;
        if s > 0 {
            lemma_pow2_double((width + s - 1) as nat);
            let k1 = pow2((width + s - 1) as nat) * d;
            assert(pow2(width + s) * d == 2 * k1) by (nonlinear_arith)
                requires
                    pow2(width + s) == 2 * pow2((width + s - 1) as nat),
                    k1 == pow2((width + s - 1) as nat) * d,
            ;
        }
    }
}

/// Any shift that just brings the magnitude below `2^width` is `excess`.
pub proof fn lemma_excess_unique(width: nat, n: int, d: int, s: nat)
    requires
        n >= 0,
        d > 0,
        n < pow2(width + s) * d,
        s > 0 ==> pow2((width + s - 1) as nat) * d <= n,
    ensures
        excess(width, n, d) == s,
    decreases s,
{
    if s > 0 {
        lemma_pow2_le(width, (width + s - 1) as nat);
        lemma_mul_le(pow2(width) as int, pow2((width + s - 1) as nat) as int, d);
        lemma_pow2_pos(width);
        lemma_mul_lt(0, pow2(width) as int, d);
        assert(n >= pow2(width) * d);
        assert(n > 0);
        lemma_pow2_double((width + s - 1) as nat);
        let k = pow2((width + s - 1) as nat) * d;
        assert(pow2(width + s) * d == 2 * k) by (nonlinear_arith)
            requires
                pow2(width + s) == 2 * pow2((width + s - 1) as nat),
                k == pow2((width + s - 1) as nat) * d,
        ;
        if s > 1 {
            lemma_pow2_double((width + s - 2) as nat);
            let k1 = pow2((width + s - 2) as nat) * d;
            assert(k == 2 * k1) by (nonlinear_arith)
                requires
                    pow2((width + s - 1) as nat) == 2 * pow2((width + s - 2) as nat),
                    k == pow2((width + s - 1) as nat) * d,
                    k1 == pow2((width + s - 2) as nat) * d,
            ;
        }
        lemma_excess_unique(width, n / 2, d, (s - 1) as nat);
    }
}

/// A common factor of numerator and denominator does not change `excess`.
pub proof fn lemma_excess_scale(width: nat, n: int, d: int, c: int)
    requires
        n >= 0,
        d > 0,
        c > 0,
    ensures
        excess(width, n * c, d * c) == excess(width, n, d),
{
    let s = excess(width, n, d);
    lemma_excess_bounds(width, n, d);
    let hi = pow2(width + s) as int;
    lemma_mul_lt(n, hi * d, c);
    lemma_mul3(hi, d, c);
    if s > 0 {
        let lo = pow2((width + s - 1) as nat) as int;
        lemma_mul_le(lo * d, n, c);
        lemma_mul3(lo, d, c);
    }
    lemma_mul_le(0, n, c);
    lemma_mul_lt(0, d, c);
    lemma_excess_unique(width, n * c, d * c, s);
}

} // verus!
