//! Correctly rounded arithmetic on bit patterns, in integer operations only.

use vstd::prelude::*;
use vstd::arithmetic::power2::{pow2, lemma_pow2_pos, lemma2_to64, lemma2_to64_rest};
use vstd::bits::lemma_u64_shl_is_mul;
use vstd::arithmetic::div_mod::{
    lemma_basic_div, lemma_div_pos_is_pos, lemma_fundamental_div_mod, lemma_small_mod,
};
use crate::numeric::arith::narrowed;
use crate::numeric::format::{
    Format, lemma_format_constants, lemma_round_from_floor, lemma_round_ratio, lemma_round_scale,
    lemma_round_scaled_split, lemma_round_zero,
};
use crate::numeric::rounding::{
    nearest_even_sticky, lemma_mul_le, lemma_mul_lt, lemma_mul_lt_cancel, lemma_pow2_double,
    lemma_pow2_le, lemma_pow2_sum,
};

verus! {

/// The two powers that bound the working integers.
pub proof fn lemma_pow2_wide()
    ensures
        pow2(126) == 0x4000_0000_0000_0000_0000_0000_0000_0000,
        pow2(127) == 0x8000_0000_0000_0000_0000_0000_0000_0000,
{
    lemma2_to64();
    lemma2_to64_rest();
    lemma_pow2_sum(63, 63);
    lemma_pow2_sum(64, 63);
}

/// `2^k`.
pub(crate) fn pow2_u128(k: u32) -> (r: u128)
    requires
        k < 128,
    ensures
        r == pow2(k as nat),
        r >= 1,
{
    proof {
        lemma2_to64();
        lemma_pow2_pos(k as nat);
    }
    if k < 64 {
        proof {
            lemma_pow2_le(k as nat, 63);
            lemma2_to64_rest();
            assert(1u64 * pow2(k as nat) <= u64::MAX);
            lemma_u64_shl_is_mul(1, k as u64);
        }
        (1u64 << k) as u128
    } else {
        let low: u32 = k - 64;
        proof {
            lemma_pow2_le(low as nat, 63);
            lemma2_to64_rest();
            assert(1u64 * pow2(low as nat) <= u64::MAX);
            lemma_u64_shl_is_mul(1, low as u64);
            lemma_pow2_sum(low as nat, 64);
        }
        ((1u64 << low) as u128) * 0x1_0000_0000_0000_0000u128
    }
}

/// The number of bits of `q`: zero for zero, else the `len` with
/// `2^(len - 1) <= q < 2^len`.
pub(crate) fn bit_length(q: u128) -> (len: u32)
    requires
        q < pow2(127),
    ensures
        len <= 127,
        q == 0 ==> len == 0,
        q > 0 ==> len >= 1 && pow2((len - 1) as nat) <= q < pow2(len as nat),
{
    let mut lo: u32 = 0;
    let mut hi: u32 = 127;
    while lo < hi
        invariant
            lo <= hi <= 127,
            lo > 0 ==> pow2((lo - 1) as nat) <= q,
            q < pow2(hi as nat),
        decreases hi - lo,
    {
        let mid: u32 = lo + (hi - lo + 1) / 2;
        if q >= pow2_u128(mid - 1) {
            lo = mid;
        } else {
            hi = mid - 1;
        }
    }
    proof {
        lemma2_to64();
        if lo > 0 {
            lemma_pow2_pos((lo - 1) as nat);
        }
    }
    lo
}

/// The magnitude bits nearest to `(n / d) * 2^e` units, computed from the whole
/// part `q` of `n / d` and from `sticky`, whether `n / d` has a fraction.
pub(crate) fn round_pack(
    fmt: Format,
    q: u128,
    sticky: bool,
    e: i64,
    Ghost(n): Ghost<int>,
    Ghost(d): Ghost<int>,
) -> (m: u64)
    requires
        fmt.wf(),
        q < pow2(126),
        -0x1_0000 <= e <= 0x1_0000,
        n >= 0,
        d > 0,
        q * d <= n < (q + 1) * d,
        sticky <==> n != q * d,
        sticky ==> q >= pow2(fmt.width() + 1),
    ensures
        m == fmt.round_scaled(n, d, e as int),
        m <= fmt.inf(),
{
    proof {
        lemma_format_constants();
        lemma2_to64();
        lemma2_to64_rest();
        lemma_pow2_le(126, 127);
        lemma_pow2_sum(63, 63);
        assert(pow2(126) == 0x4000_0000_0000_0000_0000_0000_0000_0000);
    }
    let hidden: u128 = pow2_u128(fmt.frac_bits);
    let max_field: u128 = pow2_u128(fmt.exp_bits) - 1;
    let inf: u128 = max_field * hidden;
    assert(inf == fmt.inf());
    if q == 0 {
        proof {
            assert(!sticky) by {
                lemma_pow2_pos(fmt.width() + 1);
            }
            assert(n == 0);
            lemma_round_zero(fmt, d, e as int);
        }
        return 0;
    }
    let len: i64 = bit_length(q) as i64;
    let w: i64 = fmt.frac_bits as i64 + 1;
    proof {
        if sticky {
            // q has at least two bits beyond the significand
            if len < w + 2 {
                lemma_pow2_le(len as nat, (w + 1) as nat);
            }
        }
        lemma_round_from_floor(fmt, n, d, q as int, sticky, len as nat, e as int);
    }
    let s: i64 = if len + e - w > 0 {
        len + e - w
    } else {
        0
    };
    let j: i64 = s - e;
    let ghost sig_spec: int = if j >= 1 {
        nearest_even_sticky(q as int, sticky, j as nat)
    } else {
        q * pow2((-j) as nat)
    };
    proof {
        if j >= 1 {
            lemma_pow2_pos(j as nat);
            lemma_div_pos_is_pos(q as int, pow2(j as nat) as int);
        } else {
            lemma_pow2_pos((-j) as nat);
            lemma_mul_le(0, q as int, pow2((-j) as nat) as int);
        }
        assert(sig_spec >= 0);
    }
    if s as u128 >= max_field {
        proof {
            lemma_mul_le(max_field as int, s as int, hidden as int);
        }
        return inf as u64;
    }
    let sig: u128 = if j >= 1 {
        if j >= 127 {
            proof {
                lemma_pow2_le(126, (j - 1) as nat);
                lemma_pow2_double((j - 1) as nat);
                lemma_basic_div(q as int, pow2(j as nat) as int);
                lemma_small_mod(q as nat, pow2(j as nat));
            }
            0
        } else {
            let pj: u128 = pow2_u128(j as u32);
            let f: u128 = q / pj;
            let r: u128 = q % pj;
            let half: u128 = pj / 2;
            proof {
                lemma_pow2_double((j - 1) as nat);
                lemma_div_pos_is_pos(q as int, pj as int);
                assert(f <= q) by (nonlinear_arith)
                    requires
                        f == q / pj,
                        pj >= 1,
                        q >= 0,
                ;
            }
            if r < half || (r == half && !sticky && f % 2 == 0) {
                f
            } else {
                f + 1
            }
        }
    } else {
        proof {
            // -j <= w - len, so the product stays within the significand
            assert(-j <= w - len);
            lemma_pow2_sum(len as nat, (-j) as nat);
            lemma_pow2_le((len - j) as nat, w as nat);
            lemma_mul_lt(q as int, pow2(len as nat) as int, pow2((-j) as nat) as int);
        }
        q * pow2_u128((-j) as u32)
    };
    assert(sig == sig_spec);
    assert(s * hidden <= 2047 * 0x10_0000_0000_0000) by (nonlinear_arith)
        requires
            0 <= s < max_field,
            max_field <= 2047,
            0 < hidden <= 0x10_0000_0000_0000,
    ;
    let m: u128 = (s as u128) * hidden + sig;
    if m >= inf {
        inf as u64
    } else {
        m as u64
    }
}

/// The sign and the magnitude bits of a bit pattern.
pub(crate) fn split(fmt: Format, x: u64) -> (r: (bool, u64))
    requires
        fmt.wf(),
        fmt.valid(x as int),
    ensures
        r.0 == fmt.negative(x as int),
        r.1 == fmt.magnitude(x as int),
        r.1 < fmt.sign_bit(),
{
    proof {
        lemma_format_constants();
    }
    let sign_bit: u64 = pow2_u128(fmt.frac_bits + fmt.exp_bits) as u64;
    if x >= sign_bit {
        (true, x - sign_bit)
    } else {
        (false, x)
    }
}

/// The bit pattern with the given sign and magnitude bits.
pub(crate) fn join(fmt: Format, negative: bool, mag: u64) -> (r: u64)
    requires
        fmt.wf(),
        mag < fmt.sign_bit(),
    ensures
        r == fmt.pack(negative, mag as int),
        fmt.valid(r as int),
        fmt.negative(r as int) == negative,
        fmt.magnitude(r as int) == mag,
{
    proof {
        lemma_format_constants();
    }
    let sign_bit: u64 = pow2_u128(fmt.frac_bits + fmt.exp_bits) as u64;
    let r: u64 = if negative {
        sign_bit + mag
    } else {
        mag
    };
    proof {
        if fmt.frac_bits == 23 {
            assert(sign_bit == 0x8000_0000);
            assert(r as int % 0x8000_0000 == mag);
        } else {
            assert(sign_bit == 0x8000_0000_0000_0000);
            assert(r as int % 0x8000_0000_0000_0000 == mag);
        }
    }
    r
}

/// The significand `m` and the shift `sh` of finite magnitude bits: they
/// denote `m * 2^sh` units.
pub(crate) fn decode(fmt: Format, mag: u64) -> (r: (u64, u32))
    requires
        fmt.wf(),
        mag < fmt.inf(),
    ensures
        r.0 * pow2(r.1 as nat) == fmt.units(mag as int),
        r.0 < 2 * fmt.hidden(),
        r.1 > 0 ==> r.0 >= fmt.hidden(),
        r.1 + 2 < pow2(fmt.exp_bits as nat),
        (r.0 == 0) == (mag == 0),
{
    proof {
        lemma_format_constants();
        lemma2_to64();
    }
    let hidden: u64 = pow2_u128(fmt.frac_bits) as u64;
    let e: u64 = mag / hidden;
    let f: u64 = mag % hidden;
    proof {
        if fmt.frac_bits == 23 {
            assert(hidden == 0x80_0000);
            assert(e == mag / 0x80_0000 && f == mag % 0x80_0000);
            assert(e <= 254);
        } else {
            assert(hidden == 0x10_0000_0000_0000);
            assert(e == mag / 0x10_0000_0000_0000 && f == mag % 0x10_0000_0000_0000);
            assert(e <= 2046);
        }
    }
    if e == 0 {
        assert(f * pow2(0) == f) by (nonlinear_arith)
            requires
                pow2(0) == 1,
        ;
        (f, 0)
    } else {
        (hidden + f, (e - 1) as u32)
    }
}

/// The magnitude bits of infinity.
pub(crate) fn inf_bits(fmt: Format) -> (r: u64)
    requires
        fmt.wf(),
    ensures
        r == fmt.inf(),
        r < fmt.sign_bit(),
{
    proof {
        lemma_format_constants();
    }
    let hidden: u64 = pow2_u128(fmt.frac_bits) as u64;
    let max_field: u64 = (pow2_u128(fmt.exp_bits) - 1) as u64;
    max_field * hidden
}

/// The not-a-number that invalid operations return.
pub(crate) fn nan_bits(fmt: Format) -> (r: u64)
    requires
        fmt.wf(),
    ensures
        r == fmt.nan(),
        fmt.valid(r as int),
        fmt.is_nan(r as int),
{
    proof {
        lemma_format_constants();
    }
    let r: u64 = inf_bits(fmt) + pow2_u128(fmt.frac_bits - 1) as u64;
    proof {
        if fmt.frac_bits == 23 {
            assert(r as int % 0x8000_0000 == r);
        } else {
            assert(r as int % 0x8000_0000_0000_0000 == r);
        }
    }
    r
}

/// The exponent of one: the value one is `2^one_exp` units.
pub(crate) fn one_exp(fmt: Format) -> (r: u32)
    requires
        fmt.wf(),
    ensures
        r == fmt.one_exp(),
        r <= 1074,
{
    proof {
        lemma_format_constants();
        lemma2_to64();
    }
    pow2_u128(fmt.exp_bits - 1) as u32 + fmt.frac_bits - 2
}

/// The product of two bit patterns, rounded once.
pub(crate) fn product_bits(fmt: Format, a: u64, b: u64) -> (r: u64)
    requires
        fmt.wf(),
        fmt.valid(a as int),
        fmt.valid(b as int),
    ensures
        r == fmt.product(a as int, b as int),
        fmt.valid(r as int),
{
    let (na, ma) = split(fmt, a);
    let (nb, mb) = split(fmt, b);
    let inf = inf_bits(fmt);
    let neg = na != nb;
    if ma > inf || mb > inf {
        return nan_bits(fmt);
    }
    if ma == inf || mb == inf {
        if ma == 0 || mb == 0 {
            return nan_bits(fmt);
        }
        return join(fmt, neg, inf);
    }
    let (sa, ea) = decode(fmt, ma);
    let (sb, eb) = decode(fmt, mb);
    proof {
        lemma_format_constants();
        lemma_pow2_wide();
        assert(sa * sb < 0x40_0000_0000_0000 * 0x40_0000_0000_0000) by (nonlinear_arith)
            requires
                0 <= sa < 0x40_0000_0000_0000,
                0 <= sb < 0x40_0000_0000_0000,
        ;
    }
    let q: u128 = sa as u128 * sb as u128;
    let one = one_exp(fmt);
    let e: i64 = ea as i64 + eb as i64 - one as i64;
    proof {
        assert(q * 1 <= q < (q + 1) * 1) by (nonlinear_arith);
    }
    let m = round_pack(fmt, q, false, e, Ghost(q as int), Ghost(1));
    proof {
        let pa = pow2(ea as nat) as int;
        let pb = pow2(eb as nat) as int;
        lemma_round_scaled_split(fmt, q as int, 1, (ea + eb) as nat, one as nat);
        lemma_pow2_sum(ea as nat, eb as nat);
        let ua = fmt.units(ma as int);
        let ub = fmt.units(mb as int);
        assert(q * pow2((ea + eb) as nat) == ua * ub) by (nonlinear_arith)
            requires
                q == sa * sb,
                pow2((ea + eb) as nat) == pa * pb,
                ua == sa * pa,
                ub == sb * pb,
        ;
        assert(1 * pow2(one as nat) == pow2(one as nat)) by (nonlinear_arith);
    }
    join(fmt, neg, m)
}

/// The quotient of two bit patterns, rounded once.
pub(crate) fn quotient_bits(fmt: Format, a: u64, b: u64) -> (r: u64)
    requires
        fmt.wf(),
        fmt.valid(a as int),
        fmt.valid(b as int),
    ensures
        r == fmt.quotient(a as int, b as int),
        fmt.valid(r as int),
{
    let (na, ma) = split(fmt, a);
    let (nb, mb) = split(fmt, b);
    let inf = inf_bits(fmt);
    let neg = na != nb;
    if ma > inf || mb > inf {
        return nan_bits(fmt);
    }
    if ma == inf {
        if mb == inf {
            return nan_bits(fmt);
        }
        return join(fmt, neg, inf);
    }
    if mb == inf {
        return join(fmt, neg, 0);
    }
    if mb == 0 {
        if ma == 0 {
            return nan_bits(fmt);
        }
        return join(fmt, neg, inf);
    }
    let (sa, ea) = decode(fmt, ma);
    let (sb, eb) = decode(fmt, mb);
    proof {
        lemma_format_constants();
        lemma2_to64();
        lemma2_to64_rest();
        lemma_pow2_wide();
    }
    let w: u32 = fmt.frac_bits + 1;
    let len: u32 = bit_length(sa as u128);
    proof {
        if len > w {
            lemma_pow2_le(w as nat, (len - 1) as nat);
        }
    }
    let t: u32 = 64 + (w - len);
    let pt: u128 = pow2_u128(t);
    proof {
        // sa * 2^t lies in [2^(63 + w), 2^(64 + w)) unless sa is zero
        lemma_pow2_sum(len as nat, t as nat);
        lemma_mul_lt(sa as int, pow2(len as nat) as int, pt as int);
        lemma_pow2_le((64 + w) as nat, 117);
        lemma_pow2_sum(63, 54);
        lemma_pow2_le(117, 126);
        if sa > 0 {
            lemma_pow2_sum((len - 1) as nat, t as nat);
            lemma_mul_le(pow2((len - 1) as nat) as int, sa as int, pt as int);
        }
    }
    let big: u128 = sa as u128 * pt;
    let q: u128 = big / sb as u128;
    let rem: u128 = big % sb as u128;
    let sticky: bool = rem != 0;
    let one = one_exp(fmt);
    let e: i64 = ea as i64 + one as i64 - eb as i64 - t as i64;
    proof {
        lemma_fundamental_div_mod(big as int, sb as int);
        assert(q * sb <= big < (q + 1) * sb) by (nonlinear_arith)
            requires
                big == sb * q + rem,
                0 <= rem < sb,
        ;
        assert(sticky <==> big != q * sb) by (nonlinear_arith)
            requires
                big == sb * q + rem,
                sticky <==> rem != 0,
        ;
        assert(q <= big) by (nonlinear_arith)
            requires
                big == sb * q + rem,
                0 <= rem,
                sb >= 1,
                q >= 0,
        ;
        if sa > 0 {
            let p63 = pow2(63) as int;
            lemma_pow2_sum(63, w as nat);
            lemma_mul_le(sb as int, pow2(w as nat) as int, p63);
            assert(p63 * sb < (q + 1) * sb) by (nonlinear_arith)
                requires
                    sb * p63 <= pow2(w as nat) * p63,
                    pow2((63 + w) as nat) == p63 * pow2(w as nat),
                    pow2((63 + w) as nat) <= big,
                    big < (q + 1) * sb,
            ;
            lemma_mul_lt_cancel(p63, q + 1, sb as int);
            lemma_pow2_le((w + 1) as nat, 63);
        } else {
            assert(big == 0) by (nonlinear_arith)
                requires
                    big == sa * pt,
                    sa == 0,
            ;
        }
    }
    let m = round_pack(fmt, q, sticky, e, Ghost(big as int), Ghost(sb as int));
    proof {
        let pa = pow2(ea as nat) as int;
        let pb = pow2(eb as nat) as int;
        let po = pow2(one as nat) as int;
        let ua = fmt.units(ma as int);
        let ub = fmt.units(mb as int);
        lemma_round_scaled_split(fmt, big as int, sb as int, (ea + one) as nat, (eb + t) as nat);
        lemma_pow2_sum(ea as nat, one as nat);
        lemma_pow2_sum(eb as nat, t as nat);
        let n1 = big * pow2((ea + one) as nat);
        let d1 = sb * pow2((eb + t) as nat);
        lemma_mul_le(0, big as int, pow2((ea + one) as nat) as int);
        lemma_pow2_pos((eb + t) as nat);
        lemma_mul_lt(0, sb as int, pow2((eb + t) as nat) as int);
        lemma_mul_le(0, ua, po);
        assert(ub > 0) by (nonlinear_arith)
            requires
                ub == sb * pb,
                sb > 0,
                pb > 0,
        ;
        assert(ua >= 0) by (nonlinear_arith)
            requires
                ua == sa * pa,
                sa >= 0,
                pa > 0,
        ;
        assert(n1 * ub == (ua * po) * d1) by (nonlinear_arith)
            requires
                n1 == big * pow2((ea + one) as nat),
                d1 == sb * pow2((eb + t) as nat),
                big == sa * pt,
                pow2((ea + one) as nat) == pa * po,
                pow2((eb + t) as nat) == pb * pt,
                ua == sa * pa,
                ub == sb * pb,
        ;
        lemma_round_ratio(fmt, n1, d1, ua * po, ub);
    }
    join(fmt, neg, m)
}

/// The exact sum, or difference, of `sx * 2^ex` and `sy * 2^ey` units.
pub open spec fn exact_sum(same: bool, sx: u64, ex: u32, sy: u64, ey: u32) -> int {
    if same {
        sx * pow2(ex as nat) + sy * pow2(ey as nat)
    } else {
        sx * pow2(ex as nat) - sy * pow2(ey as nat)
    }
}

/// The sum of two finite values given by sign, significand and shift, the
/// first of magnitude no less than the second: the magnitude bits of the
/// rounded sum, or of the rounded difference where the signs differ.
fn sum_ordered(fmt: Format, same: bool, sx: u64, ex: u32, sy: u64, ey: u32) -> (r: (u64, bool))
    requires
        fmt.wf(),
        sx < 2 * fmt.hidden(),
        sy < 2 * fmt.hidden(),
        ex > 0 ==> sx >= fmt.hidden(),
        ex + 2 < pow2(fmt.exp_bits as nat),
        ex > ey || (ex == ey && sx >= sy),
    ensures
        sx * pow2(ex as nat) >= sy * pow2(ey as nat),
        r.0 == fmt.round_magnitude(exact_sum(same, sx, ex, sy, ey), 1),
        r.1 == (exact_sum(same, sx, ex, sy, ey) == 0),
        r.0 <= fmt.inf(),
{
    proof {
        lemma_format_constants();
        lemma2_to64();
        lemma2_to64_rest();
        lemma_pow2_wide();
    }
    let g: u32 = ex - ey;
    let ghost px = pow2(ex as nat) as int;
    let ghost py = pow2(ey as nat) as int;
    let ghost pg = pow2(g as nat) as int;
    let ghost ux = sx * px;
    let ghost uy = sy * py;
    proof {
        lemma_pow2_sum(g as nat, ey as nat);
        lemma_pow2_pos(ex as nat);
        assert(px == pg * py);
        lemma_mul_le(0, sy as int, py);
        lemma_mul_le(0, sx as int, px);
    }
    if g <= 60 || sy == 0 {
        if sy == 0 {
            proof {
                assert(uy == 0) by (nonlinear_arith)
                    requires
                        uy == sy * py,
                        sy == 0,
                ;
                assert(sx * 1 <= sx < (sx + 1) * 1) by (nonlinear_arith);
                assert(ux >= uy);
                assert((ux == 0) == (sx == 0)) by (nonlinear_arith)
                    requires
                        ux == sx * px,
                        px > 0,
                        sx >= 0,
                ;
            }
            let m0 = round_pack(fmt, sx as u128, false, ex as i64, Ghost(sx as int), Ghost(1));
            return (m0, sx == 0);
        }
        proof {
            lemma_pow2_le(g as nat, 60);
            assert(sx * pg <= 0x40_0000_0000_0000 * 0x1000_0000_0000_0000) by (nonlinear_arith)
                requires
                    0 <= sx <= 0x40_0000_0000_0000,
                    0 < pg <= 0x1000_0000_0000_0000,
            ;
            if g > 0 {
                lemma_pow2_le(1, g as nat);
                lemma_mul_le(2, pg, sx as int);
            } else {
                assert(sx * pg == sx) by (nonlinear_arith)
                    requires
                        pg == 1,
                ;
            }
        }
        let hi: u128 = sx as u128 * pow2_u128(g);
        assert(hi >= sy);
        let q: u128 = if same {
            hi + sy as u128
        } else {
            hi - sy as u128
        };
        proof {
            assert(ux == hi * py) by (nonlinear_arith)
                requires
                    ux == sx * px,
                    px == pg * py,
                    hi == sx * pg,
            ;
            assert(q * py == if same { ux + uy } else { ux - uy }) by (nonlinear_arith)
                requires
                    ux == hi * py,
                    uy == sy * py,
                    q == if same { hi + sy } else { hi - sy },
            ;
            lemma_mul_le(0, q as int, py);
            lemma_mul_le(sy as int, hi as int, py);
            assert(ux >= uy);
            assert(q * 1 <= q < (q + 1) * 1) by (nonlinear_arith);
        }
        proof {
            assert((q * py == 0) == (q == 0)) by (nonlinear_arith)
                requires
                    py > 0,
                    q >= 0,
            ;
        }
        let m1 = round_pack(fmt, q, false, ey as i64, Ghost(q as int), Ghost(1));
        (m1, q == 0)
    } else {
        // the smaller operand lies wholly below an eighth of the larger one's last place
        let q: u128 = if same {
            8 * sx as u128
        } else {
            (8 * sx as u128 - 1) as u128
        };
        let ghost d = pow2((ex - 3) as nat) as int;
        let ghost n = if same { ux + uy } else { ux - uy };
        proof {
            lemma_pow2_sum(3, (ex - 3) as nat);
            lemma_pow2_pos((ex - 3) as nat);
            assert(ux == (8 * sx) * d) by (nonlinear_arith)
                requires
                    ux == sx * px,
                    px == 8 * d,
            ;
            // uy < 2^(width + ey) <= 2^(ex - 3)
            let wy = (fmt.width() + ey) as nat;
            lemma_pow2_sum(fmt.width(), ey as nat);
            lemma_mul_lt(sy as int, pow2(fmt.width()) as int, py);
            lemma_pow2_le(wy, (ex - 3) as nat);
            assert(uy < d);
            assert(uy > 0) by (nonlinear_arith)
                requires
                    uy == sy * py,
                    sy > 0,
                    py > 0,
            ;
            assert(q * d <= n < (q + 1) * d) by (nonlinear_arith)
                requires
                    ux == (8 * sx) * d,
                    0 < uy < d,
                    n == if same { ux + uy } else { ux - uy },
                    q == if same { 8 * sx } else { 8 * sx - 1 },
            ;
            assert(n != q * d) by (nonlinear_arith)
                requires
                    ux == (8 * sx) * d,
                    0 < uy < d,
                    n == if same { ux + uy } else { ux - uy },
                    q == if same { 8 * sx } else { 8 * sx - 1 },
            ;
            lemma_pow2_double(fmt.frac_bits as nat);
            lemma_pow2_double(fmt.width());
            assert(ux >= d) by (nonlinear_arith)
                requires
                    ux == (8 * sx) * d,
                    sx >= 1,
                    d > 0,
            ;
            assert(ux >= uy);
        }
        let m = round_pack(fmt, q, true, ex as i64 - 3, Ghost(n), Ghost(d));
        proof {
            lemma_round_scaled_split(fmt, n, d, (ex - 3) as nat, 0);
            assert(d * pow2(0) == d * 1);
            lemma_round_scale(fmt, n, 1, d);
            assert(n * d == n * pow2((ex - 3) as nat));
            assert(1 * d == d * pow2(0)) by (nonlinear_arith)
                requires
                    pow2(0) == 1,
            ;
            assert(n > 0) by (nonlinear_arith)
                requires
                    q * d <= n,
                    q >= 1,
                    d > 0,
            ;
        }
        (m, false)
    }
}

/// The sum of two bit patterns, rounded once.
pub(crate) fn sum_bits(fmt: Format, a: u64, b: u64) -> (r: u64)
    requires
        fmt.wf(),
        fmt.valid(a as int),
        fmt.valid(b as int),
    ensures
        r == fmt.sum(a as int, b as int),
        fmt.valid(r as int),
{
    let (na, ma) = split(fmt, a);
    let (nb, mb) = split(fmt, b);
    let inf = inf_bits(fmt);
    if ma > inf || mb > inf {
        return nan_bits(fmt);
    }
    if ma == inf {
        if mb == inf && na != nb {
            return nan_bits(fmt);
        }
        return a;
    }
    if mb == inf {
        return b;
    }
    let (s1, e1) = decode(fmt, ma);
    let (s2, e2) = decode(fmt, mb);
    let same = na == nb;
    if e1 > e2 || (e1 == e2 && s1 >= s2) {
        let (m, zero) = sum_ordered(fmt, same, s1, e1, s2, e2);
        if zero {
            join(fmt, na && nb, 0)
        } else {
            join(fmt, na, m)
        }
    } else {
        let (m, zero) = sum_ordered(fmt, same, s2, e2, s1, e1);
        if zero {
            join(fmt, na && nb, 0)
        } else {
            join(fmt, nb, m)
        }
    }
}

/// The pattern with the other sign.
pub(crate) fn negated_bits(fmt: Format, a: u64) -> (r: u64)
    requires
        fmt.wf(),
        fmt.valid(a as int),
    ensures
        r == fmt.negated(a as int),
        fmt.valid(r as int),
{
    let (na, ma) = split(fmt, a);
    join(fmt, !na, ma)
}

/// Whether a bit pattern is not a number.
pub(crate) fn is_nan_bits(fmt: Format, a: u64) -> (r: bool)
    requires
        fmt.wf(),
        fmt.valid(a as int),
    ensures
        r == fmt.is_nan(a as int),
{
    let (na, ma) = split(fmt, a);
    ma > inf_bits(fmt)
}

/// The difference of two bit patterns, rounded once.
pub(crate) fn difference_bits(fmt: Format, a: u64, b: u64) -> (r: u64)
    requires
        fmt.wf(),
        fmt.valid(a as int),
        fmt.valid(b as int),
    ensures
        r == fmt.difference(a as int, b as int),
        fmt.valid(r as int),
{
    if is_nan_bits(fmt, a) || is_nan_bits(fmt, b) {
        return nan_bits(fmt);
    }
    let nb = negated_bits(fmt, b);
    sum_bits(fmt, a, nb)
}

/// Numeric equality of two bit patterns.
pub(crate) fn equal_bits(fmt: Format, a: u64, b: u64) -> (r: bool)
    requires
        fmt.wf(),
        fmt.valid(a as int),
        fmt.valid(b as int),
    ensures
        r == fmt.equal(a as int, b as int),
{
    let (na, ma) = split(fmt, a);
    let (nb, mb) = split(fmt, b);
    let inf = inf_bits(fmt);
    ma <= inf && mb <= inf && (a == b || (ma == 0 && mb == 0))
}

/// The value nearest to a whole number.
pub(crate) fn from_whole_bits(fmt: Format, n: u32) -> (r: u64)
    requires
        fmt.wf(),
    ensures
        r == fmt.from_whole(n as int),
        fmt.valid(r as int),
        r <= fmt.inf(),
{
    proof {
        lemma_format_constants();
        lemma_pow2_wide();
        assert(n * 1 <= n < (n + 1) * 1) by (nonlinear_arith);
    }
    let one = one_exp(fmt);
    round_pack(fmt, n as u128, false, one as i64, Ghost(n as int), Ghost(1))
}

/// The single-precision format.
pub(crate) fn single_format() -> (fmt: Format)
    ensures
        fmt == Format::single(),
{
    Format { frac_bits: 23, exp_bits: 8 }
}

/// The double-precision format.
pub(crate) fn double_format() -> (fmt: Format)
    ensures
        fmt == Format::double(),
{
    Format { frac_bits: 52, exp_bits: 11 }
}

/// The single-precision pattern nearest to a double-precision pattern.
pub(crate) fn narrowed_bits(a: u64) -> (r: u64)
    ensures
        r == narrowed(a as int),
        Format::single().valid(r as int),
{
    let wide = double_format();
    let slim = single_format();
    proof {
        lemma_format_constants();
        lemma_pow2_wide();
    }
    let (na, ma) = split(wide, a);
    let inf = inf_bits(wide);
    if ma > inf {
        return nan_bits(slim);
    }
    if ma == inf {
        return join(slim, na, inf_bits(slim));
    }
    let (s, e) = decode(wide, ma);
    let gap: u32 = one_exp(wide) - one_exp(slim);
    proof {
        assert(s * 1 <= s < (s + 1) * 1) by (nonlinear_arith);
    }
    let m = round_pack(slim, s as u128, false, e as i64 - gap as i64, Ghost(s as int), Ghost(1));
    proof {
        lemma_round_scaled_split(slim, s as int, 1, e as nat, gap as nat);
        assert(1 * pow2(gap as nat) == pow2(gap as nat)) by (nonlinear_arith);
    }
    join(slim, na, m)
}

} // verus!
