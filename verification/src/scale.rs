//! Scales: numeric mappings from a data domain to a normalized range.

use vstd::prelude::*;
use crate::numeric::algebra::{
    lemma_difference_distinct, lemma_difference_self, lemma_difference_zero, lemma_negated,
    lemma_pack_fields, lemma_product_by_one, lemma_product_of_zero, lemma_product_one,
    lemma_quotient_of_zero, lemma_quotient_one, lemma_quotient_self, lemma_sum_with_zero,
    lemma_units_one, lemma_zero_plus,
};
use crate::numeric::format::{Format, lemma_format_constants};
use crate::numeric::number::Binary64;

verus! {

/// A mapping from data values to normalized values.
#[derive(Clone, Copy, Debug)]
pub enum Scale {
    Linear(Linear),
}

/// Linear interpolation that takes `domain.0` to `range.0` and `domain.1` to `range.1`.
#[derive(Clone, Copy, Debug)]
pub struct Linear {
    pub domain: (Binary64, Binary64),
    pub range: (Binary64, Binary64),
}

impl Linear {
    /// Where `v` lands: `range.0` outright when the domain has no extent,
    /// else `range.0 + t * (range.1 - range.0)` with
    /// `t = (v - domain.0) / (domain.1 - domain.0)`, each operation rounded once.
    pub open spec fn value_at(self, v: Binary64) -> Binary64 {
        let (d0, d1) = self.domain;
        let (r0, r1) = self.range;
        if d1.equals(d0) {
            r0
        } else {
            let t = v.difference(d0).quotient(d1.difference(d0));
            r0.sum(t.product(r1.difference(r0)))
        }
    }

    pub fn new(domain: (Binary64, Binary64), range: (Binary64, Binary64)) -> (r: Linear)
        ensures
            r.domain == domain,
            r.range == range,
    {
        Linear { domain, range }
    }

    pub fn map(&self, v: Binary64) -> (r: Binary64)
        ensures
            r == self.value_at(v),
    {
        let (d0, d1) = self.domain;
        let (r0, r1) = self.range;
        if d1.eq_value(d0) {
            return r0;
        }
        let t = v.minus(d0).over(d1.minus(d0));
        r0.plus(t.times(r1.minus(r0)))
    }
}

impl Scale {
    /// Where `v` lands under this scale.
    pub open spec fn value_at(self, v: Binary64) -> Binary64 {
        match self {
            Scale::Linear(l) => l.value_at(v),
        }
    }

    pub fn linear(domain: (Binary64, Binary64), range: (Binary64, Binary64)) -> (r: Scale)
        ensures
            r == Scale::Linear(Linear { domain, range }),
    {
        Scale::Linear(Linear::new(domain, range))
    }

    pub fn map(&self, v: Binary64) -> (r: Binary64)
        ensures
            r == self.value_at(v),
    {
        match self {
            Scale::Linear(l) => l.map(v),
        }
    }
}

/// A domain without extent sends every value to the start of the range.
pub proof fn lemma_degenerate_domain(l: Linear, v: Binary64)
    requires
        l.domain.0.equals(l.domain.1),
    ensures
        l.value_at(v) == l.range.0,
{
}

/// The start of the domain lands on the start of the range: for a finite
/// start of the domain, an end of the domain that differs from it, and a
/// range whose extent is finite.
///
/// Beyond these it does not hold: with an infinite end of the range, or
/// an extent that overflows, zero times the extent is not a number.
pub proof fn lemma_domain_start(l: Linear)
    requires
        l.domain.0.is_finite(),
        !l.domain.1.is_nan(),
        !l.domain.0.equals(l.domain.1),
        l.range.1.difference(l.range.0).is_finite(),
        l.range.0.is_finite(),
    ensures
        l.value_at(l.domain.0).equals(l.range.0),
        !l.range.0.is_zero() ==> l.value_at(l.domain.0) == l.range.0,
{
    let f = Format::double();
    lemma_format_constants();
    let d0 = l.domain.0.bits as int;
    let d1 = l.domain.1.bits as int;
    let r0 = l.range.0.bits as int;
    let span = l.range.1.difference(l.range.0).bits as int;
    // the numerator is zero
    lemma_difference_self(f, d0);
    assert(l.domain.0.difference(l.domain.0) == Binary64::zero());
    // the denominator is neither zero nor not-a-number
    let den = f.difference(d1, d0);
    if f.is_finite(d1) {
        lemma_difference_distinct(f, d1, d0);
    } else {
        lemma_negated(f, d0);
        assert(den == d1);
    }
    assert(l.domain.1.difference(l.domain.0).bits == den);
    // so the fraction is zero, and so is its product with the extent
    lemma_pack_fields(f, false, 0);
    lemma_quotient_of_zero(f, 0, den);
    let t = f.quotient(0, den);
    lemma_pack_fields(f, f.negative(0) != f.negative(den), 0);
    lemma_product_of_zero(f, t, span);
    let p = f.product(t, span);
    lemma_pack_fields(f, f.negative(t) != f.negative(span), 0);
    lemma_sum_with_zero(f, r0, p);
}

/// The end of the domain lands where the start of the range plus the
/// range's extent lands: for a finite domain of finite, nonzero extent.
pub proof fn lemma_domain_end_value(l: Linear)
    requires
        l.domain.0.is_finite(),
        l.domain.1.is_finite(),
        !l.domain.0.equals(l.domain.1),
        l.domain.1.difference(l.domain.0).is_finite(),
        !l.range.1.difference(l.range.0).is_nan(),
    ensures
        l.value_at(l.domain.1) == l.range.0.sum(l.range.1.difference(l.range.0)),
{
    let f = Format::double();
    lemma_format_constants();
    lemma_units_one(f);
    let d0 = l.domain.0.bits as int;
    let d1 = l.domain.1.bits as int;
    let span = l.range.1.difference(l.range.0).bits as int;
    lemma_difference_distinct(f, d1, d0);
    let den = f.difference(d1, d0);
    assert(l.domain.1.difference(l.domain.0).bits == den);
    lemma_quotient_self(f, den);
    lemma_product_one(f, span);
}

/// The end of the domain lands on the end of the range: for a finite domain
/// of finite, nonzero extent, and a range whose extent, added back to its
/// start, gives its end.
///
/// Beyond these it does not hold: the extent of the range is rounded, so
/// from 1e16 to 1 the start plus the extent is 0.
pub proof fn lemma_domain_end(l: Linear)
    requires
        l.domain.0.is_finite(),
        l.domain.1.is_finite(),
        !l.domain.0.equals(l.domain.1),
        l.domain.1.difference(l.domain.0).is_finite(),
        l.range.0.sum(l.range.1.difference(l.range.0)).equals(l.range.1),
    ensures
        l.value_at(l.domain.1).equals(l.range.1),
{
    let f = Format::double();
    lemma_format_constants();
    let r0 = l.range.0.bits as int;
    let span = l.range.1.difference(l.range.0).bits as int;
    if f.is_nan(span) {
        // a sum with not-a-number is not a number, and equals nothing
        lemma_pack_fields(f, false, f.quiet_nan());
        assert(f.sum(r0, span) == f.nan());
    }
    lemma_domain_end_value(l);
}

impl Linear {
    /// The identity scale, from `[0, 1]` onto `[0, 1]`.
    pub open spec fn identity() -> Linear {
        Linear {
            domain: (Binary64::zero(), Binary64::one()),
            range: (Binary64::zero(), Binary64::one()),
        }
    }
}

/// The identity scale leaves every number where it is; bit for bit, but for
/// the negative zero, which it sends to the positive zero.
pub proof fn lemma_identity_scale(v: Binary64)
    requires
        !v.is_nan(),
    ensures
        Linear::identity().value_at(v).equals(v),
        !v.is_negative_zero() ==> Linear::identity().value_at(v) == v,
{
    let f = Format::double();
    lemma_format_constants();
    lemma_units_one(f);
    let x = v.bits as int;
    let one = f.one();
    lemma_pack_fields(f, false, 0);
    lemma_difference_zero(f, x);
    lemma_difference_zero(f, one);
    lemma_quotient_one(f, x);
    lemma_product_by_one(f, x);
    lemma_zero_plus(f, 0, x);
    if f.is_zero(x) {
        lemma_pack_fields(f, false, 0);
    }
}

/// A scale onto `[0, 1]` sends the start of its domain to zero and the end
/// to one: for a finite domain of finite, nonzero extent.
pub proof fn lemma_unit_range_endpoints(domain: (Binary64, Binary64))
    requires
        domain.0.is_finite(),
        domain.1.is_finite(),
        !domain.0.equals(domain.1),
        domain.1.difference(domain.0).is_finite(),
    ensures
        (Linear { domain, range: (Binary64::zero(), Binary64::one()) }).value_at(domain.0)
            == Binary64::zero(),
        (Linear { domain, range: (Binary64::zero(), Binary64::one()) }).value_at(domain.1)
            == Binary64::one(),
{
    let f = Format::double();
    let l = Linear { domain, range: (Binary64::zero(), Binary64::one()) };
    lemma_format_constants();
    lemma_units_one(f);
    lemma_pack_fields(f, false, 0);
    lemma_difference_zero(f, f.one());
    assert(l.range.1.difference(l.range.0) == Binary64::one());
    lemma_zero_plus(f, 0, f.one());
    lemma_domain_end_value(l);
    // the start of the domain
    let d0 = domain.0.bits as int;
    let d1 = domain.1.bits as int;
    lemma_difference_self(f, d0);
    lemma_difference_distinct(f, d1, d0);
    let den = f.difference(d1, d0);
    lemma_quotient_of_zero(f, 0, den);
    let t = f.quotient(0, den);
    lemma_pack_fields(f, f.negative(0) != f.negative(den), 0);
    lemma_product_of_zero(f, t, f.one());
    let p = f.product(t, f.one());
    lemma_pack_fields(f, f.negative(t) != f.negative(f.one()), 0);
    lemma_zero_plus(f, 0, p);
    lemma_pack_fields(f, f.negative(0) && f.negative(p), 0);
}

} // verus!
