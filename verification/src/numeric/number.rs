//! The two number types of the library: double- and single-precision values
//! of IEEE 754, held as their bit patterns and computed with in integer
//! arithmetic, so that every result is the same on every machine.
//!
//! `==` on these types compares bit patterns: it tells the two zeros apart
//! and finds a not-a-number equal to itself. `eq_value` is the numeric
//! equality. An operation whose result is not a number always returns the
//! same quiet pattern, whatever its operands held.

use vstd::prelude::*;
use crate::numeric::arith::narrowed;
use crate::numeric::format::{Format, lemma_format_constants};
use crate::numeric::softfloat::{
    difference_bits, double_format, equal_bits, from_whole_bits, is_nan_bits, narrowed_bits,
    product_bits, quotient_bits, single_format, sum_bits,
};

verus! {

/// A double-precision value.
#[derive(Clone, Copy, PartialEq, Eq, Structural, Debug)]
pub struct Binary64 {
    pub bits: u64,
}

/// A single-precision value.
#[derive(Clone, Copy, PartialEq, Eq, Structural, Debug)]
pub struct Binary32 {
    pub bits: u32,
}

impl Binary64 {
    /// Zero, with the positive sign.
    pub open spec fn zero() -> Binary64 {
        Binary64 { bits: 0 }
    }

    /// One.
    pub open spec fn one() -> Binary64 {
        Binary64 { bits: 0x3ff0_0000_0000_0000 }
    }

    /// Whether this is not a number.
    pub open spec fn is_nan_spec(self) -> bool {
        Format::double().is_nan(self.bits as int)
    }

    /// Whether this is neither infinite nor not a number.
    pub open spec fn is_finite(self) -> bool {
        Format::double().is_finite(self.bits as int)
    }

    /// Whether this is one of the two zeros.
    pub open spec fn is_zero(self) -> bool {
        Format::double().is_zero(self.bits as int)
    }

    /// Whether this is the zero with the negative sign.
    pub open spec fn is_negative_zero(self) -> bool {
        self.bits == 0x8000_0000_0000_0000
    }

    /// Numeric equality: false with a not-a-number, true of the two zeros.
    pub open spec fn equals(self, other: Binary64) -> bool {
        Format::double().equal(self.bits as int, other.bits as int)
    }

    /// The sum, rounded once.
    pub open spec fn sum(self, other: Binary64) -> Binary64 {
        Binary64 { bits: Format::double().sum(self.bits as int, other.bits as int) as u64 }
    }

    /// The difference, rounded once.
    pub open spec fn difference(self, other: Binary64) -> Binary64 {
        Binary64 { bits: Format::double().difference(self.bits as int, other.bits as int) as u64 }
    }

    /// The product, rounded once.
    pub open spec fn product(self, other: Binary64) -> Binary64 {
        Binary64 { bits: Format::double().product(self.bits as int, other.bits as int) as u64 }
    }

    /// The quotient, rounded once.
    pub open spec fn quotient(self, other: Binary64) -> Binary64 {
        Binary64 { bits: Format::double().quotient(self.bits as int, other.bits as int) as u64 }
    }

    /// The nearest single-precision value.
    pub open spec fn narrowed(self) -> Binary32 {
        Binary32 { bits: narrowed(self.bits as int) as u32 }
    }

    /// The value with the given bit pattern.
    pub fn from_bits(bits: u64) -> (r: Binary64)
        ensures
            r.bits == bits,
    {
        Binary64 { bits }
    }

    /// The bit pattern of this value.
    pub fn to_bits(self) -> (r: u64)
        ensures
            r == self.bits,
    {
        self.bits
    }

    /// Whether this is not a number.
    #[verifier::when_used_as_spec(is_nan_spec)]
    pub fn is_nan(self) -> (r: bool)
        ensures
            r == self.is_nan_spec(),
    {
        proof {
            lemma_format_constants();
        }
        is_nan_bits(double_format(), self.bits)
    }

    /// Numeric equality.
    pub fn eq_value(self, other: Binary64) -> (r: bool)
        ensures
            r == self.equals(other),
    {
        proof {
            lemma_format_constants();
        }
        equal_bits(double_format(), self.bits, other.bits)
    }

    /// `self + other`.
    pub fn plus(self, other: Binary64) -> (r: Binary64)
        ensures
            r == self.sum(other),
    {
        proof {
            lemma_format_constants();
        }
        Binary64 { bits: sum_bits(double_format(), self.bits, other.bits) }
    }

    /// `self - other`.
    pub fn minus(self, other: Binary64) -> (r: Binary64)
        ensures
            r == self.difference(other),
    {
        proof {
            lemma_format_constants();
        }
        Binary64 { bits: difference_bits(double_format(), self.bits, other.bits) }
    }

    /// `self * other`.
    pub fn times(self, other: Binary64) -> (r: Binary64)
        ensures
            r == self.product(other),
    {
        proof {
            lemma_format_constants();
        }
        Binary64 { bits: product_bits(double_format(), self.bits, other.bits) }
    }

    /// `self / other`.
    pub fn over(self, other: Binary64) -> (r: Binary64)
        ensures
            r == self.quotient(other),
    {
        proof {
            lemma_format_constants();
        }
        Binary64 { bits: quotient_bits(double_format(), self.bits, other.bits) }
    }

    /// The nearest single-precision value.
    pub fn narrow(self) -> (r: Binary32)
        ensures
            r == self.narrowed(),
    {
        proof {
            lemma_format_constants();
        }
        let bits = narrowed_bits(self.bits);
        Binary32 { bits: bits as u32 }
    }
}

impl Binary32 {
    /// Zero, with the positive sign.
    pub open spec fn zero() -> Binary32 {
        Binary32 { bits: 0 }
    }

    /// One.
    pub open spec fn one() -> Binary32 {
        Binary32 { bits: 0x3f80_0000 }
    }

    /// Whether this is not a number.
    pub open spec fn is_nan_spec(self) -> bool {
        Format::single().is_nan(self.bits as int)
    }

    /// Whether this is neither infinite nor not a number.
    pub open spec fn is_finite(self) -> bool {
        Format::single().is_finite(self.bits as int)
    }

    /// Whether this is one of the two zeros.
    pub open spec fn is_zero(self) -> bool {
        Format::single().is_zero(self.bits as int)
    }

    /// Numeric equality: false with a not-a-number, true of the two zeros.
    pub open spec fn equals(self, other: Binary32) -> bool {
        Format::single().equal(self.bits as int, other.bits as int)
    }

    /// The sum, rounded once.
    pub open spec fn sum(self, other: Binary32) -> Binary32 {
        Binary32 { bits: Format::single().sum(self.bits as int, other.bits as int) as u32 }
    }

    /// The difference, rounded once.
    pub open spec fn difference(self, other: Binary32) -> Binary32 {
        Binary32 { bits: Format::single().difference(self.bits as int, other.bits as int) as u32 }
    }

    /// The product, rounded once.
    pub open spec fn product(self, other: Binary32) -> Binary32 {
        Binary32 { bits: Format::single().product(self.bits as int, other.bits as int) as u32 }
    }

    /// The quotient, rounded once.
    pub open spec fn quotient(self, other: Binary32) -> Binary32 {
        Binary32 { bits: Format::single().quotient(self.bits as int, other.bits as int) as u32 }
    }

    /// The value nearest to a whole number.
    pub open spec fn of_whole(n: u32) -> Binary32 {
        Binary32 { bits: Format::single().from_whole(n as int) as u32 }
    }

    /// The value with the given bit pattern.
    pub fn from_bits(bits: u32) -> (r: Binary32)
        ensures
            r.bits == bits,
    {
        Binary32 { bits }
    }

    /// The bit pattern of this value.
    pub fn to_bits(self) -> (r: u32)
        ensures
            r == self.bits,
    {
        self.bits
    }

    /// Whether this is not a number.
    #[verifier::when_used_as_spec(is_nan_spec)]
    pub fn is_nan(self) -> (r: bool)
        ensures
            r == self.is_nan_spec(),
    {
        proof {
            lemma_format_constants();
        }
        is_nan_bits(single_format(), self.bits as u64)
    }

    /// Numeric equality.
    pub fn eq_value(self, other: Binary32) -> (r: bool)
        ensures
            r == self.equals(other),
    {
        proof {
            lemma_format_constants();
        }
        equal_bits(single_format(), self.bits as u64, other.bits as u64)
    }

    /// The value nearest to a whole number.
    pub fn from_whole(n: u32) -> (r: Binary32)
        ensures
            r == Binary32::of_whole(n),
    {
        proof {
            lemma_format_constants();
        }
        Binary32 { bits: from_whole_bits(single_format(), n) as u32 }
    }

    /// `self + other`.
    pub fn plus(self, other: Binary32) -> (r: Binary32)
        ensures
            r == self.sum(other),
    {
        proof {
            lemma_format_constants();
        }
        Binary32 { bits: sum_bits(single_format(), self.bits as u64, other.bits as u64) as u32 }
    }

    /// `self - other`.
    pub fn minus(self, other: Binary32) -> (r: Binary32)
        ensures
            r == self.difference(other),
    {
        proof {
            lemma_format_constants();
        }
        Binary32 {
            bits: difference_bits(single_format(), self.bits as u64, other.bits as u64) as u32,
        }
    }

    /// `self * other`.
    pub fn times(self, other: Binary32) -> (r: Binary32)
        ensures
            r == self.product(other),
    {
        proof {
            lemma_format_constants();
        }
        Binary32 {
            bits: product_bits(single_format(), self.bits as u64, other.bits as u64) as u32,
        }
    }

    /// `self / other`.
    pub fn over(self, other: Binary32) -> (r: Binary32)
        ensures
            r == self.quotient(other),
    {
        proof {
            lemma_format_constants();
        }
        Binary32 {
            bits: quotient_bits(single_format(), self.bits as u64, other.bits as u64) as u32,
        }
    }
}

} // verus!
