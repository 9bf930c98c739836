//! What the arithmetic operations return: the exact result, rounded once to
//! the nearest value, ties to even, with the special cases of IEEE 754.

use vstd::prelude::*;
use vstd::arithmetic::power2::pow2;
use crate::numeric::format::Format;

verus! {

impl Format {
    /// A bit pattern of this format: nothing above the sign bit.
    pub open spec fn valid(self, bits: int) -> bool {
        0 <= bits < 2 * self.sign_bit()
    }

    /// The magnitude bits of one: the exponent field at its bias, the fraction zero.
    pub open spec fn one(self) -> int {
        (pow2((self.exp_bits - 1) as nat) - 1) * pow2(self.frac_bits as nat)
    }

    /// The not-a-number that every invalid operation returns.
    pub open spec fn nan(self) -> int {
        self.quiet_nan()
    }

    /// The pattern with the other sign.
    pub open spec fn negated(self, a: int) -> int {
        self.pack(!self.negative(a), self.magnitude(a))
    }

    /// The value nearest to `v / d` units, for a signed `v`.
    pub open spec fn round_signed(self, v: int, d: int) -> int {
        if v < 0 {
            self.pack(true, self.round_magnitude(-v, d))
        } else {
            self.pack(false, self.round_magnitude(v, d))
        }
    }

    /// The sum. Not-a-number absorbs, and so does the sum of opposite
    /// infinities; an infinity otherwise wins; an exact zero is negative only
    /// if both operands are; every other sum is rounded once.
    pub open spec fn sum(self, a: int, b: int) -> int {
        if self.is_nan(a) || self.is_nan(b) {
            self.nan()
        } else if self.is_infinite(a) {
            if self.is_infinite(b) && self.negative(a) != self.negative(b) {
                self.nan()
            } else {
                a
            }
        } else if self.is_infinite(b) {
            b
        } else {
            let v = self.value(a) + self.value(b);
            if v == 0 {
                self.pack(self.negative(a) && self.negative(b), 0)
            } else {
                self.round_signed(v, 1)
            }
        }
    }

    /// The difference: the sum with the second operand negated.
    pub open spec fn difference(self, a: int, b: int) -> int {
        if self.is_nan(a) || self.is_nan(b) {
            self.nan()
        } else {
            self.sum(a, self.negated(b))
        }
    }

    /// The product. Its sign is the exclusive or of the operands' signs;
    /// infinity times zero is not a number.
    pub open spec fn product(self, a: int, b: int) -> int {
        let neg = self.negative(a) != self.negative(b);
        if self.is_nan(a) || self.is_nan(b) {
            self.nan()
        } else if self.is_infinite(a) || self.is_infinite(b) {
            if self.is_zero(a) || self.is_zero(b) {
                self.nan()
            } else {
                self.pack(neg, self.inf())
            }
        } else {
            self.pack(
                neg,
                self.round_magnitude(
                    self.units(self.magnitude(a)) * self.units(self.magnitude(b)),
                    pow2(self.one_exp()) as int,
                ),
            )
        }
    }

    /// The quotient. Its sign is the exclusive or of the operands' signs;
    /// zero by zero and infinity by infinity are not numbers; a nonzero value
    /// by zero is infinite.
    pub open spec fn quotient(self, a: int, b: int) -> int {
        let neg = self.negative(a) != self.negative(b);
        if self.is_nan(a) || self.is_nan(b) {
            self.nan()
        } else if self.is_infinite(a) {
            if self.is_infinite(b) {
                self.nan()
            } else {
                self.pack(neg, self.inf())
            }
        } else if self.is_infinite(b) {
            self.pack(neg, 0)
        } else if self.is_zero(b) {
            if self.is_zero(a) {
                self.nan()
            } else {
                self.pack(neg, self.inf())
            }
        } else {
            self.pack(
                neg,
                self.round_magnitude(
                    self.units(self.magnitude(a)) * pow2(self.one_exp()),
                    self.units(self.magnitude(b)),
                ),
            )
        }
    }

    /// Numeric equality: not-a-number equals nothing, and the two zeros are equal.
    pub open spec fn equal(self, a: int, b: int) -> bool {
        !self.is_nan(a) && !self.is_nan(b) && (a == b || (self.is_zero(a) && self.is_zero(b)))
    }

    /// The value of this format nearest to the whole number `n`.
    pub open spec fn from_whole(self, n: int) -> int {
        self.round_magnitude(n * pow2(self.one_exp()), 1)
    }
}

/// The single-precision value nearest to a double-precision value.
pub open spec fn narrowed(a: int) -> int {
    let wide = Format::double();
    let slim = Format::single();
    if wide.is_nan(a) {
        slim.nan()
    } else if wide.is_infinite(a) {
        slim.pack(wide.negative(a), slim.inf())
    } else {
        slim.pack(
            wide.negative(a),
            slim.round_magnitude(
                wide.units(wide.magnitude(a)),
                pow2((wide.one_exp() - slim.one_exp()) as nat) as int,
            ),
        )
    }
}

} // verus!
