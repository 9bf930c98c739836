//! Numbers: the binary formats of IEEE 754 as bit patterns, their arithmetic
//! in integer operations, and the proofs that each operation returns the
//! exact result rounded once.
//!
//! - `format` says what a bit pattern denotes and defines rounding;
//! - `rounding` holds the integer arithmetic of rounding to nearest, ties to even;
//! - `nearest` proves that rounding gives the nearest value;
//! - `arith` defines what each operation returns;
//! - `softfloat` computes the operations;
//! - `algebra` proves the identities of operations whose result is exact;
//! - `number` wraps it all in the two number types.

pub mod algebra;
pub mod arith;
pub mod format;
pub mod nearest;
pub mod number;
pub mod rounding;
pub mod softfloat;
