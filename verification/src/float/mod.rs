//! Binary floating point on bit patterns.
//!
//! Scores, logits and probabilities are binary interchange numbers held by
//! their bits, and every operation is defined on the bits: the result is the
//! exact result rounded to the nearest representable number, ties going to the
//! even one. Nothing here depends on the machine's floating-point unit.

pub mod format;
pub mod laws;
pub mod number;
pub mod ratios;
pub mod rounding;
pub mod arith;

