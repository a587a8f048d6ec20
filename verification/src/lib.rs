//! Baby-step giant-step discrete logarithms over arbitrary-precision
//! integers, with a verified modular-arithmetic core.

use vstd::prelude::*;

pub mod arith;
pub mod bigint;
pub mod modular;
pub mod solver;
pub mod table;

verus! {

/// The failures the modular-arithmetic entry points can report.
#[derive(Debug, Clone, Copy, PartialEq, Eq, Structural)]
pub enum DlogError {
    /// A modular inverse was needed, but the base and the modulus share a
    /// divisor greater than one.
    NotInvertible,
    /// Both passes of the search finished without a collision: the claimed
    /// exponent bound was too small, or no solution exists in range.
    SearchExhausted,
    /// The modulus handed in was zero or negative.
    InvalidModulus,
}

} // verus!
