//! Verified core of a GKR interactive proof for layered arithmetic circuits,
//! built on the sumcheck protocol over multilinear polynomials in evaluation
//! form, with challenges drawn from a Fiat-Shamir transcript.

use vstd::prelude::*;

pub mod algebra;
pub mod evaluation_form;
pub mod field;
pub mod gkr;
pub mod gkr_sumcheck;
pub mod hypercube;
pub mod product_poly;
pub mod sumcheck;
pub mod transcript;
pub mod univariate;

verus! {

/// A construction error: the shape of a value handed to a polynomial
/// operation does not fit the operation.  Distinct from a protocol REJECT,
/// which is the negative outcome of a verification and not an error.
#[derive(Clone, Copy, Debug, PartialEq, Eq, Structural)]
pub enum PolyError {
    /// The number of values is not a power of two.
    InvalidLength,
    /// A variable position at or beyond the number of free variables.
    IndexOutOfRange,
    /// Two value tables that should have equal length do not.
    LengthMismatch,
    /// A product with the wrong number of factors for the operation.
    ArityMismatch,
}

} // verus!
