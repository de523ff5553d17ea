//! Exact-arithmetic B-spline basis and curve evaluation.
//!
//! Parameters, knots and control-point coordinates are rational numbers,
//! so span search and the Cox-de Boor recurrence are carried out exactly.

use vstd::prelude::*;

pub mod rat;
pub mod knots;
pub mod basis;
pub mod curve;
pub mod laws;

verus! {

/// Failure modes of construction and evaluation.
#[derive(Clone, Copy, Debug, PartialEq, Eq, Structural)]
pub enum SplineError {
    /// The parameter lies outside the knot domain.
    Domain,
    /// The control-point count does not match the basis size.
    Cardinality,
    /// An exact intermediate value left the representable range.
    Overflow,
}

} // verus!
