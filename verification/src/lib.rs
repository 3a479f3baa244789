//! Approximation of a scalar function on a finite interval by a weighted sum
//! of Laguerre polynomials.
//!
//! The exact integer core lives here: factorials, binomial coefficients,
//! integer powers, Laguerre coefficient generation (as exact rationals),
//! Horner evaluation over integers, and the refinement policy of the adaptive
//! quadrature loop. The floating-point quadrature itself and the plotting
//! shell consume these from outside.

use vstd::prelude::*;

pub mod functions;
pub mod integral;

verus! {

/// How the shell reports the quality of an approximation: by node count or by
/// the estimated approximation error.
#[derive(Clone, Copy, PartialEq, Eq, Structural)]
pub enum Mode {
    Nodes,
    AproxError,
}

/// The fixed catalog of target functions that can be approximated.
#[derive(Debug, Clone, Copy, PartialEq, Eq, Structural)]
pub enum Function {
    Poly1,
    Poly2,
    Linear,
    Sinusoidal,
    Absolute,
    Mixed,
}

/// A computation error of the numerical pipeline, returned to the caller
/// rather than raised as a panic.
#[derive(Debug, Clone, Copy, PartialEq, Eq, Structural)]
pub enum ApproxError {
    /// An ordered interval could not be established from the given bounds.
    InvalidInterval,
    /// A denominator integral came out numerically zero, so the projection
    /// coefficient that divides by it is undefined.
    DegenerateDenominator,
    /// The adaptive quadrature loop hit its iteration cap before two
    /// successive estimates agreed within the tolerance.
    ConvergenceFailure { iterations: usize },
    /// The requested degree exceeds the range over which factorials are exact
    /// in 64-bit arithmetic.
    InvalidDegree,
}

} // verus!
