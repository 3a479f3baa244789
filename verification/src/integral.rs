//! The refinement policy of the adaptive composite quadrature rule. The
//! floating-point loop outside computes the composite estimates and hands in
//! whether the last two agreed within the tolerance; this module decides
//! whether to accept the estimate, refine with one more panel, or give up at
//! the iteration cap.

use vstd::prelude::*;

use crate::ApproxError;

verus! {

/// What the adaptive quadrature loop should do next.
#[derive(Debug, Clone, Copy, PartialEq, Eq, Structural)]
pub enum AdaptiveStep {
    /// The newest estimate is accepted as the value of the integral.
    Converged,
    /// Recompute the composite estimate with this many panels.
    Refine(usize),
}

/// One decision of the adaptive composite rule: accept the newest estimate
/// when the last two agreed within the tolerance, report a convergence
/// failure once the iteration cap is reached, and otherwise refine with one
/// more panel. The cap makes the surrounding loop finite on every input.
pub fn adaptive_decide(panels: usize, iterations: usize, cap: usize, within_tolerance: bool) -> (r:
    Result<AdaptiveStep, ApproxError>)
    requires
        panels < usize::MAX,
    ensures
        within_tolerance ==> r == (Ok::<AdaptiveStep, ApproxError>(AdaptiveStep::Converged)),
        !within_tolerance && iterations >= cap ==> r == (Err::<AdaptiveStep, ApproxError>(
            ApproxError::ConvergenceFailure { iterations },
        )),
        !within_tolerance && iterations < cap ==> r == (Ok::<AdaptiveStep, ApproxError>(
            AdaptiveStep::Refine((panels + 1) as usize),
        )),
{
    if within_tolerance {
        Ok(AdaptiveStep::Converged)
    } else if iterations >= cap {
        Err(ApproxError::ConvergenceFailure { iterations })
    } else {
        Ok(AdaptiveStep::Refine(panels + 1))
    }
}

} // verus!
