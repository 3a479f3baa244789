use laguerre_approx::integral::{adaptive_decide, AdaptiveStep};
use laguerre_approx::{ApproxError, Function, Mode};

#[test]
fn tolerance_met_accepts_the_estimate() {
    assert_eq!(adaptive_decide(2, 3, 10, true), Ok(AdaptiveStep::Converged));
    assert_eq!(adaptive_decide(1, 0, 0, true), Ok(AdaptiveStep::Converged));
}

#[test]
fn refinement_adds_one_panel() {
    assert_eq!(adaptive_decide(1, 0, 10, false), Ok(AdaptiveStep::Refine(2)));
    assert_eq!(adaptive_decide(7, 6, 10, false), Ok(AdaptiveStep::Refine(8)));
}

#[test]
fn cap_reached_reports_convergence_failure() {
    assert_eq!(
        adaptive_decide(11, 10, 10, false),
        Err(ApproxError::ConvergenceFailure { iterations: 10 })
    );
    // a cap below what the integrand needs fails at once instead of looping
    assert_eq!(
        adaptive_decide(1, 0, 0, false),
        Err(ApproxError::ConvergenceFailure { iterations: 0 })
    );
}

#[test]
fn error_variants_are_distinct() {
    let all = [
        ApproxError::InvalidInterval,
        ApproxError::DegenerateDenominator,
        ApproxError::ConvergenceFailure { iterations: 1 },
        ApproxError::InvalidDegree,
    ];
    for (i, a) in all.iter().enumerate() {
        for (j, b) in all.iter().enumerate() {
            assert_eq!(i == j, a == b);
        }
    }
    assert_ne!(
        ApproxError::ConvergenceFailure { iterations: 1 },
        ApproxError::ConvergenceFailure { iterations: 2 }
    );
}

#[test]
fn catalog_and_mode_are_plain_values() {
    let f = Function::Linear;
    assert_eq!(f, f.clone());
    assert_ne!(Function::Poly1, Function::Mixed);
    assert_eq!(format!("{:?}", Function::Sinusoidal), "Sinusoidal");
    let m = Mode::Nodes;
    assert!(m == Mode::Nodes && m != Mode::AproxError);
}
