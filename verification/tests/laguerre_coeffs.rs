use laguerre_approx::functions::{laguere_poly, laguere_poly_checked, LaguerreCoeff, MAX_DEGREE};
use laguerre_approx::ApproxError;

#[test]
fn coefficient_sequence_has_length_degree_plus_one() {
    for n in 0..=MAX_DEGREE {
        assert_eq!(laguere_poly(n).len(), n + 1);
    }
}

#[test]
fn degree_zero_is_the_constant_one() {
    let coeffs = laguere_poly(0);
    assert_eq!(coeffs.len(), 1);
    assert_eq!(coeffs[0], LaguerreCoeff { num: 1, den: 1 });
    assert_eq!(coeffs[0].num as f64 / coeffs[0].den as f64, 1.0);
}

#[test]
fn degree_two_coefficients_are_exact() {
    // L2(x) = 1 - 2x + x^2/2
    let coeffs = laguere_poly(2);
    assert_eq!(coeffs.len(), 3);
    assert_eq!(coeffs[0], LaguerreCoeff { num: 1, den: 1 });
    assert_eq!(coeffs[1], LaguerreCoeff { num: -2, den: 1 });
    assert_eq!(coeffs[2], LaguerreCoeff { num: 1, den: 2 });
}

#[test]
fn degree_three_coefficients_are_exact() {
    // L3(x) = 1 - 3x + (3/2)x^2 - (1/6)x^3
    let coeffs = laguere_poly(3);
    assert_eq!(coeffs.len(), 4);
    assert_eq!(coeffs[0], LaguerreCoeff { num: 1, den: 1 });
    assert_eq!(coeffs[1], LaguerreCoeff { num: -3, den: 1 });
    assert_eq!(coeffs[2], LaguerreCoeff { num: 3, den: 2 });
    assert_eq!(coeffs[3], LaguerreCoeff { num: -1, den: 6 });
}

#[test]
fn generator_is_idempotent() {
    for n in [0, 1, 5, MAX_DEGREE] {
        assert_eq!(laguere_poly(n), laguere_poly(n));
    }
}

#[test]
fn checked_generator_accepts_the_full_range() {
    for n in 0..=MAX_DEGREE {
        let got = laguere_poly_checked(n).unwrap();
        assert_eq!(got, laguere_poly(n));
    }
}

#[test]
fn checked_generator_rejects_degrees_past_the_ceiling() {
    assert_eq!(laguere_poly_checked(MAX_DEGREE + 1), Err(ApproxError::InvalidDegree));
    assert_eq!(laguere_poly_checked(usize::MAX), Err(ApproxError::InvalidDegree));
}
