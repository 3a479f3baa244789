use laguerre_approx::functions::horner;

fn naive_eval(a: &[i64], x: i64) -> i64 {
    let mut sum: i64 = 0;
    for (i, c) in a.iter().enumerate() {
        sum += c * x.pow(i as u32);
    }
    sum
}

#[test]
fn horner_matches_the_power_sum() {
    // 3x^2 + 2x + 1 as the coefficient vector [1, 2, 3]
    let coeffs = vec![1i64, 2, 3];
    for x in [-5i64, -3, -1, 0, 1, 2, 4, 10] {
        let expected = 3 * x * x + 2 * x + 1;
        assert_eq!(horner(&coeffs, x), expected);
        assert_eq!(horner(&coeffs, x), naive_eval(&coeffs, x));
    }
}

#[test]
fn horner_on_a_constant() {
    let coeffs = vec![42i64];
    for x in [-7i64, 0, 9] {
        assert_eq!(horner(&coeffs, x), 42);
    }
}

#[test]
fn horner_on_a_quartic() {
    let coeffs = vec![-1i64, -1, 0, 2, 1];
    for x in [-4i64, -2, 0, 1, 3, 6] {
        assert_eq!(horner(&coeffs, x), naive_eval(&coeffs, x));
    }
}
