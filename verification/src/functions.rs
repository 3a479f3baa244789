//! Exact integer combinatorics and polynomial machinery: factorial, binomial
//! coefficient, integer power, Horner evaluation, and the Laguerre coefficient
//! sequence as exact rationals.

use vstd::prelude::*;

use crate::ApproxError;

verus! {

/// The largest degree whose factorial is exact in a 64-bit signed integer.
pub const MAX_DEGREE: usize = 20;

/// Mathematical factorial.
pub open spec fn spec_factorial(n: nat) -> nat
    decreases n,
{
    if n == 0 {
        1
    } else {
        n * spec_factorial((n - 1) as nat)
    }
}

/// Every factorial is at least one.
pub proof fn lemma_factorial_pos(n: nat)
    ensures
        spec_factorial(n) >= 1,
    decreases n,
{
    if n > 0 {
        lemma_factorial_pos((n - 1) as nat);
        let f = spec_factorial((n - 1) as nat);
        assert(n * f >= 1) by (nonlinear_arith)
            requires
                n >= 1,
                f >= 1,
        ;
    }
}

/// The factorial does not decrease as its argument grows.
pub proof fn lemma_factorial_monotone(m: nat, n: nat)
    requires
        m <= n,
    ensures
        spec_factorial(m) <= spec_factorial(n),
    decreases n,
{
    if m < n {
        lemma_factorial_monotone(m, (n - 1) as nat);
        lemma_factorial_pos((n - 1) as nat);
        let f = spec_factorial((n - 1) as nat);
        assert(f <= n * f) by (nonlinear_arith)
            requires
                n >= 1,
                f >= 0,
        ;
    }
}

/// Factorials of arguments up to `MAX_DEGREE` fit in an `i64`.
pub proof fn lemma_factorial_fits(n: nat)
    requires
        n <= MAX_DEGREE,
    ensures
        spec_factorial(n) <= 2432902008176640000,
{
    lemma_factorial_monotone(n, MAX_DEGREE as nat);
    assert(spec_factorial(MAX_DEGREE as nat) == 2432902008176640000) by {
        reveal_with_fuel(spec_factorial, 21);
    }
}

/// Exact factorial of `n`, which must lie in the range where the result fits
/// in an `i64`.
pub fn factorial(n: usize) -> (r: i64)
    requires
        n <= MAX_DEGREE,
    ensures
        r == spec_factorial(n as nat),
    decreases n,
{
    if n == 0 {
        1
    } else {
        let sub = factorial(n - 1);
        proof {
            lemma_factorial_fits(n as nat);
            lemma_factorial_pos((n - 1) as nat);
            assert(spec_factorial(n as nat) == n * spec_factorial((n - 1) as nat));
        }
        n as i64 * sub
    }
}

/// The product of two factorials is at most the factorial of the sum.
pub proof fn lemma_factorial_product(a: nat, b: nat)
    ensures
        spec_factorial(a) * spec_factorial(b) <= spec_factorial(a + b),
    decreases b,
{
    if b == 0 {
        assert(spec_factorial(a) * 1 == spec_factorial(a));
    } else {
        lemma_factorial_product(a, (b - 1) as nat);
        let fa = spec_factorial(a);
        let fb1 = spec_factorial((b - 1) as nat);
        let fab1 = spec_factorial((a + b - 1) as nat);
        lemma_factorial_pos(a);
        lemma_factorial_pos((b - 1) as nat);
        lemma_factorial_pos((a + b - 1) as nat);
        assert(spec_factorial(b) == b * fb1);
        assert(spec_factorial(a + b) == (a + b) * fab1);
        assert(fa * (b * fb1) <= (a + b) * fab1) by (nonlinear_arith)
            requires
                fa * fb1 <= fab1,
                fa >= 1,
                fb1 >= 1,
                fab1 >= 1,
                b >= 1,
                a >= 0,
        ;
    }
}

/// The product of two factorials divides the factorial of the sum: the
/// quotient defining a binomial coefficient is an exact integer, and this
/// lemma hands that quotient back.
pub proof fn lemma_factorial_divides(a: nat, b: nat) -> (c: nat)
    ensures
        spec_factorial(a + b) == c * (spec_factorial(a) * spec_factorial(b)),
    decreases a + b,
{
    if a == 0 {
        assert(spec_factorial(0) == 1);
        assert(spec_factorial(a + b) == 1nat * (spec_factorial(a) * spec_factorial(b)));
        1nat
    } else if b == 0 {
        assert(spec_factorial(0) == 1);
        let fa = spec_factorial(a);
        assert(fa == 1nat * (fa * 1)) by (nonlinear_arith);
        assert(spec_factorial(a + b) == 1nat * (spec_factorial(a) * spec_factorial(b)));
        1nat
    } else {
        let c1 = lemma_factorial_divides((a - 1) as nat, b);
        let c2 = lemma_factorial_divides(a, (b - 1) as nat);
        let fa1 = spec_factorial((a - 1) as nat);
        let fb1 = spec_factorial((b - 1) as nat);
        let fa = spec_factorial(a);
        let fb = spec_factorial(b);
        let fs1 = spec_factorial((a + b - 1) as nat);
        assert(fa == a * fa1);
        assert(fb == b * fb1);
        assert(spec_factorial(a + b) == (a + b) * fs1);
        assert(a * fs1 == c1 * (fa * fb)) by (nonlinear_arith)
            requires
                fs1 == c1 * (fa1 * fb),
                fa == a * fa1,
        ;
        assert(b * fs1 == c2 * (fa * fb)) by (nonlinear_arith)
            requires
                fs1 == c2 * (fa * fb1),
                fb == b * fb1,
        ;
        assert((a + b) * fs1 == (c1 + c2) * (fa * fb)) by (nonlinear_arith)
            requires
                a * fs1 == c1 * (fa * fb),
                b * fs1 == c2 * (fa * fb),
        ;
        assert(spec_factorial(a + b) == (c1 + c2) * (spec_factorial(a) * spec_factorial(b)));
        c1 + c2
    }
}

/// The binomial coefficient, as the quotient of factorials; it is zero when
/// the upper index is the smaller one, and one when the two are equal.
pub open spec fn spec_binomial(top: nat, bot: nat) -> int {
    if top > bot {
        spec_factorial(top) as int / (spec_factorial((top - bot) as nat) * spec_factorial(bot)) as int
    } else if top == bot {
        1
    } else {
        0
    }
}

/// Binomial coefficient of `top` over `bot`, exact for `top` up to
/// `MAX_DEGREE`.
pub fn binomial_coeff(top: usize, bot: usize) -> (r: i64)
    requires
        top <= MAX_DEGREE,
    ensures
        r == spec_binomial(top as nat, bot as nat),
        0 <= r <= spec_factorial(top as nat),
        top > bot ==> r * (spec_factorial((top - bot) as nat) * spec_factorial(bot as nat))
            == spec_factorial(top as nat),
{
    if top > bot {
        let ft = factorial(top);
        let fd = factorial(top - bot);
        let fb = factorial(bot);
        proof {
            lemma_factorial_product((top - bot) as nat, bot as nat);
            lemma_factorial_pos((top - bot) as nat);
            lemma_factorial_pos(bot as nat);
            lemma_factorial_fits(top as nat);
            lemma_factorial_pos(top as nat);
            assert(fd * fb >= 1) by (nonlinear_arith)
                requires
                    fd >= 1,
                    fb >= 1,
            ;
        }
        let den = fd * fb;
        let q = ft / den;
        proof {
            vstd::arithmetic::div_mod::lemma_div_pos_is_pos(ft as int, den as int);
            vstd::arithmetic::div_mod::lemma_div_nonincreasing(ft as int, den as int);
            let c = lemma_factorial_divides((top - bot) as nat, bot as nat);
            assert(ft as int == den as int * c) by (nonlinear_arith)
                requires
                    ft == c * (fd as int * fb as int),
                    den == fd as int * fb as int,
            ;
            vstd::arithmetic::div_mod::lemma_div_multiples_vanish(c as int, den as int);
            assert(q == c);
            assert(q * (fd as int * fb as int) == spec_factorial(top as nat)) by (nonlinear_arith)
                requires
                    q == c,
                    spec_factorial(top as nat) == c * (fd as int * fb as int),
            ;
        }
        q
    } else if top == bot {
        proof {
            lemma_factorial_pos(top as nat);
        }
        1
    } else {
        0
    }
}

/// Mathematical integer power.
pub open spec fn spec_pow(x: int, n: nat) -> int
    decreases n,
{
    if n == 0 {
        1
    } else {
        x * spec_pow(x, (n - 1) as nat)
    }
}

/// A power of minus one is one for even exponents and minus one for odd ones.
pub proof fn lemma_pow_neg_one(n: nat)
    ensures
        spec_pow(-1, n) == if n % 2 == 0 { 1int } else { -1int },
    decreases n,
{
    if n > 0 {
        lemma_pow_neg_one((n - 1) as nat);
    }
}

/// Integer power `x^n` by repeated multiplication; every intermediate power
/// must fit in an `i64`.
pub fn pow(x: i64, n: usize) -> (r: i64)
    requires
        forall|i: nat| i <= n ==> i64::MIN <= #[trigger] spec_pow(x as int, i) <= i64::MAX,
    ensures
        r == spec_pow(x as int, n as nat),
{
    if n == 0 {
        return 1;
    }
    if n == 1 {
        assert(spec_pow(x as int, 1) == x as int * spec_pow(x as int, 0));
        return x;
    }
    let mut out: i64 = x;
    assert(spec_pow(x as int, 1) == x as int * spec_pow(x as int, 0));
    for i in 1..n
        invariant
            out == spec_pow(x as int, i as nat),
            forall|j: nat| j <= n ==> i64::MIN <= #[trigger] spec_pow(x as int, j) <= i64::MAX,
    {
        assert(spec_pow(x as int, (i + 1) as nat) == x as int * spec_pow(x as int, i as nat));
        out = out * x;
    }
    out
}

/// The value of the polynomial with coefficient sequence `a` (entry `i`
/// multiplying `x^i`) at the point `x`: the plain sum of the `a[i] * x^i`.
pub open spec fn poly_eval(a: Seq<int>, x: int) -> int
    decreases a.len(),
{
    if a.len() == 0 {
        0
    } else {
        poly_eval(a.drop_last(), x) + a.last() * spec_pow(x, (a.len() - 1) as nat)
    }
}

/// A coefficient vector read as a sequence of mathematical integers.
pub open spec fn coeffs_as_ints(a: Seq<i64>) -> Seq<int> {
    a.map_values(|v: i64| v as int)
}

/// Evaluating a non-empty polynomial splits into its constant term plus `x`
/// times the polynomial shifted down by one power.
pub proof fn lemma_poly_eval_head(a: Seq<int>, x: int)
    requires
        a.len() >= 1,
    ensures
        poly_eval(a, x) == a[0] + x * poly_eval(a.subrange(1, a.len() as int), x),
    decreases a.len(),
{
    let n = a.len() as int;
    let tail = a.subrange(1, n);
    if a.len() == 1 {
        assert(a.drop_last() =~= Seq::<int>::empty());
        assert(tail =~= Seq::<int>::empty());
        assert(spec_pow(x, 0) == 1);
    } else {
        lemma_poly_eval_head(a.drop_last(), x);
        assert(a.drop_last().subrange(1, n - 1) =~= tail.drop_last());
        assert(tail.last() == a.last());
        assert(spec_pow(x, (n - 1) as nat) == x * spec_pow(x, (n - 2) as nat));
        let p = poly_eval(tail.drop_last(), x);
        let c = a.last();
        let q = spec_pow(x, (n - 2) as nat);
        assert(poly_eval(tail, x) == p + c * q);
        assert(c * (x * q) == x * (c * q)) by (nonlinear_arith);
        assert(x * (p + c * q) == x * p + x * (c * q)) by (nonlinear_arith);
    }
}

/// The value at `x` of the tail of `a` from index `i` up, taken as a
/// polynomial in its own right; these are the partial results that Horner's
/// method walks through, from the highest power down.
pub open spec fn horner_partial(a: Seq<int>, x: int, i: int) -> int {
    poly_eval(a.subrange(i, a.len() as int), x)
}

/// The value of the polynomial with coefficient vector `a` at the point `x`,
/// by Horner's method. The coefficient vector must be non-empty, and every
/// partial result of the method must fit in an `i64`.
pub fn horner(a: &Vec<i64>, x: i64) -> (r: i64)
    requires
        a@.len() >= 1,
        forall|i: int|
            0 <= i < a@.len() ==> i64::MIN <= #[trigger] horner_partial(
                coeffs_as_ints(a@),
                x as int,
                i,
            ) <= i64::MAX,
        forall|i: int|
            1 <= i < a@.len() ==> i64::MIN <= x as int * #[trigger] horner_partial(
                coeffs_as_ints(a@),
                x as int,
                i,
            ) <= i64::MAX,
    ensures
        r == poly_eval(coeffs_as_ints(a@), x as int),
{
    let ghost s = coeffs_as_ints(a@);
    let n = a.len();
    let mut i = n - 1;
    let mut out = a[i];
    proof {
        assert(s[n - 1] == a@[n - 1] as int);
        let single = s.subrange(n - 1 as int, n as int);
        assert(single.drop_last() =~= Seq::<int>::empty());
        assert(poly_eval(Seq::<int>::empty(), x as int) == 0);
        assert(spec_pow(x as int, 0) == 1);
        assert(single.last() == s[n - 1]);
        assert(poly_eval(single, x as int) == s[n - 1]);
    }
    while i > 0
        invariant
            0 <= i < n,
            n == a@.len(),
            s == coeffs_as_ints(a@),
            out == horner_partial(s, x as int, i as int),
            forall|j: int|
                0 <= j < a@.len() ==> i64::MIN <= #[trigger] horner_partial(s, x as int, j)
                    <= i64::MAX,
            forall|j: int|
                1 <= j < a@.len() ==> i64::MIN <= x as int * #[trigger] horner_partial(
                    s,
                    x as int,
                    j,
                ) <= i64::MAX,
        decreases i,
    {
        i = i - 1;
        proof {
            let sub = s.subrange(i as int, n as int);
            lemma_poly_eval_head(sub, x as int);
            assert(sub.subrange(1, (n - i) as int) =~= s.subrange(i as int + 1, n as int));
            assert(sub[0] == s[i as int]);
            assert(s[i as int] == a@[i as int] as int);
            assert(out == horner_partial(s, x as int, i as int + 1));
            assert(i64::MIN <= x as int * horner_partial(s, x as int, i as int + 1) <= i64::MAX);
            assert(out as int * x as int == x as int * horner_partial(s, x as int, i as int + 1));
            assert(horner_partial(s, x as int, i as int) == s[i as int] + x as int * horner_partial(
                s,
                x as int,
                i as int + 1,
            ));
        }
        out = out * x + a[i];
    }
    proof {
        assert(s.subrange(0, n as int) =~= s);
    }
    out
}

/// One coefficient of a Laguerre polynomial, held as the exact rational
/// `num / den`.
#[derive(Debug, Clone, Copy, PartialEq, Eq, Structural)]
pub struct LaguerreCoeff {
    /// Signed numerator: a power of minus one times a binomial coefficient.
    pub num: i64,
    /// Positive denominator: the factorial of the coefficient's index.
    pub den: i64,
}

/// `r` is the coefficient sequence of the degree-`n` Laguerre polynomial:
/// entry `k` holds the exact rational `(-1)^k * C(n, k) / k!`, with entry `k`
/// multiplying `x^k`.
pub open spec fn is_laguerre_coeffs(r: Seq<LaguerreCoeff>, n: nat) -> bool {
    &&& r.len() == n + 1
    &&& forall|k: int|
        0 <= k <= n ==> (#[trigger] r[k]).num == spec_pow(-1, k as nat) * spec_binomial(
            n,
            k as nat,
        )
    &&& forall|k: int| 0 <= k <= n ==> (#[trigger] r[k]).den == spec_factorial(k as nat)
}

/// The coefficient sequence of the degree-`n` Laguerre polynomial, exact in
/// integer arithmetic; the degree must not exceed `MAX_DEGREE`.
pub fn laguere_poly(n: usize) -> (r: Vec<LaguerreCoeff>)
    requires
        n <= MAX_DEGREE,
    ensures
        is_laguerre_coeffs(r@, n as nat),
{
    let mut val: Vec<LaguerreCoeff> = Vec::new();
    for k in 0..(n + 1)
        invariant
            n <= MAX_DEGREE,
            val@.len() == k,
            forall|j: int|
                0 <= j < k ==> (#[trigger] val@[j]).num == spec_pow(-1, j as nat) * spec_binomial(
                    n as nat,
                    j as nat,
                ),
            forall|j: int| 0 <= j < k ==> (#[trigger] val@[j]).den == spec_factorial(j as nat),
    {
        proof {
            assert forall|i: nat| i <= k implies i64::MIN <= #[trigger] spec_pow(-1, i)
                <= i64::MAX by {
                lemma_pow_neg_one(i);
            }
        }
        let sign = pow(-1, k);
        let b = binomial_coeff(n, k);
        proof {
            lemma_pow_neg_one(k as nat);
            lemma_factorial_fits(n as nat);
            if k % 2 == 0 {
                assert(sign == 1);
                assert(b * sign == b);
            } else {
                assert(sign == -1);
                assert(b * sign == -b);
            }
            assert(b * sign == sign * b);
        }
        let num = b * sign;
        let den = factorial(k);
        val.push(LaguerreCoeff { num, den });
    }
    val
}

/// Laguerre coefficients with the degree ceiling checked rather than assumed:
/// a degree above `MAX_DEGREE` comes back as `InvalidDegree`.
pub fn laguere_poly_checked(n: usize) -> (r: Result<Vec<LaguerreCoeff>, ApproxError>)
    ensures
        r is Ok <==> n <= MAX_DEGREE,
        r matches Ok(v) ==> is_laguerre_coeffs(v@, n as nat),
        r matches Err(e) ==> e == ApproxError::InvalidDegree,
{
    if n <= MAX_DEGREE {
        Ok(laguere_poly(n))
    } else {
        Err(ApproxError::InvalidDegree)
    }
}

/// Two coefficient sequences of the same degree are equal entry by entry: the
/// generator's result is a function of the degree alone, so repeated runs on
/// the same input agree exactly.
pub proof fn lemma_laguerre_coeffs_unique(r1: Seq<LaguerreCoeff>, r2: Seq<LaguerreCoeff>, n: nat)
    requires
        is_laguerre_coeffs(r1, n),
        is_laguerre_coeffs(r2, n),
    ensures
        r1 == r2,
{
    assert forall|k: int| 0 <= k < r1.len() implies r1[k] == r2[k] by {
        assert(r1[k].num == r2[k].num);
        assert(r1[k].den == r2[k].den);
    }
    assert(r1 =~= r2);
}

/// The degree-zero Laguerre polynomial is the constant one: a single
/// coefficient whose numerator and denominator are both one.
pub proof fn lemma_laguerre_degree_zero(r: Seq<LaguerreCoeff>)
    requires
        is_laguerre_coeffs(r, 0),
    ensures
        r.len() == 1,
        r[0] == (LaguerreCoeff { num: 1, den: 1 }),
{
    assert(spec_pow(-1, 0) == 1);
    assert(spec_binomial(0, 0) == 1);
    assert(spec_factorial(0) == 1);
}

} // verus!
