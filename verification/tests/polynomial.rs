use contort::{binomial_in_field, BivariateMonomial, BivariatePolynomial, Field, Gf256, Polynomial, PolynomialError, PrimeField};

type F5 = PrimeField<5>;
type F7 = PrimeField<7>;

fn f5(values: &[u64]) -> Polynomial<F5> {
    Polynomial::from_coefficients(values.iter().copied().map(F5::new).collect())
}

fn f7(values: &[u64]) -> Polynomial<F7> {
    Polynomial::from_coefficients(values.iter().copied().map(F7::new).collect())
}

#[test]
fn canonicalizes_zero_and_trailing_coefficients() {
    assert_eq!(f5(&[]), Polynomial::zero());
    assert_eq!(f5(&[0, 0, 0]), Polynomial::zero());
    assert_eq!(f5(&[1, 2, 0, 0]).coefficients(), &[F5::new(1), F5::new(2)]);
    assert_eq!(f5(&[1, 2, 0]).degree(), Some(1));
}

#[test]
fn zero_and_constant_boundaries_are_stable() {
    let zero = Polynomial::<F5>::zero();
    let constant = Polynomial::constant(F5::new(3));

    assert_eq!(zero.add(&constant), constant);
    assert_eq!(constant.sub(&constant), zero);
    assert_eq!(constant.mul(&zero), zero);
    assert_eq!(constant.scale(F5::zero()), zero);
    assert_eq!(constant.derivative(), zero);
    assert_eq!(constant.hasse_derivative(1), zero);
    assert_eq!(constant.evaluate(F5::new(4)), F5::new(3));
}

#[test]
fn arithmetic_obeys_polynomial_identities() {
    let left = f7(&[1, 2, 3]);
    let right = f7(&[4, 0, 1]);
    let third = f7(&[2, 5]);

    assert_eq!(left.add(&right).sub(&right), left);
    assert_eq!(left.mul(&Polynomial::one()), left);
    assert_eq!(
        left.mul(&right.add(&third)),
        left.mul(&right).add(&left.mul(&third))
    );
    assert_eq!(left.scale(F7::new(3)), f7(&[3, 6, 2]));
}

#[test]
fn division_reports_exact_and_non_exact_remainders() {
    let divisor = f7(&[1, 1]);
    let exact = f7(&[2, 3, 1]);
    let (quotient, remainder) = exact.div_rem(&divisor).expect("valid divisor");
    assert_eq!(quotient, f7(&[2, 1]));
    assert!(remainder.is_zero());

    let non_exact = f7(&[1, 0, 1]);
    let (quotient, remainder) = non_exact.div_rem(&divisor).expect("valid divisor");
    assert_eq!(quotient, f7(&[6, 1]));
    assert_eq!(remainder, f7(&[2]));
    assert_eq!(quotient.mul(&divisor).add(&remainder), non_exact);
}

#[test]
fn division_handles_small_dividends_and_zero_divisor() {
    let constant = f7(&[3]);
    let linear = f7(&[1, 1]);
    assert_eq!(
        constant.div_rem(&linear),
        Ok((Polynomial::zero(), constant.clone()))
    );
    assert_eq!(
        constant.div_rem(&Polynomial::zero()),
        Err(PolynomialError::DivisionByZero)
    );
    assert_eq!(
        Polynomial::<F7>::zero().div_rem(&linear),
        Ok((Polynomial::zero(), Polynomial::zero()))
    );
}

#[test]
fn derivative_and_hasse_derivative_respect_characteristic() {
    let polynomial = f5(&[0, 0, 0, 0, 0, 1]);
    assert_eq!(polynomial.derivative(), Polynomial::zero());
    assert_eq!(polynomial.hasse_derivative(1), Polynomial::zero());
    assert_eq!(polynomial.hasse_derivative(5), Polynomial::one());
    assert_eq!(polynomial.hasse_derivative(0), polynomial);
}

#[test]
fn evaluation_and_composition_cover_zero() {
    let outer = f7(&[1, 0, 1]);
    let inner = f7(&[1, 1]);

    assert_eq!(outer.evaluate(F7::zero()), F7::one());
    assert_eq!(outer.compose(&inner), f7(&[2, 2, 1]));
    assert_eq!(Polynomial::<F7>::zero().compose(&inner), Polynomial::zero());
    assert_eq!(f7(&[1, 1]).compose(&f7(&[6])), Polynomial::zero());
}

#[test]
fn naive_multipoint_evaluation_and_interpolation_round_trip() {
    let polynomial = f7(&[3, 5, 2, 1]);
    let points = [F7::new(0), F7::new(1), F7::new(2), F7::new(4)];
    let values = polynomial.multipoint_evaluate(&points);

    assert_eq!(values[0], F7::new(3));
    assert_eq!(Polynomial::interpolate(&points, &values), Ok(polynomial));
    assert_eq!(
        Polynomial::<F7>::interpolate(&[], &[]),
        Ok(Polynomial::zero())
    );
}

#[test]
fn interpolation_rejects_malformed_samples() {
    let points = [F7::new(1), F7::new(1)];
    let values = [F7::new(2), F7::new(3)];
    assert_eq!(
        Polynomial::interpolate(&points, &values),
        Err(PolynomialError::DuplicateInterpolationPoint)
    );
    assert_eq!(
        Polynomial::interpolate(&points[..1], &values),
        Err(PolynomialError::PointValueLengthMismatch)
    );
}

#[test]
fn coefficient_reads_zero_past_the_degree() {
    let p = f7(&[3, 0, 5]);
    assert_eq!(p.coefficient(0), F7::new(3));
    assert_eq!(p.coefficient(2), F7::new(5));
    assert_eq!(p.coefficient(9), F7::zero());
    assert_eq!(Polynomial::<F7>::zero().degree(), None);
    assert!(Polynomial::<F7>::zero().is_zero());
    assert!(!Polynomial::<F7>::one().is_zero());
}

#[test]
fn trim_drops_trailing_zeros_in_place() {
    let mut p = f7(&[1, 2]);
    p.trim();
    assert_eq!(p, f7(&[1, 2]));
    assert_eq!(p.degree(), Some(1));
}

#[test]
fn product_degree_adds_and_coefficients_convolve() {
    // (1 + 2x)(3 + x) = 3 + 7x + 2x^2 = 3 + 0x + 2x^2 over F7.
    let product = f7(&[1, 2]).mul(&f7(&[3, 1]));
    assert_eq!(product, f7(&[3, 0, 2]));
    assert_eq!(product.degree(), Some(2));
}

#[test]
fn hasse_derivative_uses_binomial_weights() {
    // D^(2) x^4 = C(4,2) x^2 = 6 x^2 = x^2 over F5.
    let p = f5(&[0, 0, 0, 0, 1]);
    assert_eq!(p.hasse_derivative(2), f5(&[0, 0, 1]));
    assert_eq!(p.derivative(), f5(&[0, 0, 0, 4]));
    assert_eq!(binomial_in_field::<F5>(4, 2), F5::new(1));
    assert_eq!(binomial_in_field::<F7>(6, 3), F7::new(6));
    assert_eq!(binomial_in_field::<F7>(3, 5), F7::zero());
}

#[test]
fn division_identity_holds_with_higher_degree_divisor() {
    let dividend = f7(&[5, 4, 3, 2, 1]);
    let divisor = f7(&[1, 0, 3]);
    let (quotient, remainder) = dividend.div_rem(&divisor).expect("nonzero divisor");
    assert_eq!(quotient.mul(&divisor).add(&remainder), dividend);
    assert!(remainder.degree().map_or(true, |d| d < 2));
}

#[test]
fn interpolation_reproduces_the_samples() {
    let points = [F7::new(2), F7::new(3), F7::new(6)];
    let values = [F7::new(1), F7::new(0), F7::new(4)];
    let p = Polynomial::interpolate(&points, &values).expect("distinct points");
    for (x, y) in points.iter().zip(values.iter()) {
        assert_eq!(p.evaluate(*x), *y);
    }
    assert!(p.degree().map_or(true, |d| d < 3));
}

#[test]
fn ring_identities_hold_for_polynomials() {
    let p = f7(&[1, 2, 3]);
    let q = f7(&[4, 0, 1]);
    assert_eq!(p.sub(&p), Polynomial::zero());
    assert_eq!(p.mul(&Polynomial::one()), p);
    assert_eq!(p.mul(&Polynomial::zero()), Polynomial::zero());
    // deg(p·q) = deg p + deg q over a field.
    assert_eq!(p.mul(&q).degree(), Some(4));
    // A dividend of smaller degree divides to quotient zero.
    let (quotient, remainder) = f7(&[3, 1]).div_rem(&p).expect("nonzero divisor");
    assert_eq!(quotient, Polynomial::zero());
    assert_eq!(remainder, f7(&[3, 1]));
}

#[test]
fn binomials_are_symmetric_and_follow_pascal() {
    for n in 1..12usize {
        for k in 1..=n {
            let c: F7 = binomial_in_field(n, k);
            assert_eq!(c, binomial_in_field(n, n - k));
            let left: F7 = binomial_in_field(n - 1, k);
            let right: F7 = binomial_in_field(n - 1, k - 1);
            assert_eq!(c, left.add(right));
        }
    }
}

#[test]
fn substitution_evaluates_term_by_term() {
    // Q(x, y) = 3 + 2·x·y + 5·y^2 over F7, substituted with p(x) = 1 + x.
    let monomials = vec![
        BivariateMonomial { x_degree: 0, y_degree: 0 },
        BivariateMonomial { x_degree: 1, y_degree: 1 },
        BivariateMonomial { x_degree: 0, y_degree: 2 },
    ];
    let q = BivariatePolynomial::new(monomials, vec![F7::new(3), F7::new(2), F7::new(5)]);
    let p = f7(&[1, 1]);
    let r = q.substitute_y(&p);
    for x in 0..7u64 {
        let x = F7::new(x);
        let y = p.evaluate(x);
        let expected = F7::new(3).add(F7::new(2).mul(x).mul(y)).add(F7::new(5).mul(y).mul(y));
        assert_eq!(r.evaluate(x), expected);
    }
    // Over GF(2^8) too: Q(x, y) = y^2 + x, p(x) = x + 1 gives x^2 + x + 1.
    let q2 = BivariatePolynomial::new(
        vec![BivariateMonomial { x_degree: 0, y_degree: 2 }, BivariateMonomial { x_degree: 1, y_degree: 0 }],
        vec![Gf256::one(), Gf256::one()],
    );
    let r2 = q2.substitute_y(&Polynomial::from_coefficients(vec![Gf256::one(), Gf256::one()]));
    assert_eq!(r2, Polynomial::from_coefficients(vec![Gf256::one(), Gf256::one(), Gf256::one()]));
}

#[test]
fn multiplication_distributes_and_interpolation_is_unique() {
    let p = f7(&[1, 2, 3]);
    let q = f7(&[4, 0, 1]);
    let r = f7(&[3, 0, 6, 2]);
    assert_eq!(p.mul(&q.add(&r)), p.mul(&q).add(&p.mul(&r)));
    // q + (−q) cancels, and the product with the sum collapses accordingly.
    assert_eq!(p.mul(&q.add(&q.scale(F7::new(6)))), Polynomial::zero());
    // Two polynomials with three coefficients agreeing on three points coincide.
    let points = [F7::new(0), F7::new(2), F7::new(5)];
    let values: Vec<F7> = points.iter().map(|&x| p.evaluate(x)).collect();
    let other = f7(&[1, 2, 3]);
    assert!(points.iter().zip(&values).all(|(&x, &v)| other.evaluate(x) == v));
    assert_eq!(other, p);
}
