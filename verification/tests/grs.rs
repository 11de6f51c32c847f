use contort::{
    check_reference_message_count, checked_constraint_count, checked_product,
    decode_by_enumeration, enumerate_polynomials, interpolation_monomials, nonzero_null_vector,
    validate_field_enumeration, BivariateMonomial, BivariatePolynomial, Field, GrsCode, GrsError,
    GuruswamiSudanParameters, Polynomial, PrimeField,
};

type F5 = PrimeField<5>;

fn f5(values: &[u64]) -> Vec<F5> {
    values.iter().copied().map(F5::new).collect()
}

fn code_4_2() -> GrsCode<F5> {
    GrsCode::new(f5(&[0, 1, 2, 3]), vec![F5::one(); 4], 2).expect("valid GRS code")
}

#[test]
fn validates_grs_construction() {
    assert_eq!(
        GrsCode::<F5>::new(vec![], vec![], 1),
        Err(GrsError::EmptyCode)
    );
    assert_eq!(
        GrsCode::new(f5(&[0, 1]), vec![F5::one()], 1),
        Err(GrsError::MultiplierLengthMismatch)
    );
    assert_eq!(
        GrsCode::new(f5(&[0, 1]), vec![F5::one(); 2], 0),
        Err(GrsError::ZeroDimension)
    );
    assert_eq!(
        GrsCode::new(f5(&[0, 1]), vec![F5::one(); 2], 3),
        Err(GrsError::DimensionExceedsLength)
    );
    assert_eq!(
        GrsCode::new(f5(&[0, 0]), vec![F5::one(); 2], 1),
        Err(GrsError::DuplicateEvaluationPoint)
    );
    assert_eq!(
        GrsCode::new(f5(&[0, 1]), vec![F5::one(), F5::zero()], 1),
        Err(GrsError::ZeroMultiplier)
    );
}

#[test]
fn computes_exact_checked_parameter_bounds() {
    let parameters = GuruswamiSudanParameters::new(5, 2, 2, 3).expect("admissible radius");
    assert_eq!(parameters.radius(), 2);
    assert_eq!(parameters.multiplicity(), 3);
    assert_eq!(parameters.weighted_degree_bound(), 7);
    assert_eq!(parameters.radius_exclusive_bound(), 3);
    assert_eq!(parameters.list_size_bound(), Some(7));

    assert_eq!(
        GuruswamiSudanParameters::new(4, 2, 2, 1),
        Err(GrsError::RadiusOutsideInterpolationBound {
            radius: 2,
            exclusive_bound: 2,
        })
    );
    assert_eq!(
        GuruswamiSudanParameters::new(4, 2, 0, 0),
        Err(GrsError::ZeroMultiplicity)
    );
    assert_eq!(
        GuruswamiSudanParameters::new(4, 2, 5, 1),
        Err(GrsError::RadiusExceedsLength)
    );
    assert_eq!(
        GuruswamiSudanParameters::new(0, 0, 0, 1),
        Err(GrsError::EmptyCode)
    );
    assert_eq!(
        GuruswamiSudanParameters::new(4, 0, 0, 1),
        Err(GrsError::ZeroDimension)
    );
    assert_eq!(
        GuruswamiSudanParameters::new(4, 5, 0, 1),
        Err(GrsError::DimensionExceedsLength)
    );
}

#[test]
fn validates_messages_received_words_and_reference_limits() {
    let code = code_4_2();
    assert_eq!(code.length(), 4);
    assert_eq!(code.dimension(), 2);
    assert_eq!(
        code.encode(&Polynomial::from_coefficients(f5(&[1, 2, 3]))),
        Err(GrsError::MessageDegreeTooLarge)
    );
    assert_eq!(
        code.list_decode_reference(&f5(&[0, 0, 0]), 1, 1, &f5(&[0, 1, 2, 3, 4])),
        Err(GrsError::ReceivedWordLengthMismatch)
    );
    assert_eq!(
        code.list_decode_reference(&f5(&[0, 0, 0, 0]), 1, 1, &f5(&[0, 1, 1, 3, 4])),
        Err(GrsError::InvalidFieldEnumeration)
    );
    assert_eq!(
        check_reference_message_count(11, 6),
        Err(GrsError::ReferenceInstanceTooLarge)
    );
}

#[test]
fn constructs_and_verifies_multiplicity_interpolation() {
    let code = code_4_2();
    let message = Polynomial::from_coefficients(f5(&[1, 2]));
    let mut received = code.encode(&message).expect("valid message");
    received[0] = received[0].add(F5::one());
    let parameters = GuruswamiSudanParameters::new(4, 2, 1, 2).expect("admissible radius");
    let interpolation = code
        .interpolate(&received, parameters)
        .expect("interpolation polynomial");

    assert!(!interpolation.is_zero());
    assert!(interpolation.satisfies_constraints(
        &f5(&[0, 1, 2, 3]),
        &received,
        parameters.multiplicity()
    ));
    assert!(interpolation.substitute_y(&message).is_zero());
}

#[test]
fn normalizes_nontrivial_column_multipliers() {
    let elements = f5(&[0, 1, 2, 3, 4]);
    let code = GrsCode::new(f5(&[0, 1, 2, 3]), f5(&[1, 2, 3, 4]), 2).expect("valid GRS code");
    let message = Polynomial::from_coefficients(f5(&[3, 1]));
    let mut received = code.encode(&message).expect("valid message");
    received[2] = received[2].add(F5::one());

    let decoded = code
        .list_decode_reference(&received, 1, 1, &elements)
        .expect("valid decoder parameters");
    assert_eq!(decoded.len(), 1);
    assert_eq!(decoded[0].polynomial, message);
    assert_eq!(decoded[0].distance, 1);
}

#[test]
fn decodes_zero_exact_and_beyond_radius_errors() {
    let code = code_4_2();
    let elements = f5(&[0, 1, 2, 3, 4]);
    let message = Polynomial::from_coefficients(f5(&[1, 2]));
    let codeword = code.encode(&message).expect("valid message");

    let exact = code
        .list_decode_reference(&codeword, 1, 1, &elements)
        .expect("valid decoder parameters");
    assert_eq!(exact.len(), 1);
    assert_eq!(exact[0].polynomial, message);
    assert_eq!(exact[0].distance, 0);
    assert_eq!(exact[0].codeword, codeword);

    let one_error = f5(&[2, 3, 0, 2]);
    let decoded = code
        .list_decode_reference(&one_error, 1, 1, &elements)
        .expect("valid decoder parameters");
    assert_eq!(decoded.len(), 1);
    assert_eq!(decoded[0].polynomial, message);
    assert_eq!(decoded[0].distance, 1);

    let two_errors = f5(&[0, 1, 0, 2]);
    let decoded = code
        .list_decode_reference(&two_errors, 1, 1, &elements)
        .expect("valid decoder parameters");
    assert!(decoded.is_empty());
}

#[test]
fn returns_empty_and_multiple_lists_deterministically() {
    let elements = f5(&[0, 1, 2, 3, 4]);
    let empty = code_4_2()
        .list_decode_reference(&f5(&[0, 0, 1, 1]), 1, 1, &elements)
        .expect("valid decoder parameters");
    assert!(empty.is_empty());

    let code = GrsCode::new(f5(&[0, 1, 2, 3, 4]), vec![F5::one(); 5], 2).expect("valid GRS code");
    let multiple = code
        .list_decode_reference(&f5(&[0, 1, 2, 0, 0]), 2, 3, &elements)
        .expect("valid decoder parameters");
    assert_eq!(
        multiple
            .iter()
            .map(|candidate| candidate.polynomial.clone())
            .collect::<Vec<_>>(),
        vec![
            Polynomial::zero(),
            Polynomial::from_coefficients(f5(&[0, 1])),
        ]
    );
    assert!(multiple.iter().all(|candidate| candidate.distance == 2));
}

#[test]
fn handles_dimension_one_without_weight_zero_interpolation() {
    let elements = f5(&[0, 1, 2, 3, 4]);
    let code =
        GrsCode::new(f5(&[0, 1, 2]), vec![F5::one(); 3], 1).expect("valid constant GRS code");
    let decoded = code
        .list_decode_reference(&f5(&[2, 2, 1]), 1, 1, &elements)
        .expect("valid decoder parameters");
    assert_eq!(decoded.len(), 1);
    assert_eq!(decoded[0].polynomial, Polynomial::constant(F5::new(2)));
}

#[test]
fn exhaustively_matches_radius_one_hamming_balls() {
    let code = code_4_2();
    let elements = f5(&[0, 1, 2, 3, 4]);

    for received_polynomial in enumerate_polynomials(&elements, code.length()) {
        let received = (0..code.length())
            .map(|index| received_polynomial.coefficient(index))
            .collect::<Vec<_>>();
        let expected =
            decode_by_enumeration(&elements, code.dimension(), &received, 1, |message| {
                code.encode(message)
                    .expect("enumerated message has valid degree")
            })
            .expect("all GRS words have the expected length");
        let actual = code
            .list_decode_reference(&received, 1, 1, &elements)
            .expect("valid decoder parameters");

        assert_eq!(
            actual
                .iter()
                .map(|candidate| candidate.polynomial.clone())
                .collect::<Vec<_>>(),
            expected
                .iter()
                .map(|candidate| candidate.message.clone())
                .collect::<Vec<_>>(),
            "received word: {received:?}"
        );
        assert!(actual.iter().all(|candidate| candidate.distance <= 1));
    }
}

#[test]
fn exhaustively_matches_constant_code_over_f3() {
    type F3 = PrimeField<3>;
    let elements = [F3::new(0), F3::new(1), F3::new(2)];
    let code =
        GrsCode::new(elements.to_vec(), vec![F3::one(); 3], 1).expect("valid constant GRS code");

    for received_polynomial in enumerate_polynomials(&elements, code.length()) {
        let received = (0..code.length())
            .map(|index| received_polynomial.coefficient(index))
            .collect::<Vec<_>>();
        let expected =
            decode_by_enumeration(&elements, code.dimension(), &received, 1, |message| {
                code.encode(message)
                    .expect("enumerated message has valid degree")
            })
            .expect("all GRS words have the expected length");
        let actual = code
            .list_decode_reference(&received, 1, 1, &elements)
            .expect("valid decoder parameters");

        assert_eq!(
            actual
                .iter()
                .map(|candidate| candidate.polynomial.clone())
                .collect::<Vec<_>>(),
            expected
                .iter()
                .map(|candidate| candidate.message.clone())
                .collect::<Vec<_>>(),
            "received word: {received:?}"
        );
    }
}

#[test]
fn checked_helpers_report_overflow_and_exact_values() {
    assert_eq!(checked_product(&[3, 5, 7]), Ok(105));
    assert_eq!(checked_product(&[]), Ok(1));
    assert_eq!(
        checked_product(&[u128::MAX, 2]),
        Err(GrsError::ArithmeticOverflow)
    );
    assert_eq!(checked_constraint_count(4, 2), Ok(12));
    assert_eq!(
        checked_constraint_count(usize::MAX, 2),
        Err(GrsError::ArithmeticOverflow)
    );
    assert_eq!(check_reference_message_count(5, 2), Ok(()));
}

#[test]
fn field_enumeration_needs_zero_one_and_no_repeats() {
    assert_eq!(validate_field_enumeration(&f5(&[0, 1, 2, 3, 4])), Ok(()));
    assert_eq!(validate_field_enumeration(&f5(&[0, 1, 2, 3])), Ok(()));
    assert_eq!(
        validate_field_enumeration(&f5(&[1, 2, 3])),
        Err(GrsError::InvalidFieldEnumeration)
    );
    assert_eq!(
        validate_field_enumeration(&f5(&[0, 2])),
        Err(GrsError::InvalidFieldEnumeration)
    );
    assert_eq!(
        validate_field_enumeration(&f5(&[0, 1, 2, 3, 3])),
        Err(GrsError::InvalidFieldEnumeration)
    );
    assert_eq!(
        validate_field_enumeration::<F5>(&[]),
        Err(GrsError::InvalidFieldEnumeration)
    );
}

#[test]
fn interpolation_monomials_respect_the_weighted_degree() {
    // k = 2 (weight k - 1 = 1), bound 2: x^a y^b with a + b <= 2.
    let monomials = interpolation_monomials(2, 2);
    assert_eq!(monomials.len(), 6);
    for m in &monomials {
        assert!(m.x_degree + m.y_degree <= 2);
    }
}

#[test]
fn null_vector_is_nonzero_and_in_the_kernel() {
    // Rows (1, 1, 0) and (0, 1, 1): kernel is spanned by (1, -1, 1).
    let matrix = vec![f5(&[1, 1, 0]), f5(&[0, 1, 1])];
    let vector = nonzero_null_vector(matrix.clone(), 3).expect("kernel is nonempty");
    assert_eq!(vector.len(), 3);
    assert!(vector.iter().any(|v| !v.is_zero()));
    for row in &matrix {
        let dot = row
            .iter()
            .zip(vector.iter())
            .fold(F5::zero(), |acc, (a, b)| acc.add(a.mul(*b)));
        assert!(dot.is_zero());
    }
    let full_rank = vec![f5(&[1, 0]), f5(&[0, 1])];
    assert_eq!(
        nonzero_null_vector(full_rank, 2),
        Err(GrsError::InterpolationHasNoNullspace)
    );
}

#[test]
fn bivariate_hasse_evaluation_of_a_single_monomial() {
    // Q = 2 x^2 y; D_x^(1) Q at (3, 4) = 2 * C(2,1) * 3 * 4 = 48 = 3 mod 5.
    let q = BivariatePolynomial::new(
        vec![BivariateMonomial { x_degree: 2, y_degree: 1 }],
        f5(&[2]),
    );
    assert!(!q.is_zero());
    assert_eq!(q.hasse_evaluate(0, 0, F5::new(3), F5::new(4)), F5::new(2 * 9 * 4 % 5));
    assert_eq!(q.hasse_evaluate(1, 0, F5::new(3), F5::new(4)), F5::new(48 % 5));
    assert_eq!(q.hasse_evaluate(0, 2, F5::new(3), F5::new(4)), F5::zero());
}
