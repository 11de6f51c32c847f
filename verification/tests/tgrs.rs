use contort::{Error, EvaluationDomain, Field, Gf256, Polynomial, TgrsCode, TgrsDecoder, Twist, UniqueDecode};
use fgf::Gf8B;
use poly_ring::Polynomial as RingPolynomial;

fn e(byte: u8) -> Gf256 {
    Gf256::new(byte)
}

/// Multipliers `1, 2, …, n` — all nonzero.
fn ramp_multipliers(n: usize) -> Vec<Gf256> {
    (0..n).map(|i| e((i + 1) as u8)).collect()
}

/// The points `0, 1, …, n-1`: for `n` a power of two these are the additive
/// subspace spanned by `1, 2, 4, …`.
fn subspace(n: usize) -> EvaluationDomain<Gf256> {
    EvaluationDomain::arbitrary((0..n as u8).map(e).collect()).unwrap()
}

/// The twisted message polynomial `f + Σ η_j f_{h_j} x^{k-1+t_j}`.
fn twisted(message: &[Gf256], twists: &[Twist<Gf256>], pseudo_dimension: usize) -> Polynomial<Gf256> {
    let k = message.len();
    let mut coefficients = message.to_vec();
    coefficients.resize(pseudo_dimension, Gf256::zero());
    for twist in twists {
        let slot = k - 1 + twist.offset();
        coefficients[slot] = coefficients[slot].add(twist.coefficient().mul(message[twist.hook()]));
    }
    Polynomial::from_coefficients(coefficients)
}

fn to_fgf(values: &[Gf256]) -> Vec<fgf::gf8b::Elem> {
    values.iter().map(|x| fgf::gf8b::Elem::from_raw(x.value())).collect()
}

#[test]
fn tgrs_encoder_matches_twisted_evaluation_oracle() {
    let n = 8;
    let twists = vec![Twist::new(2, 1, e(3)), Twist::new(1, 0, e(7))];
    let code = TgrsCode::new(subspace(n), ramp_multipliers(n), 2, twists.clone()).unwrap();
    assert_eq!(code.pseudo_dimension(), 4);
    let points = to_fgf(code.domain().points());
    let multipliers = to_fgf(code.multipliers());
    let mut codeword = vec![Gf256::zero(); n];
    for a0 in (0..=255u8).step_by(7) {
        for a1 in 0..=255u8 {
            let message = [e(a0), e(a1)];
            code.encode_into(&message, &mut codeword).unwrap();
            let poly = twisted(&message, &twists, code.pseudo_dimension());
            let ring = RingPolynomial::<Gf8B>::from_coefficients(&to_fgf(poly.coefficients())).unwrap();
            let values = ring.evaluate_many(&points).unwrap();
            for i in 0..n {
                assert_eq!(codeword[i].value(), multipliers[i].mul(values[i]).to_raw());
            }
        }
    }
}

#[test]
fn repeated_destination_twists_accumulate() {
    let n = 8;
    // Both twists land on degree k-1+1 = 2 and must accumulate.
    let twists = vec![Twist::new(1, 0, e(2)), Twist::new(1, 1, e(5))];
    let code = TgrsCode::new(subspace(n), ramp_multipliers(n), 2, twists.clone()).unwrap();
    assert_eq!(code.pseudo_dimension(), 3);
    let decoder = TgrsDecoder::new(&code, 2);
    let message = [e(11), e(240)];
    let ambient = twisted(&message, &twists, 3);
    assert!(decoder.satisfies_twists(&ambient));
    // Dropping either contribution breaks the constraint.
    let partial = twisted(&message, &twists[..1], 3);
    assert!(!decoder.satisfies_twists(&partial));
}

#[test]
fn no_twists_keeps_the_grs_dimension() {
    let n = 8;
    let code = TgrsCode::new(subspace(n), ramp_multipliers(n), 2, Vec::new()).unwrap();
    assert_eq!(code.pseudo_dimension(), code.dimension());
    assert_eq!(code.unique_radius(), (n - 2) / 2);
    let decoder = TgrsDecoder::new(&code, 3);
    let any = Polynomial::from_coefficients(vec![e(42), e(99)]);
    assert!(decoder.satisfies_twists(&any));
}

#[test]
fn tgrs_filter_recovers_encoded_messages() {
    let n = 8;
    let twists = vec![Twist::new(1, 0, e(2))];
    let code = TgrsCode::new(subspace(n), ramp_multipliers(n), 2, twists.clone()).unwrap();
    let decoder = TgrsDecoder::new(&code, 2);
    assert_eq!(decoder.target_radius(), 2);
    assert_eq!(decoder.dimension(), 2);
    assert_eq!(decoder.pseudo_dimension(), 3);
    assert_eq!(decoder.length(), n);

    for &(a, b) in &[(1u8, 1u8), (5, 9), (200, 3), (0, 17), (255, 254)] {
        let message = [e(a), e(b)];
        let mut codeword = vec![Gf256::zero(); n];
        code.encode_into(&message, &mut codeword).unwrap();

        // The normalized word is the ambient codeword of the twisted polynomial.
        let ambient = twisted(&message, &twists, 3);
        let normalized = decoder.normalize(&codeword).unwrap();
        for (i, point) in code.domain().points().iter().enumerate() {
            assert_eq!(normalized[i], ambient.evaluate(*point));
        }

        // A rival ambient candidate violating the twist is filtered out.
        let rival = Polynomial::from_coefficients(vec![e(a), e(b), e(1)]);
        let mut output = Vec::new();
        let count = decoder.list_decode_into(&[rival.clone(), ambient.clone()], &mut output);
        let expected = Polynomial::from_coefficients(message.to_vec());
        if decoder.satisfies_twists(&rival) {
            assert_eq!(count, 2);
        } else {
            assert_eq!(count, 1);
            assert_eq!(output, vec![expected.clone()]);
            match decoder.unique_decode(&[rival, ambient]) {
                UniqueDecode::Message(m) => assert_eq!(m, expected),
                other => panic!("expected a unique message, got {other:?}"),
            }
        }
    }
}

#[test]
fn tgrs_unique_decode_classifies_lists() {
    let n = 8;
    let twists = vec![Twist::new(1, 0, e(2))];
    let code = TgrsCode::new(subspace(n), ramp_multipliers(n), 2, twists.clone()).unwrap();
    let decoder = TgrsDecoder::new(&code, 2);
    assert!(matches!(decoder.unique_decode(&[]), UniqueDecode::NoCandidate));
    let first = twisted(&[e(1), e(2)], &twists, 3);
    let second = twisted(&[e(3), e(4)], &twists, 3);
    assert!(matches!(decoder.unique_decode(&[first, second]), UniqueDecode::Ambiguous));
}

#[test]
fn tgrs_construction_rejects_bad_parameters() {
    let n = 8;

    assert_eq!(
        TgrsCode::new(subspace(n), ramp_multipliers(n - 1), 2, Vec::new()).unwrap_err(),
        Error::MultiplierCount {
            expected: n,
            got: n - 1
        }
    );

    let mut multipliers = ramp_multipliers(n);
    multipliers[3] = Gf256::zero();
    assert_eq!(
        TgrsCode::new(subspace(n), multipliers, 2, Vec::new()).unwrap_err(),
        Error::ZeroMultiplier { index: 3 }
    );

    assert_eq!(
        TgrsCode::new(subspace(n), ramp_multipliers(n), 0, Vec::new()).unwrap_err(),
        Error::InvalidDimension {
            dimension: 0,
            length: n
        }
    );
    assert_eq!(
        TgrsCode::new(subspace(n), ramp_multipliers(n), n, Vec::new()).unwrap_err(),
        Error::InvalidDimension {
            dimension: n,
            length: n
        }
    );

    // t must lie in 1..=n-k = 1..=6.
    assert_eq!(
        TgrsCode::new(subspace(n), ramp_multipliers(n), 2, vec![Twist::new(0, 0, e(2))])
            .unwrap_err(),
        Error::TwistOffset { offset: 0, max: 6 }
    );
    assert_eq!(
        TgrsCode::new(subspace(n), ramp_multipliers(n), 2, vec![Twist::new(7, 0, e(2))])
            .unwrap_err(),
        Error::TwistOffset { offset: 7, max: 6 }
    );

    assert_eq!(
        TgrsCode::new(subspace(n), ramp_multipliers(n), 2, vec![Twist::new(1, 2, e(2))])
            .unwrap_err(),
        Error::TwistHook {
            hook: 2,
            dimension: 2
        }
    );

    assert_eq!(
        TgrsCode::new(subspace(n), ramp_multipliers(n), 2, vec![Twist::new(1, 0, Gf256::zero())])
            .unwrap_err(),
        Error::ZeroTwistCoefficient { index: 0 }
    );

    assert_eq!(
        TgrsCode::new(
            subspace(n),
            ramp_multipliers(n),
            2,
            vec![Twist::new(1, 0, e(2)), Twist::new(1, 0, e(3))]
        )
        .unwrap_err(),
        Error::DuplicateTwist { offset: 1, hook: 0 }
    );
}

#[test]
fn tgrs_io_length_checks() {
    let n = 8;
    let code = TgrsCode::new(subspace(n), ramp_multipliers(n), 2, vec![Twist::new(1, 0, e(2))]).unwrap();

    let mut codeword = vec![Gf256::zero(); n];
    assert_eq!(
        code.encode_into(&[e(1)], &mut codeword).unwrap_err(),
        Error::MessageLength {
            expected: 2,
            got: 1
        }
    );
    let mut short = vec![Gf256::zero(); n - 1];
    assert_eq!(
        code.encode_into(&[e(1), e(2)], &mut short).unwrap_err(),
        Error::CodewordLength {
            expected: n,
            got: n - 1
        }
    );

    let decoder = TgrsDecoder::new(&code, 2);
    assert_eq!(
        decoder.normalize(&vec![Gf256::zero(); n + 1]).unwrap_err(),
        Error::ReceivedLength {
            expected: n,
            got: n + 1
        }
    );
}
