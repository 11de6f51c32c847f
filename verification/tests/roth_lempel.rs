use contort::{
    Error, EvaluationDomain, Field, Gf256, Polynomial, RothLempelCode, RothLempelDecoder,
    UniqueDecode,
};

fn e(byte: u8) -> Gf256 {
    Gf256::new(byte)
}

/// `n` multipliers `1, 2, …, n` — all nonzero.
fn ramp_multipliers(n: usize) -> Vec<Gf256> {
    (0..n).map(|i| e((i + 1) as u8)).collect()
}

/// An `n-1`-point arbitrary evaluation domain over distinct nonzero elements.
fn punctured_domain(n: usize) -> EvaluationDomain<Gf256> {
    let points: Vec<Gf256> = (1..n as u8).map(e).collect();
    EvaluationDomain::arbitrary(points).unwrap()
}

#[test]
fn roth_lempel_encoder_matches_definition() {
    let n = 8;
    let delta = e(3);
    let multipliers = ramp_multipliers(n);
    let code = RothLempelCode::new(punctured_domain(n), multipliers.clone(), 2, delta).unwrap();
    assert_eq!(code.length(), n);
    assert_eq!(code.dimension(), 2);
    assert_eq!(code.twist(), delta);
    let points: Vec<Gf256> = (1..n as u8).map(e).collect();
    let mut codeword = vec![Gf256::zero(); n];
    for a in (0..=255u8).step_by(5) {
        for b in (0..=255u8).step_by(3) {
            let message = [e(a), e(b)];
            code.encode_into(&message, &mut codeword).unwrap();
            let poly = Polynomial::from_coefficients(message.to_vec());
            for i in 0..n - 1 {
                assert_eq!(codeword[i], multipliers[i].mul(poly.evaluate(points[i])));
            }
            // v_n · (f_{k-2} + δ · f_{k-1}).
            let exceptional = multipliers[n - 1].mul(message[0].add(delta.mul(message[1])));
            assert_eq!(codeword[n - 1], exceptional);
        }
    }
}

#[test]
fn roth_lempel_round_trip_is_lossless() {
    let n = 8;
    let code = RothLempelCode::new(punctured_domain(n), ramp_multipliers(n), 2, e(3)).unwrap();
    let decoder = RothLempelDecoder::new(&code, 2);
    assert_eq!(decoder.target_radius(), 2);
    assert_eq!(decoder.dimension(), 2);
    assert_eq!(decoder.length(), n);

    for &(a, b) in &[(1u8, 1u8), (5, 9), (200, 3), (0, 17), (255, 254)] {
        let message = [e(a), e(b)];
        let mut codeword = vec![Gf256::zero(); n];
        code.encode_into(&message, &mut codeword).unwrap();
        // The ambient decoder returns the message at punctured distance 0.
        let candidate = Polynomial::from_coefficients(message.to_vec());
        let mut output = Vec::new();
        let count = decoder
            .list_decode_into(&codeword, &[candidate.clone()], &[0], &mut output)
            .unwrap();
        assert_eq!(count, 1);
        assert!(
            output.contains(&candidate),
            "encoded message not recovered for ({a}, {b})"
        );
    }
}

#[test]
fn roth_lempel_filter_counts_the_exceptional_coordinate() {
    let n = 8;
    let code = RothLempelCode::new(punctured_domain(n), ramp_multipliers(n), 2, e(3)).unwrap();
    let decoder = RothLempelDecoder::new(&code, 2);
    let message = [e(6), e(31)];
    let mut codeword = vec![Gf256::zero(); n];
    code.encode_into(&message, &mut codeword).unwrap();
    codeword[n - 1] = codeword[n - 1].add(e(1));
    let candidate = Polynomial::from_coefficients(message.to_vec());

    // One mismatch on the exceptional coordinate plus one on the base: kept.
    let mut output = Vec::new();
    decoder
        .list_decode_into(&codeword, &[candidate.clone()], &[1], &mut output)
        .unwrap();
    assert_eq!(output, vec![candidate.clone()]);
    // Plus two on the base: beyond the radius, dropped.
    decoder
        .list_decode_into(&codeword, &[candidate.clone()], &[2], &mut output)
        .unwrap();
    assert!(output.is_empty());

    match decoder.unique_decode(&codeword, &[candidate.clone()], &[0]).unwrap() {
        UniqueDecode::Message(m) => assert_eq!(m, candidate),
        other => panic!("expected one message, got {other:?}"),
    }
}

#[test]
fn roth_lempel_construction_rejects_bad_parameters() {
    let n = 8;
    let domain = || punctured_domain(n);

    assert_eq!(
        RothLempelCode::new(domain(), ramp_multipliers(n - 1), 2, e(3)).unwrap_err(),
        Error::MultiplierCount {
            expected: n,
            got: n - 1
        }
    );

    let mut multipliers = ramp_multipliers(n);
    multipliers[2] = Gf256::zero();
    assert_eq!(
        RothLempelCode::new(domain(), multipliers, 2, e(3)).unwrap_err(),
        Error::ZeroMultiplier { index: 2 }
    );

    assert_eq!(
        RothLempelCode::new(domain(), ramp_multipliers(n), 1, e(3)).unwrap_err(),
        Error::MinimumDimension {
            dimension: 1,
            minimum: 2
        }
    );

    assert_eq!(
        RothLempelCode::new(domain(), ramp_multipliers(n), n, e(3)).unwrap_err(),
        Error::InvalidDimension {
            dimension: n,
            length: n
        }
    );
}

#[test]
fn roth_lempel_io_length_checks() {
    let n = 8;
    let code = RothLempelCode::new(punctured_domain(n), ramp_multipliers(n), 2, e(3)).unwrap();

    let mut codeword = vec![Gf256::zero(); n];
    assert_eq!(
        code.encode_into(&[e(1)], &mut codeword).unwrap_err(),
        Error::MessageLength {
            expected: 2,
            got: 1
        }
    );
    let mut short = vec![Gf256::zero(); n - 1];
    assert_eq!(
        code.encode_into(&[e(1), e(2)], &mut short).unwrap_err(),
        Error::CodewordLength {
            expected: n,
            got: n - 1
        }
    );

    let decoder = RothLempelDecoder::new(&code, 2);
    let mut candidates = Vec::new();
    assert_eq!(
        decoder
            .list_decode_into(&vec![Gf256::zero(); n + 1], &[], &[], &mut candidates)
            .unwrap_err(),
        Error::ReceivedLength {
            expected: n,
            got: n + 1
        }
    );
}
