use contort::{
    Error, EvaluationDomain, ExtendedGrsCode, ExtendedGrsDecoder, Field, Gf256, Polynomial,
    UniqueDecode,
};

fn e(byte: u8) -> Gf256 {
    Gf256::new(byte)
}

/// `n` multipliers `1, 2, …, n` — all nonzero.
fn ramp_multipliers(n: usize) -> Vec<Gf256> {
    (0..n).map(|i| e((i + 1) as u8)).collect()
}

/// An `n_base`-point arbitrary evaluation domain over distinct nonzero
/// elements.
fn base_domain(n_base: usize) -> EvaluationDomain<Gf256> {
    let points: Vec<Gf256> = (1..=n_base as u8).map(e).collect();
    EvaluationDomain::arbitrary(points).unwrap()
}

/// The unit functional `e_i`: coefficient `1` at index `i`, else `0`.
fn unit(k: usize, i: usize) -> Vec<Gf256> {
    let mut f = vec![Gf256::zero(); k];
    f[i] = Gf256::one();
    f
}

#[test]
fn projective_distance_is_mds() {
    let n_base = 7;
    let k = 2;
    let code =
        ExtendedGrsCode::projective(base_domain(n_base), ramp_multipliers(n_base + 1), k).unwrap();
    let n = code.length();

    let mut min_weight = usize::MAX;
    let mut message = vec![Gf256::zero(); k];
    let mut codeword = vec![Gf256::zero(); n];
    let mut counter = vec![0u16; k];
    loop {
        for (slot, &value) in message.iter_mut().zip(counter.iter()) {
            *slot = e(value as u8);
        }
        let nonzero_message = message.iter().any(|&s| s != Gf256::zero());
        if nonzero_message {
            code.encode_into(&message, &mut codeword).unwrap();
            let weight = codeword.iter().filter(|&&s| s != Gf256::zero()).count();
            min_weight = min_weight.min(weight);
        }
        let mut position = 0;
        let mut overflow = true;
        while position < k {
            counter[position] += 1;
            if counter[position] == 256 {
                counter[position] = 0;
                position += 1;
            } else {
                overflow = false;
                break;
            }
        }
        if overflow {
            break;
        }
    }

    assert_eq!(
        min_weight,
        n - k + 1,
        "projective [{n}, {k}] code is not MDS"
    );
}

#[test]
fn extended_encoder_appends_functional_values() {
    let n_base = 7;
    let k = 2;
    let mut lambda1 = unit(k, k - 2);
    lambda1[k - 1] = e(5);
    let functionals = vec![unit(k, k - 1), lambda1.clone()];
    let n = n_base + functionals.len();
    let multipliers = ramp_multipliers(n);
    let code =
        ExtendedGrsCode::new(base_domain(n_base), multipliers.clone(), k, functionals).unwrap();
    assert_eq!(code.length(), n);
    assert_eq!(code.base_length(), n_base);
    assert_eq!(code.functionals().len(), 2);

    let message = [e(42), e(17)];
    let mut codeword = vec![Gf256::zero(); n];
    code.encode_into(&message, &mut codeword).unwrap();
    let poly = Polynomial::from_coefficients(message.to_vec());
    for i in 0..n_base {
        assert_eq!(codeword[i], multipliers[i].mul(poly.evaluate(e((i + 1) as u8))));
    }
    assert_eq!(codeword[n_base], multipliers[n_base].mul(message[1]));
    let lambda = message[0].mul(lambda1[0]).add(message[1].mul(lambda1[1]));
    assert_eq!(codeword[n_base + 1], multipliers[n_base + 1].mul(lambda));
}

#[test]
fn corrupts_each_extended_coordinate() {
    let n_base = 7;
    let k = 2;
    let mut lambda1 = unit(k, k - 2);
    lambda1[k - 1] = e(5);
    let functionals = vec![unit(k, k - 1), lambda1];
    let n = n_base + functionals.len();
    let code =
        ExtendedGrsCode::new(base_domain(n_base), ramp_multipliers(n), k, functionals).unwrap();
    let decoder = ExtendedGrsDecoder::new(&code, 2);

    let message = [e(42), e(17)];
    let mut codeword = vec![Gf256::zero(); n];
    code.encode_into(&message, &mut codeword).unwrap();
    let candidate = Polynomial::from_coefficients(message.to_vec());

    // Corrupt exactly one extended coordinate at a time: the candidate the
    // punctured decoder returns at distance zero still passes the filter.
    for j in n_base..n {
        let mut received = codeword.clone();
        received[j] = received[j].add(e(1));
        let mut candidates = Vec::new();
        decoder
            .list_decode_into(&received, &[candidate.clone()], &[0], &mut candidates)
            .unwrap();
        assert!(
            candidates.contains(&candidate),
            "message lost after corrupting extended coordinate {j}"
        );
        match decoder.unique_decode(&received, &[candidate.clone()], &[0]).unwrap() {
            UniqueDecode::Message(m) => assert_eq!(m, candidate),
            other => panic!("expected one message, got {other:?}"),
        }
    }

    // Both extended coordinates wrong and two base errors: beyond radius 2.
    let mut received = codeword.clone();
    received[n_base] = received[n_base].add(e(1));
    received[n_base + 1] = received[n_base + 1].add(e(1));
    let mut candidates = Vec::new();
    decoder
        .list_decode_into(&received, &[candidate.clone()], &[1], &mut candidates)
        .unwrap();
    assert!(candidates.is_empty());
}

#[test]
fn extend_construction_rejects_bad_parameters() {
    let n_base = 7;
    let k = 2;
    let l = 2;
    let n = n_base + l;
    let good = || vec![unit(k, k - 1), unit(k, k - 2)];

    // Functional of the wrong length.
    let bad_functionals = vec![unit(k, k - 1), vec![Gf256::one(); k + 1]];
    assert_eq!(
        ExtendedGrsCode::new(base_domain(n_base), ramp_multipliers(n), k, bad_functionals)
            .unwrap_err(),
        Error::FunctionalLength {
            expected: k,
            got: k + 1
        }
    );

    // Dimension exceeding the base length.
    assert_eq!(
        ExtendedGrsCode::new(base_domain(n_base), ramp_multipliers(n), n_base + 1, good())
            .unwrap_err(),
        Error::InvalidDimension {
            dimension: n_base + 1,
            length: n_base
        }
    );

    // Zero dimension.
    assert_eq!(
        ExtendedGrsCode::new(base_domain(n_base), ramp_multipliers(n), 0, good()).unwrap_err(),
        Error::InvalidDimension {
            dimension: 0,
            length: n_base
        }
    );

    // Multiplier-count mismatch.
    assert_eq!(
        ExtendedGrsCode::new(base_domain(n_base), ramp_multipliers(n - 1), k, good()).unwrap_err(),
        Error::MultiplierCount {
            expected: n,
            got: n - 1
        }
    );

    // Zero multiplier.
    let mut multipliers = ramp_multipliers(n);
    multipliers[3] = Gf256::zero();
    assert_eq!(
        ExtendedGrsCode::new(base_domain(n_base), multipliers, k, good()).unwrap_err(),
        Error::ZeroMultiplier { index: 3 }
    );

    // Projective rejects zero dimension.
    assert_eq!(
        ExtendedGrsCode::projective(base_domain(n_base), ramp_multipliers(n_base + 1), 0)
            .unwrap_err(),
        Error::InvalidDimension {
            dimension: 0,
            length: n_base
        }
    );
}

#[test]
fn extend_io_length_checks() {
    let n_base = 7;
    let k = 2;
    let code =
        ExtendedGrsCode::projective(base_domain(n_base), ramp_multipliers(n_base + 1), k).unwrap();
    let n = code.length();

    let mut codeword = vec![Gf256::zero(); n];
    assert_eq!(
        code.encode_into(&[e(1)], &mut codeword).unwrap_err(),
        Error::MessageLength {
            expected: k,
            got: 1
        }
    );
    let mut short = vec![Gf256::zero(); n - 1];
    assert_eq!(
        code.encode_into(&[e(1), e(2)], &mut short).unwrap_err(),
        Error::CodewordLength {
            expected: n,
            got: n - 1
        }
    );

    let decoder = ExtendedGrsDecoder::new(&code, 2);
    let mut candidates = Vec::new();
    assert_eq!(
        decoder
            .list_decode_into(&vec![Gf256::zero(); n + 1], &[], &[], &mut candidates)
            .unwrap_err(),
        Error::ReceivedLength {
            expected: n,
            got: n + 1
        }
    );
    assert_eq!(
        decoder.normalize(&vec![Gf256::zero(); n + 1]).unwrap_err(),
        Error::ReceivedLength {
            expected: n,
            got: n + 1
        }
    );
    assert_eq!(decoder.normalize(&vec![Gf256::zero(); n]).unwrap().len(), n_base);
}
