use contort::{
    blocks_aligned, Error, EvaluationDomain, Field, Gf256, Polynomial, PuncturedGrsCode,
    PuncturedGrsDecoder, UniqueDecode,
};

fn e(byte: u8) -> Gf256 {
    Gf256::new(byte)
}

/// `n` multipliers `1, 2, …, n` — all nonzero.
fn ramp_multipliers(n: usize) -> Vec<Gf256> {
    (0..n).map(|i| e((i + 1) as u8)).collect()
}

/// An `n`-point arbitrary evaluation domain over distinct nonzero elements.
fn base_domain(n: usize) -> EvaluationDomain<Gf256> {
    let points: Vec<Gf256> = (1..=n as u8).map(e).collect();
    EvaluationDomain::arbitrary(points).unwrap()
}

/// Surviving base indices of a code, in ascending order.
fn surviving_indices(code: &PuncturedGrsCode<Gf256>) -> Vec<usize> {
    (0..code.base_length())
        .filter(|i| !code.punctures().contains(i))
        .collect()
}

#[test]
fn distance_is_mds() {
    // A punctured [5, 3] code: minimum nonzero weight equals n' - k + 1 = 3.
    let code = PuncturedGrsCode::new(base_domain(7), ramp_multipliers(7), 3, vec![2, 5]).unwrap();
    let k = code.dimension();
    let n = code.length();

    let mut message = vec![Gf256::zero(); k];
    let mut codeword = vec![Gf256::zero(); n];
    let mut counter = vec![0u16; k];
    let mut minimum = usize::MAX;
    loop {
        for (slot, &value) in message.iter_mut().zip(counter.iter()) {
            *slot = e(value as u8);
        }
        code.encode_into(&message, &mut codeword).unwrap();
        let weight = codeword
            .iter()
            .filter(|symbol| **symbol != Gf256::zero())
            .count();
        if weight > 0 {
            minimum = minimum.min(weight);
        }
        let mut position = 0;
        let mut overflow = true;
        while position < k {
            counter[position] += 1;
            if counter[position] == 256 {
                counter[position] = 0;
                position += 1;
            } else {
                overflow = false;
                break;
            }
        }
        if overflow {
            break;
        }
    }
    assert_eq!(minimum, n - k + 1, "punctured GRS code is not MDS");
}

#[test]
fn double_puncture_is_union() {
    let n = 9;
    let first = vec![2usize, 5];
    let second = [3usize, 7];
    let mut union = first.clone();
    union.extend(second.iter().copied());

    let code_first =
        PuncturedGrsCode::new(base_domain(n), ramp_multipliers(n), 2, first.clone()).unwrap();
    let code_union = PuncturedGrsCode::new(base_domain(n), ramp_multipliers(n), 2, union).unwrap();

    // Puncturing `first` and then the `second` coordinates of the survivors
    // leaves exactly the survivors of the union.
    let composed: Vec<usize> = surviving_indices(&code_first)
        .into_iter()
        .filter(|i| !second.contains(i))
        .collect();
    assert_eq!(composed, surviving_indices(&code_union));

    // The surviving evaluation points agree coordinate for coordinate.
    let base = base_domain(n);
    let points_union: Vec<Gf256> = surviving_indices(&code_union)
        .iter()
        .map(|&i| base.points()[i])
        .collect();
    let points_composed: Vec<Gf256> = composed.iter().map(|&i| base.points()[i]).collect();
    assert_eq!(points_union, points_composed);

    // Encoding through the union equals encoding through `first` and then
    // dropping the survivor coordinates whose base index lies in `second`.
    let message = [e(3), e(5)];
    let mut codeword_first = vec![Gf256::zero(); code_first.length()];
    code_first
        .encode_into(&message, &mut codeword_first)
        .unwrap();
    let survivors_first = surviving_indices(&code_first);
    let codeword_composed: Vec<Gf256> = survivors_first
        .iter()
        .zip(codeword_first)
        .filter(|(i, _)| !second.contains(i))
        .map(|(_, symbol)| symbol)
        .collect();

    let mut codeword_union = vec![Gf256::zero(); code_union.length()];
    code_union
        .encode_into(&message, &mut codeword_union)
        .unwrap();
    assert_eq!(codeword_composed, codeword_union);
}

#[test]
fn block_alignment_flag() {
    // Blocks of 2 over n = 8: puncture blocks 0 and 2 entirely.
    let aligned =
        PuncturedGrsCode::new(base_domain(8), ramp_multipliers(8), 2, vec![0, 1, 4, 5]).unwrap();
    assert!(
        aligned.is_block_aligned(1),
        "unit blocks are always aligned"
    );
    assert!(
        aligned.is_block_aligned(2),
        "whole-block puncture is aligned"
    );
    assert!(
        !aligned.is_block_aligned(4),
        "half-punctured 4-blocks are not aligned"
    );
    assert!(
        !aligned.is_block_aligned(3),
        "a fold not dividing n is never aligned"
    );
    assert!(!aligned.is_block_aligned(0), "fold zero is never aligned");

    // A puncture straddling a 2-block boundary is not aligned.
    let mid = PuncturedGrsCode::new(base_domain(8), ramp_multipliers(8), 2, vec![0, 2]).unwrap();
    assert!(
        !mid.is_block_aligned(2),
        "mid-block puncture is not aligned"
    );
}

#[test]
fn blocks_aligned_on_raw_sets() {
    assert!(blocks_aligned(&[], 6, 3));
    assert!(blocks_aligned(&[3, 4, 5], 6, 3));
    assert!(!blocks_aligned(&[3, 4], 6, 3));
    assert!(!blocks_aligned(&[0], 7, 7 + 1));
}

#[test]
fn puncture_construction_rejects_bad_parameters() {
    let n = 8;

    assert_eq!(
        PuncturedGrsCode::new(base_domain(n), ramp_multipliers(n - 1), 3, vec![2, 5]).unwrap_err(),
        Error::MultiplierCount {
            expected: n,
            got: n - 1
        }
    );

    let mut multipliers = ramp_multipliers(n);
    multipliers[4] = Gf256::zero();
    assert_eq!(
        PuncturedGrsCode::new(base_domain(n), multipliers, 3, vec![2, 5]).unwrap_err(),
        Error::ZeroMultiplier { index: 4 }
    );

    assert_eq!(
        PuncturedGrsCode::new(base_domain(n), ramp_multipliers(n), n, vec![]).unwrap_err(),
        Error::InvalidDimension {
            dimension: n,
            length: n
        }
    );

    assert_eq!(
        PuncturedGrsCode::new(base_domain(n), ramp_multipliers(n), 3, vec![8]).unwrap_err(),
        Error::PunctureIndex {
            index: 8,
            length: n
        }
    );

    assert_eq!(
        PuncturedGrsCode::new(base_domain(n), ramp_multipliers(n), 3, vec![2, 2]).unwrap_err(),
        Error::DuplicatePuncture { index: 2 }
    );

    assert_eq!(
        PuncturedGrsCode::new(
            base_domain(n),
            ramp_multipliers(n),
            3,
            vec![0, 1, 2, 3, 4, 5]
        )
        .unwrap_err(),
        Error::PunctureLength {
            remaining: 2,
            dimension: 3
        }
    );
}

#[test]
fn puncture_io_length_checks() {
    let n = 8;
    let code = PuncturedGrsCode::new(base_domain(n), ramp_multipliers(n), 3, vec![2, 5]).unwrap();
    let effective = code.length();

    let mut codeword = vec![Gf256::zero(); effective];
    assert_eq!(
        code.encode_into(&[e(1)], &mut codeword).unwrap_err(),
        Error::MessageLength {
            expected: 3,
            got: 1
        }
    );

    let mut short = vec![Gf256::zero(); effective - 1];
    assert_eq!(
        code.encode_into(&[e(1), e(2), e(3)], &mut short)
            .unwrap_err(),
        Error::CodewordLength {
            expected: effective,
            got: effective - 1
        }
    );

    let decoder = PuncturedGrsDecoder::new(&code, 1);
    assert_eq!(
        decoder
            .normalize(&vec![Gf256::zero(); effective + 1])
            .unwrap_err(),
        Error::ReceivedLength {
            expected: effective,
            got: effective + 1
        }
    );
}

#[test]
fn punctured_decoder_runs_on_the_surviving_subdomain() {
    let code = PuncturedGrsCode::new(base_domain(8), ramp_multipliers(8), 2, vec![5, 2]).unwrap();
    assert_eq!(code.punctures(), &[2, 5]);
    assert_eq!(code.length(), 6);
    assert_eq!(code.base_length(), 8);
    let decoder = PuncturedGrsDecoder::new(&code, 2);
    let survivors: Vec<u8> = decoder.surviving_points().iter().map(|x| x.value()).collect();
    assert_eq!(survivors, vec![1, 2, 4, 5, 7, 8]);

    let message = [e(6), e(31)];
    let mut codeword = vec![Gf256::zero(); 6];
    code.encode_into(&message, &mut codeword).unwrap();
    let normalized = decoder.normalize(&codeword).unwrap();
    let poly = Polynomial::from_coefficients(message.to_vec());
    for (i, point) in decoder.surviving_points().iter().enumerate() {
        assert_eq!(normalized[i], poly.evaluate(*point));
    }

    let mut output = Vec::new();
    assert_eq!(decoder.list_decode_into(&[poly.clone()], &mut output), 1);
    assert_eq!(output, vec![poly.clone()]);
    match decoder.unique_decode(&[poly.clone()]) {
        UniqueDecode::Message(m) => assert_eq!(m, poly),
        other => panic!("expected one message, got {other:?}"),
    }
    assert!(matches!(decoder.unique_decode(&[]), UniqueDecode::NoCandidate));
}
