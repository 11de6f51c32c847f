use contort::{Error, EvaluationDomain, Gf256, InterleavedRsCode};
use fgf::Gf8B;
use poly_ring::Polynomial as RingPolynomial;

fn e(value: u8) -> Gf256 {
    Gf256::new(value)
}

fn ramp(n: usize) -> Vec<Gf256> {
    (0..n).map(|i| e((i + 1) as u8)).collect()
}

fn domain(n: usize) -> EvaluationDomain<Gf256> {
    EvaluationDomain::arbitrary((0..n as u8).map(e).collect()).unwrap()
}

fn to_fgf(values: &[Gf256]) -> Vec<fgf::gf8b::Elem> {
    values.iter().map(|x| fgf::gf8b::Elem::from_raw(x.value())).collect()
}

#[test]
fn interleaved_encoder_matches_evaluation_oracle() {
    let n = 5;
    let k = 2;
    let ell = 2;
    let code = InterleavedRsCode::<Gf256>::new(domain(n), ramp(n), k, ell).unwrap();
    let points: Vec<fgf::gf8b::Elem> = (0..n as u8).map(fgf::gf8b::Elem::from_raw).collect();
    let multipliers = to_fgf(code.multipliers());

    let mut codeword = vec![Gf256::new(0); ell * n];
    for a0 in 0..=255u8 {
        for a1 in 0..=255u8 {
            // Row 0 = (a0, a1); row 1 = (a1, a0) to keep rows distinct.
            let messages = [e(a0), e(a1), e(a1), e(a0)];
            code.encode_into(&messages, &mut codeword).unwrap();

            for row in 0..ell {
                let poly = RingPolynomial::<Gf8B>::from_coefficients(&to_fgf(
                    &messages[row * k..row * k + k],
                ))
                .unwrap();
                let values = poly.evaluate_many(&points).unwrap();
                for col in 0..n {
                    let expected = multipliers[col].mul(values[col]);
                    assert_eq!(
                        codeword[col * ell + row].value(),
                        expected.to_raw(),
                        "row {row} col {col} for ({a0},{a1})"
                    );
                }
            }
        }
    }
}

#[test]
fn column_distance_counts_a_column_once() {
    let n = 5;
    let ell = 3;
    let code = InterleavedRsCode::<Gf256>::new(domain(n), ramp(n), 2, ell).unwrap();
    let mut a = vec![Gf256::new(0); ell * n];
    code.encode_into(&[e(3), e(9), e(2), e(7), e(5), e(1)], &mut a)
        .unwrap();

    // All ℓ rows of column 0 corrupted → one column error.
    let mut one_col = a.clone();
    for slot in one_col[0..ell].iter_mut() {
        *slot = Gf256::new(slot.value() ^ 1);
    }
    assert_eq!(code.column_distance(&a, &one_col), 1);

    // One row corrupted in each of two columns (0 and 2) → two column errors.
    let mut two_cols = a.clone();
    two_cols[0] = Gf256::new(two_cols[0].value() ^ 1);
    two_cols[2 * ell] = Gf256::new(two_cols[2 * ell].value() ^ 1);
    assert_eq!(code.column_distance(&a, &two_cols), 2);

    // Columns partition the word.
    let rebuilt: Vec<Gf256> = (0..code.length())
        .flat_map(|i| code.column(&a, i).to_vec())
        .collect();
    assert_eq!(rebuilt, a);
}

#[test]
fn interleaved_construction_rejects_bad_geometry() {
    assert!(matches!(
        InterleavedRsCode::<Gf256>::new(domain(5), ramp(4), 2, 2),
        Err(Error::MultiplierCount {
            expected: 5,
            got: 4
        })
    ));
    assert!(matches!(
        InterleavedRsCode::<Gf256>::new(domain(5), ramp(5), 5, 2),
        Err(Error::InvalidDimension {
            dimension: 5,
            length: 5
        })
    ));
    assert!(matches!(
        InterleavedRsCode::<Gf256>::new(domain(5), ramp(5), 2, 0),
        Err(Error::ZeroInterleave)
    ));
    let mut bad = ramp(5);
    bad[2] = e(0);
    assert!(matches!(
        InterleavedRsCode::<Gf256>::new(domain(5), bad, 2, 2),
        Err(Error::ZeroMultiplier { index: 2 })
    ));
}

#[test]
fn interleaved_io_length_checks() {
    let code = InterleavedRsCode::<Gf256>::new(domain(5), ramp(5), 2, 2).unwrap();
    let mut codeword = vec![Gf256::new(0); 2 * 5];
    // Wrong number of row messages (ℓ·k = 4 expected).
    assert!(matches!(
        code.encode_into(&[e(1), e(2)], &mut codeword),
        Err(Error::MessageCount {
            expected: 2,
            got: 1
        })
    ));
    let mut short = vec![Gf256::new(0); 9];
    assert!(matches!(
        code.encode_into(&[e(1), e(2), e(3), e(4)], &mut short),
        Err(Error::CodewordLength {
            expected: 10,
            got: 9
        })
    ));
}
