use contort::{Error, FoldedRsCode, Gf256};
use fgf::Gf8B;
use poly_ring::Polynomial as RingPolynomial;

fn e(value: u8) -> Gf256 {
    Gf256::new(value)
}

fn ramp(n: usize) -> Vec<Gf256> {
    (0..n).map(|i| e((i + 1) as u8)).collect()
}

fn to_fgf(values: &[Gf256]) -> Vec<fgf::gf8b::Elem> {
    values.iter().map(|x| fgf::gf8b::Elem::from_raw(x.value())).collect()
}

/// `γ = 2` has multiplicative order well above the small orbit lengths used
/// here, so it indexes them with distinct powers.
const GAMMA: u8 = 2;

#[test]
fn folded_encoder_matches_evaluation_oracle() {
    let n = 6;
    let m = 2;
    let k = 2;
    let code = FoldedRsCode::<Gf256>::new(e(GAMMA), ramp(n), k, m).unwrap();
    let orbit = to_fgf(code.orbit());
    let multipliers = to_fgf(code.multipliers());

    let mut codeword = vec![Gf256::new(0); n];
    for a0 in 0..=255u8 {
        for a1 in 0..=255u8 {
            let message = [e(a0), e(a1)];
            code.encode_into(&message, &mut codeword).unwrap();

            // Independent oracle: v_i * f(γ^i).
            let poly = RingPolynomial::<Gf8B>::from_coefficients(&to_fgf(&message)).unwrap();
            let values = poly.evaluate_many(&orbit).unwrap();
            for i in 0..n {
                let expected = multipliers[i].mul(values[i]);
                assert_eq!(codeword[i].value(), expected.to_raw(), "coordinate {i} for ({a0},{a1})");
            }
        }
    }
}

#[test]
fn block_distance_counts_a_block_once() {
    let n = 6;
    let m = 2;
    let code = FoldedRsCode::<Gf256>::new(e(GAMMA), ramp(n), 2, m).unwrap();
    let mut a = vec![Gf256::new(0); n];
    code.encode_into(&[e(3), e(9)], &mut a).unwrap();

    // Two scalar changes inside one block (indices 0,1) → one block error.
    let mut one_block = a.clone();
    one_block[0] = Gf256::new(one_block[0].value() ^ 1);
    one_block[1] = Gf256::new(one_block[1].value() ^ 1);
    assert_eq!(code.block_distance(&a, &one_block), 1);

    // One scalar change in each of two blocks (indices 0 and 2) → two errors.
    let mut two_blocks = a.clone();
    two_blocks[0] = Gf256::new(two_blocks[0].value() ^ 1);
    two_blocks[2] = Gf256::new(two_blocks[2].value() ^ 1);
    assert_eq!(code.block_distance(&a, &two_blocks), 2);

    // Blocks partition the word.
    let rebuilt: Vec<Gf256> = (0..code.blocks())
        .flat_map(|i| code.block(&a, i).to_vec())
        .collect();
    assert_eq!(rebuilt, a);
}

#[test]
fn folded_construction_rejects_bad_geometry() {
    // Zero generator.
    assert!(matches!(
        FoldedRsCode::<Gf256>::new(e(0), ramp(6), 2, 2),
        Err(Error::InsufficientOrbit { length: 6 })
    ));
    // Order-1 generator repeats γ^0 immediately, so it cannot index n > 1.
    assert!(matches!(
        FoldedRsCode::<Gf256>::new(e(1), ramp(4), 2, 2),
        Err(Error::InsufficientOrbit { length: 4 })
    ));
    // Fold zero and fold not dividing n.
    assert!(matches!(
        FoldedRsCode::<Gf256>::new(e(GAMMA), ramp(6), 2, 0),
        Err(Error::FoldParameter { fold: 0, length: 6 })
    ));
    assert!(matches!(
        FoldedRsCode::<Gf256>::new(e(GAMMA), ramp(6), 2, 4),
        Err(Error::FoldParameter { fold: 4, length: 6 })
    ));
    // Bad dimension and zero multiplier.
    assert!(matches!(
        FoldedRsCode::<Gf256>::new(e(GAMMA), ramp(6), 6, 2),
        Err(Error::InvalidDimension {
            dimension: 6,
            length: 6
        })
    ));
    let mut bad = ramp(6);
    bad[3] = e(0);
    assert!(matches!(
        FoldedRsCode::<Gf256>::new(e(GAMMA), bad, 2, 2),
        Err(Error::ZeroMultiplier { index: 3 })
    ));
}

#[test]
fn folded_io_length_checks() {
    let code = FoldedRsCode::<Gf256>::new(e(GAMMA), ramp(6), 2, 2).unwrap();
    let mut codeword = vec![Gf256::new(0); 6];
    assert!(matches!(
        code.encode_into(&[e(1)], &mut codeword),
        Err(Error::MessageLength {
            expected: 2,
            got: 1
        })
    ));
    let mut short = vec![Gf256::new(0); 5];
    assert!(matches!(
        code.encode_into(&[e(1), e(2)], &mut short),
        Err(Error::CodewordLength {
            expected: 6,
            got: 5
        })
    ));
}

#[test]
fn folded_orbit_lists_successive_powers() {
    let code = FoldedRsCode::<Gf256>::new(e(GAMMA), ramp(6), 2, 3).unwrap();
    let orbit: Vec<u8> = code.orbit().iter().map(|x| x.value()).collect();
    assert_eq!(orbit, vec![1, 2, 4, 8, 16, 32]);
    assert_eq!(code.length(), 6);
    assert_eq!(code.dimension(), 2);
    assert_eq!(code.fold(), 3);
    assert_eq!(code.blocks(), 2);
    // The orbit wraps modulo the AES polynomial after x^7.
    let long = FoldedRsCode::<Gf256>::new(e(GAMMA), ramp(10), 2, 5).unwrap();
    assert_eq!(long.orbit()[8].value(), 0x1B);
    assert_eq!(long.orbit()[9].value(), 0x36);
}
