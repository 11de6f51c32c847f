use contort::{
    Error, EvaluationDomain, Field, Gf256, MobiusGrsCode, MobiusGrsDecoder, MobiusMap, Polynomial,
    UniqueDecode,
};

fn e(byte: u8) -> Gf256 {
    Gf256::new(byte)
}

fn ramp_multipliers(n: usize) -> Vec<Gf256> {
    (0..n).map(|i| e((i + 1) as u8)).collect()
}

fn arbitrary_domain(n: usize) -> EvaluationDomain<Gf256> {
    let points: Vec<Gf256> = (1..=n as u8).map(e).collect();
    EvaluationDomain::arbitrary(points).unwrap()
}

/// A map with `c ≠ 0` whose pole `d/c = 200` avoids the domain `1..=8`.
fn affine_pole_free_map() -> MobiusMap<Gf256> {
    MobiusMap::new(e(1), e(1), e(1), e(200))
}

#[test]
fn orbit_preserving_flag() {
    let n = 8;
    let scaling = MobiusGrsCode::new(
        arbitrary_domain(n),
        ramp_multipliers(n),
        2,
        MobiusMap::new(e(2), e(0), e(0), e(1)),
    )
    .unwrap();
    assert!(scaling.is_orbit_preserving());

    let inversion = MobiusGrsCode::new(
        arbitrary_domain(n),
        ramp_multipliers(n),
        2,
        MobiusMap::new(e(0), e(1), e(1), e(0)),
    )
    .unwrap();
    assert!(inversion.is_orbit_preserving());

    let general = MobiusGrsCode::new(
        arbitrary_domain(n),
        ramp_multipliers(n),
        2,
        affine_pole_free_map(),
    )
    .unwrap();
    assert!(!general.is_orbit_preserving());
}

#[test]
fn construction_rejects_singular_and_pole() {
    let n = 8;
    // Δ = 1·1 + 1·1 = 0.
    assert_eq!(
        MobiusGrsCode::new(
            arbitrary_domain(n),
            ramp_multipliers(n),
            2,
            MobiusMap::new(e(1), e(1), e(1), e(1)),
        )
        .unwrap_err(),
        Error::MobiusDelta
    );
    // Pole d/c = 3 lands on domain point at index 2 (the point α = 3).
    assert_eq!(
        MobiusGrsCode::new(
            arbitrary_domain(n),
            ramp_multipliers(n),
            2,
            MobiusMap::new(e(1), e(0), e(1), e(3)),
        )
        .unwrap_err(),
        Error::MobiusPole { index: 2 }
    );
}

#[test]
fn construction_rejects_bad_shape() {
    let n = 8;
    assert_eq!(
        MobiusGrsCode::new(
            arbitrary_domain(n),
            ramp_multipliers(n - 1),
            2,
            affine_pole_free_map(),
        )
        .unwrap_err(),
        Error::MultiplierCount {
            expected: n,
            got: n - 1
        }
    );
    let mut zeroed = ramp_multipliers(n);
    zeroed[3] = Gf256::zero();
    assert_eq!(
        MobiusGrsCode::new(arbitrary_domain(n), zeroed, 2, affine_pole_free_map()).unwrap_err(),
        Error::ZeroMultiplier { index: 3 }
    );
    assert_eq!(
        MobiusGrsCode::new(
            arbitrary_domain(n),
            ramp_multipliers(n),
            0,
            affine_pole_free_map()
        )
        .unwrap_err(),
        Error::InvalidDimension {
            dimension: 0,
            length: n
        }
    );
}

#[test]
fn mobius_io_length_checks() {
    let n = 8;
    let code = MobiusGrsCode::new(
        arbitrary_domain(n),
        ramp_multipliers(n),
        2,
        affine_pole_free_map(),
    )
    .unwrap();
    let mut codeword = vec![Gf256::zero(); n];
    assert_eq!(
        code.encode_into(&[e(1)], &mut codeword).unwrap_err(),
        Error::MessageLength {
            expected: 2,
            got: 1
        }
    );
    assert_eq!(
        code.encode_into(&[e(1), e(2)], &mut codeword[..n - 1])
            .unwrap_err(),
        Error::CodewordLength {
            expected: n,
            got: n - 1
        }
    );
    let decoder = MobiusGrsDecoder::new(&code, 2);
    assert_eq!(
        decoder.normalize_moved(&[e(1); 7]).unwrap_err(),
        Error::ReceivedLength {
            expected: n,
            got: 7
        }
    );
    assert_eq!(
        decoder.normalize_base(&[e(1); 7]).unwrap_err(),
        Error::ReceivedLength {
            expected: n,
            got: 7
        }
    );
}

#[test]
fn mobius_encoder_evaluates_at_moved_points() {
    let n = 8;
    let map = affine_pole_free_map();
    let multipliers = ramp_multipliers(n);
    let code = MobiusGrsCode::new(arbitrary_domain(n), multipliers.clone(), 2, map).unwrap();
    let moved: Vec<Gf256> = (1..=n as u8).map(|x| map.apply(e(x)).unwrap()).collect();
    assert_eq!(code.moved_points(), moved.as_slice());
    let message = [e(17), e(91)];
    let mut codeword = vec![Gf256::zero(); n];
    code.encode_into(&message, &mut codeword).unwrap();
    let poly = Polynomial::from_coefficients(message.to_vec());
    for i in 0..n {
        assert_eq!(codeword[i], multipliers[i].mul(poly.evaluate(moved[i])));
    }
}

#[test]
fn mobius_routes_recover_the_message() {
    let n = 8;
    let map = affine_pole_free_map();
    let code = MobiusGrsCode::new(arbitrary_domain(n), ramp_multipliers(n), 2, map).unwrap();
    let decoder = MobiusGrsDecoder::new(&code, 2);
    let message = [e(5), e(9)];
    let mut codeword = vec![Gf256::zero(); n];
    code.encode_into(&message, &mut codeword).unwrap();
    let poly = Polynomial::from_coefficients(message.to_vec());

    // Moved route: the normalized word is f evaluated at the moved points.
    let moved_word = decoder.normalize_moved(&codeword).unwrap();
    for (i, point) in decoder.moved_points().iter().enumerate() {
        assert_eq!(moved_word[i], poly.evaluate(*point));
    }
    let mut out = Vec::new();
    assert_eq!(decoder.list_decode_moved_into(&[poly.clone()], &mut out), 1);
    assert_eq!(out, vec![poly.clone()]);

    // Base route: the normalized word is the pulled-back polynomial g on the
    // base points, and pulling g back again returns the message.
    let base_word = decoder.normalize_base(&codeword).unwrap();
    let interpolated = Polynomial::interpolate(
        &(1..=n as u8).map(e).collect::<Vec<_>>(),
        &base_word,
    )
    .unwrap();
    assert!(interpolated.degree().map_or(true, |d| d < 2));
    let mut back = Vec::new();
    assert_eq!(decoder.list_decode_normalized_into(&[interpolated.clone()], &mut back), 1);
    let mut default_route = Vec::new();
    assert_eq!(decoder.list_decode_into(&[poly.clone()], &mut default_route), 1);
    assert_eq!(default_route, vec![poly.clone()]);
    assert_eq!(back, vec![poly.clone()]);
    match decoder.unique_decode(&[poly.clone()]) {
        UniqueDecode::Message(m) => assert_eq!(m, poly),
        other => panic!("expected one message, got {other:?}"),
    }
}

#[test]
fn mobius_group_law_scale_and_three_transitivity() {
    let first = MobiusMap::<Gf256>::new(e(2), e(1), e(0), e(1));
    let second = MobiusMap::<Gf256>::new(e(1), e(0), e(1), e(200));
    let net = second.compose(&first);
    for point in (1..=8).map(e) {
        assert_eq!(net.apply(point), second.apply(first.apply(point).unwrap()));
    }

    let scale = e(9);
    let scaled = MobiusMap::<Gf256>::new(
        first.a().mul(scale),
        first.b().mul(scale),
        first.c().mul(scale),
        first.d().mul(scale),
    );
    assert_eq!(first.normalized(), scaled.normalized());

    let representative = MobiusMap::<Gf256>::from_three_points(e(1), e(2), e(3));
    assert_eq!(representative.apply(e(1)), Some(Gf256::zero()));
    assert_eq!(representative.apply(e(2)), Some(Gf256::one()));
    assert_eq!(representative.apply(e(3)), None);
    assert!(!representative.determinant().is_zero());
}

#[test]
fn mobius_identity_and_adjugate() {
    let identity = MobiusMap::<Gf256>::identity();
    assert!(identity.is_identity());
    let map = MobiusMap::<Gf256>::new(e(3), e(7), e(5), e(2));
    assert!(!map.is_identity());
    let inverse = map.adjugate();
    assert!(inverse.compose(&map).normalized().is_identity());
    for x in [1u8, 4, 9, 100] {
        if let Some(y) = map.apply(e(x)) {
            assert_eq!(inverse.apply(y), Some(e(x)));
        }
    }
}
