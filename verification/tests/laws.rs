use contort::{
    hamming_distance, BaseCode, EvaluationDomain, ExtendedGrsCode, Field, Gf256, Gf65536, GrsCode, MobiusGrsCode,
    MobiusGrsDecoder, MobiusMap, Polynomial, PrimeField, TgrsCode, TransformOp, TransformWord, Twist,
};

type F7 = PrimeField<7>;

fn f7(v: u64) -> F7 {
    F7::new(v)
}

#[test]
fn mobius_normalized_applies_like_the_original_map() {
    let maps = [
        MobiusMap::new(f7(3), f7(2), f7(5), f7(4)),
        MobiusMap::new(f7(0), f7(6), f7(2), f7(1)),
        MobiusMap::new(f7(0), f7(0), f7(3), f7(5)),
    ];
    for map in maps {
        let normalized = map.normalized();
        for x in 0..7 {
            assert_eq!(normalized.apply(f7(x)), map.apply(f7(x)));
        }
    }
}

#[test]
fn mobius_normalized_ignores_a_common_scale() {
    let map = MobiusMap::new(f7(3), f7(2), f7(5), f7(4));
    for s in 1..7 {
        let scale = f7(s);
        let scaled = MobiusMap::new(
            map.a().mul(scale),
            map.b().mul(scale),
            map.c().mul(scale),
            map.d().mul(scale),
        );
        assert_eq!(scaled.normalized(), map.normalized());
    }
}

#[test]
fn mobius_compose_matches_successive_application_over_f7() {
    let outer = MobiusMap::new(f7(1), f7(3), f7(2), f7(6));
    let inner = MobiusMap::new(f7(4), f7(1), f7(1), f7(2));
    let composed = outer.compose(&inner);
    for x in 0..7 {
        if let Some(y) = inner.apply(f7(x)) {
            if let Some(z) = outer.apply(y) {
                assert_eq!(composed.apply(f7(x)), Some(z));
            }
        }
    }
}

#[test]
fn evaluation_respects_products_and_composition_over_f7() {
    let a = Polynomial::from_coefficients(vec![f7(3), f7(0), f7(5), f7(1)]);
    let b = Polynomial::from_coefficients(vec![f7(6), f7(2)]);
    let product = a.mul(&b);
    let composition = a.compose(&b);
    for x in 0..7 {
        let x = f7(x);
        assert_eq!(product.evaluate(x), a.evaluate(x).mul(b.evaluate(x)));
        assert_eq!(composition.evaluate(x), a.evaluate(b.evaluate(x)));
    }
    assert_eq!(a.add(&b).sub(&b), a);
}

#[test]
fn merging_a_new_twist_twice_restores_the_program() {
    let base = BaseCode::with_id(
        9,
        EvaluationDomain::arbitrary((1..=8).map(Gf256::new).collect()).unwrap(),
        (1..=8).map(Gf256::new).collect(),
        3,
    )
    .unwrap();
    let mut word = TransformWord::new(base);
    word.push(TransformOp::Twist(Twist::new(2, 1, Gf256::new(7))));
    word.push(TransformOp::Twist(Twist::new(1, 0, Gf256::new(0x35))));
    word.push(TransformOp::Twist(Twist::new(1, 0, Gf256::new(0x35))));
    let descriptor = word.normalize().unwrap();
    assert_eq!(descriptor.twists(), &[Twist::new(2, 1, Gf256::new(7))]);
}

#[test]
fn grs_codewords_of_distinct_messages_differ_in_n_minus_k_plus_one_places() {
    // [6, 3] GRS over F_7: every pair of distinct messages with at most three
    // coefficients yields codewords at distance at least 4.
    let points: Vec<F7> = (1..=6).map(f7).collect();
    let multipliers: Vec<F7> = vec![f7(1), f7(2), f7(3), f7(1), f7(5), f7(6)];
    let code = GrsCode::new(points, multipliers, 3).expect("code");
    let messages: Vec<Vec<u64>> = vec![
        vec![0, 0, 0],
        vec![1, 0, 0],
        vec![0, 1, 0],
        vec![6, 1, 1],
        vec![2, 5, 3],
        vec![3, 3, 3],
    ];
    let codewords: Vec<Vec<F7>> = messages
        .iter()
        .map(|m| {
            code.encode(&Polynomial::from_coefficients(m.iter().map(|&v| f7(v)).collect()))
                .expect("encode")
        })
        .collect();
    let mut minimum = usize::MAX;
    for i in 0..codewords.len() {
        for j in 0..codewords.len() {
            if i != j {
                let distance = hamming_distance(&codewords[i], &codewords[j]).expect("same length");
                minimum = minimum.min(distance);
                assert!(distance >= 6 - 3 + 1);
            }
        }
    }
    // The polynomials 0 and (x − 1)(x − 2) = x² − 3x + 2 agree at two points.
    let quadratic = code
        .encode(&Polynomial::from_coefficients(vec![f7(2), f7(4), f7(1)]))
        .expect("encode");
    assert_eq!(hamming_distance(&codewords[0], &quadratic), Some(4));
    assert!(minimum >= 4);
}

#[test]
fn projective_extension_reaches_the_singleton_bound() {
    // [5 + 1, 2] projective extension over F_7: distance at least 5.
    let points: Vec<F7> = (0..5).map(f7).collect();
    let domain = EvaluationDomain::arbitrary(points).expect("domain");
    let multipliers: Vec<F7> = vec![f7(1), f7(3), f7(2), f7(6), f7(4), f7(5)];
    let code = ExtendedGrsCode::projective(domain, multipliers, 2).expect("code");
    let encode = |message: [u64; 2]| {
        let mut codeword = vec![f7(0); code.length()];
        code.encode_into(&[f7(message[0]), f7(message[1])], &mut codeword)
            .expect("encode");
        codeword
    };
    // Two lines through the same point at x = 2 differ in every other place.
    let a = encode([1, 3]);
    let b = encode([5, 1]);
    assert_eq!(hamming_distance(&a, &b), Some(5));
    // Equal leading coefficients: parallel lines never meet, and the extra
    // coordinate agrees.
    let c = encode([4, 3]);
    assert_eq!(hamming_distance(&a, &c), Some(5));
    for x in 0..7 {
        for y in 0..7 {
            let other = encode([x, y]);
            if [x, y] != [1, 3] {
                assert!(hamming_distance(&a, &other).expect("same length") >= 5);
            }
        }
    }
}

#[test]
fn colliding_twists_merge_without_changing_the_code() {
    // Over F_7, dimension 2, length 6: the twists (t=1, h=0) with η = 3 and 1
    // merge into η = 4; (t=2, h=1) with η = 2 and 5 cancel.
    let points: Vec<F7> = (0..6).map(f7).collect();
    let multipliers: Vec<F7> = vec![f7(1), f7(2), f7(3), f7(4), f7(5), f7(6)];
    let base = BaseCode::new(
        EvaluationDomain::arbitrary(points.clone()).expect("domain"),
        multipliers.clone(),
        2,
    )
    .expect("base");
    let mut word = TransformWord::new(base);
    word.push(TransformOp::Twist(Twist::new(1, 0, f7(3))));
    word.push(TransformOp::Twist(Twist::new(2, 1, f7(2))));
    word.push(TransformOp::Twist(Twist::new(1, 0, f7(1))));
    word.push(TransformOp::Twist(Twist::new(2, 1, f7(5))));
    let descriptor = word.normalize().expect("descriptor");
    assert_eq!(descriptor.twists().len(), 1);
    let merged = TgrsCode::new(
        EvaluationDomain::arbitrary(points).expect("domain"),
        multipliers,
        2,
        vec![Twist::new(1, 0, f7(4))],
    )
    .expect("code");
    for message in [[f7(0), f7(0)], [f7(1), f7(0)], [f7(3), f7(5)], [f7(6), f7(2)]] {
        let mut expected = vec![f7(0); merged.length()];
        let mut actual = vec![f7(0); descriptor.length()];
        merged.encode_into(&message, &mut expected).expect("encode");
        descriptor.encode_into(&message, &mut actual).expect("encode");
        assert_eq!(actual, expected);
    }
}

#[test]
fn a_mobius_run_nets_to_one_map_that_moves_points_alike() {
    let points: Vec<F7> = (0..6).map(f7).collect();
    let multipliers: Vec<F7> = vec![f7(1); 6];
    let base = BaseCode::new(EvaluationDomain::arbitrary(points).expect("domain"), multipliers, 2)
        .expect("base");
    let first = MobiusMap::new(f7(2), f7(1), f7(0), f7(1));
    let second = MobiusMap::new(f7(1), f7(3), f7(1), f7(2));
    let third = MobiusMap::new(f7(0), f7(1), f7(1), f7(0));
    let mut word = TransformWord::new(base);
    word.push(TransformOp::Mobius(first));
    word.push(TransformOp::Mobius(second));
    word.push(TransformOp::Mobius(third));
    let descriptor = word.normalize().expect("descriptor");
    let net = *descriptor.mobius();
    for x in 0..7 {
        let stepwise = first
            .apply(f7(x))
            .and_then(|y| second.apply(y))
            .and_then(|z| third.apply(z));
        if let Some(value) = stepwise {
            assert_eq!(net.apply(f7(x)), Some(value));
        }
    }
}

#[test]
fn base_normalization_evaluates_the_homogenized_message() {
    // Over F_7 with k = 2: g(Y) = f0·(c·Y + d) + f1·(a·Y + b).
    let (a, b, c, d) = (f7(2), f7(3), f7(1), f7(4));
    let map = MobiusMap::new(a, b, c, d);
    let points: Vec<F7> = vec![f7(0), f7(1), f7(2), f7(4), f7(5)];
    let multipliers: Vec<F7> = vec![f7(1), f7(6), f7(2), f7(3), f7(5)];
    let code = MobiusGrsCode::new(
        EvaluationDomain::arbitrary(points.clone()).expect("domain"),
        multipliers,
        2,
        map,
    )
    .expect("code");
    let decoder = MobiusGrsDecoder::new(&code, 1);
    let (f0, f1) = (f7(5), f7(3));
    let mut codeword = vec![f7(0); points.len()];
    code.encode_into(&[f0, f1], &mut codeword).expect("encode");
    let base_word = decoder.normalize_base(&codeword).expect("normalize");
    for (i, &x) in points.iter().enumerate() {
        let g = f0.mul(c.mul(x).add(d)).add(f1.mul(a.mul(x).add(b)));
        assert_eq!(base_word[i], g);
    }
}

#[test]
fn grs_minimum_distance_holds_over_gf256() {
    // [6, 3] GRS code over GF(2^8): distinct messages differ in at least 4 places.
    let points: Vec<Gf256> = [1u8, 2, 3, 4, 5, 6].iter().map(|&v| Gf256::new(v)).collect();
    let multipliers: Vec<Gf256> = [1u8, 7, 0x53, 1, 0x80, 9].iter().map(|&v| Gf256::new(v)).collect();
    let code = GrsCode::new(points, multipliers, 3).expect("code");
    let messages: Vec<Vec<u8>> = vec![
        vec![0, 0, 0],
        vec![1, 0, 0],
        vec![0, 1, 0],
        vec![0x57, 0x83, 1],
        vec![0xFF, 2, 0x1B],
        vec![3, 3, 3],
    ];
    let codewords: Vec<Vec<Gf256>> = messages
        .iter()
        .map(|m| {
            code.encode(&Polynomial::from_coefficients(m.iter().map(|&v| Gf256::new(v)).collect()))
                .expect("encode")
        })
        .collect();
    for i in 0..codewords.len() {
        for j in 0..codewords.len() {
            if i != j {
                let d = hamming_distance(&codewords[i], &codewords[j]).expect("same length");
                assert!(d >= 4, "messages {i} and {j} at distance {d}");
            }
        }
    }
}

#[test]
fn grs_minimum_distance_holds_over_gf65536() {
    // [5, 2] GRS code over GF(2^16): distinct messages differ in at least 4 places.
    let g = |lo: u8, hi: u8| Gf65536::new(lo, hi);
    let points = vec![g(1, 0), g(0, 1), g(0x20, 1), g(0x12, 0x34), g(0xFF, 0)];
    let multipliers = vec![g(1, 0), g(3, 7), g(0, 1), g(0x57, 0x83), g(9, 0)];
    let code = GrsCode::new(points, multipliers, 2).expect("code");
    let messages = vec![
        vec![g(0, 0), g(0, 0)],
        vec![g(1, 0), g(0, 0)],
        vec![g(0, 1), g(0, 0)],
        vec![g(0x12, 0x34), g(0x56, 0x78)],
        vec![g(0, 0), g(0xFF, 0xFF)],
    ];
    let codewords: Vec<Vec<Gf65536>> = messages
        .iter()
        .map(|m| code.encode(&Polynomial::from_coefficients(m.clone())).expect("encode"))
        .collect();
    for i in 0..codewords.len() {
        for j in 0..codewords.len() {
            if i != j {
                let d = hamming_distance(&codewords[i], &codewords[j]).expect("same length");
                assert!(d >= 4, "messages {i} and {j} at distance {d}");
            }
        }
    }
}

#[test]
fn mobius_composition_is_associative_with_identity() {
    let a = MobiusMap::new(f7(3), f7(2), f7(5), f7(4));
    let b = MobiusMap::new(f7(0), f7(6), f7(2), f7(1));
    let c = MobiusMap::new(f7(1), f7(3), f7(0), f7(5));
    assert_eq!(a.compose(&b.compose(&c)), a.compose(&b).compose(&c));
    assert_eq!(a.compose(&MobiusMap::identity()), a);
    assert_eq!(MobiusMap::identity().compose(&a), a);
    // Where the inner map sends x to the outer pole, the composition has a pole.
    for x in 0..7 {
        if let Some(y) = b.apply(f7(x)) {
            assert_eq!(a.compose(&b).apply(f7(x)), a.apply(y));
        }
    }
}
