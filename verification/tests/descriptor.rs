use std::collections::HashSet;

use contort::{
    BaseCode, BaseGeometry, DecoderCapability, Error, EvaluationDomain, ExtendCoord,
    ExtendedGrsCode, Field, Gf256, MobiusGrsCode, MobiusMap, PuncturedGrsCode, TgrsCode,
    TransformOp, TransformWord, Twist, DESCRIPTOR_VERSION,
};

fn e(value: u8) -> Gf256 {
    Gf256::new(value)
}

fn domain(n: usize) -> EvaluationDomain<Gf256> {
    EvaluationDomain::arbitrary((1..=n as u8).map(e).collect()).unwrap()
}

fn multipliers(n: usize) -> Vec<Gf256> {
    (1..=n as u8).map(e).collect()
}

fn base(id: u64) -> BaseCode<Gf256> {
    BaseCode::with_id(id, domain(8), multipliers(8), 2).unwrap()
}

fn word_of(base: BaseCode<Gf256>, ops: Vec<TransformOp<Gf256>>) -> TransformWord<Gf256> {
    let mut word = TransformWord::new(base);
    for op in ops {
        word.push(op);
    }
    word
}

fn assert_compresses(word: &TransformWord<Gf256>, strict: bool) {
    let descriptor = word.normalize().unwrap();
    assert!(
        descriptor.serialized_len() <= word.serialized_len(),
        "descriptor {} exceeded word {}",
        descriptor.serialized_len(),
        word.serialized_len()
    );
    if strict {
        assert!(descriptor.serialized_len() < word.serialized_len());
    } else {
        assert_eq!(descriptor.serialized_len(), word.serialized_len());
    }
}

#[test]
fn frozen_corpus_compresses_by_l1_to_l4() {
    // Adversarial normal form: one already-canonical record on each non-Möbius
    // axis. No law can absorb anything, so serialization is equal-sized.
    let normal = word_of(
        base(11),
        vec![
            TransformOp::Twist(Twist::new(1, 0, e(2))),
            TransformOp::Puncture(6),
            TransformOp::Extend(ExtendCoord::new(vec![e(1), e(3)], e(7))),
            TransformOp::Fold(2),
            TransformOp::Interleave(3),
        ],
    );
    assert_compresses(&normal, false);

    // L1: a deep Möbius run becomes one scale-normalized PGL element.
    let mobius = word_of(
        base(12),
        vec![
            TransformOp::Mobius(MobiusMap::new(e(2), e(1), e(0), e(1))),
            TransformOp::Mobius(MobiusMap::new(e(1), e(0), e(1), e(9))),
            TransformOp::Mobius(MobiusMap::new(e(3), e(4), e(0), e(1))),
        ],
    );
    assert_compresses(&mobius, true);

    // L3: collided twist pairs annihilate in characteristic two.
    let twists = word_of(
        base(13),
        vec![
            TransformOp::Twist(Twist::new(1, 0, e(5))),
            TransformOp::Twist(Twist::new(1, 0, e(5))),
        ],
    );
    assert_compresses(&twists, true);

    // L2: duplicate punctures union; puncturing an extension annihilates it.
    let punctures = word_of(
        base(14),
        vec![
            TransformOp::Puncture(4),
            TransformOp::Puncture(4),
            TransformOp::Extend(ExtendCoord::new(vec![e(1), e(0)], e(3))),
            TransformOp::Puncture(8),
        ],
    );
    assert_compresses(&punctures, true);

    // L4: grouping runs become two numbers, independent of run depth.
    let grouping = word_of(
        base(15),
        vec![
            TransformOp::Fold(2),
            TransformOp::Fold(2),
            TransformOp::Interleave(2),
            TransformOp::Interleave(3),
        ],
    );
    assert_compresses(&grouping, true);
    let descriptor = grouping.normalize().unwrap();
    assert_eq!(descriptor.fold(), 4);
    assert_eq!(descriptor.interleave(), 6);
}

#[test]
fn descriptor_encoder_matches_each_concrete_family() {
    let message = [e(11), e(29)];

    let twist = Twist::new(2, 1, e(3));
    let word = word_of(base(21), vec![TransformOp::Twist(twist)]);
    let descriptor = word.normalize().unwrap();
    let concrete = TgrsCode::new(domain(8), multipliers(8), 2, vec![twist]).unwrap();
    let mut expected = vec![Gf256::zero(); concrete.length()];
    let mut actual = vec![Gf256::zero(); descriptor.length()];
    concrete.encode_into(&message, &mut expected).unwrap();
    descriptor.encode_into(&message, &mut actual).unwrap();
    assert_eq!(actual, expected);

    let map = MobiusMap::new(e(2), e(1), e(0), e(1));
    let word = word_of(base(22), vec![TransformOp::Mobius(map)]);
    let descriptor = word.normalize().unwrap();
    let concrete = MobiusGrsCode::new(domain(8), multipliers(8), 2, map).unwrap();
    concrete.encode_into(&message, &mut expected).unwrap();
    descriptor.encode_into(&message, &mut actual).unwrap();
    assert_eq!(actual, expected);

    let word = word_of(base(23), vec![TransformOp::Puncture(2), TransformOp::Puncture(5)]);
    let descriptor = word.normalize().unwrap();
    let concrete = PuncturedGrsCode::new(domain(8), multipliers(8), 2, vec![2, 5]).unwrap();
    expected.resize(concrete.length(), Gf256::zero());
    actual.resize(descriptor.length(), Gf256::zero());
    concrete.encode_into(&message, &mut expected).unwrap();
    descriptor.encode_into(&message, &mut actual).unwrap();
    assert_eq!(actual, expected);

    let functional = vec![e(1), e(7)];
    let word = word_of(
        base(24),
        vec![TransformOp::Extend(ExtendCoord::new(functional.clone(), e(9)))],
    );
    let descriptor = word.normalize().unwrap();
    let mut extended_multipliers = multipliers(8);
    extended_multipliers.push(e(9));
    let concrete =
        ExtendedGrsCode::new(domain(8), extended_multipliers, 2, vec![functional]).unwrap();
    expected.resize(concrete.length(), Gf256::zero());
    actual.resize(descriptor.length(), Gf256::zero());
    concrete.encode_into(&message, &mut expected).unwrap();
    descriptor.encode_into(&message, &mut actual).unwrap();
    assert_eq!(actual, expected);
}

#[test]
fn word_and_descriptor_encoders_match_composed_reference() {
    let map = MobiusMap::new(e(2), e(1), e(0), e(1));
    let functional = vec![e(1), e(4)];
    let twist = Twist::new(1, 0, e(3));
    let word = word_of(
        base(30),
        vec![
            TransformOp::Twist(twist),
            TransformOp::Mobius(map),
            TransformOp::Puncture(2),
            TransformOp::Extend(ExtendCoord::new(functional.clone(), e(9))),
        ],
    );
    let descriptor = word.normalize().unwrap();
    let message = [e(5), e(7)];
    let mut from_word = vec![Gf256::zero(); descriptor.length()];
    let mut from_descriptor = vec![Gf256::zero(); descriptor.length()];
    word.encode_into(&message, &mut from_word).unwrap();
    descriptor
        .encode_into(&message, &mut from_descriptor)
        .unwrap();

    // Independent direct interpreter: construct twisted coefficients, move
    // each point in word order, puncture coordinate 2, then append λ(message).
    let coefficients = [message[0], message[1], e(3).mul(message[0])];
    let mut reference = Vec::new();
    for (index, (&point, &multiplier)) in domain(8)
        .points()
        .iter()
        .zip(multipliers(8).iter())
        .enumerate()
    {
        if index == 2 {
            continue;
        }
        let x = map.apply(point).unwrap();
        let value = coefficients[2]
            .mul(x)
            .add(coefficients[1])
            .mul(x)
            .add(coefficients[0]);
        reference.push(multiplier.mul(value));
    }
    reference.push(
        e(9).mul(
            functional[0]
                .mul(message[0])
                .add(functional[1].mul(message[1])),
        ),
    );

    assert_eq!(from_word, reference);
    assert_eq!(from_descriptor, reference);
}

#[test]
fn word_and_descriptor_build_the_same_ambient_code() {
    let first = MobiusMap::new(e(2), e(1), e(0), e(1));
    let second = MobiusMap::new(e(1), e(0), e(1), e(200));
    let twists = [Twist::new(1, 0, e(3)), Twist::new(2, 1, e(7))];
    let word = word_of(
        base(40),
        vec![
            TransformOp::Twist(twists[0]),
            TransformOp::Mobius(first),
            TransformOp::Twist(twists[1]),
            TransformOp::Mobius(second),
        ],
    );
    let descriptor = word.normalize().unwrap();
    let from_descriptor = descriptor.ambient_tgrs_code().unwrap().unwrap();

    // Independent word build: compose in application order and retain the
    // original twist set.
    let net = second.compose(&first).normalized();
    let moved: Vec<Gf256> = domain(8)
        .points()
        .iter()
        .map(|&point| net.apply(point).unwrap())
        .collect();
    let from_word = TgrsCode::new(
        EvaluationDomain::arbitrary(moved.clone()).unwrap(),
        multipliers(8),
        2,
        twists.to_vec(),
    )
    .unwrap();

    assert_eq!(from_descriptor.domain().points(), moved.as_slice());
    assert_eq!(from_descriptor.multipliers(), from_word.multipliers());
    assert_eq!(from_descriptor.pseudo_dimension(), from_word.pseudo_dimension());
    let message = [e(17), e(91)];
    let mut a = vec![Gf256::zero(); 8];
    let mut b = vec![Gf256::zero(); 8];
    from_word.encode_into(&message, &mut a).unwrap();
    from_descriptor.encode_into(&message, &mut b).unwrap();
    assert_eq!(a, b);

    // Anything beyond a plain code has no single ambient TGRS code.
    let punctured = word_of(base(41), vec![TransformOp::Puncture(1)]);
    assert!(punctured.normalize().unwrap().ambient_tgrs_code().unwrap().is_none());
}

#[test]
fn twist_merge_annihilation_and_dimension_invariant() {
    let points: Vec<Gf256> = (0..8).map(e).collect();
    let base = BaseCode::with_id(
        50,
        EvaluationDomain::arbitrary(points).unwrap(),
        (1..=8).map(e).collect(),
        2,
    )
    .unwrap();
    let word = word_of(
        base,
        vec![
            TransformOp::Twist(Twist::new(1, 0, e(2))),
            TransformOp::Twist(Twist::new(1, 1, e(3))),
            TransformOp::Twist(Twist::new(1, 0, e(2))),
        ],
    );
    let descriptor = word.normalize().unwrap();
    assert_eq!(descriptor.twists(), &[Twist::new(1, 1, e(3))]);
    assert_eq!(descriptor.pseudo_dimension(), 3);
    assert_eq!(descriptor.dimension(), 2);

    // The merged image still has one codeword per message.
    let mut image = HashSet::new();
    let mut codeword = vec![Gf256::zero(); descriptor.length()];
    for a in 0..16 {
        for b in 0..16 {
            descriptor
                .encode_into(&[e(a), e(b)], &mut codeword)
                .unwrap();
            image.insert(codeword.iter().map(|x| x.value()).collect::<Vec<u8>>());
        }
    }
    assert_eq!(image.len(), 16 * 16);

    // Ambient/decreasing hooks are outside the supported graph language, so
    // they are rejected before any cycle can form.
    let invalid = word_of(
        descriptor.base().clone(),
        vec![TransformOp::Twist(Twist::new(1, 2, e(1)))],
    );
    assert_eq!(
        invalid.normalize().unwrap_err(),
        Error::TwistHook {
            hook: 2,
            dimension: 2
        }
    );
}

#[test]
fn capability_flags_survive_normalization() {
    let orbit = || {
        BaseCode::<Gf256>::multiplicative_orbit(60, e(2), (1..=8).map(e).collect(), 2).unwrap()
    };
    assert_eq!(orbit().geometry(), BaseGeometry::MultiplicativeOrbit);

    let folded = word_of(orbit(), vec![TransformOp::Fold(2)]);
    assert_eq!(
        folded.normalize().unwrap().capability(),
        DecoderCapability::FoldedList {
            pseudo_dimension: 2,
            fold: 2
        }
    );

    let scaled = word_of(
        orbit(),
        vec![
            TransformOp::Mobius(MobiusMap::new(e(2), Gf256::zero(), Gf256::zero(), Gf256::one())),
            TransformOp::Fold(2),
        ],
    );
    assert!(matches!(
        scaled.normalize().unwrap().capability(),
        DecoderCapability::FoldedList { .. }
    ));

    let general = word_of(
        orbit(),
        vec![
            TransformOp::Twist(Twist::new(2, 0, e(3))),
            TransformOp::Mobius(MobiusMap::new(Gf256::one(), Gf256::one(), Gf256::zero(), Gf256::one())),
            TransformOp::Fold(2),
        ],
    );
    assert_eq!(
        general.normalize().unwrap().capability(),
        DecoderCapability::AmbientGs {
            pseudo_dimension: 4
        }
    );

    let mid_block = word_of(orbit(), vec![TransformOp::Puncture(1), TransformOp::Fold(2)]);
    assert_eq!(
        mid_block.normalize().unwrap().capability(),
        DecoderCapability::AmbientGs {
            pseudo_dimension: 2
        }
    );

    let whole_block = word_of(
        orbit(),
        vec![TransformOp::Puncture(0), TransformOp::Puncture(1), TransformOp::Fold(2)],
    );
    assert!(matches!(
        whole_block.normalize().unwrap().capability(),
        DecoderCapability::FoldedList { .. }
    ));

    let collaborative = word_of(orbit(), vec![TransformOp::Interleave(3)]);
    assert_eq!(
        collaborative.normalize().unwrap().capability(),
        DecoderCapability::Collaborative {
            pseudo_dimension: 2,
            order: 3
        }
    );

    let arbitrary = base(61);
    assert_eq!(arbitrary.geometry(), BaseGeometry::Arbitrary);
    let not_orbit = word_of(arbitrary, vec![TransformOp::Fold(2)]);
    assert!(matches!(
        not_orbit.normalize().unwrap().capability(),
        DecoderCapability::AmbientGs { .. }
    ));
}

#[test]
fn normalization_checks_grouping_overflow() {
    let word = word_of(base(70), vec![TransformOp::Fold(usize::MAX), TransformOp::Fold(2)]);
    assert_eq!(
        word.normalize().unwrap_err(),
        Error::GeometryOverflow {
            context: "net fold"
        }
    );
}

#[test]
fn descriptor_bytes_are_versioned_and_frozen() {
    let word = word_of(
        base(0x0102_0304_0506_0708),
        vec![
            TransformOp::Twist(Twist::new(1, 0, e(3))),
            TransformOp::Mobius(MobiusMap::new(e(1), e(2), e(0), e(1))),
            TransformOp::Puncture(5),
            TransformOp::Extend(ExtendCoord::new(vec![e(1), e(0)], e(7))),
            TransformOp::Fold(2),
            TransformOp::Interleave(3),
        ],
    );
    let descriptor = word.normalize().unwrap();

    assert_eq!(
        descriptor.to_bytes(),
        vec![
            1, // version
            8, 7, 6, 5, 4, 3, 2, 1, // base ID (little endian)
            2, // k
            1, 1, 0, 3, // twist (tag, t, h, eta)
            2, 2, 0, 1, // Möbius (tag+pivot, b, c, d)
            3, 5, // puncture
            4, 2, 1, 0, 7, // extend
            5, 2, // fold
            6, 3, // interleave
        ]
    );
    assert_eq!(descriptor.serialized_len(), descriptor.to_bytes().len());
    assert_eq!(DESCRIPTOR_VERSION, 1);
}

#[test]
fn word_bytes_record_every_generator() {
    let word = word_of(
        base(5),
        vec![TransformOp::Puncture(300), TransformOp::Fold(2)],
    );
    let bytes = word.to_bytes();
    assert_eq!(bytes.len(), word.serialized_len());
    assert_eq!(word.ops().len(), 2);
    assert_eq!(bytes[0], DESCRIPTOR_VERSION);
    // The puncture index is written as LEB128: 300 = 0xAC 0x02.
    assert!(bytes.windows(3).any(|w| w == [3, 0xAC, 0x02]));
}

#[test]
fn multiplicative_orbit_rejects_short_orbits() {
    assert_eq!(
        BaseCode::<Gf256>::multiplicative_orbit(1, e(1), (1..=4).map(e).collect(), 2).unwrap_err(),
        Error::InsufficientOrbit { length: 4 }
    );
    let code = BaseCode::<Gf256>::multiplicative_orbit(1, e(2), (1..=4).map(e).collect(), 2).unwrap();
    let points: Vec<u8> = code.domain().points().iter().map(|x| x.value()).collect();
    assert_eq!(points, vec![1, 2, 4, 8]);
    assert_eq!(code.id(), 1);
    assert_eq!(code.length(), 4);
    assert_eq!(code.dimension(), 2);
}

#[test]
fn push_chains_generators_in_order() {
    let mut chained = TransformWord::new(base(7));
    chained.push(TransformOp::Fold(2)).push(TransformOp::Interleave(3));
    let stepwise = word_of(base(7), vec![TransformOp::Fold(2), TransformOp::Interleave(3)]);
    assert_eq!(chained.ops().len(), 2);
    assert_eq!(chained.to_bytes(), stepwise.to_bytes());
}
