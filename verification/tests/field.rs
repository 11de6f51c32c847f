use contort::{Field, Gf256, Gf65536, PrimeField};

type F5 = PrimeField<5>;

#[test]
fn construction_canonicalizes_values() {
    assert_eq!(F5::new(0).value(), 0);
    assert_eq!(F5::new(7).value(), 2);
    assert_eq!(F5::from_u64(15), F5::zero());
}

#[test]
fn arithmetic_stays_in_the_field() {
    let two = F5::new(2);
    let four = F5::new(4);

    assert_eq!(four.add(two), F5::new(1));
    assert_eq!(two.sub(four), F5::new(3));
    assert_eq!(four.mul(two), F5::new(3));
    assert_eq!(two.neg(), F5::new(3));
    assert_eq!(F5::zero().neg(), F5::zero());
}

#[test]
fn inversion_and_division_reject_zero() {
    for value in 1..5 {
        let element = F5::new(value);
        let inverse = element.inverse().expect("nonzero field element");
        assert_eq!(element.mul(inverse), F5::one());
    }

    assert_eq!(F5::zero().inverse(), None);
    assert_eq!(F5::one().divide(F5::zero()), None);
    assert_eq!(F5::new(3).divide(F5::new(2)), Some(F5::new(4)));
}

#[test]
fn exponentiation_handles_zero_and_one_exponents() {
    let three = F5::new(3);
    assert_eq!(three.pow(0), F5::one());
    assert_eq!(three.pow(1), three);
    assert_eq!(three.pow(4), F5::one());
}

#[test]
fn prime_field_pow_uses_the_full_exponent() {
    type F7 = PrimeField<7>;
    // 3 is a generator of F7*: its powers cycle through every nonzero value.
    let three = F7::new(3);
    let expected = [1u64, 3, 2, 6, 4, 5, 1];
    for (exponent, value) in expected.iter().enumerate() {
        assert_eq!(three.pow(exponent as u64).value(), *value);
    }
    assert_eq!(F7::new(0).pow(0), F7::one());
    assert_eq!(F7::new(0).pow(3), F7::zero());
}

#[test]
fn prime_field_from_u64_reduces_large_values() {
    type F7 = PrimeField<7>;
    assert_eq!(F7::from_u64(u64::MAX).value(), u64::MAX % 7);
    assert!(F7::from_u64(14).is_zero());
    assert!(!F7::from_u64(15).is_zero());
}

#[test]
fn gf256_addition_is_xor() {
    let a = Gf256::new(0x53);
    let b = Gf256::new(0xCA);
    assert_eq!(a.add(b).value(), 0x53 ^ 0xCA);
    assert_eq!(a.sub(b).value(), 0x53 ^ 0xCA);
    assert_eq!(a.neg(), a);
}

#[test]
fn gf256_multiplication_uses_the_aes_polynomial() {
    // Worked example of the AES field: {57} * {83} = {c1}.
    assert_eq!(Gf256::new(0x57).mul(Gf256::new(0x83)).value(), 0xC1);
    // {53} and {ca} are inverse to each other.
    assert_eq!(Gf256::new(0x53).mul(Gf256::new(0xCA)).value(), 0x01);
    assert_eq!(Gf256::new(0x02).mul(Gf256::new(0x80)).value(), 0x1B);
    assert_eq!(Gf256::new(0).mul(Gf256::new(0x99)), Gf256::zero());
}

#[test]
fn gf256_inverse_and_division() {
    assert_eq!(Gf256::new(0x53).inverse(), Some(Gf256::new(0xCA)));
    assert_eq!(Gf256::zero().inverse(), None);
    for raw in 1..=255u8 {
        let x = Gf256::new(raw);
        let inverse = x.inverse().expect("nonzero element");
        assert_eq!(x.mul(inverse), Gf256::one());
    }
    assert_eq!(Gf256::new(0xC1).divide(Gf256::new(0x83)), Some(Gf256::new(0x57)));
    assert_eq!(Gf256::one().divide(Gf256::zero()), None);
}

#[test]
fn gf256_power_matches_repeated_multiplication() {
    let g = Gf256::new(0x03);
    let mut acc = Gf256::one();
    for exponent in 0..300u64 {
        assert_eq!(g.pow(exponent), acc, "exponent {exponent}");
        acc = acc.mul(g);
    }
    // The multiplicative group has order 255.
    assert_eq!(g.pow(255), Gf256::one());
    assert_eq!(Gf256::zero().pow(0), Gf256::one());
    assert_eq!(Gf256::zero().pow(5), Gf256::zero());
}

#[test]
fn gf256_from_u64_reduces_modulo_the_characteristic() {
    assert_eq!(Gf256::from_u64(0x123).value(), 1);
    assert_eq!(Gf256::from_u64(7).value(), 1);
    assert_eq!(Gf256::from_u64(6).value(), 0);
}

#[test]
fn gf256_product_obeys_the_ring_laws() {
    // The AES reference product: {57}·{83} = {C1}, {57}·{13} = {FE}.
    assert_eq!(Gf256::new(0x57).mul(Gf256::new(0x83)).value(), 0xC1);
    assert_eq!(Gf256::new(0x57).mul(Gf256::new(0x13)).value(), 0xFE);
    assert_eq!(Gf256::new(2).mul(Gf256::new(3)), Gf256::new(3).mul(Gf256::new(2)));
    assert_eq!(Gf256::new(2).mul(Gf256::new(3)).value(), 6);
    let samples = [0u8, 1, 2, 3, 0x1B, 0x53, 0x57, 0x80, 0x83, 0xCA, 0xFF];
    for &a in &samples {
        for &b in &samples {
            let (x, y) = (Gf256::new(a), Gf256::new(b));
            assert_eq!(x.mul(y), y.mul(x));
            for &c in &samples {
                let z = Gf256::new(c);
                assert_eq!(x.mul(y).mul(z), x.mul(y.mul(z)));
                assert_eq!(x.mul(y.add(z)), x.mul(y).add(x.mul(z)));
            }
        }
    }
}

#[test]
fn gf65536_tower_relation_and_components() {
    let u = Gf65536::new(0, 1);
    // u^2 = u + DELTA with DELTA = 0x20.
    assert_eq!(u.mul(u), Gf65536::new(0x20, 1));
    let x = Gf65536::new(0x12, 0x34);
    assert_eq!((x.low(), x.high()), (0x12, 0x34));
    let mut bytes = Vec::new();
    x.push_bytes(&mut bytes);
    assert_eq!(bytes, vec![0x12, 0x34]);
    assert_eq!(Gf65536::from_u64(5), Gf65536::one());
}

#[test]
fn gf65536_generator_has_full_order_and_inverses_round_trip() {
    let g = Gf65536::new(0x08, 0x01);
    assert_eq!(g.pow(65_535), Gf65536::one());
    assert_ne!(g.pow(65_535 / 3), Gf65536::one());
    assert_ne!(g.pow(65_535 / 5), Gf65536::one());
    assert_ne!(g.pow(65_535 / 17), Gf65536::one());
    assert_ne!(g.pow(65_535 / 257), Gf65536::one());
    assert_eq!(Gf65536::zero().inverse(), None);
    let mut x = g;
    for _ in 0..500 {
        let inverse = x.inverse().expect("nonzero element");
        assert_eq!(x.mul(inverse), Gf65536::one());
        x = x.mul(g);
    }
    let mut acc = Gf65536::one();
    for exponent in 0..40u64 {
        assert_eq!(g.pow(exponent), acc);
        acc = acc.mul(g);
    }
}

#[test]
fn gf65536_product_obeys_the_ring_laws() {
    let samples = [(0u8, 0u8), (1, 0), (0, 1), (0x20, 1), (0x12, 0x34), (0xFF, 0xFF), (0x57, 0x83)];
    for &(a, b) in &samples {
        let x = Gf65536::new(a, b);
        for &(c, d) in &samples {
            let y = Gf65536::new(c, d);
            assert_eq!(x.mul(y), y.mul(x));
            for &(e, f) in &samples {
                let z = Gf65536::new(e, f);
                assert_eq!(x.mul(y).mul(z), x.mul(y.mul(z)));
                assert_eq!(x.mul(y.add(z)), x.mul(y).add(x.mul(z)));
            }
        }
    }
}
