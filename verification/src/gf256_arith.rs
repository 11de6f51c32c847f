//! GF(2^8) arithmetic on raw bytes: the shift-and-XOR product modulo the AES
//! polynomial `x^8 + x^4 + x^3 + x + 1`, its ring laws, and the Fermat inverse.
use vstd::prelude::*;

verus! {

/// Multiplication by `x` modulo the AES polynomial `x^8 + x^4 + x^3 + x + 1`.
pub open spec fn xtime(a: u8) -> u8 {
    if a & 0x80u8 != 0u8 { (a << 1u8) ^ 0x1Bu8 } else { a << 1u8 }
}

/// Byte facts the shift-and-XOR product rests on.
proof fn lemma_byte_ops(a: u8, b: u8, c: u8)
    by (bit_vector)
    ensures
        b != 0u8 ==> (b >> 1u8) < b,
        xtime(a ^ c) == xtime(a) ^ xtime(c),
        xtime(0u8) == 0u8,
        xtime(1u8) == 2u8,
        0u8 ^ a == a,
        a ^ 0u8 == a,
        a ^ a == 0u8,
        a ^ b == b ^ a,
        (a ^ b) ^ c == a ^ (b ^ c),
        (b ^ c) >> 1u8 == (b >> 1u8) ^ (c >> 1u8),
        (b ^ c) & 1u8 == (b & 1u8) ^ (c & 1u8),
        b & 1u8 == 0u8 || b & 1u8 == 1u8,
        b == (b & 1u8) ^ xtime(b >> 1u8),
        1u8 >> 1u8 == 0u8,
        1u8 & 1u8 == 1u8,
        0u8 & 1u8 == 0u8,
        0u8 >> 1u8 == 0u8,
        1u8 ^ 1u8 == 0u8,
        b ^ c == 0u8 ==> b == c,
{
}

/// `(a + c) + (p + q) = (a + p) + (c + q)` in characteristic two.
proof fn lemma_xor_swap(a: u8, c: u8, p: u8, q: u8)
    by (bit_vector)
    ensures
        (a ^ c) ^ (p ^ q) == (a ^ p) ^ (c ^ q),
{
}

/// Shift-and-XOR product: add `a·x^i` for every set bit `i` of `b`.
pub open spec fn gf_mul(a: u8, b: u8) -> u8
    decreases b,
{
    if b == 0 {
        0
    } else {
        proof {
            assert(b != 0u8 ==> (b >> 1u8) < b) by (bit_vector);
        }
        (if b & 1u8 == 1u8 { a } else { 0u8 }) ^ gf_mul(xtime(a), b >> 1u8)
    }
}

proof fn lemma_mul_zero_right(a: u8)
    ensures
        gf_mul(a, 0) == 0,
{
}

proof fn lemma_mul_zero_left(b: u8)
    ensures
        gf_mul(0, b) == 0,
    decreases b,
{
    lemma_byte_ops(0, b, b);
    if b != 0 {
        lemma_mul_zero_left(b >> 1u8);
    }
}

proof fn lemma_linear_left(a: u8, c: u8, b: u8)
    ensures
        gf_mul(a ^ c, b) == gf_mul(a, b) ^ gf_mul(c, b),
    decreases b,
{
    lemma_byte_ops(a, b, c);
    lemma_byte_ops(0, b, 0);
    if b != 0 {
        lemma_linear_left(xtime(a), xtime(c), b >> 1u8);
        let (p, q) = (gf_mul(xtime(a), b >> 1u8), gf_mul(xtime(c), b >> 1u8));
        lemma_xor_swap(a, c, p, q);
        lemma_xor_swap(0, 0, p, q);
    }
}

proof fn lemma_linear_right(a: u8, b: u8, c: u8)
    ensures
        gf_mul(a, b ^ c) == gf_mul(a, b) ^ gf_mul(a, c),
    decreases b,
{
    lemma_byte_ops(a, b, c);
    lemma_byte_ops(gf_mul(a, c), b, c);
    lemma_byte_ops(gf_mul(a, b), c, b);
    lemma_byte_ops(b, 0, 0);
    lemma_byte_ops(c, 0, 0);
    if b != 0 && c != 0 {
        lemma_byte_ops(b & 1u8, c & 1u8, 0);
        lemma_byte_ops(0, 1, 0);
        lemma_linear_right(xtime(a), b >> 1u8, c >> 1u8);
        let (p, q) = (gf_mul(xtime(a), b >> 1u8), gf_mul(xtime(a), c >> 1u8));
        if b ^ c == 0u8 {
            let t = if b & 1u8 == 1u8 { a } else { 0u8 };
            lemma_byte_ops(t ^ p, 0, 0);
        } else {
            let ta = if b & 1u8 == 1u8 { a } else { 0u8 };
            let tc = if c & 1u8 == 1u8 { a } else { 0u8 };
            let tbc = if (b ^ c) & 1u8 == 1u8 { a } else { 0u8 };
            lemma_byte_ops(a, 0, 0);
            lemma_byte_ops(1, 0, 0);
            lemma_byte_ops(0, 0, 0);
            assert(tbc == ta ^ tc);
            lemma_xor_swap(ta, tc, p, q);
            assert(gf_mul(a, b ^ c) == tbc ^ gf_mul(xtime(a), (b ^ c) >> 1u8));
        }
    }
}

proof fn lemma_xtime_commutes(a: u8, b: u8)
    ensures
        gf_mul(xtime(a), b) == xtime(gf_mul(a, b)),
    decreases b,
{
    lemma_byte_ops(a, b, b);
    if b != 0 {
        lemma_xtime_commutes(xtime(a), b >> 1u8);
        let p = gf_mul(xtime(a), b >> 1u8);
        let t = if b & 1u8 == 1u8 { a } else { 0u8 };
        lemma_byte_ops(t, b, p);
    }
}

proof fn lemma_mul_one_left(b: u8)
    ensures
        gf_mul(1, b) == b,
    decreases b,
{
    lemma_byte_ops(1, b, b);
    if b != 0 {
        lemma_mul_one_left(b >> 1u8);
        lemma_xtime_commutes(1, b >> 1u8);
    }
}

proof fn lemma_mul_one_right(a: u8)
    ensures
        gf_mul(a, 1) == a,
{
    lemma_byte_ops(a, 1, 1);
    assert(gf_mul(xtime(a), 0) == 0u8);
}

/// The product commutes.
pub proof fn lemma_commutative(a: u8, b: u8)
    ensures
        gf_mul(a, b) == gf_mul(b, a),
    decreases b,
{
    lemma_byte_ops(a, b, b);
    if b == 0 {
        lemma_mul_zero_left(a);
    } else {
        lemma_commutative(a, b >> 1u8);
        let h = b >> 1u8;
        let lo = b & 1u8;
        lemma_linear_left(lo, xtime(h), a);
        lemma_xtime_commutes(h, a);
        lemma_xtime_commutes(a, h);
        if lo == 1u8 {
            lemma_mul_one_left(a);
        } else {
            lemma_mul_zero_left(a);
        }
    }
}

/// The product is associative.
pub proof fn lemma_associative(a: u8, b: u8, c: u8)
    ensures
        gf_mul(gf_mul(a, b), c) == gf_mul(a, gf_mul(b, c)),
    decreases b,
{
    lemma_byte_ops(a, b, b);
    if b == 0 {
        lemma_mul_zero_left(c);
    } else {
        let h = b >> 1u8;
        let lo = b & 1u8;
        lemma_associative(a, h, c);
        lemma_linear_right(a, lo, xtime(h));
        lemma_commutative(a, xtime(h));
        lemma_xtime_commutes(h, a);
        lemma_commutative(h, a);
        let ah = gf_mul(a, h);
        let alo = gf_mul(a, lo);
        lemma_linear_left(alo, xtime(ah), c);
        lemma_xtime_commutes(ah, c);
        lemma_linear_left(lo, xtime(h), c);
        lemma_xtime_commutes(h, c);
        let hc = gf_mul(h, c);
        let loc = gf_mul(lo, c);
        lemma_linear_right(a, loc, xtime(hc));
        lemma_commutative(a, xtime(hc));
        lemma_xtime_commutes(hc, a);
        lemma_commutative(hc, a);
        if lo == 1u8 {
            lemma_mul_one_right(a);
            lemma_mul_one_left(c);
        } else {
            lemma_mul_zero_left(c);
            lemma_mul_zero_left(0);
        }
    }
}

} // verus!

verus! {

/// Bit `i` of `b` selects `x`.
pub open spec fn select(b: u8, i: u8, x: u8) -> u8 {
    if (b >> i) & 1u8 == 1u8 { x } else { 0u8 }
}

/// The shift-and-XOR sum `Σ b_i·x_i` for `x_{i+1} = x·x_i`.
pub open spec fn mul_terms(b: u8, x0: u8, x1: u8, x2: u8, x3: u8, x4: u8, x5: u8, x6: u8, x7: u8) -> u8 {
    select(b, 0, x0) ^ select(b, 1, x1) ^ select(b, 2, x2) ^ select(b, 3, x3) ^ select(b, 4, x4)
        ^ select(b, 5, x5) ^ select(b, 6, x6) ^ select(b, 7, x7)
}

/// The product unrolled over the eight bits of the multiplier.
pub(crate) proof fn lemma_unrolled(a: u8, b: u8)
    ensures
        ({
            let x1 = xtime(a);
            let x2 = xtime(x1);
            let x3 = xtime(x2);
            let x4 = xtime(x3);
            let x5 = xtime(x4);
            let x6 = xtime(x5);
            let x7 = xtime(x6);
            gf_mul(a, b) == mul_terms(b, a, x1, x2, x3, x4, x5, x6, x7)
        }),
{
    let x0 = a;
    let x1 = xtime(x0);
    let x2 = xtime(x1);
    let x3 = xtime(x2);
    let x4 = xtime(x3);
    let x5 = xtime(x4);
    let x6 = xtime(x5);
    let x7 = xtime(x6);
    let x8 = xtime(x7);
    let b0 = b;
    let b1 = b0 >> 1u8;
    let b2 = b1 >> 1u8;
    let b3 = b2 >> 1u8;
    let b4 = b3 >> 1u8;
    let b5 = b4 >> 1u8;
    let b6 = b5 >> 1u8;
    let b7 = b6 >> 1u8;
    let b8 = b7 >> 1u8;
    assert(b8 == 0u8) by (bit_vector)
        requires
            b1 == b0 >> 1u8,
            b2 == b1 >> 1u8,
            b3 == b2 >> 1u8,
            b4 == b3 >> 1u8,
            b5 == b4 >> 1u8,
            b6 == b5 >> 1u8,
            b7 == b6 >> 1u8,
            b8 == b7 >> 1u8,
    ;
    let g8 = gf_mul(x8, b8);
    let g7 = gf_mul(x7, b7);
    let g6 = gf_mul(x6, b6);
    let g5 = gf_mul(x5, b5);
    let g4 = gf_mul(x4, b4);
    let g3 = gf_mul(x3, b3);
    let g2 = gf_mul(x2, b2);
    let g1 = gf_mul(x1, b1);
    let g0 = gf_mul(x0, b0);
    assert(g8 == 0u8);
    let r = mul_terms(b, x0, x1, x2, x3, x4, x5, x6, x7);
    assert(g0 == r) by (bit_vector)
        requires
            b1 == b0 >> 1u8,
            b2 == b1 >> 1u8,
            b3 == b2 >> 1u8,
            b4 == b3 >> 1u8,
            b5 == b4 >> 1u8,
            b6 == b5 >> 1u8,
            b7 == b6 >> 1u8,
            b8 == b7 >> 1u8,
            b0 == b,
            g8 == 0u8,
            g7 == (if b7 == 0u8 { 0u8 } else { (if b7 & 1u8 == 1u8 { x7 } else { 0u8 }) ^ g8 }),
            g6 == (if b6 == 0u8 { 0u8 } else { (if b6 & 1u8 == 1u8 { x6 } else { 0u8 }) ^ g7 }),
            g5 == (if b5 == 0u8 { 0u8 } else { (if b5 & 1u8 == 1u8 { x5 } else { 0u8 }) ^ g6 }),
            g4 == (if b4 == 0u8 { 0u8 } else { (if b4 & 1u8 == 1u8 { x4 } else { 0u8 }) ^ g5 }),
            g3 == (if b3 == 0u8 { 0u8 } else { (if b3 & 1u8 == 1u8 { x3 } else { 0u8 }) ^ g4 }),
            g2 == (if b2 == 0u8 { 0u8 } else { (if b2 & 1u8 == 1u8 { x2 } else { 0u8 }) ^ g3 }),
            g1 == (if b1 == 0u8 { 0u8 } else { (if b1 & 1u8 == 1u8 { x1 } else { 0u8 }) ^ g2 }),
            g0 == (if b0 == 0u8 { 0u8 } else { (if b0 & 1u8 == 1u8 { x0 } else { 0u8 }) ^ g1 }),
            r == mul_terms(b, x0, x1, x2, x3, x4, x5, x6, x7),
    ;
}

/// The Fermat inverse `a^254 = a^2·a^4·…·a^128` by square-and-multiply.
pub open spec fn gf_inv(a: u8) -> u8 {
    if a == 0 {
        0
    } else {
        let s1 = gf_mul(a, a);
        let s2 = gf_mul(s1, s1);
        let s3 = gf_mul(s2, s2);
        let s4 = gf_mul(s3, s3);
        let s5 = gf_mul(s4, s4);
        let s6 = gf_mul(s5, s5);
        let s7 = gf_mul(s6, s6);
        let p1 = gf_mul(s1, s2);
        let p2 = gf_mul(p1, s3);
        let p3 = gf_mul(p2, s4);
        let p4 = gf_mul(p3, s5);
        let p5 = gf_mul(p4, s6);
        let p6 = gf_mul(p5, s7);
        p6
    }
}

/// The unrolled square-and-multiply chain ends in the unit for every nonzero byte.
proof fn lemma_inverse_chain(
    a: u8,
    s1_x1: u8,
    s1_x2: u8,
    s1_x3: u8,
    s1_x4: u8,
    s1_x5: u8,
    s1_x6: u8,
    s1_x7: u8,
    s1: u8,
    s2_x1: u8,
    s2_x2: u8,
    s2_x3: u8,
    s2_x4: u8,
    s2_x5: u8,
    s2_x6: u8,
    s2_x7: u8,
    s2: u8,
    s3_x1: u8,
    s3_x2: u8,
    s3_x3: u8,
    s3_x4: u8,
    s3_x5: u8,
    s3_x6: u8,
    s3_x7: u8,
    s3: u8,
    s4_x1: u8,
    s4_x2: u8,
    s4_x3: u8,
    s4_x4: u8,
    s4_x5: u8,
    s4_x6: u8,
    s4_x7: u8,
    s4: u8,
    s5_x1: u8,
    s5_x2: u8,
    s5_x3: u8,
    s5_x4: u8,
    s5_x5: u8,
    s5_x6: u8,
    s5_x7: u8,
    s5: u8,
    s6_x1: u8,
    s6_x2: u8,
    s6_x3: u8,
    s6_x4: u8,
    s6_x5: u8,
    s6_x6: u8,
    s6_x7: u8,
    s6: u8,
    s7_x1: u8,
    s7_x2: u8,
    s7_x3: u8,
    s7_x4: u8,
    s7_x5: u8,
    s7_x6: u8,
    s7_x7: u8,
    s7: u8,
    p1_x1: u8,
    p1_x2: u8,
    p1_x3: u8,
    p1_x4: u8,
    p1_x5: u8,
    p1_x6: u8,
    p1_x7: u8,
    p1: u8,
    p2_x1: u8,
    p2_x2: u8,
    p2_x3: u8,
    p2_x4: u8,
    p2_x5: u8,
    p2_x6: u8,
    p2_x7: u8,
    p2: u8,
    p3_x1: u8,
    p3_x2: u8,
    p3_x3: u8,
    p3_x4: u8,
    p3_x5: u8,
    p3_x6: u8,
    p3_x7: u8,
    p3: u8,
    p4_x1: u8,
    p4_x2: u8,
    p4_x3: u8,
    p4_x4: u8,
    p4_x5: u8,
    p4_x6: u8,
    p4_x7: u8,
    p4: u8,
    p5_x1: u8,
    p5_x2: u8,
    p5_x3: u8,
    p5_x4: u8,
    p5_x5: u8,
    p5_x6: u8,
    p5_x7: u8,
    p5: u8,
    p6_x1: u8,
    p6_x2: u8,
    p6_x3: u8,
    p6_x4: u8,
    p6_x5: u8,
    p6_x6: u8,
    p6_x7: u8,
    p6: u8,
    r_x1: u8,
    r_x2: u8,
    r_x3: u8,
    r_x4: u8,
    r_x5: u8,
    r_x6: u8,
    r_x7: u8,
    r: u8,
)
    requires
            s1_x1 == xtime(a),
            s1_x2 == xtime(s1_x1),
            s1_x3 == xtime(s1_x2),
            s1_x4 == xtime(s1_x3),
            s1_x5 == xtime(s1_x4),
            s1_x6 == xtime(s1_x5),
            s1_x7 == xtime(s1_x6),
            s1 == mul_terms(a, a, s1_x1, s1_x2, s1_x3, s1_x4, s1_x5, s1_x6, s1_x7),
            s2_x1 == xtime(s1),
            s2_x2 == xtime(s2_x1),
            s2_x3 == xtime(s2_x2),
            s2_x4 == xtime(s2_x3),
            s2_x5 == xtime(s2_x4),
            s2_x6 == xtime(s2_x5),
            s2_x7 == xtime(s2_x6),
            s2 == mul_terms(s1, s1, s2_x1, s2_x2, s2_x3, s2_x4, s2_x5, s2_x6, s2_x7),
            s3_x1 == xtime(s2),
            s3_x2 == xtime(s3_x1),
            s3_x3 == xtime(s3_x2),
            s3_x4 == xtime(s3_x3),
            s3_x5 == xtime(s3_x4),
            s3_x6 == xtime(s3_x5),
            s3_x7 == xtime(s3_x6),
            s3 == mul_terms(s2, s2, s3_x1, s3_x2, s3_x3, s3_x4, s3_x5, s3_x6, s3_x7),
            s4_x1 == xtime(s3),
            s4_x2 == xtime(s4_x1),
            s4_x3 == xtime(s4_x2),
            s4_x4 == xtime(s4_x3),
            s4_x5 == xtime(s4_x4),
            s4_x6 == xtime(s4_x5),
            s4_x7 == xtime(s4_x6),
            s4 == mul_terms(s3, s3, s4_x1, s4_x2, s4_x3, s4_x4, s4_x5, s4_x6, s4_x7),
            s5_x1 == xtime(s4),
            s5_x2 == xtime(s5_x1),
            s5_x3 == xtime(s5_x2),
            s5_x4 == xtime(s5_x3),
            s5_x5 == xtime(s5_x4),
            s5_x6 == xtime(s5_x5),
            s5_x7 == xtime(s5_x6),
            s5 == mul_terms(s4, s4, s5_x1, s5_x2, s5_x3, s5_x4, s5_x5, s5_x6, s5_x7),
            s6_x1 == xtime(s5),
            s6_x2 == xtime(s6_x1),
            s6_x3 == xtime(s6_x2),
            s6_x4 == xtime(s6_x3),
            s6_x5 == xtime(s6_x4),
            s6_x6 == xtime(s6_x5),
            s6_x7 == xtime(s6_x6),
            s6 == mul_terms(s5, s5, s6_x1, s6_x2, s6_x3, s6_x4, s6_x5, s6_x6, s6_x7),
            s7_x1 == xtime(s6),
            s7_x2 == xtime(s7_x1),
            s7_x3 == xtime(s7_x2),
            s7_x4 == xtime(s7_x3),
            s7_x5 == xtime(s7_x4),
            s7_x6 == xtime(s7_x5),
            s7_x7 == xtime(s7_x6),
            s7 == mul_terms(s6, s6, s7_x1, s7_x2, s7_x3, s7_x4, s7_x5, s7_x6, s7_x7),
            p1_x1 == xtime(s1),
            p1_x2 == xtime(p1_x1),
            p1_x3 == xtime(p1_x2),
            p1_x4 == xtime(p1_x3),
            p1_x5 == xtime(p1_x4),
            p1_x6 == xtime(p1_x5),
            p1_x7 == xtime(p1_x6),
            p1 == mul_terms(s2, s1, p1_x1, p1_x2, p1_x3, p1_x4, p1_x5, p1_x6, p1_x7),
            p2_x1 == xtime(p1),
            p2_x2 == xtime(p2_x1),
            p2_x3 == xtime(p2_x2),
            p2_x4 == xtime(p2_x3),
            p2_x5 == xtime(p2_x4),
            p2_x6 == xtime(p2_x5),
            p2_x7 == xtime(p2_x6),
            p2 == mul_terms(s3, p1, p2_x1, p2_x2, p2_x3, p2_x4, p2_x5, p2_x6, p2_x7),
            p3_x1 == xtime(p2),
            p3_x2 == xtime(p3_x1),
            p3_x3 == xtime(p3_x2),
            p3_x4 == xtime(p3_x3),
            p3_x5 == xtime(p3_x4),
            p3_x6 == xtime(p3_x5),
            p3_x7 == xtime(p3_x6),
            p3 == mul_terms(s4, p2, p3_x1, p3_x2, p3_x3, p3_x4, p3_x5, p3_x6, p3_x7),
            p4_x1 == xtime(p3),
            p4_x2 == xtime(p4_x1),
            p4_x3 == xtime(p4_x2),
            p4_x4 == xtime(p4_x3),
            p4_x5 == xtime(p4_x4),
            p4_x6 == xtime(p4_x5),
            p4_x7 == xtime(p4_x6),
            p4 == mul_terms(s5, p3, p4_x1, p4_x2, p4_x3, p4_x4, p4_x5, p4_x6, p4_x7),
            p5_x1 == xtime(p4),
            p5_x2 == xtime(p5_x1),
            p5_x3 == xtime(p5_x2),
            p5_x4 == xtime(p5_x3),
            p5_x5 == xtime(p5_x4),
            p5_x6 == xtime(p5_x5),
            p5_x7 == xtime(p5_x6),
            p5 == mul_terms(s6, p4, p5_x1, p5_x2, p5_x3, p5_x4, p5_x5, p5_x6, p5_x7),
            p6_x1 == xtime(p5),
            p6_x2 == xtime(p6_x1),
            p6_x3 == xtime(p6_x2),
            p6_x4 == xtime(p6_x3),
            p6_x5 == xtime(p6_x4),
            p6_x6 == xtime(p6_x5),
            p6_x7 == xtime(p6_x6),
            p6 == mul_terms(s7, p5, p6_x1, p6_x2, p6_x3, p6_x4, p6_x5, p6_x6, p6_x7),
            r_x1 == xtime(a),
            r_x2 == xtime(r_x1),
            r_x3 == xtime(r_x2),
            r_x4 == xtime(r_x3),
            r_x5 == xtime(r_x4),
            r_x6 == xtime(r_x5),
            r_x7 == xtime(r_x6),
            r == mul_terms(p6, a, r_x1, r_x2, r_x3, r_x4, r_x5, r_x6, r_x7),
        a != 0u8,
    ensures
        r == 1u8,
{
    assert(r == 1u8) by (bit_vector)
        requires
                s1_x1 == xtime(a),
                s1_x2 == xtime(s1_x1),
                s1_x3 == xtime(s1_x2),
                s1_x4 == xtime(s1_x3),
                s1_x5 == xtime(s1_x4),
                s1_x6 == xtime(s1_x5),
                s1_x7 == xtime(s1_x6),
                s1 == mul_terms(a, a, s1_x1, s1_x2, s1_x3, s1_x4, s1_x5, s1_x6, s1_x7),
                s2_x1 == xtime(s1),
                s2_x2 == xtime(s2_x1),
                s2_x3 == xtime(s2_x2),
                s2_x4 == xtime(s2_x3),
                s2_x5 == xtime(s2_x4),
                s2_x6 == xtime(s2_x5),
                s2_x7 == xtime(s2_x6),
                s2 == mul_terms(s1, s1, s2_x1, s2_x2, s2_x3, s2_x4, s2_x5, s2_x6, s2_x7),
                s3_x1 == xtime(s2),
                s3_x2 == xtime(s3_x1),
                s3_x3 == xtime(s3_x2),
                s3_x4 == xtime(s3_x3),
                s3_x5 == xtime(s3_x4),
                s3_x6 == xtime(s3_x5),
                s3_x7 == xtime(s3_x6),
                s3 == mul_terms(s2, s2, s3_x1, s3_x2, s3_x3, s3_x4, s3_x5, s3_x6, s3_x7),
                s4_x1 == xtime(s3),
                s4_x2 == xtime(s4_x1),
                s4_x3 == xtime(s4_x2),
                s4_x4 == xtime(s4_x3),
                s4_x5 == xtime(s4_x4),
                s4_x6 == xtime(s4_x5),
                s4_x7 == xtime(s4_x6),
                s4 == mul_terms(s3, s3, s4_x1, s4_x2, s4_x3, s4_x4, s4_x5, s4_x6, s4_x7),
                s5_x1 == xtime(s4),
                s5_x2 == xtime(s5_x1),
                s5_x3 == xtime(s5_x2),
                s5_x4 == xtime(s5_x3),
                s5_x5 == xtime(s5_x4),
                s5_x6 == xtime(s5_x5),
                s5_x7 == xtime(s5_x6),
                s5 == mul_terms(s4, s4, s5_x1, s5_x2, s5_x3, s5_x4, s5_x5, s5_x6, s5_x7),
                s6_x1 == xtime(s5),
                s6_x2 == xtime(s6_x1),
                s6_x3 == xtime(s6_x2),
                s6_x4 == xtime(s6_x3),
                s6_x5 == xtime(s6_x4),
                s6_x6 == xtime(s6_x5),
                s6_x7 == xtime(s6_x6),
                s6 == mul_terms(s5, s5, s6_x1, s6_x2, s6_x3, s6_x4, s6_x5, s6_x6, s6_x7),
                s7_x1 == xtime(s6),
                s7_x2 == xtime(s7_x1),
                s7_x3 == xtime(s7_x2),
                s7_x4 == xtime(s7_x3),
                s7_x5 == xtime(s7_x4),
                s7_x6 == xtime(s7_x5),
                s7_x7 == xtime(s7_x6),
                s7 == mul_terms(s6, s6, s7_x1, s7_x2, s7_x3, s7_x4, s7_x5, s7_x6, s7_x7),
                p1_x1 == xtime(s1),
                p1_x2 == xtime(p1_x1),
                p1_x3 == xtime(p1_x2),
                p1_x4 == xtime(p1_x3),
                p1_x5 == xtime(p1_x4),
                p1_x6 == xtime(p1_x5),
                p1_x7 == xtime(p1_x6),
                p1 == mul_terms(s2, s1, p1_x1, p1_x2, p1_x3, p1_x4, p1_x5, p1_x6, p1_x7),
                p2_x1 == xtime(p1),
                p2_x2 == xtime(p2_x1),
                p2_x3 == xtime(p2_x2),
                p2_x4 == xtime(p2_x3),
                p2_x5 == xtime(p2_x4),
                p2_x6 == xtime(p2_x5),
                p2_x7 == xtime(p2_x6),
                p2 == mul_terms(s3, p1, p2_x1, p2_x2, p2_x3, p2_x4, p2_x5, p2_x6, p2_x7),
                p3_x1 == xtime(p2),
                p3_x2 == xtime(p3_x1),
                p3_x3 == xtime(p3_x2),
                p3_x4 == xtime(p3_x3),
                p3_x5 == xtime(p3_x4),
                p3_x6 == xtime(p3_x5),
                p3_x7 == xtime(p3_x6),
                p3 == mul_terms(s4, p2, p3_x1, p3_x2, p3_x3, p3_x4, p3_x5, p3_x6, p3_x7),
                p4_x1 == xtime(p3),
                p4_x2 == xtime(p4_x1),
                p4_x3 == xtime(p4_x2),
                p4_x4 == xtime(p4_x3),
                p4_x5 == xtime(p4_x4),
                p4_x6 == xtime(p4_x5),
                p4_x7 == xtime(p4_x6),
                p4 == mul_terms(s5, p3, p4_x1, p4_x2, p4_x3, p4_x4, p4_x5, p4_x6, p4_x7),
                p5_x1 == xtime(p4),
                p5_x2 == xtime(p5_x1),
                p5_x3 == xtime(p5_x2),
                p5_x4 == xtime(p5_x3),
                p5_x5 == xtime(p5_x4),
                p5_x6 == xtime(p5_x5),
                p5_x7 == xtime(p5_x6),
                p5 == mul_terms(s6, p4, p5_x1, p5_x2, p5_x3, p5_x4, p5_x5, p5_x6, p5_x7),
                p6_x1 == xtime(p5),
                p6_x2 == xtime(p6_x1),
                p6_x3 == xtime(p6_x2),
                p6_x4 == xtime(p6_x3),
                p6_x5 == xtime(p6_x4),
                p6_x6 == xtime(p6_x5),
                p6_x7 == xtime(p6_x6),
                p6 == mul_terms(s7, p5, p6_x1, p6_x2, p6_x3, p6_x4, p6_x5, p6_x6, p6_x7),
                r_x1 == xtime(a),
                r_x2 == xtime(r_x1),
                r_x3 == xtime(r_x2),
                r_x4 == xtime(r_x3),
                r_x5 == xtime(r_x4),
                r_x6 == xtime(r_x5),
                r_x7 == xtime(r_x6),
                r == mul_terms(p6, a, r_x1, r_x2, r_x3, r_x4, r_x5, r_x6, r_x7),
            a != 0u8,
    ;
}

/// Every nonzero byte times its Fermat inverse is the unit.
pub proof fn lemma_inverse(a: u8)
    requires
        a != 0,
    ensures
        gf_mul(a, gf_inv(a)) == 1,
{
    let s1 = gf_mul(a, a);
    lemma_unrolled(a, a);
    let s1_x1 = xtime(a);
    let s1_x2 = xtime(s1_x1);
    let s1_x3 = xtime(s1_x2);
    let s1_x4 = xtime(s1_x3);
    let s1_x5 = xtime(s1_x4);
    let s1_x6 = xtime(s1_x5);
    let s1_x7 = xtime(s1_x6);
    let s2 = gf_mul(s1, s1);
    lemma_unrolled(s1, s1);
    let s2_x1 = xtime(s1);
    let s2_x2 = xtime(s2_x1);
    let s2_x3 = xtime(s2_x2);
    let s2_x4 = xtime(s2_x3);
    let s2_x5 = xtime(s2_x4);
    let s2_x6 = xtime(s2_x5);
    let s2_x7 = xtime(s2_x6);
    let s3 = gf_mul(s2, s2);
    lemma_unrolled(s2, s2);
    let s3_x1 = xtime(s2);
    let s3_x2 = xtime(s3_x1);
    let s3_x3 = xtime(s3_x2);
    let s3_x4 = xtime(s3_x3);
    let s3_x5 = xtime(s3_x4);
    let s3_x6 = xtime(s3_x5);
    let s3_x7 = xtime(s3_x6);
    let s4 = gf_mul(s3, s3);
    lemma_unrolled(s3, s3);
    let s4_x1 = xtime(s3);
    let s4_x2 = xtime(s4_x1);
    let s4_x3 = xtime(s4_x2);
    let s4_x4 = xtime(s4_x3);
    let s4_x5 = xtime(s4_x4);
    let s4_x6 = xtime(s4_x5);
    let s4_x7 = xtime(s4_x6);
    let s5 = gf_mul(s4, s4);
    lemma_unrolled(s4, s4);
    let s5_x1 = xtime(s4);
    let s5_x2 = xtime(s5_x1);
    let s5_x3 = xtime(s5_x2);
    let s5_x4 = xtime(s5_x3);
    let s5_x5 = xtime(s5_x4);
    let s5_x6 = xtime(s5_x5);
    let s5_x7 = xtime(s5_x6);
    let s6 = gf_mul(s5, s5);
    lemma_unrolled(s5, s5);
    let s6_x1 = xtime(s5);
    let s6_x2 = xtime(s6_x1);
    let s6_x3 = xtime(s6_x2);
    let s6_x4 = xtime(s6_x3);
    let s6_x5 = xtime(s6_x4);
    let s6_x6 = xtime(s6_x5);
    let s6_x7 = xtime(s6_x6);
    let s7 = gf_mul(s6, s6);
    lemma_unrolled(s6, s6);
    let s7_x1 = xtime(s6);
    let s7_x2 = xtime(s7_x1);
    let s7_x3 = xtime(s7_x2);
    let s7_x4 = xtime(s7_x3);
    let s7_x5 = xtime(s7_x4);
    let s7_x6 = xtime(s7_x5);
    let s7_x7 = xtime(s7_x6);
    let p1 = gf_mul(s1, s2);
    lemma_unrolled(s1, s2);
    let p1_x1 = xtime(s1);
    let p1_x2 = xtime(p1_x1);
    let p1_x3 = xtime(p1_x2);
    let p1_x4 = xtime(p1_x3);
    let p1_x5 = xtime(p1_x4);
    let p1_x6 = xtime(p1_x5);
    let p1_x7 = xtime(p1_x6);
    let p2 = gf_mul(p1, s3);
    lemma_unrolled(p1, s3);
    let p2_x1 = xtime(p1);
    let p2_x2 = xtime(p2_x1);
    let p2_x3 = xtime(p2_x2);
    let p2_x4 = xtime(p2_x3);
    let p2_x5 = xtime(p2_x4);
    let p2_x6 = xtime(p2_x5);
    let p2_x7 = xtime(p2_x6);
    let p3 = gf_mul(p2, s4);
    lemma_unrolled(p2, s4);
    let p3_x1 = xtime(p2);
    let p3_x2 = xtime(p3_x1);
    let p3_x3 = xtime(p3_x2);
    let p3_x4 = xtime(p3_x3);
    let p3_x5 = xtime(p3_x4);
    let p3_x6 = xtime(p3_x5);
    let p3_x7 = xtime(p3_x6);
    let p4 = gf_mul(p3, s5);
    lemma_unrolled(p3, s5);
    let p4_x1 = xtime(p3);
    let p4_x2 = xtime(p4_x1);
    let p4_x3 = xtime(p4_x2);
    let p4_x4 = xtime(p4_x3);
    let p4_x5 = xtime(p4_x4);
    let p4_x6 = xtime(p4_x5);
    let p4_x7 = xtime(p4_x6);
    let p5 = gf_mul(p4, s6);
    lemma_unrolled(p4, s6);
    let p5_x1 = xtime(p4);
    let p5_x2 = xtime(p5_x1);
    let p5_x3 = xtime(p5_x2);
    let p5_x4 = xtime(p5_x3);
    let p5_x5 = xtime(p5_x4);
    let p5_x6 = xtime(p5_x5);
    let p5_x7 = xtime(p5_x6);
    let p6 = gf_mul(p5, s7);
    lemma_unrolled(p5, s7);
    let p6_x1 = xtime(p5);
    let p6_x2 = xtime(p6_x1);
    let p6_x3 = xtime(p6_x2);
    let p6_x4 = xtime(p6_x3);
    let p6_x5 = xtime(p6_x4);
    let p6_x6 = xtime(p6_x5);
    let p6_x7 = xtime(p6_x6);
    let r = gf_mul(a, p6);
    lemma_unrolled(a, p6);
    let r_x1 = xtime(a);
    let r_x2 = xtime(r_x1);
    let r_x3 = xtime(r_x2);
    let r_x4 = xtime(r_x3);
    let r_x5 = xtime(r_x4);
    let r_x6 = xtime(r_x5);
    let r_x7 = xtime(r_x6);
    lemma_inverse_chain(a, s1_x1, s1_x2, s1_x3, s1_x4, s1_x5, s1_x6, s1_x7, s1, s2_x1, s2_x2, s2_x3, s2_x4, s2_x5, s2_x6, s2_x7, s2, s3_x1, s3_x2, s3_x3, s3_x4, s3_x5, s3_x6, s3_x7, s3, s4_x1, s4_x2, s4_x3, s4_x4, s4_x5, s4_x6, s4_x7, s4, s5_x1, s5_x2, s5_x3, s5_x4, s5_x5, s5_x6, s5_x7, s5, s6_x1, s6_x2, s6_x3, s6_x4, s6_x5, s6_x6, s6_x7, s6, s7_x1, s7_x2, s7_x3, s7_x4, s7_x5, s7_x6, s7_x7, s7, p1_x1, p1_x2, p1_x3, p1_x4, p1_x5, p1_x6, p1_x7, p1, p2_x1, p2_x2, p2_x3, p2_x4, p2_x5, p2_x6, p2_x7, p2, p3_x1, p3_x2, p3_x3, p3_x4, p3_x5, p3_x6, p3_x7, p3, p4_x1, p4_x2, p4_x3, p4_x4, p4_x5, p4_x6, p4_x7, p4, p5_x1, p5_x2, p5_x3, p5_x4, p5_x5, p5_x6, p5_x7, p5, p6_x1, p6_x2, p6_x3, p6_x4, p6_x5, p6_x6, p6_x7, p6, r_x1, r_x2, r_x3, r_x4, r_x5, r_x6, r_x7, r);
}

} // verus!

verus! {

/// `a^e` as a repeated product.
pub open spec fn gf_pow(a: u8, e: nat) -> u8
    decreases e,
{
    if e == 0 {
        1
    } else {
        gf_mul(gf_pow(a, (e - 1) as nat), a)
    }
}

/// The unit times anything, and anything times zero.
pub proof fn lemma_identities(a: u8)
    ensures
        gf_mul(1, a) == a,
        gf_mul(a, 1) == a,
        gf_mul(a, 0) == 0,
        gf_mul(0, a) == 0,
{
    lemma_mul_one_left(a);
    lemma_mul_one_right(a);
    lemma_mul_zero_left(a);
}

/// The product distributes over addition (XOR).
pub proof fn lemma_distributive(a: u8, b: u8, c: u8)
    ensures
        gf_mul(a, b ^ c) == gf_mul(a, b) ^ gf_mul(a, c),
{
    lemma_linear_right(a, b, c);
}

/// Addition (XOR) forms a group with zero as identity and every element its
/// own negative.
pub proof fn lemma_xor_group(a: u8, b: u8, c: u8)
    ensures
        a ^ b == b ^ a,
        (a ^ b) ^ c == a ^ (b ^ c),
        a ^ 0u8 == a,
        a ^ a == 0u8,
{
    lemma_byte_ops(a, b, c);
}

/// The inverse of a nonzero byte is the only byte whose product with it is one.
pub proof fn lemma_inverse_unique(a: u8, r: u8)
    requires
        a != 0,
        gf_mul(a, r) == 1,
    ensures
        r == gf_inv(a),
{
    let i = gf_inv(a);
    lemma_inverse(a);
    lemma_identities(r);
    lemma_identities(i);
    // r = r·(a·i) = (r·a)·i = i
    lemma_associative(r, a, i);
    lemma_commutative(r, a);
}

} // verus!
