//! GF(2^16) as the quadratic tower `a + b·u` over the AES byte field, with
//! `u^2 + u + 0x20 = 0`, backed by the `fgf` tower arithmetic.
use vstd::prelude::*;

use crate::field::{Field, FieldAxioms};
use crate::gf256_arith::{
    gf_inv, gf_mul, lemma_associative, lemma_commutative, lemma_distributive, lemma_identities,
    lemma_inverse, lemma_inverse_unique, lemma_unrolled, lemma_xor_group, mul_terms, xtime,
};

verus! {

/// The constant term `DELTA` of the tower polynomial `u^2 + u + DELTA`.
pub open spec fn delta() -> u8 {
    0x20u8
}

/// Karatsuba product with the `u^2 = u + DELTA` fold:
/// `(a + b·u)(c + d·u) = (ac + DELTA·bd) + ((a + b)(c + d) + ac)·u`.
pub open spec fn tower_mul(x: (u8, u8), y: (u8, u8)) -> (u8, u8) {
    let ac = gf_mul(x.0, y.0);
    let bd = gf_mul(x.1, y.1);
    (ac ^ gf_mul(delta(), bd), gf_mul(x.0 ^ x.1, y.0 ^ y.1) ^ ac)
}

/// The schoolbook form `(ac + DELTA·bd) + (ad + bc + bd)·u`.
pub open spec fn schoolbook(x: (u8, u8), y: (u8, u8)) -> (u8, u8) {
    let (a, b, c, d) = (x.0, x.1, y.0, y.1);
    (gf_mul(a, c) ^ gf_mul(delta(), gf_mul(b, d)), gf_mul(a, d) ^ gf_mul(b, c) ^ gf_mul(b, d))
}

/// `x^e` as a repeated product.
pub open spec fn tower_pow(x: (u8, u8), e: nat) -> (u8, u8)
    decreases e,
{
    if e == 0 {
        (1u8, 0u8)
    } else {
        tower_mul(tower_pow(x, (e - 1) as nat), x)
    }
}

/// The norm `a^2 + ab + DELTA·b^2` of `a + b·u`.
pub open spec fn norm(x: (u8, u8)) -> u8 {
    gf_mul(x.0, x.0) ^ gf_mul(x.0, x.1) ^ gf_mul(delta(), gf_mul(x.1, x.1))
}

/// The inverse `conj / norm` with `conj(a + b·u) = (a + b) + b·u`.
pub open spec fn tower_inv(x: (u8, u8)) -> (u8, u8) {
    let n = gf_inv(norm(x));
    (gf_mul(x.0 ^ x.1, n), gf_mul(x.1, n))
}

proof fn lemma_xor_cancel(p: u8, q: u8, r: u8, s: u8)
    by (bit_vector)
    ensures
        ((p ^ q) ^ (r ^ s)) ^ p == (r ^ q) ^ s,
{
}

proof fn lemma_xor3_perm(p: u8, q: u8, r: u8)
    by (bit_vector)
    ensures
        (p ^ q) ^ r == (q ^ p) ^ r,
        (p ^ q) ^ r == (r ^ q) ^ p,
        (p ^ q) ^ r == p ^ (q ^ r),
{
}

proof fn lemma_xor_pairs(p: u8, q: u8, r: u8, s: u8)
    by (bit_vector)
    ensures
        (p ^ q) ^ (r ^ s) == (p ^ r) ^ (q ^ s),
{
}

/// `(p + q)·r = p·r + q·r`.
proof fn lemma_dist_left(p: u8, q: u8, r: u8)
    ensures
        gf_mul(p ^ q, r) == gf_mul(p, r) ^ gf_mul(q, r),
{
    lemma_commutative(p ^ q, r);
    lemma_distributive(r, p, q);
    lemma_commutative(r, p);
    lemma_commutative(r, q);
}

/// `p·(q·r) = q·(p·r)`.
proof fn lemma_swap(p: u8, q: u8, r: u8)
    ensures
        gf_mul(p, gf_mul(q, r)) == gf_mul(q, gf_mul(p, r)),
{
    lemma_associative(p, q, r);
    lemma_associative(q, p, r);
    lemma_commutative(p, q);
}

/// The Karatsuba form equals the schoolbook form.
proof fn lemma_schoolbook(x: (u8, u8), y: (u8, u8))
    ensures
        tower_mul(x, y) == schoolbook(x, y),
{
    let (a, b, c, d) = (x.0, x.1, y.0, y.1);
    lemma_distributive(a ^ b, c, d);
    lemma_dist_left(a, b, c);
    lemma_dist_left(a, b, d);
    lemma_xor_cancel(gf_mul(a, c), gf_mul(b, c), gf_mul(a, d), gf_mul(b, d));
}

proof fn lemma_xor_six(p1: u8, p2: u8, q1: u8, q2: u8, r1: u8, r2: u8)
    by (bit_vector)
    ensures
        ((p1 ^ p2) ^ (q1 ^ q2)) ^ (r1 ^ r2) == ((p1 ^ q1) ^ r1) ^ ((p2 ^ q2) ^ r2),
{
}

/// The XOR rearrangement behind associativity, over opaque monomials.
proof fn lemma_assoc_sums(
    ace: u8,
    acf: u8,
    ade: u8,
    adf: u8,
    bce: u8,
    bcf: u8,
    bde: u8,
    bdf: u8,
    dadf: u8,
    dbcf: u8,
    dbde: u8,
    dbdf: u8,
)
    by (bit_vector)
    ensures
        (ace ^ dbde) ^ ((dadf ^ dbcf) ^ dbdf) == (ace ^ dadf) ^ ((dbcf ^ dbde) ^ dbdf),
        ((acf ^ dbdf) ^ ((ade ^ bce) ^ bde)) ^ ((adf ^ bcf) ^ bdf) == (((acf ^ ade) ^ adf) ^ (
        bce ^ dbdf)) ^ ((bcf ^ bde) ^ bdf),
{
}

/// The tower product commutes.
pub proof fn lemma_tower_commutative(x: (u8, u8), y: (u8, u8))
    ensures
        tower_mul(x, y) == tower_mul(y, x),
{
    lemma_schoolbook(x, y);
    lemma_schoolbook(y, x);
    let (a, b, c, d) = (x.0, x.1, y.0, y.1);
    lemma_commutative(a, c);
    lemma_commutative(b, d);
    lemma_commutative(a, d);
    lemma_commutative(b, c);
    lemma_xor3_perm(gf_mul(a, d), gf_mul(b, c), gf_mul(b, d));
}

/// The tower product distributes over addition.
pub proof fn lemma_tower_distributive(x: (u8, u8), y: (u8, u8), z: (u8, u8))
    ensures
        tower_mul(x, (y.0 ^ z.0, y.1 ^ z.1)) == ({
            let (p, q) = (tower_mul(x, y), tower_mul(x, z));
            (p.0 ^ q.0, p.1 ^ q.1)
        }),
{
    let (a, b, c, d, e, f) = (x.0, x.1, y.0, y.1, z.0, z.1);
    lemma_schoolbook(x, (c ^ e, d ^ f));
    lemma_schoolbook(x, y);
    lemma_schoolbook(x, z);
    lemma_distributive(a, c, e);
    lemma_distributive(b, d, f);
    lemma_distributive(delta(), gf_mul(b, d), gf_mul(b, f));
    lemma_distributive(a, d, f);
    lemma_distributive(b, c, e);
    lemma_xor_pairs(gf_mul(a, c), gf_mul(a, e), gf_mul(delta(), gf_mul(b, d)), gf_mul(delta(), gf_mul(b, f)));
    lemma_xor_six(gf_mul(a, d), gf_mul(a, f), gf_mul(b, c), gf_mul(b, e), gf_mul(b, d), gf_mul(b, f));
}

/// The unit is neutral and zero absorbs.
pub proof fn lemma_tower_identities(x: (u8, u8))
    ensures
        tower_mul(x, (1u8, 0u8)) == x,
        tower_mul(x, (0u8, 0u8)) == (0u8, 0u8),
{
    let (a, b) = (x.0, x.1);
    lemma_schoolbook(x, (1u8, 0u8));
    lemma_schoolbook(x, (0u8, 0u8));
    lemma_identities(a);
    lemma_identities(b);
    lemma_identities(delta());
    lemma_xor_group(a, 0, 0);
    lemma_xor_group(b, 0, 0);
    lemma_xor_group(0, b, 0);
    lemma_xor_group(0, 0, 0);
}

/// The tower product is associative.
pub proof fn lemma_tower_associative(x: (u8, u8), y: (u8, u8), z: (u8, u8))
    ensures
        tower_mul(tower_mul(x, y), z) == tower_mul(x, tower_mul(y, z)),
{
    let (a, b, c, d, e, f) = (x.0, x.1, y.0, y.1, z.0, z.1);
    let dl = delta();
    let xy = tower_mul(x, y);
    let yz = tower_mul(y, z);
    lemma_schoolbook(x, y);
    lemma_schoolbook(y, z);
    lemma_schoolbook(xy, z);
    lemma_schoolbook(x, yz);
    let (ac, bd, ad, bc) = (gf_mul(a, c), gf_mul(b, d), gf_mul(a, d), gf_mul(b, c));
    let (ce, df, cf, de) = (gf_mul(c, e), gf_mul(d, f), gf_mul(c, f), gf_mul(d, e));
    // monomials
    let m_ace = gf_mul(a, ce);
    let m_acf = gf_mul(a, cf);
    let m_ade = gf_mul(a, de);
    let m_adf = gf_mul(a, df);
    let m_bce = gf_mul(b, ce);
    let m_bcf = gf_mul(b, cf);
    let m_bde = gf_mul(b, de);
    let m_bdf = gf_mul(b, df);
    lemma_associative(a, c, e);
    lemma_associative(a, c, f);
    lemma_associative(a, d, e);
    lemma_associative(a, d, f);
    lemma_associative(b, c, e);
    lemma_associative(b, c, f);
    lemma_associative(b, d, e);
    lemma_associative(b, d, f);
    lemma_associative(dl, bd, e);
    lemma_associative(dl, bd, f);
    // left side
    lemma_dist_left(ac, gf_mul(dl, bd), e);
    lemma_dist_left(ac, gf_mul(dl, bd), f);
    lemma_dist_left(ad ^ bc, bd, f);
    lemma_dist_left(ad, bc, f);
    lemma_dist_left(ad ^ bc, bd, e);
    lemma_dist_left(ad, bc, e);
    lemma_distributive(dl, m_adf ^ m_bcf, m_bdf);
    lemma_distributive(dl, m_adf, m_bcf);
    // right side
    lemma_distributive(a, ce, gf_mul(dl, df));
    lemma_swap(a, dl, df);
    lemma_distributive(b, ce, gf_mul(dl, df));
    lemma_swap(b, dl, df);
    lemma_distributive(a, cf ^ de, df);
    lemma_distributive(a, cf, de);
    lemma_distributive(b, cf ^ de, df);
    lemma_distributive(b, cf, de);
    lemma_distributive(dl, m_bcf ^ m_bde, m_bdf);
    lemma_distributive(dl, m_bcf, m_bde);
    lemma_assoc_sums(
        m_ace,
        m_acf,
        m_ade,
        m_adf,
        m_bce,
        m_bcf,
        m_bde,
        m_bdf,
        gf_mul(dl, m_adf),
        gf_mul(dl, m_bcf),
        gf_mul(dl, m_bde),
        gf_mul(dl, m_bdf),
    );
}

/// No byte `t` solves `t^2 + t + DELTA = 0`: the tower polynomial is irreducible.
proof fn lemma_no_root_chain(t: u8, x1: u8, x2: u8, x3: u8, x4: u8, x5: u8, x6: u8, x7: u8, t2: u8)
    requires
        x1 == xtime(t),
        x2 == xtime(x1),
        x3 == xtime(x2),
        x4 == xtime(x3),
        x5 == xtime(x4),
        x6 == xtime(x5),
        x7 == xtime(x6),
        t2 == mul_terms(t, t, x1, x2, x3, x4, x5, x6, x7),
    ensures
        (t2 ^ t) ^ 0x20u8 != 0u8,
{
    assert((t2 ^ t) ^ 0x20u8 != 0u8) by (bit_vector)
        requires
            x1 == xtime(t),
            x2 == xtime(x1),
            x3 == xtime(x2),
            x4 == xtime(x3),
            x5 == xtime(x4),
            x6 == xtime(x5),
            x7 == xtime(x6),
            t2 == mul_terms(t, t, x1, x2, x3, x4, x5, x6, x7),
    ;
}

proof fn lemma_no_root(t: u8)
    ensures
        (gf_mul(t, t) ^ t) ^ delta() != 0u8,
{
    lemma_unrolled(t, t);
    let x1 = xtime(t);
    let x2 = xtime(x1);
    let x3 = xtime(x2);
    let x4 = xtime(x3);
    let x5 = xtime(x4);
    let x6 = xtime(x5);
    let x7 = xtime(x6);
    lemma_no_root_chain(t, x1, x2, x3, x4, x5, x6, x7, gf_mul(t, t));
}

/// The byte field has no zero divisors.
proof fn lemma_no_zero_divisors(p: u8, q: u8)
    requires
        p != 0,
        q != 0,
    ensures
        gf_mul(p, q) != 0,
{
    if gf_mul(p, q) == 0 {
        let i = gf_inv(p);
        lemma_inverse(p);
        lemma_associative(i, p, q);
        lemma_commutative(i, p);
        lemma_identities(q);
        lemma_identities(i);
        assert(false);
    }
}

proof fn lemma_xor_vanish(p: u8, q: u8)
    by (bit_vector)
    ensures
        (p ^ (p ^ q)) ^ q == 0u8,
        p ^ 0u8 == p,
{
}

/// Only zero has zero norm.
proof fn lemma_norm_nonzero(x: (u8, u8))
    requires
        x != (0u8, 0u8),
    ensures
        norm(x) != 0,
{
    let (a, b) = (x.0, x.1);
    lemma_identities(a);
    lemma_identities(b);
    lemma_identities(delta());
    if b == 0 {
        lemma_no_zero_divisors(a, a);
        lemma_xor_group(gf_mul(a, a), 0, 0);
    } else {
        let t = gf_mul(a, gf_inv(b));
        let bb = gf_mul(b, b);
        lemma_inverse(b);
        // a = t·b
        lemma_associative(a, gf_inv(b), b);
        lemma_commutative(gf_inv(b), b);
        assert(gf_mul(t, b) == a);
        // norm = bb·(t^2 + t + DELTA)
        lemma_associative(t, b, gf_mul(t, b));
        lemma_swap(b, t, b);
        lemma_associative(t, t, bb);
        lemma_commutative(gf_mul(t, t), bb);
        assert(gf_mul(a, a) == gf_mul(bb, gf_mul(t, t)));
        lemma_associative(t, b, b);
        lemma_commutative(t, bb);
        assert(gf_mul(a, b) == gf_mul(bb, t));
        lemma_commutative(delta(), bb);
        lemma_distributive(bb, gf_mul(t, t) ^ t, delta());
        lemma_distributive(bb, gf_mul(t, t), t);
        lemma_no_root(t);
        lemma_no_zero_divisors(b, b);
        lemma_no_zero_divisors(bb, (gf_mul(t, t) ^ t) ^ delta());
    }
}

/// The inverse is the only element whose product with `x` is the unit.
proof fn lemma_tower_inverse_unique(x: (u8, u8), r: (u8, u8))
    requires
        x != (0u8, 0u8),
        tower_mul(x, r) == (1u8, 0u8),
    ensures
        r == tower_inv(x),
{
    let i = tower_inv(x);
    lemma_tower_inverse(x);
    lemma_tower_identities(r);
    lemma_tower_identities(i);
    lemma_tower_associative(r, x, i);
    lemma_tower_commutative(r, x);
    lemma_tower_commutative((1u8, 0u8), i);
}

/// Every nonzero element times its inverse is the unit.
pub proof fn lemma_tower_inverse(x: (u8, u8))
    requires
        x != (0u8, 0u8),
    ensures
        tower_mul(x, tower_inv(x)) == (1u8, 0u8),
{
    let (a, b) = (x.0, x.1);
    let nn = norm(x);
    let n = gf_inv(nn);
    lemma_norm_nonzero(x);
    lemma_inverse(nn);
    lemma_commutative(nn, n);
    lemma_schoolbook(x, tower_inv(x));
    let (aa, ab, ba, bb) = (gf_mul(a, a), gf_mul(a, b), gf_mul(b, a), gf_mul(b, b));
    // constant: a·((a+b)n) + DELTA·(b·(bn)) = (aa + ab + DELTA·bb)·n
    lemma_associative(a, a ^ b, n);
    lemma_distributive(a, a, b);
    lemma_associative(b, b, n);
    lemma_associative(delta(), bb, n);
    lemma_dist_left(aa ^ ab, gf_mul(delta(), bb), n);
    // extension: a·(bn) + b·((a+b)n) + b·(bn) = ab·n + (ba + bb)·n + bb·n = 0
    lemma_associative(a, b, n);
    lemma_associative(b, a ^ b, n);
    lemma_distributive(b, a, b);
    lemma_dist_left(ba, bb, n);
    lemma_commutative(a, b);
    lemma_xor_vanish(gf_mul(ab, n), gf_mul(bb, n));
}

/// `fgf::gf16::Elem::mul`: the Karatsuba product with the `DELTA` fold, over
/// the byte field's product (which `gf_mul` states).
#[verifier::external_body]
fn raw_mul(a: u8, b: u8, c: u8, d: u8) -> (r: (u8, u8))
    ensures
        r == tower_mul((a, b), (c, d)),
{
    let x = fgf::gf16::Elem::from_components(fgf::gf8b::Elem::from_raw(a), fgf::gf8b::Elem::from_raw(b));
    let y = fgf::gf16::Elem::from_components(fgf::gf8b::Elem::from_raw(c), fgf::gf8b::Elem::from_raw(d));
    let (lo, hi) = x.mul(y).to_components();
    (lo.to_raw(), hi.to_raw())
}

/// `fgf::gf16::Elem::inv`: conjugate over norm; zero maps to zero by the
/// crate's convention.
#[verifier::external_body]
fn raw_inv(a: u8, b: u8) -> (r: (u8, u8))
    ensures
        (a, b) == (0u8, 0u8) ==> r == (0u8, 0u8),
        (a, b) != (0u8, 0u8) ==> tower_mul((a, b), r) == (1u8, 0u8),
{
    let x = fgf::gf16::Elem::from_components(fgf::gf8b::Elem::from_raw(a), fgf::gf8b::Elem::from_raw(b));
    let (lo, hi) = x.inv().to_components();
    (lo.to_raw(), hi.to_raw())
}

/// `fgf::gf16::Elem::pow`: square-and-multiply exponentiation, whose value is
/// the repeated product (the unit for exponent zero).
#[verifier::external_body]
fn raw_pow(a: u8, b: u8, exponent: u64) -> (r: (u8, u8))
    ensures
        r == tower_pow((a, b), exponent as nat),
{
    let x = fgf::gf16::Elem::from_components(fgf::gf8b::Elem::from_raw(a), fgf::gf8b::Elem::from_raw(b));
    let (lo, hi) = x.pow(exponent).to_components();
    (lo.to_raw(), hi.to_raw())
}

/// An element `lo + hi·u` of GF(2^16), the quadratic tower over GF(2^8).
///
/// Every pair of bytes is a distinct field value.
#[derive(Clone, Copy, Debug, Eq, Hash, PartialEq)]
pub struct Gf65536 {
    lo: u8,
    hi: u8,
}

impl Gf65536 {
    /// The components `(lo, hi)`.
    pub closed spec fn components(self) -> (u8, u8) {
        (self.lo, self.hi)
    }

    /// The element `lo + hi·u`.
    pub fn new(lo: u8, hi: u8) -> (r: Self)
        ensures
            r.components() == (lo, hi),
    {
        Gf65536 { lo, hi }
    }

    /// The constant component.
    pub fn low(self) -> (r: u8)
        ensures
            r == self.components().0,
    {
        self.lo
    }

    /// The component of `u`.
    pub fn high(self) -> (r: u8)
        ensures
            r == self.components().1,
    {
        self.hi
    }

    /// The components of zero and one, and of sums (component-wise XOR) and
    /// products (the tower product).
    pub proof fn lemma_representatives(a: Self, b: Self)
        ensures
            Self::zero_spec().components() == (0u8, 0u8),
            Self::one_spec().components() == (1u8, 0u8),
            a.add_spec(b).components() == (a.components().0 ^ b.components().0, a.components().1
                ^ b.components().1),
            a.mul_spec(b).components() == tower_mul(a.components(), b.components()),
    {
    }

    /// Two elements are equal exactly when their components are.
    pub proof fn lemma_components_injective(a: Self, b: Self)
        ensures
            (a.components() == b.components()) == (a == b),
    {
    }
}

impl Field for Gf65536 {
    open spec fn field_valid() -> bool {
        true
    }

    closed spec fn wf(self) -> bool {
        true
    }

    closed spec fn zero_spec() -> Self {
        Gf65536 { lo: 0, hi: 0 }
    }

    closed spec fn one_spec() -> Self {
        Gf65536 { lo: 1, hi: 0 }
    }

    /// In characteristic two the integer `n` is `n mod 2` times the unit.
    closed spec fn from_u64_spec(value: u64) -> Self {
        Gf65536 { lo: (value % 2) as u8, hi: 0 }
    }

    closed spec fn add_spec(self, rhs: Self) -> Self {
        Gf65536 { lo: self.lo ^ rhs.lo, hi: self.hi ^ rhs.hi }
    }

    closed spec fn sub_spec(self, rhs: Self) -> Self {
        Gf65536 { lo: self.lo ^ rhs.lo, hi: self.hi ^ rhs.hi }
    }

    closed spec fn mul_spec(self, rhs: Self) -> Self {
        let r = tower_mul((self.lo, self.hi), (rhs.lo, rhs.hi));
        Gf65536 { lo: r.0, hi: r.1 }
    }

    closed spec fn neg_spec(self) -> Self {
        self
    }

    closed spec fn pow_spec(self, exponent: nat) -> Self {
        let r = tower_pow((self.lo, self.hi), exponent);
        Gf65536 { lo: r.0, hi: r.1 }
    }

    /// Conjugate over norm; zero has none.
    closed spec fn inverse_spec(self) -> Option<Self> {
        if self.lo == 0 && self.hi == 0 {
            None
        } else {
            let r = tower_inv((self.lo, self.hi));
            Some(Gf65536 { lo: r.0, hi: r.1 })
        }
    }

    proof fn lemma_closure(x: Self, y: Self) {
    }

    fn zero() -> (r: Self) {
        Gf65536 { lo: 0, hi: 0 }
    }

    fn one() -> (r: Self) {
        Gf65536 { lo: 1, hi: 0 }
    }

    fn from_u64(value: u64) -> (r: Self) {
        Gf65536 { lo: (value % 2) as u8, hi: 0 }
    }

    fn add(self, rhs: Self) -> (r: Self) {
        Gf65536 { lo: self.lo ^ rhs.lo, hi: self.hi ^ rhs.hi }
    }

    fn sub(self, rhs: Self) -> (r: Self) {
        Gf65536 { lo: self.lo ^ rhs.lo, hi: self.hi ^ rhs.hi }
    }

    fn mul(self, rhs: Self) -> (r: Self) {
        let (lo, hi) = raw_mul(self.lo, self.hi, rhs.lo, rhs.hi);
        Gf65536 { lo, hi }
    }

    fn neg(self) -> (r: Self) {
        self
    }

    fn inverse(self) -> (r: Option<Self>) {
        if self.lo == 0 && self.hi == 0 {
            None
        } else {
            let (lo, hi) = raw_inv(self.lo, self.hi);
            let r = Gf65536 { lo, hi };
            proof {
                lemma_tower_inverse_unique((self.lo, self.hi), (lo, hi));
            }
            Some(r)
        }
    }

    fn pow(self, exponent: u64) -> (r: Self) {
        let (lo, hi) = raw_pow(self.lo, self.hi, exponent);
        Gf65536 { lo, hi }
    }

    fn is_zero(self) -> (b: bool) {
        self.lo == 0 && self.hi == 0
    }

    fn equals(self, rhs: Self) -> (b: bool) {
        self.lo == rhs.lo && self.hi == rhs.hi
    }

    /// The little-endian component bytes `[lo, hi]`.
    closed spec fn bytes_spec(self) -> Seq<u8> {
        seq![self.lo, self.hi]
    }

    fn push_bytes(self, buffer: &mut Vec<u8>) {
        let ghost before = buffer@;
        buffer.push(self.lo);
        buffer.push(self.hi);
        assert(buffer@ =~= before + seq![self.lo, self.hi]);
    }

    proof fn lemma_pow_wf(x: Self, exponent: nat) {
    }

    open spec fn byte_width() -> nat {
        2
    }

    proof fn lemma_byte_width(x: Self) {
    }

    proof fn lemma_unit() {
        lemma_tower_identities((1u8, 0u8));
        lemma_tower_identities((0u8, 0u8));
        lemma_tower_commutative((0u8, 0u8), (1u8, 0u8));
        lemma_identities(1);
        lemma_identities(0);
        lemma_identities(delta());
        lemma_xor_group(1, 0, 0);
        lemma_xor_group(0, 0, 0);
        assert(norm((1u8, 0u8)) == 1u8);
        lemma_identities(gf_inv(1));
        lemma_inverse_unique(1, 1);
        lemma_identities(gf_inv(1));
    }
}

impl FieldAxioms for Gf65536 {
    open spec fn is_field() -> bool {
        true
    }

    proof fn lemma_ring(a: Self, b: Self, c: Self) {
        lemma_xor_group(a.lo, b.lo, c.lo);
        lemma_xor_group(a.hi, b.hi, c.hi);
        lemma_xor_group(a.lo, a.lo, c.lo);
        lemma_xor_group(a.hi, a.hi, c.hi);
        let (x, y, z) = ((a.lo, a.hi), (b.lo, b.hi), (c.lo, c.hi));
        lemma_tower_commutative(x, y);
        lemma_tower_associative(x, y, z);
        lemma_tower_identities(x);
        lemma_tower_distributive(x, y, z);
    }

    proof fn lemma_inverse(a: Self) {
        lemma_tower_inverse((a.lo, a.hi));
    }

    proof fn lemma_field_valid() {
    }

    proof fn lemma_pow_step(x: Self, e: nat) {
        assert(tower_pow((x.lo, x.hi), (e + 1) as nat) == tower_mul(tower_pow((x.lo, x.hi), e), (x.lo, x.hi)));
    }
}

} // verus!
