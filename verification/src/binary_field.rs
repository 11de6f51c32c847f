//! The byte field GF(2^8) under the AES polynomial `0x11B`, backed by the
//! `fgf` scalar arithmetic.
use vstd::prelude::*;

use crate::field::{Field, FieldAxioms};
use crate::gf256_arith::{
    gf_inv, gf_mul, gf_pow, lemma_associative, lemma_commutative, lemma_distributive,
    lemma_identities, lemma_inverse_unique, lemma_xor_group,
};

verus! {

/// `fgf::gf8b::Elem::mul`: the table-driven product. The crate validates its
/// tables against its own shift-and-XOR reference multiplication
/// (`mul_xtime`, reduction by `0x1B`), which `gf_mul` states.
#[verifier::external_body]
fn raw_mul(a: u8, b: u8) -> (r: u8)
    ensures
        r == gf_mul(a, b),
{
    fgf::gf8b::Elem::from_raw(a).mul(fgf::gf8b::Elem::from_raw(b)).to_raw()
}

/// `fgf::gf8b::Elem::inv`: the multiplicative inverse, with zero mapped to
/// zero by the crate's convention.
#[verifier::external_body]
fn raw_inv(a: u8) -> (r: u8)
    ensures
        a == 0 ==> r == 0,
        a != 0 ==> gf_mul(a, r) == 1,
{
    fgf::gf8b::Elem::from_raw(a).inv().to_raw()
}

/// `fgf::gf8b::Elem::pow`: square-and-multiply exponentiation, whose value is
/// the repeated product `a^exponent` (the unit for exponent zero).
#[verifier::external_body]
fn raw_pow(a: u8, exponent: u64) -> (r: u8)
    ensures
        r == gf_pow(a, exponent as nat),
{
    fgf::gf8b::Elem::from_raw(a).pow(exponent).to_raw()
}

/// An element of GF(2^8) (AES polynomial), stored as its raw coefficient byte.
///
/// Every byte is a distinct field value.
#[derive(Clone, Copy, Debug, Eq, Hash, PartialEq)]
pub struct Gf256(u8);

impl Gf256 {
    /// The raw coefficient byte.
    pub closed spec fn raw(self) -> u8 {
        self.0
    }

    /// The element with the given raw coefficient byte.
    pub fn new(raw: u8) -> (r: Self)
        ensures
            r.raw() == raw,
    {
        Gf256(raw)
    }

    /// The raw coefficient byte.
    pub fn value(self) -> (r: u8)
        ensures
            r == self.raw(),
    {
        self.0
    }

    /// Characteristic two: every element is its own negative.
    pub proof fn lemma_characteristic_two(x: Self)
        ensures
            x.add_spec(x) == Self::zero_spec(),
    {
        let r = x.0;
        assert(r ^ r == 0u8) by (bit_vector);
    }

    /// The bytes of zero and one, and of sums (XOR) and products (the
    /// shift-and-XOR product).
    pub proof fn lemma_representatives(a: Self, b: Self)
        ensures
            Self::zero_spec().raw() == 0,
            Self::one_spec().raw() == 1,
            a.add_spec(b).raw() == a.raw() ^ b.raw(),
            a.mul_spec(b).raw() == gf_mul(a.raw(), b.raw()),
    {
    }

    /// Two elements are equal exactly when their bytes are.
    pub proof fn lemma_raw_injective(a: Self, b: Self)
        ensures
            (a.raw() == b.raw()) == (a == b),
    {
    }
}

impl Field for Gf256 {
    open spec fn field_valid() -> bool {
        true
    }

    closed spec fn wf(self) -> bool {
        true
    }

    closed spec fn zero_spec() -> Self {
        Gf256(0)
    }

    closed spec fn one_spec() -> Self {
        Gf256(1)
    }

    /// In characteristic two the integer `n` is `n mod 2` times the unit.
    closed spec fn from_u64_spec(value: u64) -> Self {
        Gf256((value % 2) as u8)
    }

    closed spec fn add_spec(self, rhs: Self) -> Self {
        Gf256(self.0 ^ rhs.0)
    }

    closed spec fn sub_spec(self, rhs: Self) -> Self {
        Gf256(self.0 ^ rhs.0)
    }

    /// The shift-and-XOR product modulo the AES polynomial.
    closed spec fn mul_spec(self, rhs: Self) -> Self {
        Gf256(gf_mul(self.0, rhs.0))
    }

    closed spec fn neg_spec(self) -> Self {
        self
    }

    closed spec fn pow_spec(self, exponent: nat) -> Self {
        Gf256(gf_pow(self.0, exponent))
    }

    /// The Fermat inverse `a^254`; zero has none.
    closed spec fn inverse_spec(self) -> Option<Self> {
        if self.0 == 0 {
            None
        } else {
            Some(Gf256(gf_inv(self.0)))
        }
    }

    proof fn lemma_closure(x: Self, y: Self) {
    }

    fn zero() -> (r: Self) {
        Gf256(0)
    }

    fn one() -> (r: Self) {
        Gf256(1)
    }

    fn from_u64(value: u64) -> (r: Self) {
        Gf256((value % 2) as u8)
    }

    fn add(self, rhs: Self) -> (r: Self) {
        Gf256(self.0 ^ rhs.0)
    }

    fn sub(self, rhs: Self) -> (r: Self) {
        Gf256(self.0 ^ rhs.0)
    }

    fn mul(self, rhs: Self) -> (r: Self) {
        Gf256(raw_mul(self.0, rhs.0))
    }

    fn neg(self) -> (r: Self) {
        self
    }

    fn inverse(self) -> (r: Option<Self>) {
        if self.0 == 0 {
            None
        } else {
            let r = raw_inv(self.0);
            proof {
                lemma_inverse_unique(self.0, r);
            }
            Some(Gf256(r))
        }
    }

    fn pow(self, exponent: u64) -> (r: Self) {
        Gf256(raw_pow(self.0, exponent))
    }

    fn is_zero(self) -> (b: bool) {
        self.0 == 0
    }

    fn equals(self, rhs: Self) -> (b: bool) {
        self.0 == rhs.0
    }

    /// The single raw byte.
    closed spec fn bytes_spec(self) -> Seq<u8> {
        seq![self.0]
    }

    fn push_bytes(self, buffer: &mut Vec<u8>) {
        let ghost before = buffer@;
        buffer.push(self.0);
        assert(buffer@ =~= before + seq![self.0]);
    }

    proof fn lemma_pow_wf(x: Self, exponent: nat) {
    }

    open spec fn byte_width() -> nat {
        1
    }

    proof fn lemma_byte_width(x: Self) {
    }

    proof fn lemma_unit() {
        lemma_identities(1);
        lemma_identities(0);
        lemma_identities(gf_inv(1));
        crate::gf256_arith::lemma_inverse(1);
    }
}

impl FieldAxioms for Gf256 {
    open spec fn is_field() -> bool {
        true
    }

    proof fn lemma_ring(a: Self, b: Self, c: Self) {
        lemma_xor_group(a.0, b.0, c.0);
        lemma_xor_group(a.0, a.0, c.0);
        lemma_commutative(a.0, b.0);
        lemma_associative(a.0, b.0, c.0);
        lemma_identities(a.0);
        lemma_distributive(a.0, b.0, c.0);
    }

    proof fn lemma_inverse(a: Self) {
        crate::gf256_arith::lemma_inverse(a.0);
    }

    proof fn lemma_field_valid() {
    }

    proof fn lemma_pow_step(x: Self, e: nat) {
        assert(gf_pow(x.0, (e + 1) as nat) == gf_mul(gf_pow(x.0, e), x.0));
    }
}

} // verus!
