//! Minimal finite-field interface and the scalar prime field used by the
//! reference algorithms.
use vstd::arithmetic::div_mod::*;
use vstd::arithmetic::mul::*;
use vstd::arithmetic::power::*;
use vstd::prelude::*;

verus! {

/// Minimal finite-field operations needed by the scalar reference algorithms.
///
/// Every element produced by an operation is canonical (`wf`). Division and
/// inversion return `None` for zero instead of panicking. Converting an
/// integer reduces it in the field.
pub trait Field: Copy + Sized {
    /// Whether the field itself is well defined (for a prime field: modulus > 1).
    spec fn field_valid() -> bool;

    /// Whether this value is a canonical element of the field.
    spec fn wf(self) -> bool;

    spec fn zero_spec() -> Self;

    spec fn one_spec() -> Self;

    spec fn from_u64_spec(value: u64) -> Self;

    spec fn add_spec(self, rhs: Self) -> Self;

    spec fn sub_spec(self, rhs: Self) -> Self;

    spec fn mul_spec(self, rhs: Self) -> Self;

    spec fn neg_spec(self) -> Self;

    spec fn pow_spec(self, exponent: nat) -> Self;

    spec fn inverse_spec(self) -> Option<Self>;

    /// Canonical elements live only in a valid field; the constants and the
    /// operations stay canonical; inversion fails exactly on zero.
    proof fn lemma_closure(x: Self, y: Self)
        ensures
            x.wf() ==> Self::field_valid(),
            Self::field_valid() ==> Self::zero_spec().wf() && Self::one_spec().wf(),
            Self::field_valid() ==> Self::zero_spec() != Self::one_spec(),
            x.wf() && y.wf() ==> x.add_spec(y).wf() && x.sub_spec(y).wf() && x.mul_spec(
                y,
            ).wf(),
            x.wf() ==> x.neg_spec().wf(),
            x.wf() ==> (x.inverse_spec() is Some <==> x != Self::zero_spec()),
            x.wf() && x.inverse_spec() is Some ==> x.inverse_spec().unwrap().wf(),
    ;

    fn zero() -> (r: Self)
        requires
            Self::field_valid(),
        ensures
            r == Self::zero_spec(),
            r.wf(),
    ;

    fn one() -> (r: Self)
        requires
            Self::field_valid(),
        ensures
            r == Self::one_spec(),
            r.wf(),
    ;

    fn from_u64(value: u64) -> (r: Self)
        requires
            Self::field_valid(),
        ensures
            r == Self::from_u64_spec(value),
            r.wf(),
    ;

    fn add(self, rhs: Self) -> (r: Self)
        requires
            self.wf(),
            rhs.wf(),
        ensures
            r == self.add_spec(rhs),
            r.wf(),
    ;

    fn sub(self, rhs: Self) -> (r: Self)
        requires
            self.wf(),
            rhs.wf(),
        ensures
            r == self.sub_spec(rhs),
            r.wf(),
    ;

    fn mul(self, rhs: Self) -> (r: Self)
        requires
            self.wf(),
            rhs.wf(),
        ensures
            r == self.mul_spec(rhs),
            r.wf(),
    ;

    fn neg(self) -> (r: Self)
        requires
            self.wf(),
        ensures
            r == self.neg_spec(),
            r.wf(),
    ;

    fn inverse(self) -> (r: Option<Self>)
        requires
            self.wf(),
        ensures
            r == self.inverse_spec(),
            r is Some <==> self != Self::zero_spec(),
            r matches Some(i) ==> i.wf(),
    ;

    fn pow(self, exponent: u64) -> (r: Self)
        requires
            self.wf(),
        ensures
            r == self.pow_spec(exponent as nat),
            r.wf(),
    ;

    fn is_zero(self) -> (b: bool)
        requires
            self.wf(),
        ensures
            b == (self == Self::zero_spec()),
    ;

    /// Equality of two field elements.
    fn equals(self, rhs: Self) -> (b: bool)
        ensures
            b == (self == rhs),
    ;

    /// The stable byte encoding of an element.
    spec fn bytes_spec(self) -> Seq<u8>;

    /// Append the stable byte encoding of this element.
    fn push_bytes(self, buffer: &mut Vec<u8>)
        ensures
            final(buffer)@ == old(buffer)@ + self.bytes_spec(),
    ;

    /// Powers of canonical elements are canonical.
    proof fn lemma_pow_wf(x: Self, exponent: nat)
        ensures
            x.wf() ==> x.pow_spec(exponent).wf(),
    ;

    /// The number of bytes every element encodes to.
    spec fn byte_width() -> nat;

    /// The encoding has a fixed, nonzero width.
    proof fn lemma_byte_width(x: Self)
        ensures
            x.bytes_spec().len() == Self::byte_width(),
            Self::byte_width() >= 1,
    ;

    /// The unit is its own inverse and is neutral on the two constants.
    proof fn lemma_unit()
        ensures
            Self::field_valid() ==> Self::one_spec().inverse_spec() == Some(Self::one_spec()),
            Self::field_valid() ==> Self::one_spec().mul_spec(Self::one_spec()) == Self::one_spec(),
            Self::field_valid() ==> Self::zero_spec().mul_spec(Self::one_spec())
                == Self::zero_spec(),
    ;

    /// `self / rhs`, or `None` when `rhs` is zero.
    fn divide(self, rhs: Self) -> (r: Option<Self>)
        requires
            self.wf(),
            rhs.wf(),
        ensures
            r == (match rhs.inverse_spec() {
                Some(inverse) => Some(self.mul_spec(inverse)),
                None => None,
            }),
            r is Some <==> rhs != Self::zero_spec(),
            r matches Some(q) ==> q.wf(),
    {
        match rhs.inverse() {
            Some(inverse) => Some(self.mul(inverse)),
            None => None,
        }
    }
}

/// Simple scalar prime field used by the correctness implementation and its
/// exhaustive small-field tests.
///
/// `MODULUS` must be prime and greater than one. The tuple field is private so
/// every value built by [`PrimeField::new`] is canonical and lies in
/// `0..MODULUS`.
#[derive(Clone, Copy, Debug, Eq, Hash, PartialEq)]
pub struct PrimeField<const MODULUS: u64>(u64);

impl<const MODULUS: u64> PrimeField<MODULUS> {
    /// The canonical integer representative of this element.
    pub closed spec fn val(self) -> nat {
        self.0 as nat
    }

    /// Two elements are equal exactly when their representatives are.
    pub proof fn lemma_val_injective(a: Self, b: Self)
        ensures
            (a.val() == b.val()) == (a == b),
    {
    }

    /// The representatives of zero and one, and of sums and products.
    pub proof fn lemma_representatives(a: Self, b: Self)
        ensures
            Self::zero_spec().val() == 0,
            Self::one_spec().val() == 1,
            MODULUS > 0 ==> a.add_spec(b).val() == (a.val() as int + b.val() as int) % (MODULUS as int),
            MODULUS > 0 ==> a.mul_spec(b).val() == (a.val() as int * b.val() as int) % (MODULUS as int),
    {
    }

    /// Reduce an integer into the field.
    pub fn new(value: u64) -> (r: Self)
        requires
            MODULUS > 1,
        ensures
            r.wf(),
            r.val() == value % MODULUS,
    {
        Self(value % MODULUS)
    }

    /// The canonical representative in `0..MODULUS`.
    pub fn value(self) -> (r: u64)
        ensures
            r == self.val(),
    {
        self.0
    }
}

/// `r · b^e ≡ (r·b^(e mod 2)) · (b²)^(e / 2)`: one step of square-and-multiply.
proof fn lemma_square_multiply_step(r: int, b: int, e: nat, m: int)
    requires
        m > 0,
    ensures
        e % 2 == 1 ==> (r * pow(b, e)) % m == (((r * b) % m) * pow((b * b) % m, e / 2)) % m,
        e % 2 == 0 ==> (r * pow(b, e)) % m == (r * pow((b * b) % m, e / 2)) % m,
{
    let h = e / 2;
    lemma_square_is_pow2(b);
    lemma_pow_multiplies(b, 2, h);
    lemma_pow_mod_noop(b * b, h, m);
    let q = pow(b * b, h);
    let qm = pow((b * b) % m, h);
    assert(qm % m == q % m);
    if e % 2 == 1 {
        assert(e == 2 * h + 1);
        lemma_pow_adds(b, 2 * h, 1);
        lemma_pow1(b);
        assert(pow(b, e) == q * b);
        // (r * (q * b)) % m == ((r*b)%m * qm) % m
        lemma_mul_is_associative(r, q, b);
        lemma_mul_is_commutative(q, b);
        lemma_mul_is_associative(r, b, q);
        assert(r * pow(b, e) == (r * b) * q);
        lemma_mul_mod_noop_general(r * b, q, m);
        lemma_mul_mod_noop_general(r * b, qm, m);
    } else {
        assert(e == 2 * h);
        assert(pow(b, e) == q);
        lemma_mul_mod_noop_general(r, q, m);
        lemma_mul_mod_noop_general(r, qm, m);
    }
}

impl<const MODULUS: u64> Field for PrimeField<MODULUS> {
    open spec fn field_valid() -> bool {
        MODULUS > 1
    }

    closed spec fn wf(self) -> bool {
        1 < MODULUS && self.0 < MODULUS
    }

    closed spec fn zero_spec() -> Self {
        PrimeField(0)
    }

    closed spec fn one_spec() -> Self {
        PrimeField(1)
    }

    closed spec fn from_u64_spec(value: u64) -> Self {
        PrimeField(value % MODULUS)
    }

    closed spec fn add_spec(self, rhs: Self) -> Self {
        PrimeField(((self.0 + rhs.0) % (MODULUS as int)) as u64)
    }

    closed spec fn sub_spec(self, rhs: Self) -> Self {
        PrimeField(((self.0 - rhs.0) % (MODULUS as int)) as u64)
    }

    closed spec fn mul_spec(self, rhs: Self) -> Self {
        PrimeField(((self.0 * rhs.0) % (MODULUS as int)) as u64)
    }

    closed spec fn neg_spec(self) -> Self {
        PrimeField(((0 - self.0) % (MODULUS as int)) as u64)
    }

    closed spec fn pow_spec(self, exponent: nat) -> Self {
        PrimeField((pow(self.0 as int, exponent) % (MODULUS as int)) as u64)
    }

    closed spec fn inverse_spec(self) -> Option<Self> {
        if self.0 == 0 {
            None
        } else {
            Some(self.pow_spec((MODULUS - 2) as nat))
        }
    }

    proof fn lemma_closure(x: Self, y: Self) {
        if MODULUS > 1 {
            let m = MODULUS as int;
            lemma_mod_bound(x.0 + y.0, m);
            lemma_mod_bound(x.0 - y.0, m);
            lemma_mod_bound(x.0 * y.0, m);
            lemma_mod_bound(0 - x.0, m);
            if x.wf() && x.0 != 0 {
                lemma_mod_bound(pow(x.0 as int, (MODULUS - 2) as nat), m);
            }
        }
    }

    fn zero() -> (r: Self) {
        PrimeField(0)
    }

    fn one() -> (r: Self) {
        PrimeField(1)
    }

    fn from_u64(value: u64) -> (r: Self) {
        Self::new(value)
    }

    fn add(self, rhs: Self) -> (r: Self) {
        let sum = ((self.0 as u128) + (rhs.0 as u128)) % (MODULUS as u128);
        PrimeField(sum as u64)
    }

    fn sub(self, rhs: Self) -> (r: Self) {
        proof {
            let m = MODULUS as int;
            if self.0 >= rhs.0 {
                lemma_small_mod((self.0 - rhs.0) as nat, m as nat);
            } else {
                lemma_mod_add_multiples_vanish(self.0 - rhs.0, m);
                lemma_small_mod((m + self.0 - rhs.0) as nat, m as nat);
            }
        }
        if self.0 >= rhs.0 {
            PrimeField(self.0 - rhs.0)
        } else {
            PrimeField(MODULUS - (rhs.0 - self.0))
        }
    }

    fn mul(self, rhs: Self) -> (r: Self) {
        proof {
            lemma_mul_upper_bound(self.0 as int, MODULUS as int, rhs.0 as int, MODULUS as int);
            lemma_mul_upper_bound(
                MODULUS as int,
                u64::MAX as int,
                MODULUS as int,
                u64::MAX as int,
            );
        }
        let product = ((self.0 as u128) * (rhs.0 as u128)) % (MODULUS as u128);
        PrimeField(product as u64)
    }

    fn neg(self) -> (r: Self) {
        proof {
            let m = MODULUS as int;
            if self.0 == 0 {
                lemma_small_mod(0, m as nat);
            } else {
                lemma_mod_add_multiples_vanish(0 - self.0, m);
                lemma_small_mod((m - self.0) as nat, m as nat);
            }
        }
        if self.0 == 0 {
            self
        } else {
            PrimeField(MODULUS - self.0)
        }
    }

    fn inverse(self) -> (r: Option<Self>) {
        if self.0 == 0 {
            None
        } else {
            Some(self.pow(MODULUS - 2))
        }
    }

    fn pow(self, exponent: u64) -> (r: Self) {
        let ghost m = MODULUS as int;
        let ghost v = self.0 as int;
        let mut result = PrimeField::<MODULUS>(1);
        let mut base = self;
        let ghost e0 = exponent;
        let mut exponent = exponent;
        proof {
            lemma_pow1(v);
            lemma_pow0(v);
            lemma_small_mod(1, m as nat);
            assert(pow(v, exponent as nat) == 1 * pow(v, exponent as nat));
        }
        while exponent != 0
            invariant
                1 < MODULUS,
                m == MODULUS,
                v == self.0,
                result.0 < MODULUS,
                base.0 < MODULUS,
                (result.0 * pow(base.0 as int, exponent as nat)) % m == pow(v, e0 as nat) % m,
            decreases exponent,
        {
            proof {
                lemma_square_multiply_step(result.0 as int, base.0 as int, exponent as nat, m);
            }
            if exponent % 2 == 1 {
                result = result.mul(base);
            }
            exponent = exponent / 2;
            if exponent != 0 {
                base = base.mul(base);
            } else {
                proof {
                    lemma_pow0(base.0 as int);
                    lemma_pow0(((base.0 * base.0) % m) as int);
                }
            }
        }
        proof {
            lemma_pow0(base.0 as int);
            lemma_small_mod(result.0 as nat, m as nat);
        }
        result
    }

    fn is_zero(self) -> (b: bool) {
        self.0 == 0
    }

    fn equals(self, rhs: Self) -> (b: bool) {
        self.0 == rhs.0
    }

    /// The eight little-endian bytes of the representative.
    closed spec fn bytes_spec(self) -> Seq<u8> {
        crate::bytes::u64_le_bytes(self.0)
    }

    fn push_bytes(self, buffer: &mut Vec<u8>) {
        crate::bytes::push_u64_le(buffer, self.0);
    }

    proof fn lemma_pow_wf(x: Self, exponent: nat) {
        if x.wf() {
            lemma_mod_bound(pow(x.0 as int, exponent), MODULUS as int);
        }
    }

    open spec fn byte_width() -> nat {
        8
    }

    proof fn lemma_byte_width(x: Self) {
    }

    proof fn lemma_unit() {
        if MODULUS > 1 {
            vstd::arithmetic::power::lemma1_pow((MODULUS - 2) as nat);
            lemma_small_mod(1, MODULUS as nat);
            lemma_small_mod(0, MODULUS as nat);
        }
    }
}

} // verus!

verus! {

/// The commutative-ring laws and, in a genuine field, multiplicative inverses.
pub trait FieldAxioms: Field {
    /// Every nonzero element is invertible (for a prime field: the modulus is prime).
    spec fn is_field() -> bool;

    proof fn lemma_ring(a: Self, b: Self, c: Self)
        requires
            a.wf(),
            b.wf(),
            c.wf(),
        ensures
            a.add_spec(b) == b.add_spec(a),
            a.add_spec(b).add_spec(c) == a.add_spec(b.add_spec(c)),
            a.add_spec(Self::zero_spec()) == a,
            a.mul_spec(b) == b.mul_spec(a),
            a.mul_spec(b).mul_spec(c) == a.mul_spec(b.mul_spec(c)),
            a.mul_spec(Self::one_spec()) == a,
            a.mul_spec(Self::zero_spec()) == Self::zero_spec(),
            a.mul_spec(b.add_spec(c)) == a.mul_spec(b).add_spec(a.mul_spec(c)),
            a.sub_spec(b) == a.add_spec(b.neg_spec()),
            a.add_spec(a.neg_spec()) == Self::zero_spec(),
    ;

    proof fn lemma_inverse(a: Self)
        requires
            a.wf(),
            a != Self::zero_spec(),
            Self::is_field(),
        ensures
            a.mul_spec(a.inverse_spec().unwrap()) == Self::one_spec(),
    ;

    proof fn lemma_field_valid()
        ensures
            Self::is_field() ==> Self::field_valid(),
    ;

    /// Powers unfold into products: `x^0 = 1`, `x^(e+1) = x^e · x`.
    proof fn lemma_pow_step(x: Self, e: nat)
        requires
            x.wf(),
        ensures
            x.pow_spec(0) == Self::one_spec(),
            x.pow_spec(e + 1) == x.pow_spec(e).mul_spec(x),
    ;
}

impl<const MODULUS: u64> FieldAxioms for PrimeField<MODULUS> {
    open spec fn is_field() -> bool {
        crate::primes::is_prime(MODULUS as int)
    }

    proof fn lemma_ring(a: Self, b: Self, c: Self) {
        let m = MODULUS as int;
        let (x, y, z) = (a.0 as int, b.0 as int, c.0 as int);
        lemma_small_mod(a.0 as nat, m as nat);
        lemma_small_mod(b.0 as nat, m as nat);
        lemma_small_mod(c.0 as nat, m as nat);
        lemma_small_mod(0, m as nat);
        lemma_small_mod(1, m as nat);
        // addition
        lemma_add_mod_noop(x + y, z, m);
        lemma_add_mod_noop(x, y + z, m);
        lemma_mod_twice(x + y, m);
        lemma_mod_twice(y + z, m);
        assert((((x + y) % m) + z) % m == (x + ((y + z) % m)) % m) by {
            lemma_add_mod_noop((x + y) % m, z, m);
            lemma_add_mod_noop(x, (y + z) % m, m);
        }
        // multiplication
        lemma_mul_is_commutative(x, y);
        lemma_mul_is_associative(x, y, z);
        lemma_mul_mod_noop_left(x * y, z, m);
        lemma_mul_mod_noop_right(x, y * z, m);
        lemma_mul_basics(x);
        // distributivity
        lemma_mul_is_distributive_add(x, y, z);
        lemma_mul_mod_noop_right(x, y + z, m);
        lemma_add_mod_noop(x * y, x * z, m);
        // negation and subtraction
        lemma_sub_mod_noop(x, y, m);
        lemma_add_mod_noop(x, 0 - y, m);
        lemma_mod_twice(0 - y, m);
        lemma_add_mod_noop(x, 0 - x, m);
        lemma_mod_self_0(m);
        lemma_mod_bound(0 - y, m);
        lemma_mod_bound(0 - x, m);
        assert((x + ((0 - y) % m)) % m == (x - y) % m) by {
            lemma_add_mod_noop(x, (0 - y) % m, m);
        }
        assert((x + ((0 - x) % m)) % m == 0) by {
            lemma_add_mod_noop(x, (0 - x) % m, m);
            assert(x + (0 - x) == 0);
        }
    }

    proof fn lemma_inverse(a: Self) {
        let m = MODULUS as int;
        crate::primes::lemma_fermat_inverse(MODULUS as nat, a.0 as nat);
        let e = pow(a.0 as int, (MODULUS - 2) as nat);
        lemma_mul_mod_noop_right(a.0 as int, e, m);
    }

    proof fn lemma_pow_step(x: Self, e: nat) {
        let m = MODULUS as int;
        let v = x.0 as int;
        reveal(pow);
        lemma_small_mod(1, m as nat);
        lemma_pow_adds(v, e, 1);
        lemma_pow1(v);
        lemma_mul_mod_noop_left(pow(v, e), v, m);
    }

    proof fn lemma_field_valid() {
    }
}

} // verus!
