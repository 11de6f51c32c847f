//! Möbius maps `φ(x) = (a·x + b)/(c·x + d)` on the projective line.
use vstd::prelude::*;

use crate::code::evaluations;
use crate::domain::EvaluationDomain;
use crate::error::Error;
use crate::eval::horner;
use crate::field::Field;
use crate::polynomial::seq_wf;
use crate::validate::{base_error, first_zero, first_zero_from, lemma_first_zero, validate_base};

verus! {

/// A projective-linear map `φ(x) = (a·x + b)/(c·x + d)` on `P¹(F)`.
///
/// Stored as its `2×2` coefficient matrix `[[a, b], [c, d]]`; composition is
/// matrix multiplication and the group law of `PGL(2, F)`.
#[derive(Clone, Copy, Debug, PartialEq, Eq)]
pub struct MobiusMap<F: Field> {
    /// The coefficient `a`.
    pub a: F,
    /// The coefficient `b`.
    pub b: F,
    /// The coefficient `c`.
    pub c: F,
    /// The coefficient `d`.
    pub d: F,
}

/// The determinant `a·d − b·c`.
pub open spec fn determinant_spec<F: Field>(m: MobiusMap<F>) -> F {
    m.a.mul_spec(m.d).sub_spec(m.b.mul_spec(m.c))
}

/// The denominator `c·x + d` at `x`.
pub open spec fn denominator_at<F: Field>(m: MobiusMap<F>, x: F) -> F {
    m.c.mul_spec(x).add_spec(m.d)
}

/// `φ(x)`, or `None` at the pole.
pub open spec fn apply_spec<F: Field>(m: MobiusMap<F>, x: F) -> Option<F> {
    let denominator = denominator_at(m, x);
    if denominator == F::zero_spec() {
        None
    } else {
        Some(m.a.mul_spec(x).add_spec(m.b).mul_spec(denominator.inverse_spec().unwrap()))
    }
}

/// The matrix product `outer · inner`.
pub open spec fn compose_spec<F: Field>(outer: MobiusMap<F>, inner: MobiusMap<F>) -> MobiusMap<F> {
    MobiusMap {
        a: outer.a.mul_spec(inner.a).add_spec(outer.b.mul_spec(inner.c)),
        b: outer.a.mul_spec(inner.b).add_spec(outer.b.mul_spec(inner.d)),
        c: outer.c.mul_spec(inner.a).add_spec(outer.d.mul_spec(inner.c)),
        d: outer.c.mul_spec(inner.b).add_spec(outer.d.mul_spec(inner.d)),
    }
}

/// The identity matrix.
pub open spec fn identity_spec<F: Field>() -> MobiusMap<F> {
    MobiusMap { a: F::one_spec(), b: F::zero_spec(), c: F::zero_spec(), d: F::one_spec() }
}

/// The first nonzero coefficient of `(a, b, c, d)`, or one.
pub open spec fn pivot_spec<F: Field>(m: MobiusMap<F>) -> F {
    if m.a != F::zero_spec() {
        m.a
    } else if m.b != F::zero_spec() {
        m.b
    } else if m.c != F::zero_spec() {
        m.c
    } else if m.d != F::zero_spec() {
        m.d
    } else {
        F::one_spec()
    }
}

/// Every coefficient divided by the pivot.
pub open spec fn normalized_spec<F: Field>(m: MobiusMap<F>) -> MobiusMap<F> {
    let inverse = pivot_spec(m).inverse_spec().unwrap();
    MobiusMap {
        a: m.a.mul_spec(inverse),
        b: m.b.mul_spec(inverse),
        c: m.c.mul_spec(inverse),
        d: m.d.mul_spec(inverse),
    }
}

/// The scalings (`b = c = 0`) and inversions (`a = d = 0`).
pub open spec fn orbit_preserving_spec<F: Field>(m: MobiusMap<F>) -> bool {
    (m.b == F::zero_spec() && m.c == F::zero_spec()) || (m.a == F::zero_spec() && m.d
        == F::zero_spec())
}

impl<F: Field> MobiusMap<F> {
    /// All four coefficients are canonical field elements.
    pub open spec fn wf(&self) -> bool {
        self.a.wf() && self.b.wf() && self.c.wf() && self.d.wf()
    }

    /// Construct a map from its four coefficients `(a, b, c, d)`.
    pub fn new(a: F, b: F, c: F, d: F) -> (r: Self)
        ensures
            r == (MobiusMap { a, b, c, d }),
    {
        MobiusMap { a, b, c, d }
    }

    /// The coefficient `a`.
    pub fn a(&self) -> (r: F)
        ensures
            r == self.a,
    {
        self.a
    }

    /// The coefficient `b`.
    pub fn b(&self) -> (r: F)
        ensures
            r == self.b,
    {
        self.b
    }

    /// The coefficient `c`.
    pub fn c(&self) -> (r: F)
        ensures
            r == self.c,
    {
        self.c
    }

    /// The coefficient `d`.
    pub fn d(&self) -> (r: F)
        ensures
            r == self.d,
    {
        self.d
    }

    /// The determinant `Δ = a·d − b·c`.
    ///
    /// The map is a bijection of `P¹(F)` exactly when `Δ ≠ 0`.
    pub fn determinant(&self) -> (r: F)
        requires
            self.wf(),
        ensures
            r == determinant_spec(*self),
            r.wf(),
    {
        self.a.mul(self.d).sub(self.b.mul(self.c))
    }

    /// Evaluate `φ(x)`, returning `None` at the pole `x = −d/c`.
    pub fn apply(&self, x: F) -> (r: Option<F>)
        requires
            self.wf(),
            x.wf(),
        ensures
            r == apply_spec(*self, x),
            r matches Some(y) ==> y.wf(),
    {
        let denominator = self.c.mul(x).add(self.d);
        if denominator.is_zero() {
            None
        } else {
            self.a.mul(x).add(self.b).divide(denominator)
        }
    }

    /// The composition `self ∘ inner`, i.e. `x ↦ self(inner(x))`: the matrix
    /// product `self · inner`.
    pub fn compose(&self, inner: &Self) -> (r: Self)
        requires
            self.wf(),
            inner.wf(),
        ensures
            r == compose_spec(*self, *inner),
            r.wf(),
    {
        MobiusMap {
            a: self.a.mul(inner.a).add(self.b.mul(inner.c)),
            b: self.a.mul(inner.b).add(self.b.mul(inner.d)),
            c: self.c.mul(inner.a).add(self.d.mul(inner.c)),
            d: self.c.mul(inner.b).add(self.d.mul(inner.d)),
        }
    }

    /// The characteristic-two adjugate `[[d, b], [c, a]]`, representing `φ⁻¹`
    /// up to the scalar `Δ` when `−1 = 1`.
    pub fn adjugate(&self) -> (r: Self)
        ensures
            r == (MobiusMap { a: self.d, b: self.b, c: self.c, d: self.a }),
    {
        MobiusMap { a: self.d, b: self.b, c: self.c, d: self.a }
    }

    /// Whether `φ` preserves a multiplicative orbit's geometric-progression
    /// structure: the scalings `x ↦ a·x` (`b = c = 0`) and the inversions
    /// `x ↦ b/(c·x)` (`a = d = 0`).
    pub fn is_orbit_preserving(&self) -> (r: bool)
        requires
            self.wf(),
        ensures
            r == orbit_preserving_spec(*self),
    {
        (self.b.is_zero() && self.c.is_zero()) || (self.a.is_zero() && self.d.is_zero())
    }

    /// The map sending three distinct points `(p0, p1, p2)` to `(0, 1, ∞)`:
    /// `φ(x) = ((x − p0)(p1 − p2)) / ((x − p2)(p1 − p0))`, stored with the
    /// characteristic-two signs `b = p0·a`, `d = p2·c`.
    pub fn from_three_points(p0: F, p1: F, p2: F) -> (r: Self)
        requires
            p0.wf(),
            p1.wf(),
            p2.wf(),
        ensures
            r.a == p1.sub_spec(p2),
            r.b == p0.mul_spec(p1.sub_spec(p2)),
            r.c == p1.sub_spec(p0),
            r.d == p2.mul_spec(p1.sub_spec(p0)),
            r.wf(),
    {
        let a = p1.sub(p2);
        let c = p1.sub(p0);
        MobiusMap { a, b: p0.mul(a), c, d: p2.mul(c) }
    }

    /// The identity map `x ↦ x`.
    pub fn identity() -> (r: Self)
        requires
            F::field_valid(),
        ensures
            r == identity_spec::<F>(),
            r.wf(),
    {
        MobiusMap { a: F::one(), b: F::zero(), c: F::zero(), d: F::one() }
    }

    /// The canonical projective representative: every coefficient divided by
    /// the first nonzero of `(a, b, c, d)`, so that entry becomes one.
    pub fn normalized(&self) -> (r: Self)
        requires
            self.wf(),
        ensures
            r == normalized_spec(*self),
            r.wf(),
    {
        proof {
            F::lemma_closure(self.a, self.a);
        }
        let pivot = if !self.a.is_zero() {
            self.a
        } else if !self.b.is_zero() {
            self.b
        } else if !self.c.is_zero() {
            self.c
        } else if !self.d.is_zero() {
            self.d
        } else {
            F::one()
        };
        proof {
            F::lemma_closure(pivot, pivot);
        }
        let inverse = pivot.inverse().unwrap();
        MobiusMap {
            a: self.a.mul(inverse),
            b: self.b.mul(inverse),
            c: self.c.mul(inverse),
            d: self.d.mul(inverse),
        }
    }

    /// Whether the normalized representative is the identity matrix.
    pub fn is_identity(&self) -> (r: bool)
        requires
            self.wf(),
        ensures
            r == (normalized_spec(*self) == identity_spec::<F>()),
    {
        proof {
            F::lemma_closure(self.a, self.a);
        }
        let normalized = self.normalized();
        let identity = Self::identity();
        normalized.a.equals(identity.a) && normalized.b.equals(identity.b) && normalized.c.equals(
            identity.c,
        ) && normalized.d.equals(identity.d)
    }
}

} // verus!

verus! {

/// The denominators `c·α_i + d` at every domain point.
pub open spec fn pole_denominators<F: Field>(m: MobiusMap<F>, points: Seq<F>) -> Seq<F> {
    Seq::new(points.len(), |i: int| denominator_at(m, points[i]))
}

/// The moved points `φ(α_i)`.
pub open spec fn moved_spec<F: Field>(m: MobiusMap<F>, points: Seq<F>) -> Seq<F> {
    Seq::new(points.len(), |i: int| apply_spec(m, points[i]).unwrap())
}

/// The first construction error of a Möbius-transformed GRS code: the base
/// shape, a singular map, then the first domain point hit by the pole.
pub open spec fn mobius_error<F: Field>(
    points: Seq<F>,
    multipliers: Seq<F>,
    dimension: usize,
    map: MobiusMap<F>,
) -> Option<Error> {
    let poles = pole_denominators(map, points);
    match base_error(multipliers, dimension, points.len() as usize) {
        Some(e) => Some(e),
        None => if determinant_spec(map) == F::zero_spec() {
            Some(Error::MobiusDelta)
        } else if first_zero(poles) < poles.len() {
            Some(Error::MobiusPole { index: first_zero(poles) as usize })
        } else {
            None
        },
    }
}

/// A Möbius-transformed generalized Reed–Solomon code.
///
/// Built from a base domain `α`, nonzero multipliers `w`, dimension `k`, and a
/// nonsingular map `φ`. The moved points `β_i = φ(α_i)` are precomputed at
/// construction; encoding evaluates the message polynomial there.
#[derive(Debug)]
pub struct MobiusGrsCode<F: Field> {
    domain: EvaluationDomain<F>,
    multipliers: Vec<F>,
    dimension: usize,
    map: MobiusMap<F>,
    moved: Vec<F>,
}

impl<F: Field> MobiusGrsCode<F> {
    pub closed spec fn points_view(&self) -> Seq<F> {
        self.domain@
    }

    pub closed spec fn multipliers_view(&self) -> Seq<F> {
        self.multipliers@
    }

    pub closed spec fn dimension_view(&self) -> usize {
        self.dimension
    }

    pub closed spec fn map_view(&self) -> MobiusMap<F> {
        self.map
    }

    pub closed spec fn moved_view(&self) -> Seq<F> {
        self.moved@
    }

    pub open spec fn wf(&self) -> bool {
        &&& F::field_valid()
        &&& self.points_view().len() > 0
        &&& self.points_view().len() <= usize::MAX
        &&& seq_wf(self.points_view())
        &&& crate::domain::distinct(self.points_view())
        &&& seq_wf(self.multipliers_view())
        &&& self.map_view().wf()
        &&& mobius_error(
            self.points_view(),
            self.multipliers_view(),
            self.dimension_view(),
            self.map_view(),
        ) is None
        &&& self.moved_view() == moved_spec(self.map_view(), self.points_view())
        &&& seq_wf(self.moved_view())
    }

    /// The codeword of a `k`-symbol message.
    pub open spec fn codeword_spec(&self, message: Seq<F>) -> Seq<F> {
        evaluations(message, self.moved_view(), self.multipliers_view())
    }

    /// Build a Möbius-transformed GRS code.
    pub fn new(domain: EvaluationDomain<F>, multipliers: Vec<F>, dimension: usize, map: MobiusMap<F>) -> (r:
        Result<Self, Error>)
        requires
            domain.wf(),
            seq_wf(multipliers@),
            map.wf(),
        ensures
            r is Ok <==> mobius_error(domain@, multipliers@, dimension, map) is None,
            r matches Err(e) ==> mobius_error(domain@, multipliers@, dimension, map) == Some(e),
            r matches Ok(code) ==> {
                &&& code.wf()
                &&& code.points_view() == domain@
                &&& code.multipliers_view() == multipliers@
                &&& code.dimension_view() == dimension
                &&& code.map_view() == map
            },
    {
        let length = domain.len();
        match validate_base(multipliers.as_slice(), dimension, length) {
            Ok(()) => {},
            Err(e) => {
                return Err(e);
            },
        }
        if map.determinant().is_zero() {
            return Err(Error::MobiusDelta);
        }
        let points = domain.points();
        let ghost poles = pole_denominators(map, points@);
        proof {
            lemma_first_zero(poles, 0);
        }
        let mut moved: Vec<F> = Vec::with_capacity(length);
        let mut index: usize = 0;
        while index < length
            invariant
                domain.wf(),
                map.wf(),
                points@ == domain@,
                length == points@.len(),
                poles == pole_denominators(map, points@),
                base_error(multipliers@, dimension, length) is None,
                determinant_spec(map) != F::zero_spec(),
                index <= length,
                first_zero_from(poles, index as int) == first_zero(poles),
                moved@ == moved_spec(map, points@).subrange(0, index as int),
                seq_wf(moved@),
            decreases length - index,
        {
            proof {
                assert(points@[index as int].wf());
            }
            match map.apply(points[index]) {
                Some(image) => {
                    moved.push(image);
                    proof {
                        assert(moved@ =~= moved_spec(map, points@).subrange(0, index + 1));
                    }
                },
                None => {
                    proof {
                        assert(poles[index as int] == F::zero_spec());
                    }
                    return Err(Error::MobiusPole { index });
                },
            }
            index += 1;
        }
        proof {
            assert(moved@ =~= moved_spec(map, points@));
        }
        Ok(MobiusGrsCode { domain, multipliers, dimension, map, moved })
    }

    /// Code length `n`.
    pub fn length(&self) -> (r: usize)
        ensures
            r == self.points_view().len(),
    {
        self.domain.len()
    }

    /// Message dimension `k`.
    pub fn dimension(&self) -> (r: usize)
        ensures
            r == self.dimension_view(),
    {
        self.dimension
    }

    /// The base evaluation domain `α`.
    pub fn domain(&self) -> (r: &EvaluationDomain<F>)
        ensures
            r@ == self.points_view(),
    {
        &self.domain
    }

    /// The column multipliers `w`.
    pub fn multipliers(&self) -> (r: &[F])
        ensures
            r@ == self.multipliers_view(),
    {
        self.multipliers.as_slice()
    }

    /// The Möbius map `φ`.
    pub fn map(&self) -> (r: &MobiusMap<F>)
        ensures
            *r == self.map_view(),
    {
        &self.map
    }

    /// The moved evaluation points `β_i = φ(α_i)`.
    pub fn moved_points(&self) -> (r: &[F])
        ensures
            r@ == self.moved_view(),
    {
        self.moved.as_slice()
    }

    /// Whether `φ` preserves multiplicative-orbit structure (fold capability).
    pub fn is_orbit_preserving(&self) -> (r: bool)
        requires
            self.wf(),
        ensures
            r == orbit_preserving_spec(self.map_view()),
    {
        self.map.is_orbit_preserving()
    }

    /// Encode a `k`-symbol message into an `n`-symbol codeword: the message
    /// evaluated at each moved point and scaled by the column multiplier.
    pub fn encode_into(&self, message: &[F], codeword: &mut [F]) -> (r: Result<(), Error>)
        requires
            self.wf(),
            seq_wf(message@),
        ensures
            message@.len() != self.dimension_view() ==> r == Err::<(), Error>(
                Error::MessageLength {
                    expected: self.dimension_view(),
                    got: message@.len() as usize,
                },
            ),
            message@.len() == self.dimension_view() && old(codeword)@.len() != self.points_view().len()
                ==> r == Err::<(), Error>(
                Error::CodewordLength {
                    expected: self.points_view().len() as usize,
                    got: old(codeword)@.len() as usize,
                },
            ),
            r is Err ==> final(codeword)@ == old(codeword)@,
            r is Ok <==> message@.len() == self.dimension_view() && old(codeword)@.len()
                == self.points_view().len(),
            r is Ok ==> final(codeword)@ == self.codeword_spec(message@),
    {
        if message.len() != self.dimension {
            return Err(Error::MessageLength { expected: self.dimension, got: message.len() });
        }
        let length = self.domain.len();
        if codeword.len() != length {
            return Err(Error::CodewordLength { expected: length, got: codeword.len() });
        }
        let mut slot: usize = 0;
        while slot < length
            invariant
                self.wf(),
                seq_wf(message@),
                length == self.points_view().len(),
                self.moved_view().len() == length,
                codeword@.len() == length,
                slot <= length,
                forall|i: int|
                    0 <= i < slot ==> #[trigger] codeword@[i] == self.codeword_spec(message@)[i],
            decreases length - slot,
        {
            let value = horner(message, self.moved[slot]);
            codeword[slot] = self.multipliers[slot].mul(value);
            slot += 1;
        }
        proof {
            assert(codeword@ =~= self.codeword_spec(message@));
        }
        Ok(())
    }

    /// The MDS unique-decoding radius `⌊(n−k)/2⌋`.
    pub fn unique_radius(&self) -> (r: usize)
        requires
            self.wf(),
        ensures
            r == (self.points_view().len() - self.dimension_view()) / 2,
    {
        (self.domain.len() - self.dimension) / 2
    }
}

} // verus!
