//! Extended generalized Reed–Solomon codes: a GRS code with appended
//! coordinates, each a linear functional of the message coefficients.
use vstd::prelude::*;

use crate::code::evaluations;
use crate::decode::views;
use crate::domain::EvaluationDomain;
use crate::error::Error;
use crate::eval::horner;
use crate::field::Field;
use crate::outcome::UniqueDecode;
use crate::polynomial::{coeff_at, copy_elements, seq_wf, Polynomial};
use crate::validate::{all_nonzero, find_zero, first_zero, lemma_first_zero};

verus! {

/// `Σ_{d < m} a[d] · b[d]`, accumulated in increasing `d`.
pub open spec fn dot<F: Field>(a: Seq<F>, b: Seq<F>, m: int) -> F
    decreases m,
{
    if m <= 0 {
        F::zero_spec()
    } else {
        dot(a, b, m - 1).add_spec(a[m - 1].mul_spec(b[m - 1]))
    }
}

/// The unit functional `e_i` of length `k`.
pub open spec fn basis_functional<F: Field>(k: nat, i: int) -> Seq<F> {
    Seq::new(k, |d: int| if d == i { F::one_spec() } else { F::zero_spec() })
}

proof fn lemma_dot_unit_prefix<F: crate::field::FieldAxioms>(b: Seq<F>, k: nat, i: int, m: int)
    requires
        F::field_valid(),
        seq_wf(b),
        0 <= i < k <= b.len(),
        0 <= m <= k,
    ensures
        dot(basis_functional::<F>(k, i), b, m) == if i < m {
            b[i]
        } else {
            F::zero_spec()
        },
    decreases m,
{
    let z = F::zero_spec();
    let o = F::one_spec();
    F::lemma_closure(z, z);
    if m > 0 {
        lemma_dot_unit_prefix(b, k, i, m - 1);
        let x = b[m - 1];
        F::lemma_ring(x, o, z);
        F::lemma_ring(o, x, z);
        F::lemma_ring(z, x, x);
        F::lemma_ring(x, z, z);
        F::lemma_ring(b[i], z, z);
        F::lemma_ring(z, z, z);
    }
}

/// A functional reads every message coefficient: the unit functional `e_i`
/// picks out coefficient `i`, for every `i < k`.
pub proof fn law_dot_with_unit_functional<F: crate::field::FieldAxioms>(b: Seq<F>, k: nat, i: int)
    requires
        F::field_valid(),
        seq_wf(b),
        0 <= i < k <= b.len(),
    ensures
        dot(basis_functional::<F>(k, i), b, k as int) == b[i],
{
    lemma_dot_unit_prefix(b, k, i, k as int);
}

/// A functional acts linearly: `(λ + c·μ)·f = λ·f + c·(μ·f)` over the first
/// `m` coefficients.
pub proof fn law_dot_is_linear<F: crate::field::FieldAxioms>(
    lambda: Seq<F>,
    mu: Seq<F>,
    c: F,
    b: Seq<F>,
    m: int,
)
    requires
        seq_wf(lambda),
        seq_wf(mu),
        seq_wf(b),
        c.wf(),
        0 <= m <= lambda.len(),
        m <= mu.len(),
        m <= b.len(),
    ensures
        dot(Seq::new(lambda.len(), |d: int| lambda[d].add_spec(c.mul_spec(mu[d]))), b, m) == dot(
            lambda,
            b,
            m,
        ).add_spec(c.mul_spec(dot(mu, b, m))),
    decreases m,
{
    F::lemma_field_valid();
    let combined = Seq::new(lambda.len(), |d: int| lambda[d].add_spec(c.mul_spec(mu[d])));
    F::lemma_closure(c, c);
    if m == 0 {
        let z = F::zero_spec();
        F::lemma_closure(z, z);
        crate::polynomial_laws::lemma_zero_facts_pub(c);
        crate::polynomial_laws::lemma_zero_facts_pub(z);
    } else {
        law_dot_is_linear(lambda, mu, c, b, m - 1);
        let (l, u, x) = (lambda[m - 1], mu[m - 1], b[m - 1]);
        let (p, q) = (dot(lambda, b, m - 1), dot(mu, b, m - 1));
        lemma_dot_wf(lambda, b, m - 1);
        lemma_dot_wf(mu, b, m - 1);
        F::lemma_closure(c, u);
        F::lemma_closure(l, x);
        F::lemma_closure(u, x);
        F::lemma_closure(c, q);
        F::lemma_closure(c.mul_spec(u), x);
        F::lemma_closure(c, u.mul_spec(x));
        // (l + c·u)·x = l·x + (c·u)·x = l·x + c·(u·x)
        crate::laws::lemma_distribute_right(l, c.mul_spec(u), x);
        F::lemma_ring(c, u, x);
        // c·(q + u·x) = c·q + c·(u·x)
        F::lemma_ring(c, q, u.mul_spec(x));
        crate::laws::lemma_add_interchange(p, c.mul_spec(q), l.mul_spec(x), c.mul_spec(u.mul_spec(x)));
    }
}

proof fn lemma_dot_wf<F: crate::field::FieldAxioms>(a: Seq<F>, b: Seq<F>, m: int)
    requires
        F::field_valid(),
        seq_wf(a),
        seq_wf(b),
        0 <= m <= a.len(),
        m <= b.len(),
    ensures
        dot(a, b, m).wf(),
    decreases m,
{
    F::lemma_closure(F::zero_spec(), F::zero_spec());
    if m > 0 {
        lemma_dot_wf(a, b, m - 1);
        F::lemma_closure(a[m - 1], b[m - 1]);
        F::lemma_closure(dot(a, b, m - 1), a[m - 1].mul_spec(b[m - 1]));
    }
}

/// The extended encoder appends, for a unit functional `e_i`, the message
/// coefficient `f_i` scaled by that coordinate's multiplier.
pub proof fn law_extension_with_unit_functional<F: crate::field::FieldAxioms>(
    code: &ExtendedGrsCode<F>,
    message: Seq<F>,
    j: int,
    i: int,
)
    requires
        code.wf(),
        seq_wf(message),
        message.len() == code.dimension_view(),
        0 <= j < code.functionals_view().len(),
        0 <= i < message.len(),
        code.functionals_view()[j] == basis_functional::<F>(message.len(), i),
    ensures
        code.codeword_spec(message)[code.points_view().len() + j] == code.multipliers_view()[
            code.points_view().len() + j
        ].mul_spec(message[i]),
{
    law_dot_with_unit_functional(message, message.len(), i);
    let n = code.points_view().len();
    let ev = evaluations(message, code.points_view(), code.multipliers_view());
    assert(ev.len() == n);
}

/// The index of the first functional whose length is not `k`, or the count.
pub open spec fn first_bad_functional<F: Field>(functionals: Seq<Seq<F>>, k: nat, from: int) -> int
    decreases functionals.len() - from,
{
    if from < 0 || from >= functionals.len() {
        functionals.len() as int
    } else if functionals[from].len() != k {
        from
    } else {
        first_bad_functional(functionals, k, from + 1)
    }
}

/// The first construction error of an extended GRS code.
pub open spec fn extended_error<F: Field>(
    base_length: usize,
    multipliers: Seq<F>,
    dimension: usize,
    functionals: Seq<Seq<F>>,
) -> Option<Error> {
    let length = base_length + functionals.len();
    let bad = first_bad_functional(functionals, dimension as nat, 0);
    if multipliers.len() != length {
        Some(Error::MultiplierCount { expected: length as usize, got: multipliers.len() as usize })
    } else if first_zero(multipliers) < multipliers.len() {
        Some(Error::ZeroMultiplier { index: first_zero(multipliers) as usize })
    } else if dimension < 1 || dimension > base_length {
        Some(Error::InvalidDimension { dimension, length: base_length })
    } else if bad < functionals.len() {
        Some(Error::FunctionalLength { expected: dimension, got: functionals[bad].len() as usize })
    } else {
        None
    }
}

/// The appended coordinates `(v_{n+j} · ⟨λ_j, f⟩)_j`.
pub open spec fn extension_values<F: Field>(
    functionals: Seq<Seq<F>>,
    multipliers: Seq<F>,
    base_length: nat,
    message: Seq<F>,
) -> Seq<F> {
    Seq::new(
        functionals.len(),
        |j: int|
            multipliers[base_length + j].mul_spec(
                dot(functionals[j], message, functionals[j].len() as int),
            ),
    )
}

/// The unit functional `e_{k-1}` (picks the top message coefficient).
pub open spec fn projective_functional<F: Field>(dimension: nat) -> Seq<F> {
    Seq::new(
        dimension,
        |d: int|
            if d == dimension - 1 {
                F::one_spec()
            } else {
                F::zero_spec()
            },
    )
}

/// The views of a list of vectors.
pub open spec fn vector_views<F: Field>(list: Seq<Vec<F>>) -> Seq<Seq<F>> {
    list.map_values(|v: Vec<F>| v@)
}

pub proof fn lemma_functionals_ok<F: Field>(functionals: Seq<Seq<F>>, k: nat, from: int)
    requires
        0 <= from <= functionals.len(),
    ensures
        from <= first_bad_functional(functionals, k, from) <= functionals.len(),
        first_bad_functional(functionals, k, from) < functionals.len() ==> functionals[first_bad_functional(functionals, k, from)].len() != k,
        forall|j: int| from <= j < first_bad_functional(functionals, k, from) ==> (#[trigger] functionals[j]).len() == k,
    decreases functionals.len() - from,
{
    if from < functionals.len() && functionals[from].len() == k {
        lemma_functionals_ok(functionals, k, from + 1);
    }
}

/// Compute `Σ a[d] · b[d]` over the common length.
pub fn dot_product<F: Field>(a: &[F], b: &[F]) -> (r: F)
    requires
        F::field_valid(),
        seq_wf(a@),
        seq_wf(b@),
        a@.len() <= b@.len(),
    ensures
        r == dot(a@, b@, a@.len() as int),
        r.wf(),
{
    let mut value = F::zero();
    let mut d: usize = 0;
    while d < a.len()
        invariant
            F::field_valid(),
            seq_wf(a@),
            seq_wf(b@),
            a@.len() <= b@.len(),
            d <= a@.len(),
            value == dot(a@, b@, d as int),
            value.wf(),
        decreases a@.len() - d,
    {
        value = value.add(a[d].mul(b[d]));
        d += 1;
    }
    value
}

/// An extended generalized Reed–Solomon code: the GRS evaluations on `n`
/// points followed by one coordinate per linear functional of the message.
#[derive(Debug)]
pub struct ExtendedGrsCode<F: Field> {
    domain: EvaluationDomain<F>,
    multipliers: Vec<F>,
    dimension: usize,
    functionals: Vec<Vec<F>>,
}

impl<F: Field> ExtendedGrsCode<F> {
    pub closed spec fn points_view(&self) -> Seq<F> {
        self.domain@
    }

    pub closed spec fn multipliers_view(&self) -> Seq<F> {
        self.multipliers@
    }

    pub closed spec fn dimension_view(&self) -> usize {
        self.dimension
    }

    pub closed spec fn functionals_view(&self) -> Seq<Seq<F>> {
        vector_views(self.functionals@)
    }

    pub open spec fn wf(&self) -> bool {
        &&& F::field_valid()
        &&& self.points_view().len() > 0
        &&& seq_wf(self.points_view())
        &&& crate::domain::distinct(self.points_view())
        &&& seq_wf(self.multipliers_view())
        &&& forall|j: int| 0 <= j < self.functionals_view().len() ==> seq_wf(#[trigger] self.functionals_view()[j])
        &&& self.points_view().len() + self.functionals_view().len() <= usize::MAX
        &&& extended_error(
            self.points_view().len() as usize,
            self.multipliers_view(),
            self.dimension_view(),
            self.functionals_view(),
        ) is None
    }

    /// The codeword of a `k`-symbol message.
    pub open spec fn codeword_spec(&self, message: Seq<F>) -> Seq<F> {
        evaluations(message, self.points_view(), self.multipliers_view()) + extension_values(
            self.functionals_view(),
            self.multipliers_view(),
            self.points_view().len(),
            message,
        )
    }

    /// Build an extended GRS code.
    ///
    /// `multipliers` covers the `n` base coordinates and then one per
    /// functional; each functional has exactly `k` coefficients, and
    /// `1 <= k <= n`.
    pub fn new(
        domain: EvaluationDomain<F>,
        multipliers: Vec<F>,
        dimension: usize,
        functionals: Vec<Vec<F>>,
    ) -> (r: Result<Self, Error>)
        requires
            domain.wf(),
            seq_wf(multipliers@),
            forall|j: int| 0 <= j < functionals@.len() ==> seq_wf(#[trigger] functionals@[j]@),
            domain@.len() + functionals@.len() <= usize::MAX,
        ensures
            r is Ok <==> extended_error(
                domain@.len() as usize,
                multipliers@,
                dimension,
                vector_views(functionals@),
            ) is None,
            r matches Err(e) ==> extended_error(
                domain@.len() as usize,
                multipliers@,
                dimension,
                vector_views(functionals@),
            ) == Some(e),
            r matches Ok(code) ==> {
                &&& code.wf()
                &&& code.points_view() == domain@
                &&& code.multipliers_view() == multipliers@
                &&& code.dimension_view() == dimension
                &&& code.functionals_view() == vector_views(functionals@)
            },
    {
        let base_length = domain.len();
        let length = base_length + functionals.len();
        if multipliers.len() != length {
            return Err(Error::MultiplierCount { expected: length, got: multipliers.len() });
        }
        let zero_index = find_zero(multipliers.as_slice());
        if zero_index < multipliers.len() {
            return Err(Error::ZeroMultiplier { index: zero_index });
        }
        if dimension < 1 || dimension > base_length {
            return Err(Error::InvalidDimension { dimension, length: base_length });
        }
        let ghost fv = vector_views(functionals@);
        proof {
            lemma_functionals_ok(fv, dimension as nat, 0);
        }
        let mut j: usize = 0;
        while j < functionals.len()
            invariant
                fv == vector_views(functionals@),
                multipliers@.len() == domain@.len() + functionals@.len(),
                first_zero(multipliers@) == multipliers@.len(),
                1 <= dimension <= domain@.len(),
                base_length == domain@.len(),
                j <= functionals@.len(),
                first_bad_functional(fv, dimension as nat, 0) == first_bad_functional(
                    fv,
                    dimension as nat,
                    j as int,
                ),
            decreases functionals@.len() - j,
        {
            proof {
                assert(fv[j as int] == functionals@[j as int]@);
            }
            if functionals[j].len() != dimension {
                return Err(Error::FunctionalLength { expected: dimension, got: functionals[j].len() });
            }
            j += 1;
        }
        proof {
            assert forall|q: int| 0 <= q < fv.len() implies seq_wf(#[trigger] fv[q]) by {
                assert(fv[q] == functionals@[q]@);
            }
        }
        Ok(ExtendedGrsCode { domain, multipliers, dimension, functionals })
    }

    /// The projective extension: one appended coordinate carrying the top
    /// message coefficient `f_{k-1}` (the evaluation at infinity).
    pub fn projective(domain: EvaluationDomain<F>, multipliers: Vec<F>, dimension: usize) -> (r:
        Result<Self, Error>)
        requires
            domain.wf(),
            seq_wf(multipliers@),
            domain@.len() < usize::MAX,
        ensures
            dimension < 1 ==> r == Err::<Self, Error>(
                Error::InvalidDimension { dimension, length: domain@.len() as usize },
            ),
            dimension >= 1 ==> (r is Ok <==> extended_error(
                domain@.len() as usize,
                multipliers@,
                dimension,
                seq![projective_functional::<F>(dimension as nat)],
            ) is None),
            dimension >= 1 ==> (r matches Err(e) ==> extended_error(
                domain@.len() as usize,
                multipliers@,
                dimension,
                seq![projective_functional::<F>(dimension as nat)],
            ) == Some(e)),
            r matches Ok(code) ==> {
                &&& code.wf()
                &&& code.points_view() == domain@
                &&& code.multipliers_view() == multipliers@
                &&& code.dimension_view() == dimension
                &&& code.functionals_view() == seq![projective_functional::<F>(dimension as nat)]
            },
    {
        if dimension < 1 {
            return Err(Error::InvalidDimension { dimension, length: domain.len() });
        }
        let functional = unit_functional(dimension);
        let mut functionals: Vec<Vec<F>> = Vec::new();
        functionals.push(functional);
        proof {
            assert(vector_views(functionals@) =~= seq![projective_functional::<F>(dimension as nat)]);
        }
        Self::new(domain, multipliers, dimension, functionals)
    }

    /// Code length `n + e`.
    pub fn length(&self) -> (r: usize)
        requires
            self.wf(),
        ensures
            r == self.points_view().len() + self.functionals_view().len(),
    {
        self.domain.len() + self.functionals.len()
    }

    /// Base length `n`.
    pub fn base_length(&self) -> (r: usize)
        ensures
            r == self.points_view().len(),
    {
        self.domain.len()
    }

    /// Message dimension `k`.
    pub fn dimension(&self) -> (r: usize)
        ensures
            r == self.dimension_view(),
    {
        self.dimension
    }

    /// The column multipliers (base coordinates, then extensions).
    pub fn multipliers(&self) -> (r: &[F])
        ensures
            r@ == self.multipliers_view(),
    {
        self.multipliers.as_slice()
    }

    /// The base evaluation domain.
    pub fn domain(&self) -> (r: &EvaluationDomain<F>)
        ensures
            r@ == self.points_view(),
    {
        &self.domain
    }

    /// The extension functionals.
    pub fn functionals(&self) -> (r: &[Vec<F>])
        ensures
            vector_views(r@) == self.functionals_view(),
    {
        self.functionals.as_slice()
    }

    /// Encode a `k`-symbol message into the `n + e` coordinates.
    pub fn encode_into(&self, message: &[F], codeword: &mut [F]) -> (r: Result<(), Error>)
        requires
            self.wf(),
            seq_wf(message@),
        ensures
            message@.len() != self.dimension_view() ==> r == Err::<(), Error>(
                Error::MessageLength {
                    expected: self.dimension_view(),
                    got: message@.len() as usize,
                },
            ),
            message@.len() == self.dimension_view() && old(codeword)@.len() != self.points_view().len()
                + self.functionals_view().len() ==> r == Err::<(), Error>(
                Error::CodewordLength {
                    expected: (self.points_view().len() + self.functionals_view().len()) as usize,
                    got: old(codeword)@.len() as usize,
                },
            ),
            r is Err ==> final(codeword)@ == old(codeword)@,
            r is Ok <==> message@.len() == self.dimension_view() && old(codeword)@.len()
                == self.points_view().len() + self.functionals_view().len(),
            r is Ok ==> final(codeword)@ == self.codeword_spec(message@),
    {
        let dimension = self.dimension;
        let base_length = self.domain.len();
        let length = base_length + self.functionals.len();
        if message.len() != dimension {
            return Err(Error::MessageLength { expected: dimension, got: message.len() });
        }
        if codeword.len() != length {
            return Err(Error::CodewordLength { expected: length, got: codeword.len() });
        }
        let ghost fv = self.functionals_view();
        proof {
            lemma_functionals_ok(fv, dimension as nat, 0);
        }
        let points = self.domain.points();
        let mut slot: usize = 0;
        while slot < base_length
            invariant
                self.wf(),
                points@ == self.points_view(),
                base_length == points@.len(),
                codeword@.len() == length,
                length == base_length + fv.len(),
                seq_wf(message@),
                slot <= base_length,
                forall|i: int|
                    0 <= i < slot ==> #[trigger] codeword@[i] == evaluations(
                        message@,
                        points@,
                        self.multipliers_view(),
                    )[i],
            decreases base_length - slot,
        {
            let value = horner(message, points[slot]);
            codeword[slot] = self.multipliers[slot].mul(value);
            slot += 1;
        }
        let mut j: usize = 0;
        while j < self.functionals.len()
            invariant
                self.wf(),
                fv == self.functionals_view(),
                points@ == self.points_view(),
                base_length == points@.len(),
                codeword@.len() == length,
                length == base_length + fv.len(),
                seq_wf(message@),
                message@.len() == dimension,
                dimension == self.dimension_view(),
                forall|q: int| 0 <= q < fv.len() ==> (#[trigger] fv[q]).len() == dimension,
                j <= fv.len(),
                forall|i: int|
                    0 <= i < base_length ==> #[trigger] codeword@[i] == evaluations(
                        message@,
                        points@,
                        self.multipliers_view(),
                    )[i],
                forall|q: int|
                    0 <= q < j ==> #[trigger] codeword@[base_length + q] == extension_values(
                        fv,
                        self.multipliers_view(),
                        base_length as nat,
                        message@,
                    )[q],
            decreases fv.len() - j,
        {
            let functional = &self.functionals[j];
            proof {
                assert(fv[j as int] == functional@);
                assert(seq_wf(fv[j as int]));
            }
            let value = dot_product(functional.as_slice(), message);
            proof {
                assert(self.multipliers_view()[base_length + j].wf());
            }
            codeword[base_length + j] = self.multipliers[base_length + j].mul(value);
            j += 1;
        }
        proof {
            assert(codeword@ =~= self.codeword_spec(message@));
        }
        Ok(())
    }

    /// The unique-decoding radius `⌊(n + e - k)/2⌋`.
    pub fn unique_radius(&self) -> (r: usize)
        requires
            self.wf(),
        ensures
            r == (self.points_view().len() + self.functionals_view().len() - self.dimension_view()) / 2,
    {
        (self.length() - self.dimension) / 2
    }
}

/// The unit vector `e_{k-1}` of length `k >= 1`.
fn unit_functional<F: Field>(dimension: usize) -> (r: Vec<F>)
    requires
        dimension >= 1,
        F::field_valid(),
    ensures
        r@ == projective_functional::<F>(dimension as nat),
        seq_wf(r@),
{
    proof {
        F::lemma_closure(F::zero_spec(), F::zero_spec());
    }
    let mut functional: Vec<F> = Vec::with_capacity(dimension);
    let mut d: usize = 0;
    while d < dimension
        invariant
            F::field_valid(),
            d <= dimension,
            functional@.len() == d,
            forall|q: int|
                0 <= q < d ==> #[trigger] functional@[q] == (if q == dimension - 1 {
                    F::one_spec()
                } else {
                    F::zero_spec()
                }),
            seq_wf(functional@),
        decreases dimension - d,
    {
        if d == dimension - 1 {
            functional.push(F::one());
        } else {
            functional.push(F::zero());
        }
        d += 1;
    }
    assert(functional@ =~= projective_functional::<F>(dimension as nat));
    functional
}

/// The number of the first `m` extension coordinates at which the candidate's
/// re-encoded value differs from the received symbol.
pub open spec fn extension_mismatches<F: Field>(
    functionals: Seq<Seq<F>>,
    multipliers: Seq<F>,
    candidate: Seq<F>,
    received: Seq<F>,
    base_length: nat,
    m: int,
) -> nat
    decreases m,
{
    if m <= 0 {
        0
    } else {
        let previous = extension_mismatches(functionals, multipliers, candidate, received, base_length, m - 1);
        let j = m - 1;
        let value = multipliers[j].mul_spec(
            dot(functionals[j], Seq::new(functionals[j].len(), |d: int| coeff_at(candidate, d)), functionals[j].len() as int),
        );
        if value != received[base_length + j] {
            previous + 1
        } else {
            previous
        }
    }
}

/// The candidates among the first `m` whose punctured distance plus extension
/// mismatches stays within the radius.
pub open spec fn accepted_candidates<F: Field>(
    functionals: Seq<Seq<F>>,
    multipliers: Seq<F>,
    candidates: Seq<Seq<F>>,
    distances: Seq<usize>,
    received: Seq<F>,
    base_length: nat,
    radius: nat,
    m: int,
) -> Seq<Seq<F>>
    decreases m,
{
    if m <= 0 {
        Seq::empty()
    } else {
        let previous = accepted_candidates(
            functionals,
            multipliers,
            candidates,
            distances,
            received,
            base_length,
            radius,
            m - 1,
        );
        let mismatches = extension_mismatches(
            functionals,
            multipliers,
            candidates[m - 1],
            received,
            base_length,
            functionals.len() as int,
        );
        if distances[m - 1] + mismatches <= radius {
            previous.push(candidates[m - 1])
        } else {
            previous
        }
    }
}

/// The extended decoder's own logic: the punctured base the ambient decoder
/// runs on, and the re-encode check of each candidate on the appended
/// coordinates.
pub struct ExtendedGrsDecoder<F: Field> {
    inverse_multipliers: Vec<F>,
    functionals: Vec<Vec<F>>,
    extension_multipliers: Vec<F>,
    dimension: usize,
    length: usize,
    target_radius: usize,
    base_multipliers: Ghost<Seq<F>>,
}

impl<F: Field> ExtendedGrsDecoder<F> {
    pub closed spec fn base_multipliers_view(&self) -> Seq<F> {
        self.base_multipliers@
    }

    pub closed spec fn functionals_view(&self) -> Seq<Seq<F>> {
        vector_views(self.functionals@)
    }

    pub closed spec fn extension_multipliers_view(&self) -> Seq<F> {
        self.extension_multipliers@
    }

    pub closed spec fn dimension_view(&self) -> usize {
        self.dimension
    }

    pub closed spec fn length_view(&self) -> usize {
        self.length
    }

    pub closed spec fn target_radius_view(&self) -> usize {
        self.target_radius
    }

    pub open spec fn base_length_view(&self) -> nat {
        self.base_multipliers_view().len()
    }

    pub closed spec fn wf(&self) -> bool {
        &&& F::field_valid()
        &&& self.inverse_multipliers@.len() == self.base_multipliers@.len()
        &&& seq_wf(self.inverse_multipliers@)
        &&& forall|i: int|
            0 <= i < self.base_multipliers@.len() ==> Some(#[trigger] self.inverse_multipliers@[i])
                == self.base_multipliers@[i].inverse_spec()
        &&& self.extension_multipliers@.len() == self.functionals@.len()
        &&& seq_wf(self.extension_multipliers@)
        &&& forall|j: int| 0 <= j < self.functionals@.len() ==> seq_wf(#[trigger] self.functionals@[j]@)
        &&& self.length == self.base_multipliers@.len() + self.functionals@.len()
    }

    /// Build the decoder data for a code and a decoding radius.
    pub fn new(code: &ExtendedGrsCode<F>, target_radius: usize) -> (r: Self)
        requires
            code.wf(),
        ensures
            r.wf(),
            r.base_multipliers_view() == code.multipliers_view().subrange(0, code.points_view().len() as int),
            r.functionals_view() == code.functionals_view(),
            r.extension_multipliers_view() == code.multipliers_view().subrange(
                code.points_view().len() as int,
                code.multipliers_view().len() as int,
            ),
            r.dimension_view() == code.dimension_view(),
            r.length_view() == code.points_view().len() + code.functionals_view().len(),
            r.target_radius_view() == target_radius,
    {
        let base_length = code.domain.len();
        let multipliers = code.multipliers.as_slice();
        let total = multipliers.len();
        proof {
            lemma_first_zero(multipliers@, 0);
        }
        let mut inverse_multipliers: Vec<F> = Vec::with_capacity(base_length);
        let mut i: usize = 0;
        while i < base_length
            invariant
                code.wf(),
                multipliers@ == code.multipliers_view(),
                total == multipliers@.len(),
                base_length <= total,
                all_nonzero(multipliers@),
                i <= base_length,
                inverse_multipliers@.len() == i,
                seq_wf(inverse_multipliers@),
                forall|j: int|
                    0 <= j < i ==> Some(#[trigger] inverse_multipliers@[j]) == multipliers@[j].inverse_spec(),
            decreases base_length - i,
        {
            proof {
                assert(multipliers@[i as int].wf());
                assert(multipliers@[i as int] != F::zero_spec());
            }
            inverse_multipliers.push(multipliers[i].inverse().unwrap());
            i += 1;
        }
        let mut functionals: Vec<Vec<F>> = Vec::new();
        let mut extension_multipliers: Vec<F> = Vec::new();
        let mut j: usize = 0;
        while j < code.functionals.len()
            invariant
                code.wf(),
                multipliers@ == code.multipliers_view(),
                total == multipliers@.len(),
                total == base_length + code.functionals@.len(),
                j <= code.functionals@.len(),
                vector_views(functionals@) == code.functionals_view().subrange(0, j as int),
                functionals@.len() == j,
                extension_multipliers@ == multipliers@.subrange(base_length as int, base_length + j),
                forall|q: int| 0 <= q < functionals@.len() ==> seq_wf(#[trigger] functionals@[q]@),
            decreases code.functionals@.len() - j,
        {
            let copied = copy_elements(code.functionals[j].as_slice());
            proof {
                assert(code.functionals_view()[j as int] == code.functionals@[j as int]@);
                assert(seq_wf(code.functionals_view()[j as int]));
            }
            let ghost old_functionals = functionals@;
            functionals.push(copied);
            extension_multipliers.push(multipliers[base_length + j]);
            proof {
                assert(functionals@ == old_functionals.push(copied));
                assert(vector_views(functionals@).len() == j + 1);
                assert(copied@ == code.functionals@[j as int]@);
                assert forall|q: int| 0 <= q < j + 1 implies vector_views(functionals@)[q] == code.functionals_view()[q] by {
                    assert(vector_views(functionals@)[q] == functionals@[q]@);
                    assert(code.functionals_view()[q] == code.functionals@[q]@);
                    if q < j {
                        assert(functionals@[q] == old_functionals[q]);
                        assert(vector_views(old_functionals)[q] == old_functionals[q]@);
                        assert(vector_views(old_functionals)[q] == code.functionals_view().subrange(0, j as int)[q]);
                    } else {
                        assert(functionals@[q] == copied);
                    }
                }
                assert(vector_views(functionals@) =~= code.functionals_view().subrange(0, j + 1));
                assert(extension_multipliers@ =~= multipliers@.subrange(base_length as int, base_length + j + 1));
            }
            j += 1;
        }
        proof {
            assert(vector_views(functionals@) =~= code.functionals_view());
            assert forall|q: int| 0 <= q < extension_multipliers@.len() implies (#[trigger] extension_multipliers@[q]).wf() by {
                assert(extension_multipliers@[q] == multipliers@[base_length + q]);
            }
        }
        ExtendedGrsDecoder {
            inverse_multipliers,
            functionals,
            extension_multipliers,
            dimension: code.dimension,
            length: total,
            target_radius,
            base_multipliers: Ghost(multipliers@.subrange(0, base_length as int)),
        }
    }

    /// The decoding radius this decoder was built for.
    pub fn target_radius(&self) -> (r: usize)
        ensures
            r == self.target_radius_view(),
    {
        self.target_radius
    }

    /// Message dimension `k`.
    pub fn dimension(&self) -> (r: usize)
        ensures
            r == self.dimension_view(),
    {
        self.dimension
    }

    /// Code length `n + e`.
    pub fn length(&self) -> (r: usize)
        ensures
            r == self.length_view(),
    {
        self.length
    }

    /// Check the received length and normalize its base part by the inverse
    /// base multipliers: the word the ambient decoder runs on.
    pub fn normalize(&self, received: &[F]) -> (r: Result<Vec<F>, Error>)
        requires
            self.wf(),
            seq_wf(received@),
        ensures
            r is Err <==> received@.len() != self.length_view(),
            r is Err ==> r == Err::<Vec<F>, Error>(
                Error::ReceivedLength { expected: self.length_view(), got: received@.len() as usize },
            ),
            r matches Ok(v) ==> v@.len() == self.base_length_view() && seq_wf(v@) && forall|i: int|
                0 <= i < v@.len() ==> #[trigger] v@[i] == received@[i].mul_spec(
                    self.base_multipliers_view()[i].inverse_spec().unwrap(),
                ),
    {
        if received.len() != self.length {
            return Err(Error::ReceivedLength { expected: self.length, got: received.len() });
        }
        let base_length = self.inverse_multipliers.len();
        let mut normalized: Vec<F> = Vec::with_capacity(base_length);
        let mut i: usize = 0;
        while i < base_length
            invariant
                self.wf(),
                seq_wf(received@),
                received@.len() == self.length_view(),
                base_length == self.base_length_view(),
                i <= base_length,
                normalized@.len() == i,
                seq_wf(normalized@),
                forall|j: int|
                    0 <= j < i ==> #[trigger] normalized@[j] == received@[j].mul_spec(
                        self.base_multipliers_view()[j].inverse_spec().unwrap(),
                    ),
            decreases base_length - i,
        {
            proof {
                assert(Some(self.inverse_multipliers@[i as int]) == self.base_multipliers@[i as int].inverse_spec());
            }
            normalized.push(received[i].mul(self.inverse_multipliers[i]));
            i += 1;
        }
        Ok(normalized)
    }

    /// The number of extension coordinates at which a candidate's re-encoded
    /// value disagrees with the received word.
    fn mismatches(&self, received: &[F], candidate: &Polynomial<F>) -> (r: usize)
        requires
            self.wf(),
            candidate.wf(),
            received@.len() == self.length_view(),
        ensures
            r == extension_mismatches(
                self.functionals_view(),
                self.extension_multipliers_view(),
                candidate@,
                received@,
                self.base_length_view(),
                self.functionals_view().len() as int,
            ),
    {
        let base_length = self.inverse_multipliers.len();
        let ghost fv = self.functionals_view();
        let mut count: usize = 0;
        let mut j: usize = 0;
        while j < self.functionals.len()
            invariant
                self.wf(),
                candidate.wf(),
                fv == self.functionals_view(),
                received@.len() == self.length_view(),
                base_length == self.base_length_view(),
                j <= fv.len(),
                count == extension_mismatches(
                    fv,
                    self.extension_multipliers_view(),
                    candidate@,
                    received@,
                    base_length as nat,
                    j as int,
                ),
                count <= j,
            decreases fv.len() - j,
        {
            let functional = self.functionals[j].as_slice();
            proof {
                assert(fv[j as int] == functional@);
            }
            let mut value = F::zero();
            let mut d: usize = 0;
            let ghost coefficients = Seq::new(functional@.len(), |q: int| coeff_at(candidate@, q));
            while d < functional.len()
                invariant
                    self.wf(),
                    candidate.wf(),
                    seq_wf(functional@),
                    coefficients == Seq::new(functional@.len(), |q: int| coeff_at(candidate@, q)),
                    d <= functional@.len(),
                    value == dot(functional@, coefficients, d as int),
                    value.wf(),
                decreases functional@.len() - d,
            {
                value = value.add(functional[d].mul(candidate.coefficient(d)));
                d += 1;
            }
            proof {
                assert(self.extension_multipliers@[j as int].wf());
            }
            let encoded = self.extension_multipliers[j].mul(value);
            if !encoded.equals(received[base_length + j]) {
                count += 1;
            }
            j += 1;
        }
        count
    }

    /// Keep every ambient candidate whose punctured distance plus extension
    /// mismatches stays within the radius, in order.
    ///
    /// `distances[i]` is the ambient decoder's distance of `candidates[i]` on
    /// the punctured base; the two lists are read in step.
    pub fn list_decode_into(
        &self,
        received: &[F],
        candidates: &[Polynomial<F>],
        distances: &[usize],
        output: &mut Vec<Polynomial<F>>,
    ) -> (r: Result<usize, Error>)
        requires
            self.wf(),
            forall|i: int| 0 <= i < candidates@.len() ==> (#[trigger] candidates@[i]).wf(),
            candidates@.len() == distances@.len(),
        ensures
            r is Err <==> received@.len() != self.length_view(),
            r is Err ==> r == Err::<usize, Error>(
                Error::ReceivedLength { expected: self.length_view(), got: received@.len() as usize },
            ) && final(output)@ == old(output)@,
            r matches Ok(count) ==> {
                &&& count == final(output)@.len()
                &&& views(final(output)@) == accepted_candidates(
                    self.functionals_view(),
                    self.extension_multipliers_view(),
                    views(candidates@),
                    distances@,
                    received@,
                    self.base_length_view(),
                    self.target_radius_view() as nat,
                    candidates@.len() as int,
                )
                &&& forall|i: int| 0 <= i < final(output)@.len() ==> (#[trigger] final(output)@[i]).wf()
            },
    {
        if received.len() != self.length {
            return Err(Error::ReceivedLength { expected: self.length, got: received.len() });
        }
        output.clear();
        let mut index: usize = 0;
        while index < candidates.len()
            invariant
                self.wf(),
                received@.len() == self.length_view(),
                forall|i: int| 0 <= i < candidates@.len() ==> (#[trigger] candidates@[i]).wf(),
                candidates@.len() == distances@.len(),
                index <= candidates@.len(),
                views(output@) == accepted_candidates(
                    self.functionals_view(),
                    self.extension_multipliers_view(),
                    views(candidates@),
                    distances@,
                    received@,
                    self.base_length_view(),
                    self.target_radius_view() as nat,
                    index as int,
                ),
                forall|i: int| 0 <= i < output@.len() ==> (#[trigger] output@[i]).wf(),
            decreases candidates@.len() - index,
        {
            let candidate = &candidates[index];
            proof {
                assert(views(candidates@)[index as int] == candidate@);
            }
            let mismatches = self.mismatches(received, candidate);
            let distance = distances[index];
            if mismatches <= self.target_radius && distance <= self.target_radius - mismatches {
                let ghost before = output@;
                output.push(candidate.clone());
                proof {
                    assert(views(output@) =~= views(before).push(candidate@));
                }
            }
            index += 1;
        }
        Ok(output.len())
    }

    /// Uniquely decode from the ambient candidates and their distances.
    pub fn unique_decode(
        &self,
        received: &[F],
        candidates: &[Polynomial<F>],
        distances: &[usize],
    ) -> (r: Result<UniqueDecode<F>, Error>)
        requires
            self.wf(),
            forall|i: int| 0 <= i < candidates@.len() ==> (#[trigger] candidates@[i]).wf(),
            candidates@.len() == distances@.len(),
        ensures
            r is Err <==> received@.len() != self.length_view(),
            r is Err ==> r == Err::<UniqueDecode<F>, Error>(
                Error::ReceivedLength { expected: self.length_view(), got: received@.len() as usize },
            ),
            r matches Ok(outcome) ==> ({
                let list = accepted_candidates(
                    self.functionals_view(),
                    self.extension_multipliers_view(),
                    views(candidates@),
                    distances@,
                    received@,
                    self.base_length_view(),
                    self.target_radius_view() as nat,
                    candidates@.len() as int,
                );
                &&& list.len() == 0 ==> outcome is NoCandidate
                &&& list.len() == 1 ==> (outcome matches UniqueDecode::Message(m) && m@ == list[0])
                &&& list.len() > 1 ==> outcome is Ambiguous
            }),
    {
        let mut filtered: Vec<Polynomial<F>> = Vec::new();
        match self.list_decode_into(received, candidates, distances, &mut filtered) {
            Ok(_) => {},
            Err(e) => {
                return Err(e);
            },
        }
        proof {
            if filtered@.len() == 1 {
                assert(views(filtered@)[0] == filtered@[0]@);
            }
        }
        Ok(UniqueDecode::from_list(filtered))
    }
}

} // verus!
