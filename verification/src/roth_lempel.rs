//! Roth–Lempel codes: a GRS code on `n-1` points with one exceptional
//! coordinate `v_n · (f_{k-2} + δ · f_{k-1})`.
use vstd::prelude::*;

use crate::domain::EvaluationDomain;
use crate::error::Error;
use crate::extend::{extended_error, vector_views, ExtendedGrsCode, ExtendedGrsDecoder};
use crate::field::Field;
use crate::polynomial::{seq_wf, Polynomial};
use crate::outcome::UniqueDecode;
use crate::validate::{find_zero, first_zero};

verus! {

/// The exceptional functional `e_{k-2} + δ · e_{k-1}`.
pub open spec fn roth_lempel_functional<F: Field>(dimension: nat, twist: F) -> Seq<F> {
    Seq::new(
        dimension,
        |d: int|
            if d == dimension - 2 {
                F::one_spec()
            } else if d == dimension - 1 {
                twist
            } else {
                F::zero_spec()
            },
    )
}

/// The first construction error: multiplier count `n + 1`, the minimum
/// dimension two, `k < n + 1`, then the first zero multiplier.
pub open spec fn roth_lempel_error<F: Field>(
    base_length: usize,
    multipliers: Seq<F>,
    dimension: usize,
) -> Option<Error> {
    let length = base_length + 1;
    if multipliers.len() != length {
        Some(Error::MultiplierCount { expected: length as usize, got: multipliers.len() as usize })
    } else if dimension < 2 {
        Some(Error::MinimumDimension { dimension, minimum: 2 })
    } else if dimension >= length {
        Some(Error::InvalidDimension { dimension, length: length as usize })
    } else if first_zero(multipliers) < multipliers.len() {
        Some(Error::ZeroMultiplier { index: first_zero(multipliers) as usize })
    } else {
        None
    }
}

/// A Roth–Lempel code over an `(n-1)`-point domain, with twist `δ`.
#[derive(Debug)]
pub struct RothLempelCode<F: Field> {
    inner: ExtendedGrsCode<F>,
    twist: F,
}

impl<F: Field> RothLempelCode<F> {
    pub closed spec fn inner_view(&self) -> ExtendedGrsCode<F> {
        self.inner
    }

    pub closed spec fn twist_view(&self) -> F {
        self.twist
    }

    pub open spec fn wf(&self) -> bool {
        &&& self.inner_view().wf()
        &&& self.twist_view().wf()
        &&& self.inner_view().dimension_view() >= 2
        &&& self.inner_view().functionals_view() == seq![
            roth_lempel_functional(self.inner_view().dimension_view() as nat, self.twist_view()),
        ]
    }

    /// Build a Roth–Lempel code.
    pub fn new(domain: EvaluationDomain<F>, multipliers: Vec<F>, dimension: usize, twist: F) -> (r:
        Result<Self, Error>)
        requires
            domain.wf(),
            seq_wf(multipliers@),
            twist.wf(),
            domain@.len() < usize::MAX,
        ensures
            r is Ok <==> roth_lempel_error(domain@.len() as usize, multipliers@, dimension) is None,
            r matches Err(e) ==> roth_lempel_error(domain@.len() as usize, multipliers@, dimension)
                == Some(e),
            r matches Ok(code) ==> {
                &&& code.wf()
                &&& code.inner_view().points_view() == domain@
                &&& code.inner_view().multipliers_view() == multipliers@
                &&& code.inner_view().dimension_view() == dimension
                &&& code.twist_view() == twist
            },
    {
        let length = domain.len() + 1;
        if multipliers.len() != length {
            return Err(Error::MultiplierCount { expected: length, got: multipliers.len() });
        }
        if dimension < 2 {
            return Err(Error::MinimumDimension { dimension, minimum: 2 });
        }
        if dimension >= length {
            return Err(Error::InvalidDimension { dimension, length });
        }
        let zero_index = find_zero(multipliers.as_slice());
        if zero_index < multipliers.len() {
            return Err(Error::ZeroMultiplier { index: zero_index });
        }
        let functional = roth_lempel_vector(dimension, twist);
        let mut functionals: Vec<Vec<F>> = Vec::new();
        functionals.push(functional);
        proof {
            assert(vector_views(functionals@) =~= seq![
                roth_lempel_functional::<F>(dimension as nat, twist),
            ]);
            let fv = vector_views(functionals@);
            reveal_with_fuel(crate::extend::first_bad_functional, 2);
            assert(fv[0].len() == dimension);
            assert(crate::extend::first_bad_functional(fv, dimension as nat, 0) == 1);
            assert(extended_error(domain@.len() as usize, multipliers@, dimension, fv) is None);
        }
        let inner = match ExtendedGrsCode::new(domain, multipliers, dimension, functionals) {
            Ok(inner) => inner,
            Err(e) => {
                return Err(e);
            },
        };
        Ok(RothLempelCode { inner, twist })
    }

    /// Code length `n`.
    pub fn length(&self) -> (r: usize)
        requires
            self.wf(),
        ensures
            r == self.inner_view().points_view().len() + 1,
    {
        self.inner.length()
    }

    /// Message dimension `k`.
    pub fn dimension(&self) -> (r: usize)
        ensures
            r == self.inner_view().dimension_view(),
    {
        self.inner.dimension()
    }

    /// The twist `δ`.
    pub fn twist(&self) -> (r: F)
        ensures
            r == self.twist_view(),
    {
        self.twist
    }

    /// The evaluation domain of the GRS part.
    pub fn domain(&self) -> (r: &EvaluationDomain<F>)
        ensures
            r@ == self.inner_view().points_view(),
    {
        self.inner.domain()
    }

    /// The column multipliers (GRS part, then the exceptional coordinate).
    pub fn multipliers(&self) -> (r: &[F])
        ensures
            r@ == self.inner_view().multipliers_view(),
    {
        self.inner.multipliers()
    }

    /// The underlying extended GRS code.
    pub fn extended(&self) -> (r: &ExtendedGrsCode<F>)
        ensures
            *r == self.inner_view(),
    {
        &self.inner
    }

    /// Encode a `k`-symbol message: the GRS evaluations followed by
    /// `v_n · (f_{k-2} + δ · f_{k-1})`.
    pub fn encode_into(&self, message: &[F], codeword: &mut [F]) -> (r: Result<(), Error>)
        requires
            self.wf(),
            seq_wf(message@),
        ensures
            message@.len() != self.inner_view().dimension_view() ==> r == Err::<(), Error>(
                Error::MessageLength {
                    expected: self.inner_view().dimension_view(),
                    got: message@.len() as usize,
                },
            ),
            message@.len() == self.inner_view().dimension_view() && old(codeword)@.len()
                != self.inner_view().points_view().len() + 1 ==> r == Err::<(), Error>(
                Error::CodewordLength {
                    expected: (self.inner_view().points_view().len() + 1) as usize,
                    got: old(codeword)@.len() as usize,
                },
            ),
            r is Err ==> final(codeword)@ == old(codeword)@,
            r is Ok <==> message@.len() == self.inner_view().dimension_view() && old(codeword)@.len()
                == self.inner_view().points_view().len() + 1,
            r is Ok ==> final(codeword)@ == self.inner_view().codeword_spec(message@),
    {
        self.inner.encode_into(message, codeword)
    }

    /// The unique-decoding radius `⌊(n - k)/2⌋`.
    pub fn unique_radius(&self) -> (r: usize)
        requires
            self.wf(),
        ensures
            r == (self.inner_view().points_view().len() + 1 - self.inner_view().dimension_view()) / 2,
    {
        self.inner.unique_radius()
    }
}

/// The vector `e_{k-2} + δ · e_{k-1}` of length `k >= 2`.
fn roth_lempel_vector<F: Field>(dimension: usize, twist: F) -> (r: Vec<F>)
    requires
        dimension >= 2,
        twist.wf(),
    ensures
        r@ == roth_lempel_functional(dimension as nat, twist),
        seq_wf(r@),
{
    proof {
        F::lemma_closure(twist, twist);
    }
    let mut functional: Vec<F> = Vec::with_capacity(dimension);
    let mut d: usize = 0;
    while d < dimension
        invariant
            F::field_valid(),
            twist.wf(),
            dimension >= 2,
            d <= dimension,
            functional@.len() == d,
            forall|q: int|
                0 <= q < d ==> #[trigger] functional@[q] == (if q == dimension - 2 {
                    F::one_spec()
                } else if q == dimension - 1 {
                    twist
                } else {
                    F::zero_spec()
                }),
            seq_wf(functional@),
        decreases dimension - d,
    {
        if d == dimension - 2 {
            functional.push(F::one());
        } else if d == dimension - 1 {
            functional.push(twist);
        } else {
            functional.push(F::zero());
        }
        d += 1;
    }
    assert(functional@ =~= roth_lempel_functional(dimension as nat, twist));
    functional
}

/// The Roth–Lempel decoder: the extended decoder of the underlying code.
pub struct RothLempelDecoder<F: Field> {
    inner: ExtendedGrsDecoder<F>,
}

impl<F: Field> RothLempelDecoder<F> {
    pub closed spec fn inner_view(&self) -> ExtendedGrsDecoder<F> {
        self.inner
    }

    /// Build the decoder data for a code and a decoding radius.
    pub fn new(code: &RothLempelCode<F>, target_radius: usize) -> (r: Self)
        requires
            code.wf(),
        ensures
            r.inner_view().wf(),
            r.inner_view().functionals_view() == code.inner_view().functionals_view(),
            r.inner_view().base_multipliers_view() == code.inner_view().multipliers_view().subrange(
                0,
                code.inner_view().points_view().len() as int,
            ),
            r.inner_view().extension_multipliers_view() == code.inner_view().multipliers_view().subrange(
                code.inner_view().points_view().len() as int,
                code.inner_view().multipliers_view().len() as int,
            ),
            r.inner_view().dimension_view() == code.inner_view().dimension_view(),
            r.inner_view().length_view() == code.inner_view().points_view().len()
                + code.inner_view().functionals_view().len(),
            r.inner_view().target_radius_view() == target_radius,
    {
        RothLempelDecoder { inner: ExtendedGrsDecoder::new(&code.inner, target_radius) }
    }

    /// The decoding radius this decoder was built for.
    pub fn target_radius(&self) -> (r: usize)
        ensures
            r == self.inner_view().target_radius_view(),
    {
        self.inner.target_radius()
    }

    /// Message dimension `k`.
    pub fn dimension(&self) -> (r: usize)
        ensures
            r == self.inner_view().dimension_view(),
    {
        self.inner.dimension()
    }

    /// Code length `n`.
    pub fn length(&self) -> (r: usize)
        ensures
            r == self.inner_view().length_view(),
    {
        self.inner.length()
    }

    /// The underlying extended decoder (normalization, re-encode filter).
    pub fn extended(&self) -> (r: &ExtendedGrsDecoder<F>)
        ensures
            *r == self.inner_view(),
    {
        &self.inner
    }

    /// Keep the candidates whose distance on the whole word stays within the
    /// radius (see [`ExtendedGrsDecoder::list_decode_into`]).
    pub fn list_decode_into(
        &self,
        received: &[F],
        candidates: &[Polynomial<F>],
        distances: &[usize],
        output: &mut Vec<Polynomial<F>>,
    ) -> (r: Result<usize, Error>)
        requires
            self.inner_view().wf(),
            forall|i: int| 0 <= i < candidates@.len() ==> (#[trigger] candidates@[i]).wf(),
            candidates@.len() == distances@.len(),
        ensures
            r is Err <==> received@.len() != self.inner_view().length_view(),
            r is Err ==> r == Err::<usize, Error>(
                Error::ReceivedLength { expected: self.inner_view().length_view(), got: received@.len() as usize },
            ) && final(output)@ == old(output)@,
            r matches Ok(count) ==> {
                &&& count == final(output)@.len()
                &&& crate::decode::views(final(output)@) == crate::extend::accepted_candidates(
                    self.inner_view().functionals_view(),
                    self.inner_view().extension_multipliers_view(),
                    crate::decode::views(candidates@),
                    distances@,
                    received@,
                    self.inner_view().base_length_view(),
                    self.inner_view().target_radius_view() as nat,
                    candidates@.len() as int,
                )
            },
    {
        self.inner.list_decode_into(received, candidates, distances, output)
    }

    /// Uniquely decode from the ambient candidates and their distances.
    pub fn unique_decode(
        &self,
        received: &[F],
        candidates: &[Polynomial<F>],
        distances: &[usize],
    ) -> (r: Result<UniqueDecode<F>, Error>)
        requires
            self.inner_view().wf(),
            forall|i: int| 0 <= i < candidates@.len() ==> (#[trigger] candidates@[i]).wf(),
            candidates@.len() == distances@.len(),
        ensures
            r is Err <==> received@.len() != self.inner_view().length_view(),
            r is Err ==> r == Err::<UniqueDecode<F>, Error>(
                Error::ReceivedLength { expected: self.inner_view().length_view(), got: received@.len() as usize },
            ),
            r matches Ok(outcome) ==> ({
                let list = crate::extend::accepted_candidates(
                    self.inner_view().functionals_view(),
                    self.inner_view().extension_multipliers_view(),
                    crate::decode::views(candidates@),
                    distances@,
                    received@,
                    self.inner_view().base_length_view(),
                    self.inner_view().target_radius_view() as nat,
                    candidates@.len() as int,
                );
                &&& list.len() == 0 ==> outcome is NoCandidate
                &&& list.len() == 1 ==> (outcome matches UniqueDecode::Message(m) && m@ == list[0])
                &&& list.len() > 1 ==> outcome is Ambiguous
            }),
    {
        self.inner.unique_decode(received, candidates, distances)
    }
}

} // verus!
