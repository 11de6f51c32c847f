//! The twisted GRS decoder's own logic: received-word normalization, the
//! twist-constraint table, and the coefficient filter applied to the ambient
//! Guruswami–Sudan candidates.
use vstd::prelude::*;

use crate::code::{max_offset, pseudo_dimension_spec, tgrs_error, twist_error, twists_wf, TgrsCode};
use crate::error::Error;
use crate::field::Field;
use crate::outcome::UniqueDecode;
use crate::polynomial::{coeff_at, seq_wf, trim, Polynomial};
use crate::twist::Twist;
use crate::validate::{all_nonzero, base_error, lemma_first_zero};

verus! {

/// One twist contribution grouped by its destination degree.
#[derive(Clone, Copy, Debug)]
pub struct HookTerm<F: Field> {
    /// The message coefficient the term copies.
    pub hook: usize,
    /// The twist coefficient `η`.
    pub coefficient: F,
}

/// The hook terms of the first `m` twists whose destination slot
/// (`offset - 1`) is `slot`, in twist order.
pub open spec fn grouped<F: Field>(twists: Seq<Twist<F>>, slot: int, m: int) -> Seq<HookTerm<F>>
    decreases m,
{
    if m <= 0 {
        Seq::empty()
    } else {
        let previous = grouped(twists, slot, m - 1);
        let t = twists[m - 1];
        if t.offset - 1 == slot {
            previous.push(HookTerm { hook: t.hook, coefficient: t.coefficient })
        } else {
            previous
        }
    }
}

/// The number of the first `m` twists whose slot is below `slot`.
pub open spec fn count_below<F: Field>(twists: Seq<Twist<F>>, slot: int, m: int) -> nat
    decreases m,
{
    if m <= 0 {
        0
    } else if twists[m - 1].offset - 1 < slot {
        count_below(twists, slot, m - 1) + 1
    } else {
        count_below(twists, slot, m - 1)
    }
}

/// `Σ η · c[h]` over the terms, accumulated in order.
pub open spec fn constraint_sum<F: Field>(terms: Seq<HookTerm<F>>, candidate: Seq<F>) -> F
    decreases terms.len(),
{
    if terms.len() == 0 {
        F::zero_spec()
    } else {
        constraint_sum(terms.drop_last(), candidate).add_spec(
            terms.last().coefficient.mul_spec(coeff_at(candidate, terms.last().hook as int)),
        )
    }
}

/// The candidate's coefficient at every twisted degree `k + j` equals the
/// sum of `η · f_h` over the twists landing there.
pub open spec fn satisfies_twists_spec<F: Field>(
    candidate: Seq<F>,
    dimension: nat,
    destinations: nat,
    twists: Seq<Twist<F>>,
) -> bool {
    forall|j: int|
        0 <= j < destinations ==> #[trigger] coeff_at(candidate, dimension + j) == constraint_sum(
            grouped(twists, j, twists.len() as int),
            candidate,
        )
}

/// The message polynomial of a candidate: its coefficients below `k`.
pub open spec fn low_part<F: Field>(candidate: Seq<F>, dimension: nat) -> Seq<F> {
    trim(Seq::new(dimension, |d: int| coeff_at(candidate, d)))
}

/// The messages of the first `m` candidates that pass the twist filter.
pub open spec fn accepted_messages<F: Field>(
    candidates: Seq<Seq<F>>,
    dimension: nat,
    destinations: nat,
    twists: Seq<Twist<F>>,
    m: int,
) -> Seq<Seq<F>>
    decreases m,
{
    if m <= 0 {
        Seq::empty()
    } else {
        let previous = accepted_messages(candidates, dimension, destinations, twists, m - 1);
        if satisfies_twists_spec(candidates[m - 1], dimension, destinations, twists) {
            previous.push(low_part(candidates[m - 1], dimension))
        } else {
            previous
        }
    }
}

/// The views of a list of polynomials.
pub open spec fn views<F: Field>(list: Seq<Polynomial<F>>) -> Seq<Seq<F>> {
    list.map_values(|p: Polynomial<F>| p@)
}

proof fn lemma_grouped_len<F: Field>(twists: Seq<Twist<F>>, slot: int, m: int, m2: int)
    requires
        0 <= m <= m2 <= twists.len(),
    ensures
        grouped(twists, slot, m).len() <= grouped(twists, slot, m2).len(),
        grouped(twists, slot, m2).len() <= m2,
    decreases m2,
{
    if m2 > 0 {
        if m < m2 {
            lemma_grouped_len(twists, slot, m, m2 - 1);
        } else {
            lemma_grouped_len(twists, slot, m2 - 1, m2 - 1);
        }
    }
}

proof fn lemma_grouped_prefix<F: Field>(twists: Seq<Twist<F>>, slot: int, m: int, m2: int)
    requires
        0 <= m <= m2 <= twists.len(),
    ensures
        grouped(twists, slot, m2).subrange(0, grouped(twists, slot, m).len() as int) == grouped(
            twists,
            slot,
            m,
        ),
    decreases m2,
{
    lemma_grouped_len(twists, slot, m, m2);
    if m < m2 {
        lemma_grouped_prefix(twists, slot, m, m2 - 1);
        lemma_grouped_len(twists, slot, m, m2 - 1);
        assert(grouped(twists, slot, m2).subrange(0, grouped(twists, slot, m).len() as int)
            =~= grouped(twists, slot, m2 - 1).subrange(0, grouped(twists, slot, m).len() as int));
    } else {
        assert(grouped(twists, slot, m2).subrange(0, grouped(twists, slot, m).len() as int)
            =~= grouped(twists, slot, m));
    }
}

proof fn lemma_count_split<F: Field>(twists: Seq<Twist<F>>, slot: int, m: int)
    requires
        0 <= m <= twists.len(),
    ensures
        count_below(twists, slot + 1, m) == count_below(twists, slot, m) + grouped(
            twists,
            slot,
            m,
        ).len(),
        count_below(twists, slot, m) <= m,
    decreases m,
{
    if m > 0 {
        lemma_count_split(twists, slot, m - 1);
    }
}

proof fn lemma_count_zero<F: Field>(twists: Seq<Twist<F>>, m: int)
    requires
        0 <= m <= twists.len(),
        forall|q: int| 0 <= q < m ==> (#[trigger] twists[q]).offset >= 1,
    ensures
        count_below(twists, 0, m) == 0,
    decreases m,
{
    if m > 0 {
        lemma_count_zero(twists, m - 1);
    }
}

proof fn lemma_count_monotone<F: Field>(twists: Seq<Twist<F>>, a: int, b: int, m: int)
    requires
        0 <= m <= twists.len(),
        a <= b,
    ensures
        count_below(twists, a, m) <= count_below(twists, b, m),
    decreases m,
{
    if m > 0 {
        lemma_count_monotone(twists, a, b, m - 1);
    }
}

/// A validated twisted GRS decoder bound to one decoding radius.
///
/// Holds the inverse column multipliers and the twist constraints needed to
/// normalize a received word and filter ambient candidates. The constraints
/// are stored in flat compressed-row form:
/// `constraint_terms[constraint_offsets[j]..constraint_offsets[j + 1]]` are the
/// hook terms whose destination degree is `k + j`.
pub struct TgrsDecoder<F: Field> {
    inverse_multipliers: Vec<F>,
    dimension: usize,
    pseudo_dimension: usize,
    constraint_offsets: Vec<usize>,
    constraint_terms: Vec<HookTerm<F>>,
    target_radius: usize,
    twists: Ghost<Seq<Twist<F>>>,
    multipliers: Ghost<Seq<F>>,
}

impl<F: Field> TgrsDecoder<F> {
    pub closed spec fn twists_view(&self) -> Seq<Twist<F>> {
        self.twists@
    }

    pub closed spec fn multipliers_view(&self) -> Seq<F> {
        self.multipliers@
    }

    pub closed spec fn dimension_view(&self) -> usize {
        self.dimension
    }

    pub closed spec fn pseudo_dimension_view(&self) -> usize {
        self.pseudo_dimension
    }

    pub closed spec fn target_radius_view(&self) -> usize {
        self.target_radius
    }

    /// The number of twisted degrees `k' - k`.
    pub open spec fn destinations(&self) -> nat {
        (self.pseudo_dimension_view() - self.dimension_view()) as nat
    }

    /// The tables agree with the code the decoder was built from.
    pub closed spec fn wf(&self) -> bool {
        let twists = self.twists@;
        let d = self.destinations() as int;
        &&& F::field_valid()
        &&& self.dimension <= self.pseudo_dimension
        &&& twists_wf(twists)
        &&& self.inverse_multipliers@.len() == self.multipliers@.len()
        &&& seq_wf(self.inverse_multipliers@)
        &&& forall|i: int|
            0 <= i < self.multipliers@.len() ==> Some(#[trigger] self.inverse_multipliers@[i])
                == self.multipliers@[i].inverse_spec()
        &&& self.constraint_offsets@.len() == d + 1
        &&& forall|j: int|
            0 <= j <= d ==> #[trigger] self.constraint_offsets@[j] == count_below(
                twists,
                j,
                twists.len() as int,
            )
        &&& self.constraint_terms@.len() == count_below(twists, d, twists.len() as int)
        &&& forall|j: int|
            0 <= j < d ==> #[trigger] self.constraint_terms@.subrange(
                self.constraint_offsets@[j] as int,
                self.constraint_offsets@[j + 1] as int,
            ) == grouped(twists, j, twists.len() as int)
    }

    /// Build the decoder tables for a code and a decoding radius.
    pub fn new(code: &TgrsCode<F>, target_radius: usize) -> (r: Self)
        requires
            code.wf(),
        ensures
            r.wf(),
            r.twists_view() == code.twists_view(),
            r.multipliers_view() == code.multipliers_view(),
            r.dimension_view() == code.dimension_view(),
            r.pseudo_dimension_view() == code.pseudo_dimension_view(),
            r.target_radius_view() == target_radius,
    {
        let ghost twists = code.twists_view();
        let ghost t = twists.len() as int;
        let length = code.length();
        let multipliers = code.multipliers();
        let dimension = code.dimension();
        let pseudo_dimension = code.pseudo_dimension();
        proof {
            lemma_first_zero(multipliers@, 0);
            crate::code::lemma_twists_valid(twists, dimension, length, 0);
            crate::code::lemma_max_offset(twists, t);
        }
        let mut inverse_multipliers: Vec<F> = Vec::with_capacity(length);
        let mut i: usize = 0;
        while i < length
            invariant
                code.wf(),
                multipliers@ == code.multipliers_view(),
                length == multipliers@.len(),
                all_nonzero(multipliers@),
                i <= length,
                inverse_multipliers@.len() == i,
                seq_wf(inverse_multipliers@),
                forall|j: int|
                    0 <= j < i ==> Some(#[trigger] inverse_multipliers@[j])
                        == multipliers@[j].inverse_spec(),
            decreases length - i,
        {
            proof {
                assert(multipliers@[i as int].wf());
                assert(multipliers@[i as int] != F::zero_spec());
            }
            let inverse = multipliers[i].inverse().unwrap();
            inverse_multipliers.push(inverse);
            i += 1;
        }
        let code_twists = code.twists();
        let twist_count = code_twists.len();
        proof {
            assert(t == twist_count);
            assert forall|q: int| 0 <= q < t implies (#[trigger] twists[q]).offset >= 1 by {
                assert(twist_error(twists[q], q as usize, dimension, length) is None);
            }
            lemma_count_zero(twists, t);
        }
        let destinations = pseudo_dimension - dimension;
        let mut counts: Vec<usize> = Vec::with_capacity(destinations);
        while counts.len() < destinations
            invariant
                counts@.len() <= destinations,
                forall|j: int| 0 <= j < counts@.len() ==> #[trigger] counts@[j] == 0,
            decreases destinations - counts@.len(),
        {
            counts.push(0);
        }
        let mut index: usize = 0;
        while index < code_twists.len()
            invariant
                code.wf(),
                twists == code_twists@,
                t == twists.len(),
                dimension == code.dimension_view(),
                pseudo_dimension == code.pseudo_dimension_view(),
                destinations == pseudo_dimension - dimension,
                pseudo_dimension == dimension + max_offset(twists, t),
                forall|j: int| 0 <= j < t ==> twist_error(#[trigger] twists[j], j as usize, dimension, length) is None,
                forall|j: int| 0 <= j < t ==> (#[trigger] twists[j]).offset <= max_offset(twists, t),
                index <= t,
                counts@.len() == destinations,
                forall|j: int|
                    0 <= j < destinations ==> #[trigger] counts@[j] == grouped(twists, j, index as int).len(),
            decreases t - index,
        {
            let slot = code_twists[index].offset - 1;
            proof {
                assert(twist_error(twists[index as int], index as usize, dimension, length) is None);
                lemma_grouped_len(twists, slot as int, index as int, index as int);
            }
            let bumped = counts[slot] + 1;
            counts.set(slot, bumped);
            index += 1;
        }
        let mut constraint_offsets: Vec<usize> = Vec::with_capacity(destinations + 1);
        constraint_offsets.push(0);
        let mut j: usize = 0;
        while j < destinations
            invariant
                twists == code_twists@,
                t == twists.len(),
                t <= usize::MAX,
                counts@.len() == destinations,
                forall|s: int|
                    0 <= s < destinations ==> #[trigger] counts@[s] == grouped(twists, s, t).len(),
                j <= destinations,
                constraint_offsets@.len() == j + 1,
                forall|s: int|
                    0 <= s <= j ==> #[trigger] constraint_offsets@[s] == count_below(twists, s, t),
            decreases destinations - j,
        {
            proof {
                lemma_count_split(twists, j as int, t);
                lemma_count_split(twists, j as int + 1, t);
                assert(count_below(twists, j as int + 1, t) <= t);
            }
            let next = constraint_offsets[j] + counts[j];
            constraint_offsets.push(next);
            j += 1;
        }
        let total = constraint_offsets[destinations];
        let mut fill: Vec<usize> = Vec::with_capacity(destinations);
        let mut s: usize = 0;
        while s < destinations
            invariant
                s <= destinations,
                constraint_offsets@.len() == destinations + 1,
                fill@.len() == s,
                forall|q: int| 0 <= q < s ==> #[trigger] fill@[q] == constraint_offsets@[q],
            decreases destinations - s,
        {
            fill.push(constraint_offsets[s]);
            s += 1;
        }
        proof {
            assert forall|q: int| 0 <= q <= destinations implies #[trigger] constraint_offsets@[q] <= total by {
                lemma_count_monotone(twists, q, destinations as int, t);
            }
        }
        let blank = HookTerm { hook: 0, coefficient: F::zero() };
        let mut constraint_terms: Vec<HookTerm<F>> = Vec::with_capacity(total);
        while constraint_terms.len() < total
            invariant
                constraint_terms@.len() <= total,
            decreases total - constraint_terms@.len(),
        {
            constraint_terms.push(blank);
        }
        let mut index: usize = 0;
        while index < code_twists.len()
            invariant
                code.wf(),
                twists == code_twists@,
                t == twists.len(),
                twists_wf(twists),
                dimension == code.dimension_view(),
                pseudo_dimension == code.pseudo_dimension_view(),
                destinations == pseudo_dimension - dimension,
                pseudo_dimension == dimension + max_offset(twists, t),
                forall|q: int| 0 <= q < t ==> twist_error(#[trigger] twists[q], q as usize, dimension, length) is None,
                forall|q: int| 0 <= q < t ==> (#[trigger] twists[q]).offset <= max_offset(twists, t),
                index <= t,
                constraint_offsets@.len() == destinations + 1,
                forall|q: int|
                    0 <= q <= destinations ==> #[trigger] constraint_offsets@[q] == count_below(twists, q, t),
                forall|q: int| 0 <= q <= destinations ==> #[trigger] constraint_offsets@[q] <= total,
                total == constraint_offsets@[destinations as int],
                constraint_terms@.len() == total,
                fill@.len() == destinations,
                forall|q: int|
                    0 <= q < destinations ==> #[trigger] fill@[q] == constraint_offsets@[q] + grouped(
                        twists,
                        q,
                        index as int,
                    ).len(),
                forall|q: int|
                    0 <= q < destinations ==> #[trigger] constraint_terms@.subrange(
                        constraint_offsets@[q] as int,
                        fill@[q] as int,
                    ) == grouped(twists, q, index as int),
            decreases t - index,
        {
            let twist = code_twists[index];
            let slot = twist.offset - 1;
            let ghost before = constraint_terms@;
            proof {
                assert(twist_error(twists[index as int], index as usize, dimension, length) is None);
                lemma_count_split(twists, slot as int, t);
                lemma_grouped_len(twists, slot as int, index as int + 1, t);
                lemma_count_monotone(twists, slot as int + 1, destinations as int, t);
            }
            let position = fill[slot];
            constraint_terms.set(position, HookTerm { hook: twist.hook, coefficient: twist.coefficient });
            fill.set(slot, position + 1);
            proof {
                assert forall|q: int| 0 <= q < destinations implies #[trigger] constraint_terms@.subrange(
                    constraint_offsets@[q] as int,
                    fill@[q] as int,
                ) == grouped(twists, q, index as int + 1) by {
                    lemma_grouped_len(twists, q, index as int, t);
                    lemma_count_split(twists, q, t);
                    if q == slot {
                        assert(constraint_terms@.subrange(
                            constraint_offsets@[q] as int,
                            fill@[q] as int,
                        ) =~= before.subrange(
                            constraint_offsets@[q] as int,
                            position as int,
                        ).push(HookTerm { hook: twist.hook, coefficient: twist.coefficient }));
                    } else {
                        if q < slot {
                            lemma_count_monotone(twists, q + 1, slot as int, t);
                        } else {
                            lemma_count_monotone(twists, slot as int + 1, q, t);
                        }
                        assert(position < constraint_offsets@[q] || position >= fill@[q]);
                        assert(constraint_offsets@[q + 1] <= total);
                        assert(fill@[q] <= constraint_offsets@[q + 1]);
                        assert(constraint_terms@.subrange(
                            constraint_offsets@[q] as int,
                            fill@[q] as int,
                        ) =~= before.subrange(constraint_offsets@[q] as int, fill@[q] as int));
                    }
                }
            }
            index += 1;
        }
        proof {
            assert forall|q: int| 0 <= q < destinations implies #[trigger] constraint_terms@.subrange(
                constraint_offsets@[q] as int,
                constraint_offsets@[q + 1] as int,
            ) == grouped(twists, q, t) by {
                lemma_count_split(twists, q, t);
                assert(fill@[q] == constraint_offsets@[q + 1]);
            }
        }
        TgrsDecoder {
            inverse_multipliers,
            dimension,
            pseudo_dimension,
            constraint_offsets,
            constraint_terms,
            target_radius,
            twists: Ghost(twists),
            multipliers: Ghost(multipliers@),
        }
    }

    /// The decoding radius this decoder was built for.
    pub fn target_radius(&self) -> (r: usize)
        ensures
            r == self.target_radius_view(),
    {
        self.target_radius
    }

    /// Message dimension `k`.
    pub fn dimension(&self) -> (r: usize)
        ensures
            r == self.dimension_view(),
    {
        self.dimension
    }

    /// Pseudo-dimension `k'` of the ambient GRS code.
    pub fn pseudo_dimension(&self) -> (r: usize)
        ensures
            r == self.pseudo_dimension_view(),
    {
        self.pseudo_dimension
    }

    /// Code length `n`.
    pub fn length(&self) -> (r: usize)
        requires
            self.wf(),
        ensures
            r == self.multipliers_view().len(),
    {
        self.inverse_multipliers.len()
    }

    /// Normalize a received word by the inverse column multipliers: the word
    /// the ambient GRS decoder runs on.
    pub fn normalize(&self, received: &[F]) -> (r: Result<Vec<F>, Error>)
        requires
            self.wf(),
            seq_wf(received@),
        ensures
            r is Err <==> received@.len() != self.multipliers_view().len(),
            r is Err ==> r == Err::<Vec<F>, Error>(
                Error::ReceivedLength {
                    expected: self.multipliers_view().len() as usize,
                    got: received@.len() as usize,
                },
            ),
            r matches Ok(v) ==> v@.len() == received@.len() && seq_wf(v@) && forall|i: int|
                0 <= i < v@.len() ==> #[trigger] v@[i] == received@[i].mul_spec(
                    self.multipliers_view()[i].inverse_spec().unwrap(),
                ),
    {
        let length = self.inverse_multipliers.len();
        if received.len() != length {
            return Err(Error::ReceivedLength { expected: length, got: received.len() });
        }
        let mut normalized: Vec<F> = Vec::with_capacity(length);
        let mut i: usize = 0;
        while i < length
            invariant
                self.wf(),
                seq_wf(received@),
                length == received@.len(),
                length == self.inverse_multipliers@.len(),
                i <= length,
                normalized@.len() == i,
                seq_wf(normalized@),
                forall|j: int|
                    0 <= j < i ==> #[trigger] normalized@[j] == received@[j].mul_spec(
                        self.multipliers_view()[j].inverse_spec().unwrap(),
                    ),
            decreases length - i,
        {
            proof {
                assert(Some(self.inverse_multipliers@[i as int]) == self.multipliers_view()[i as int].inverse_spec());
            }
            normalized.push(received[i].mul(self.inverse_multipliers[i]));
            i += 1;
        }
        Ok(normalized)
    }

    /// Whether an ambient candidate obeys every twist coefficient constraint.
    pub fn satisfies_twists(&self, candidate: &Polynomial<F>) -> (b: bool)
        requires
            self.wf(),
            candidate.wf(),
        ensures
            b == satisfies_twists_spec(
                candidate@,
                self.dimension_view() as nat,
                self.destinations(),
                self.twists_view(),
            ),
    {
        let ghost twists = self.twists@;
        let ghost t = twists.len() as int;
        let destinations = self.constraint_offsets.len() - 1;
        let mut j: usize = 0;
        while j < destinations
            invariant
                self.wf(),
                candidate.wf(),
                twists == self.twists@,
                t == twists.len(),
                destinations == self.destinations(),
                j <= destinations,
                forall|q: int|
                    0 <= q < j ==> #[trigger] coeff_at(candidate@, self.dimension + q)
                        == constraint_sum(grouped(twists, q, t), candidate@),
            decreases destinations - j,
        {
            let start = self.constraint_offsets[j];
            let end = self.constraint_offsets[j + 1];
            let ghost segment = self.constraint_terms@.subrange(start as int, end as int);
            proof {
                assert(segment == grouped(twists, j as int, t));
                lemma_count_monotone(twists, j as int, j as int + 1, t);
                lemma_count_monotone(twists, j as int + 1, destinations as int, t);
            }
            let mut required = F::zero();
            let mut position = start;
            while position < end
                invariant
                    self.wf(),
                    candidate.wf(),
                    twists == self.twists@,
                    start <= position <= end,
                    end <= self.constraint_terms@.len(),
                    segment == self.constraint_terms@.subrange(start as int, end as int),
                    twists_wf(twists),
                    t == twists.len(),
                    segment == grouped(twists, j as int, t),
                    required == constraint_sum(segment.subrange(0, position - start), candidate@),
                    required.wf(),
                decreases end - position,
            {
                let term = self.constraint_terms[position];
                proof {
                    lemma_grouped_wf(twists, j as int, t);
                    assert(segment[position - start] == term);
                    assert(segment.subrange(0, position - start + 1).drop_last() =~= segment.subrange(
                        0,
                        position - start,
                    ));
                }
                let value = candidate.coefficient(term.hook);
                required = required.add(term.coefficient.mul(value));
                position += 1;
            }
            proof {
                assert(segment.subrange(0, end - start) =~= segment);
            }
            if !candidate.coefficient(self.dimension + j).equals(required) {
                return false;
            }
            j += 1;
        }
        true
    }

    /// Filter the ambient candidates by the twist constraints, writing the
    /// degree-`< k` message of every candidate that passes, in order, into
    /// `output`. Returns the number of messages.
    pub fn list_decode_into(
        &self,
        ambient: &[Polynomial<F>],
        output: &mut Vec<Polynomial<F>>,
    ) -> (count: usize)
        requires
            self.wf(),
            forall|i: int| 0 <= i < ambient@.len() ==> (#[trigger] ambient@[i]).wf(),
        ensures
            views(final(output)@) == accepted_messages(
                views(ambient@),
                self.dimension_view() as nat,
                self.destinations(),
                self.twists_view(),
                ambient@.len() as int,
            ),
            count == final(output)@.len(),
            forall|i: int| 0 <= i < final(output)@.len() ==> (#[trigger] final(output)@[i]).wf(),
    {
        output.clear();
        let mut index: usize = 0;
        while index < ambient.len()
            invariant
                self.wf(),
                forall|i: int| 0 <= i < ambient@.len() ==> (#[trigger] ambient@[i]).wf(),
                index <= ambient@.len(),
                views(output@) == accepted_messages(
                    views(ambient@),
                    self.dimension_view() as nat,
                    self.destinations(),
                    self.twists_view(),
                    index as int,
                ),
                forall|i: int| 0 <= i < output@.len() ==> (#[trigger] output@[i]).wf(),
            decreases ambient@.len() - index,
        {
            let candidate = &ambient[index];
            proof {
                assert(views(ambient@)[index as int] == candidate@);
            }
            if self.satisfies_twists(candidate) {
                let message = low_degree_part(candidate, self.dimension);
                let ghost before = output@;
                output.push(message);
                proof {
                    assert(views(output@) =~= views(before).push(message@));
                }
            }
            index += 1;
        }
        output.len()
    }

    /// Uniquely decode from the ambient candidates: the filtered list
    /// classified as empty, a single message, or ambiguous.
    pub fn unique_decode(&self, ambient: &[Polynomial<F>]) -> (r: UniqueDecode<F>)
        requires
            self.wf(),
            forall|i: int| 0 <= i < ambient@.len() ==> (#[trigger] ambient@[i]).wf(),
        ensures
            ({
                let list = accepted_messages(
                    views(ambient@),
                    self.dimension_view() as nat,
                    self.destinations(),
                    self.twists_view(),
                    ambient@.len() as int,
                );
                &&& list.len() == 0 ==> r is NoCandidate
                &&& list.len() == 1 ==> (r matches UniqueDecode::Message(m) && m@ == list[0])
                &&& list.len() > 1 ==> r is Ambiguous
            }),
    {
        let mut filtered: Vec<Polynomial<F>> = Vec::new();
        self.list_decode_into(ambient, &mut filtered);
        proof {
            if filtered@.len() == 1 {
                assert(views(filtered@)[0] == filtered@[0]@);
            }
        }
        UniqueDecode::from_list(filtered)
    }
}

proof fn lemma_grouped_wf<F: Field>(twists: Seq<Twist<F>>, slot: int, m: int)
    requires
        twists_wf(twists),
        0 <= m <= twists.len(),
    ensures
        forall|i: int|
            0 <= i < grouped(twists, slot, m).len() ==> (#[trigger] grouped(twists, slot, m)[i]).coefficient.wf(),
    decreases m,
{
    if m > 0 {
        lemma_grouped_wf(twists, slot, m - 1);
        assert(twists[m - 1].coefficient.wf());
        let previous = grouped(twists, slot, m - 1);
        assert forall|i: int|
            0 <= i < grouped(twists, slot, m).len() implies (#[trigger] grouped(twists, slot, m)[i]).coefficient.wf() by {
            if i < previous.len() {
                assert(grouped(twists, slot, m)[i] == previous[i]);
            }
        }
    }
}

/// The coefficients of `candidate` below `dimension`, as a canonical
/// polynomial.
pub fn low_degree_part<F: Field>(candidate: &Polynomial<F>, dimension: usize) -> (r: Polynomial<F>)
    requires
        candidate.wf(),
    ensures
        r.wf(),
        r@ == low_part(candidate@, dimension as nat),
{
    let mut message: Vec<F> = Vec::with_capacity(dimension);
    let mut degree: usize = 0;
    while degree < dimension
        invariant
            candidate.wf(),
            degree <= dimension,
            message@.len() == degree,
            seq_wf(message@),
            forall|d: int| 0 <= d < degree ==> #[trigger] message@[d] == coeff_at(candidate@, d),
        decreases dimension - degree,
    {
        message.push(candidate.coefficient(degree));
        degree += 1;
    }
    proof {
        assert(message@ =~= Seq::new(dimension as nat, |d: int| coeff_at(candidate@, d)));
    }
    Polynomial::from_coefficients(message)
}

} // verus!
