//! Exhaustive enumeration of bounded-degree polynomials and the Hamming
//! distance, the two primitives of the brute-force reference decoders.
use vstd::prelude::*;

use crate::field::Field;
use crate::polynomial::{Polynomial, lemma_trim, seq_wf, trim};

verus! {

/// Every coefficient vector of length `d` over `elements`, in lexicographic
/// order with coefficient `0` varying slowest.
pub open spec fn all_vectors<F>(elements: Seq<F>, d: nat) -> Seq<Seq<F>>
    decreases d, 1nat, 0nat,
{
    if d == 0 {
        seq![Seq::empty()]
    } else {
        vectors_from(elements, d, elements.len())
    }
}

/// The vectors of length `d` whose first coordinate is one of
/// `elements[0..upto]`, in order.
pub open spec fn vectors_from<F>(elements: Seq<F>, d: nat, upto: nat) -> Seq<Seq<F>>
    decreases d, 0nat, upto,
{
    if d == 0 || upto == 0 || upto > elements.len() {
        Seq::empty()
    } else {
        vectors_from(elements, d, (upto - 1) as nat) + all_vectors(elements, (d - 1) as nat).map_values(
            |tail: Seq<F>| seq![elements[upto - 1]] + tail,
        )
    }
}

/// The number of differing positions of two equal-length sequences.
pub open spec fn hamming_spec<F>(a: Seq<F>, b: Seq<F>) -> nat
    decreases a.len(),
{
    if a.len() == 0 || b.len() == 0 {
        0
    } else {
        hamming_spec(a.drop_last(), b.drop_last()) + (if a.last() == b.last() {
            0nat
        } else {
            1nat
        })
    }
}

/// Every entry of `v` is one of `elements`.
pub open spec fn vector_over<F>(v: Seq<F>, elements: Seq<F>) -> bool {
    forall|j: int| 0 <= j < v.len() ==> elements.contains(#[trigger] v[j])
}

pub proof fn lemma_all_vectors_len<F>(elements: Seq<F>, d: nat)
    ensures
        forall|i: int|
            0 <= i < all_vectors(elements, d).len() ==> (#[trigger] all_vectors(elements, d)[i]).len()
                == d && vector_over(all_vectors(elements, d)[i], elements),
    decreases d,
{
    if d > 0 {
        lemma_vectors_from_len(elements, d, elements.len());
        assert(all_vectors(elements, d) == vectors_from(elements, d, elements.len()));
    } else {
        let a = all_vectors(elements, d);
        assert(a == seq![Seq::<F>::empty()]);
        assert forall|i: int| 0 <= i < a.len() implies (#[trigger] a[i]).len() == d && vector_over(
            a[i],
            elements,
        ) by {
            assert(a[i] == Seq::<F>::empty());
        }
    }
}

pub proof fn lemma_vectors_from_len<F>(elements: Seq<F>, d: nat, upto: nat)
    requires
        d > 0,
        upto <= elements.len(),
    ensures
        forall|i: int|
            0 <= i < vectors_from(elements, d, upto).len() ==> (#[trigger] vectors_from(
                elements,
                d,
                upto,
            )[i]).len() == d && vector_over(vectors_from(elements, d, upto)[i], elements),
    decreases d, upto,
{
    if upto > 0 {
        lemma_vectors_from_len(elements, d, (upto - 1) as nat);
        lemma_all_vectors_len(elements, (d - 1) as nat);
        let prev = vectors_from(elements, d, (upto - 1) as nat);
        let tails = all_vectors(elements, (d - 1) as nat);
        let mapped = tails.map_values(|tail: Seq<F>| seq![elements[upto - 1]] + tail);
        let all = vectors_from(elements, d, upto);
        assert(all == prev + mapped);
        assert forall|i: int| 0 <= i < all.len() implies (#[trigger] all[i]).len() == d
            && vector_over(all[i], elements) by {
            if i < prev.len() {
                assert(all[i] == prev[i]);
            } else {
                let t = tails[i - prev.len()];
                assert(all[i] == mapped[i - prev.len()]);
                assert(all[i] == seq![elements[upto - 1]] + t);
                assert(t.len() == d - 1);
                assert forall|j: int| 0 <= j < all[i].len() implies elements.contains(
                    #[trigger] all[i][j],
                ) by {
                    if j == 0 {
                        assert(elements[upto - 1] == all[i][j]);
                    } else {
                        assert(all[i][j] == t[j - 1]);
                    }
                }
            }
        }
    }
}

/// Recursively fill `coefficients[index..]` with every combination of field
/// elements, pushing each completed vector as a canonical polynomial.
fn enumerate_from<F: Field>(
    field_elements: &[F],
    coefficients: &mut Vec<F>,
    index: usize,
    output: &mut Vec<Polynomial<F>>,
)
    requires
        F::field_valid(),
        seq_wf(field_elements@),
        seq_wf(old(coefficients)@),
        index <= old(coefficients)@.len(),
    ensures
        final(coefficients)@.len() == old(coefficients)@.len(),
        final(coefficients)@.subrange(0, index as int) == old(coefficients)@.subrange(
            0,
            index as int,
        ),
        seq_wf(final(coefficients)@),
        final(output)@.len() == old(output)@.len() + all_vectors(
            field_elements@,
            (old(coefficients)@.len() - index) as nat,
        ).len(),
        forall|i: int|
            0 <= i < old(output)@.len() ==> (#[trigger] final(output)@[i]) == old(output)@[i],
        forall|i: int|
            0 <= i < all_vectors(field_elements@, (old(coefficients)@.len() - index) as nat).len()
                ==> (#[trigger] final(output)@[old(output)@.len() + i])@ == trim(
                old(coefficients)@.subrange(0, index as int) + all_vectors(
                    field_elements@,
                    (old(coefficients)@.len() - index) as nat,
                )[i],
            ),
        forall|i: int|
            0 <= i < final(output)@.len() - old(output)@.len() ==> (#[trigger] final(output)@[old(
                output,
            )@.len() + i]).wf(),
    decreases old(coefficients)@.len() - index, 1nat, 0nat,
{
    let ghost c0 = coefficients@;
    let ghost o0 = output@;
    if index == coefficients.len() {
        proof {
            assert(c0.subrange(0, index as int) =~= c0);
            assert(c0.subrange(0, index as int) + Seq::<F>::empty() =~= c0);
        }
        let copy = copy_vec(coefficients);
        output.push(Polynomial::from_coefficients(copy));
        return ;
    }
    enumerate_elements(field_elements, coefficients, index, output, field_elements.len());
}

/// The loop of [`enumerate_from`] over the first `upto` field elements at
/// position `index`.
fn enumerate_elements<F: Field>(
    field_elements: &[F],
    coefficients: &mut Vec<F>,
    index: usize,
    output: &mut Vec<Polynomial<F>>,
    upto: usize,
)
    requires
        F::field_valid(),
        seq_wf(field_elements@),
        seq_wf(old(coefficients)@),
        index < old(coefficients)@.len(),
        upto <= field_elements@.len(),
    ensures
        final(coefficients)@.len() == old(coefficients)@.len(),
        final(coefficients)@.subrange(0, index as int) == old(coefficients)@.subrange(
            0,
            index as int,
        ),
        seq_wf(final(coefficients)@),
        final(output)@.len() == old(output)@.len() + vectors_from(
            field_elements@,
            (old(coefficients)@.len() - index) as nat,
            upto as nat,
        ).len(),
        forall|i: int|
            0 <= i < old(output)@.len() ==> (#[trigger] final(output)@[i]) == old(output)@[i],
        forall|i: int|
            0 <= i < vectors_from(
                field_elements@,
                (old(coefficients)@.len() - index) as nat,
                upto as nat,
            ).len() ==> (#[trigger] final(output)@[old(output)@.len() + i])@ == trim(
                old(coefficients)@.subrange(0, index as int) + vectors_from(
                    field_elements@,
                    (old(coefficients)@.len() - index) as nat,
                    upto as nat,
                )[i],
            ),
        forall|i: int|
            0 <= i < final(output)@.len() - old(output)@.len() ==> (#[trigger] final(output)@[old(
                output,
            )@.len() + i]).wf(),
    decreases old(coefficients)@.len() - index, 0nat, upto,
{
    if upto == 0 {
        return ;
    }
    let ghost c0 = coefficients@;
    let ghost o0 = output@;
    let ghost d = (c0.len() - index) as nat;
    enumerate_elements(field_elements, coefficients, index, output, upto - 1);
    let ghost c1 = coefficients@;
    let ghost o1 = output@;
    let element = field_elements[upto - 1];
    coefficients.set(index, element);
    let ghost c2 = coefficients@;
    let length = coefficients.len();
    proof {
        assert(c2.subrange(0, index as int) =~= c1.subrange(0, index as int));
        assert(seq_wf(c2));
    }
    enumerate_from(field_elements, coefficients, index + 1, output);
    proof {
        let prev = vectors_from(field_elements@, d, (upto - 1) as nat);
        let tails = all_vectors(field_elements@, (d - 1) as nat);
        let mapped = tails.map_values(|tail: Seq<F>| seq![field_elements@[upto - 1]] + tail);
        let all = vectors_from(field_elements@, d, upto as nat);
        assert(all == prev + mapped);
        assert(coefficients@.subrange(0, index as int) =~= c2.subrange(0, index as int)) by {
            assert(coefficients@.subrange(0, index + 1) == c2.subrange(0, index + 1));
            assert forall|j: int| 0 <= j < index implies coefficients@[j] == c2[j] by {
                assert(coefficients@.subrange(0, index + 1)[j] == c2.subrange(0, index + 1)[j]);
            }
        }
        assert(c2.subrange(0, index + 1) =~= c0.subrange(0, index as int) + seq![element]);
        assert forall|i: int| 0 <= i < all.len() implies (#[trigger] output@[o0.len() + i])@
            == trim(c0.subrange(0, index as int) + all[i]) by {
            if i < prev.len() {
                assert(output@[o0.len() + i] == o1[o0.len() + i]);
            } else {
                let t = i - prev.len();
                assert(output@[o1.len() + t]@ == trim(c2.subrange(0, index + 1) + tails[t]));
                assert(all[i] == seq![element] + tails[t]);
                assert(c2.subrange(0, index + 1) + tails[t] =~= c0.subrange(0, index as int) + (
                seq![element] + tails[t]));
            }
        }
        assert forall|i: int| 0 <= i < output@.len() - o0.len() implies (#[trigger] output@[o0.len()
            + i]).wf() by {
            if i < o1.len() - o0.len() {
                assert(output@[o0.len() + i] == o1[o0.len() + i]);
            } else {
                assert(output@[o1.len() + (i - (o1.len() - o0.len()))] == output@[o0.len() + i]);
            }
        }
    }
}

fn copy_vec<F: Field>(v: &Vec<F>) -> (r: Vec<F>)
    ensures
        r@ == v@,
{
    let mut out: Vec<F> = Vec::with_capacity(v.len());
    let mut i: usize = 0;
    while i < v.len()
        invariant
            i <= v@.len(),
            out@ == v@.subrange(0, i as int),
        decreases v@.len() - i,
    {
        out.push(v[i]);
        i += 1;
    }
    assert(out@ =~= v@);
    out
}

/// Every polynomial whose coefficient vector has length `degree_bound` over
/// `field_elements` (so degree below the bound), in lexicographic order.
pub fn enumerate_polynomials<F: Field>(field_elements: &[F], degree_bound: usize) -> (r: Vec<
    Polynomial<F>,
>)
    requires
        F::field_valid(),
        seq_wf(field_elements@),
    ensures
        r@.len() == all_vectors(field_elements@, degree_bound as nat).len(),
        forall|i: int|
            0 <= i < r@.len() ==> (#[trigger] r@[i])@ == trim(
                all_vectors(field_elements@, degree_bound as nat)[i],
            ),
        forall|i: int| 0 <= i < r@.len() ==> (#[trigger] r@[i]).wf(),
{
    let mut output: Vec<Polynomial<F>> = Vec::new();
    let mut coefficients: Vec<F> = Vec::new();
    let zero = F::zero();
    while coefficients.len() < degree_bound
        invariant
            coefficients@.len() <= degree_bound,
            zero == F::zero_spec(),
            zero.wf(),
            seq_wf(coefficients@),
        decreases degree_bound - coefficients@.len(),
    {
        coefficients.push(zero);
    }
    enumerate_from(field_elements, &mut coefficients, 0, &mut output);
    proof {
        assert forall|i: int| 0 <= i < output@.len() implies (#[trigger] output@[i])@ == trim(
            all_vectors(field_elements@, degree_bound as nat)[i],
        ) by {
            assert(output@[0 + i] == output@[i]);
            assert(Seq::<F>::empty() + all_vectors(field_elements@, degree_bound as nat)[i]
                =~= all_vectors(field_elements@, degree_bound as nat)[i]);
            assert(coefficients@.subrange(0, 0) =~= Seq::<F>::empty());
        }
        assert forall|i: int| 0 <= i < output@.len() implies (#[trigger] output@[i]).wf() by {
            assert(output@[0 + i] == output@[i]);
        }
    }
    output
}

/// The number of positions where two words differ, or `None` when their
/// lengths disagree.
pub fn hamming_distance<F: Field>(left: &[F], right: &[F]) -> (r: Option<usize>)
    ensures
        r == (if left@.len() == right@.len() {
            Some(hamming_spec(left@, right@) as usize)
        } else {
            None
        }),
        r matches Some(d) ==> d == hamming_spec(left@, right@),
{
    if left.len() != right.len() {
        return None;
    }
    let mut count: usize = 0;
    let mut i: usize = 0;
    while i < left.len()
        invariant
            left@.len() == right@.len(),
            i <= left@.len(),
            count == hamming_spec(left@.subrange(0, i as int), right@.subrange(0, i as int)),
            count <= i,
        decreases left@.len() - i,
    {
        proof {
            let a = left@.subrange(0, i + 1);
            let b = right@.subrange(0, i + 1);
            assert(a.drop_last() =~= left@.subrange(0, i as int));
            assert(b.drop_last() =~= right@.subrange(0, i as int));
        }
        if !left[i].equals(right[i]) {
            count += 1;
        }
        i += 1;
    }
    assert(left@.subrange(0, i as int) =~= left@);
    assert(right@.subrange(0, i as int) =~= right@);
    Some(count)
}

} // verus!
