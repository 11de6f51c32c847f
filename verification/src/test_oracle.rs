//! Brute-force Hamming-ball oracle: enumerate every message, encode it, and
//! keep those within the radius.
use vstd::prelude::*;

use crate::field::Field;
use crate::polynomial::{Polynomial, seq_wf};
use crate::reference::{all_vectors, enumerate_polynomials, hamming_distance, hamming_spec};

verus! {

/// One message within the radius, with its codeword and distance.
#[derive(Debug, Eq, PartialEq)]
pub struct OracleCandidate<F: Field> {
    pub message: Polynomial<F>,
    pub codeword: Vec<F>,
    pub distance: usize,
}

#[derive(Clone, Copy, Debug, Eq, PartialEq)]
pub enum OracleError {
    CodewordLengthMismatch,
}

/// Indices `j < n` whose codeword has the received length and lies within
/// `radius`, in increasing order.
pub open spec fn selected_indices<F>(codewords: Seq<Seq<F>>, received: Seq<F>, radius: nat, n: nat) -> Seq<
    int,
>
    decreases n,
{
    if n == 0 {
        Seq::empty()
    } else {
        let prev = selected_indices(codewords, received, radius, (n - 1) as nat);
        if hamming_spec(codewords[n - 1], received) <= radius {
            prev.push(n - 1)
        } else {
            prev
        }
    }
}

/// Some polynomial with coefficient sequence `target` is encoded, by one of
/// the encoder's possible results, to a word of length `length`.
pub open spec fn encodes_with_length<F: Field, Encode: Fn(&Polynomial<F>) -> Vec<F>>(
    encode: Encode,
    target: Seq<F>,
    length: nat,
) -> bool {
    exists|m: Polynomial<F>, d: Vec<F>|
        m@ == target && #[trigger] encode.ensures((&m,), d) && d@.len() == length
}

/// Decode by enumeration: every message of degree below the bound whose
/// encoding lies within `radius` of `received`, in enumeration order.
pub fn decode_by_enumeration<F: Field, Encode: Fn(&Polynomial<F>) -> Vec<F>>(
    field_elements: &[F],
    message_degree_bound: usize,
    received: &[F],
    radius: usize,
    encode: Encode,
) -> (r: Result<Vec<OracleCandidate<F>>, OracleError>)
    requires
        F::field_valid(),
        seq_wf(field_elements@),
        forall|message: &Polynomial<F>| #[trigger] encode.requires((message,)),
    ensures
        r matches Ok(output) ==> exists|messages: Seq<Polynomial<F>>, codewords: Seq<Seq<F>>|
            {
                &&& messages.len() == all_vectors(field_elements@, message_degree_bound as nat).len()
                &&& codewords.len() == messages.len()
                &&& forall|j: int|
                    0 <= j < messages.len() ==> {
                        &&& (#[trigger] messages[j])@ == crate::polynomial::trim(
                            all_vectors(field_elements@, message_degree_bound as nat)[j],
                        )
                        &&& codewords[j].len() == received@.len()
                        &&& exists|c: Vec<F>| c@ == codewords[j] && encode.ensures((&messages[j],), c)
                    }
                &&& output@.len() == selected_indices(
                    codewords,
                    received@,
                    radius as nat,
                    messages.len(),
                ).len()
                &&& forall|i: int|
                    0 <= i < output@.len() ==> {
                        let j = selected_indices(
                            codewords,
                            received@,
                            radius as nat,
                            messages.len(),
                        )[i];
                        &&& (#[trigger] output@[i]).message@ == messages[j]@
                        &&& output@[i].codeword@ == codewords[j]
                        &&& output@[i].distance == hamming_spec(codewords[j], received@)
                    }
            },
        (forall|j: int, message: Polynomial<F>, c: Vec<F>|
            #![trigger encode.ensures((&message,), c), all_vectors(field_elements@, message_degree_bound as nat)[j]]
            0 <= j < all_vectors(field_elements@, message_degree_bound as nat).len() && message@
                == crate::polynomial::trim(all_vectors(field_elements@, message_degree_bound as nat)[j])
                && encode.ensures((&message,), c) ==> c@.len() == received@.len())
            ==> r is Ok,
        r matches Err(e) ==> e == OracleError::CodewordLengthMismatch && exists|
            j: int,
            message: Polynomial<F>,
            c: Vec<F>,
        |
            {
                &&& 0 <= j < all_vectors(field_elements@, message_degree_bound as nat).len()
                &&& message@ == crate::polynomial::trim(
                    all_vectors(field_elements@, message_degree_bound as nat)[j],
                )
                &&& encode.ensures((&message,), c)
                &&& c@.len() != received@.len()
                &&& forall|i: int|
                    0 <= i < j ==> #[trigger] encodes_with_length(
                        encode,
                        crate::polynomial::trim(
                            all_vectors(field_elements@, message_degree_bound as nat)[i],
                        ),
                        received@.len(),
                    )
            },
{
    let mut candidates: Vec<OracleCandidate<F>> = Vec::new();
    let messages = enumerate_polynomials(field_elements, message_degree_bound);
    let ghost mut codewords: Seq<Seq<F>> = Seq::empty();
    let mut index: usize = 0;
    while index < messages.len()
        invariant
            forall|message: &Polynomial<F>| #[trigger] encode.requires((message,)),
            index <= messages@.len(),
            messages@.len() == all_vectors(field_elements@, message_degree_bound as nat).len(),
            forall|i: int|
                0 <= i < messages@.len() ==> (#[trigger] messages@[i])@ == crate::polynomial::trim(
                    all_vectors(field_elements@, message_degree_bound as nat)[i],
                ),
            codewords.len() == index,
            forall|j: int|
                0 <= j < index ==> {
                    &&& (#[trigger] codewords[j]).len() == received@.len()
                    &&& exists|c: Vec<F>| c@ == codewords[j] && encode.ensures((&messages@[j],), c)
                },
            candidates@.len() == selected_indices(codewords, received@, radius as nat, index as nat).len(),
            forall|i: int|
                0 <= i < candidates@.len() ==> {
                    let j = selected_indices(codewords, received@, radius as nat, index as nat)[i];
                    &&& (#[trigger] candidates@[i]).message@ == messages@[j]@
                    &&& candidates@[i].codeword@ == codewords[j]
                    &&& candidates@[i].distance == hamming_spec(codewords[j], received@)
                },
            forall|i: int|
                0 <= i < selected_indices(codewords, received@, radius as nat, index as nat).len()
                    ==> 0 <= #[trigger] selected_indices(codewords, received@, radius as nat, index as nat)[i] < index,
        decreases messages@.len() - index,
    {
        let message = &messages[index];
        let codeword = encode(message);
        let distance = match hamming_distance(codeword.as_slice(), received) {
            Some(d) => d,
            None => {
                proof {
                    assert(messages@[index as int]@ == crate::polynomial::trim(
                        all_vectors(field_elements@, message_degree_bound as nat)[index as int],
                    ));
                    assert forall|i: int| 0 <= i < index implies #[trigger] encodes_with_length(
                        encode,
                        crate::polynomial::trim(
                            all_vectors(field_elements@, message_degree_bound as nat)[i],
                        ),
                        received@.len(),
                    ) by {
                        assert(codewords[i].len() == received@.len());
                        let c = choose|c: Vec<F>| c@ == codewords[i] && encode.ensures((&messages@[i],), c);
                        assert(messages@[i]@ == crate::polynomial::trim(
                            all_vectors(field_elements@, message_degree_bound as nat)[i],
                        ));
                    }
                }
                return Err(OracleError::CodewordLengthMismatch);
            },
        };
        let ghost prev_codewords = codewords;
        proof {
            codewords = codewords.push(codeword@);
            assert forall|j: int| 0 <= j < prev_codewords.len() implies codewords[j]
                == prev_codewords[j] by {}
            assert(selected_indices(prev_codewords, received@, radius as nat, index as nat)
                == selected_indices(codewords, received@, radius as nat, index as nat)) by {
                lemma_selected_prefix(prev_codewords, codewords, received@, radius as nat, index as nat);
            }
        }
        if distance <= radius {
            candidates.push(OracleCandidate { message: message.clone(), codeword, distance });
        }
        proof {
            assert forall|j: int| 0 <= j < index + 1 implies {
                &&& (#[trigger] codewords[j]).len() == received@.len()
                &&& exists|c: Vec<F>| c@ == codewords[j] && encode.ensures((&messages@[j],), c)
            } by {
                if j < index {
                    assert(codewords[j] == prev_codewords[j]);
                }
            }
        }
        index += 1;
    }
    proof {
        assert forall|j: int| 0 <= j < messages@.len() implies (#[trigger] messages@[j])@
            == crate::polynomial::trim(all_vectors(field_elements@, message_degree_bound as nat)[j]) by {}
    }
    Ok(candidates)
}

/// Selection over the first `n` codewords depends only on those codewords.
proof fn lemma_selected_prefix<F>(a: Seq<Seq<F>>, b: Seq<Seq<F>>, received: Seq<F>, radius: nat, n: nat)
    requires
        n <= a.len(),
        n <= b.len(),
        forall|j: int| 0 <= j < n ==> a[j] == b[j],
    ensures
        selected_indices(a, received, radius, n) == selected_indices(b, received, radius, n),
    decreases n,
{
    if n > 0 {
        lemma_selected_prefix(a, b, received, radius, (n - 1) as nat);
    }
}

} // verus!
