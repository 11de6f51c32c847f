//! Validated evaluation domains: nonempty sequences of distinct points.
use vstd::prelude::*;

use crate::error::DomainError;
use crate::field::Field;
use crate::polynomial::{copy_elements, seq_wf};

verus! {

/// No point occurs twice.
pub open spec fn distinct<F>(s: Seq<F>) -> bool {
    forall|i: int, j: int| 0 <= i < j < s.len() ==> s[i] != s[j]
}

/// Some point before index `j` equals `s[j]`.
pub open spec fn repeats_earlier<F>(s: Seq<F>, j: int) -> bool {
    exists|i: int| 0 <= i < j && s[i] == s[j]
}

/// Distinct evaluation points `α_0, …, α_{n-1}` in a fixed order.
#[derive(Debug)]
pub struct EvaluationDomain<F: Field> {
    points: Vec<F>,
}

impl<F: Field> View for EvaluationDomain<F> {
    type V = Seq<F>;

    closed spec fn view(&self) -> Seq<F> {
        self.points@
    }
}

impl<F: Field> Clone for EvaluationDomain<F> {
    fn clone(&self) -> (r: Self)
        ensures
            r@ == self@,
    {
        EvaluationDomain { points: copy_elements(&self.points) }
    }
}

impl<F: Field> EvaluationDomain<F> {
    /// Nonempty, canonical, pairwise distinct.
    pub open spec fn wf(&self) -> bool {
        &&& F::field_valid()
        &&& self@.len() > 0
        &&& seq_wf(self@)
        &&& distinct(self@)
    }

    /// Construct a domain from arbitrary distinct points.
    ///
    /// An empty support is rejected; for a repeated point the error names the
    /// first index that repeats an earlier point and that earlier point's
    /// first occurrence.
    pub fn arbitrary(points: Vec<F>) -> (r: Result<Self, DomainError>)
        requires
            seq_wf(points@),
        ensures
            r is Ok <==> points@.len() > 0 && distinct(points@),
            r matches Ok(domain) ==> domain.wf() && domain@ == points@,
            points@.len() == 0 ==> r == Err::<Self, DomainError>(DomainError::Empty),
            r == Err::<Self, DomainError>(DomainError::Empty) ==> points@.len() == 0,
            r matches Err(DomainError::DuplicatePoint { first, second }) ==> {
                &&& first < second < points@.len()
                &&& points@[first as int] == points@[second as int]
                &&& forall|i: int| 0 <= i < first ==> points@[i] != points@[second as int]
                &&& forall|j: int| 0 <= j < second ==> !repeats_earlier(points@, j)
            },
    {
        let n = points.len();
        if n == 0 {
            return Err(DomainError::Empty);
        }
        proof {
            F::lemma_closure(points@[0], points@[0]);
        }
        let mut second: usize = 1;
        while second < n
            invariant
                n == points@.len(),
                1 <= second <= n,
                forall|i: int, j: int| 0 <= i < j < second ==> points@[i] != points@[j],
            decreases n - second,
        {
            let mut first: usize = 0;
            while first < second
                invariant
                    n == points@.len(),
                    first <= second < n,
                    forall|i: int, j: int| 0 <= i < j < second ==> points@[i] != points@[j],
                    forall|i: int| 0 <= i < first ==> points@[i] != points@[second as int],
                decreases second - first,
            {
                if points[first].equals(points[second]) {
                    proof {
                        assert forall|j: int| 0 <= j < second implies !repeats_earlier(
                            points@,
                            j,
                        ) by {
                            assert forall|i: int| 0 <= i < j implies points@[i] != points@[j] by {}
                        }
                    }
                    return Err(DomainError::DuplicatePoint { first, second });
                }
                first += 1;
            }
            second += 1;
        }
        Ok(EvaluationDomain { points })
    }

    /// The points in domain order.
    pub fn points(&self) -> (r: &[F])
        ensures
            r@ == self@,
    {
        self.points.as_slice()
    }

    /// The number of points `n`.
    pub fn len(&self) -> (r: usize)
        ensures
            r == self@.len(),
    {
        self.points.len()
    }
}

} // verus!
