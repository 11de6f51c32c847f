//! Interleaved Reed–Solomon codes: `ℓ` codewords of one GRS code written
//! column by column, with the column metric.
use vstd::prelude::*;

use crate::domain::EvaluationDomain;
use crate::error::Error;
use crate::eval::horner;
use crate::field::Field;
use crate::folded::{chunk_distance, chunk_mismatches, common_chunks};
use crate::polynomial::{eval_seq, seq_wf};
use crate::validate::{base_error, validate_base};

verus! {

/// The first construction error: the base GRS shape, then a zero order.
pub open spec fn interleaved_error<F: Field>(
    length: usize,
    multipliers: Seq<F>,
    dimension: usize,
    order: usize,
) -> Option<Error> {
    match base_error(multipliers, dimension, length) {
        Some(e) => Some(e),
        None => if order == 0 {
            Some(Error::ZeroInterleave)
        } else {
            None
        },
    }
}

/// Symbol `column · ℓ + row` is row `row`'s codeword at `column`.
pub open spec fn interleaved_codeword<F: Field>(
    messages: Seq<F>,
    points: Seq<F>,
    multipliers: Seq<F>,
    dimension: nat,
    order: nat,
) -> Seq<F> {
    Seq::new(
        points.len() * order,
        |p: int|
            {
                let column = p / (order as int);
                let row = p % (order as int);
                multipliers[column].mul_spec(
                    eval_seq(
                        messages.subrange(row * dimension, row * dimension + dimension),
                        points[column],
                    ),
                )
            },
    )
}

/// An interleaved GRS code of order `ℓ`.
#[derive(Debug)]
pub struct InterleavedRsCode<F: Field> {
    domain: EvaluationDomain<F>,
    multipliers: Vec<F>,
    dimension: usize,
    order: usize,
}

impl<F: Field> InterleavedRsCode<F> {
    pub closed spec fn points_view(&self) -> Seq<F> {
        self.domain@
    }

    pub closed spec fn multipliers_view(&self) -> Seq<F> {
        self.multipliers@
    }

    pub closed spec fn dimension_view(&self) -> usize {
        self.dimension
    }

    pub closed spec fn order_view(&self) -> usize {
        self.order
    }

    pub open spec fn wf(&self) -> bool {
        &&& F::field_valid()
        &&& self.points_view().len() > 0
        &&& seq_wf(self.points_view())
        &&& crate::domain::distinct(self.points_view())
        &&& seq_wf(self.multipliers_view())
        &&& interleaved_error(
            self.points_view().len() as usize,
            self.multipliers_view(),
            self.dimension_view(),
            self.order_view(),
        ) is None
    }

    /// Build an interleaved GRS code of order `ℓ >= 1`.
    pub fn new(domain: EvaluationDomain<F>, multipliers: Vec<F>, dimension: usize, order: usize) -> (r:
        Result<Self, Error>)
        requires
            domain.wf(),
            seq_wf(multipliers@),
        ensures
            r is Ok <==> interleaved_error(domain@.len() as usize, multipliers@, dimension, order) is None,
            r matches Err(e) ==> interleaved_error(domain@.len() as usize, multipliers@, dimension, order)
                == Some(e),
            r matches Ok(code) ==> {
                &&& code.wf()
                &&& code.points_view() == domain@
                &&& code.multipliers_view() == multipliers@
                &&& code.dimension_view() == dimension
                &&& code.order_view() == order
            },
    {
        let length = domain.len();
        match validate_base(multipliers.as_slice(), dimension, length) {
            Ok(()) => {},
            Err(e) => {
                return Err(e);
            },
        }
        if order == 0 {
            return Err(Error::ZeroInterleave);
        }
        Ok(InterleavedRsCode { domain, multipliers, dimension, order })
    }

    /// Code length `n` in columns.
    pub fn length(&self) -> (r: usize)
        ensures
            r == self.points_view().len(),
    {
        self.domain.len()
    }

    /// Message dimension `k` of each row.
    pub fn dimension(&self) -> (r: usize)
        ensures
            r == self.dimension_view(),
    {
        self.dimension
    }

    /// Interleaving order `ℓ`.
    pub fn order(&self) -> (r: usize)
        ensures
            r == self.order_view(),
    {
        self.order
    }

    /// The evaluation domain.
    pub fn domain(&self) -> (r: &EvaluationDomain<F>)
        ensures
            r@ == self.points_view(),
    {
        &self.domain
    }

    /// The column multipliers.
    pub fn multipliers(&self) -> (r: &[F])
        ensures
            r@ == self.multipliers_view(),
    {
        self.multipliers.as_slice()
    }

    /// Encode `ℓ` row messages (concatenated, `k` symbols each) into the
    /// column-major word of `ℓ · n` symbols.
    pub fn encode_into(&self, messages: &[F], codeword: &mut [F]) -> (r: Result<(), Error>)
        requires
            self.wf(),
            seq_wf(messages@),
            self.order_view() * self.points_view().len() <= usize::MAX,
        ensures
            messages@.len() != self.order_view() * self.dimension_view() ==> r == Err::<(), Error>(
                Error::MessageCount {
                    expected: self.order_view(),
                    got: (messages@.len() / (self.dimension_view() as nat)) as usize,
                },
            ),
            messages@.len() == self.order_view() * self.dimension_view() && old(codeword)@.len()
                != self.order_view() * self.points_view().len() ==> r == Err::<(), Error>(
                Error::CodewordLength {
                    expected: (self.order_view() * self.points_view().len()) as usize,
                    got: old(codeword)@.len() as usize,
                },
            ),
            r is Err ==> final(codeword)@ == old(codeword)@,
            r is Ok <==> messages@.len() == self.order_view() * self.dimension_view()
                && old(codeword)@.len() == self.order_view() * self.points_view().len(),
            r is Ok ==> final(codeword)@ == interleaved_codeword(
                messages@,
                self.points_view(),
                self.multipliers_view(),
                self.dimension_view() as nat,
                self.order_view() as nat,
            ),
    {
        let k = self.dimension;
        let n = self.domain.len();
        let ell = self.order;
        proof {
            vstd::arithmetic::mul::lemma_mul_inequality(k as int, n as int, ell as int);
            vstd::arithmetic::mul::lemma_mul_is_commutative(k as int, ell as int);
            vstd::arithmetic::mul::lemma_mul_is_commutative(n as int, ell as int);
        }
        if messages.len() != ell * k {
            return Err(Error::MessageCount { expected: ell, got: messages.len() / k });
        }
        if codeword.len() != ell * n {
            return Err(Error::CodewordLength { expected: ell * n, got: codeword.len() });
        }
        let points = self.domain.points();
        let ghost target = interleaved_codeword(
            messages@,
            points@,
            self.multipliers@,
            k as nat,
            ell as nat,
        );
        let mut column: usize = 0;
        while column < n
            invariant
                self.wf(),
                points@ == self.points_view(),
                n == points@.len(),
                k == self.dimension_view(),
                ell == self.order_view(),
                ell >= 1,
                ell * n <= usize::MAX,
                messages@.len() == ell * k,
                ell * k <= usize::MAX,
                seq_wf(messages@),
                codeword@.len() == ell * n,
                column <= n,
                target == interleaved_codeword(messages@, points@, self.multipliers_view(), k as nat, ell as nat),
                forall|p: int| 0 <= p < column * ell ==> #[trigger] codeword@[p] == target[p],
            decreases n - column,
        {
            let point = points[column];
            let multiplier = self.multipliers[column];
            proof {
                vstd::arithmetic::mul::lemma_mul_inequality(column as int + 1, n as int, ell as int);
                vstd::arithmetic::mul::lemma_mul_is_distributive_add_other_way(ell as int, column as int, 1);
            }
            let mut row: usize = 0;
            while row < ell
                invariant
                    self.wf(),
                    points@ == self.points_view(),
                    n == points@.len(),
                    k == self.dimension_view(),
                    ell == self.order_view(),
                    column < n,
                    point == points@[column as int],
                    multiplier == self.multipliers_view()[column as int],
                    (column + 1) * ell <= ell * n,
                    (column + 1) * ell == column * ell + ell,
                    ell * n <= usize::MAX,
                    messages@.len() == ell * k,
                    ell * k <= usize::MAX,
                    seq_wf(messages@),
                    codeword@.len() == ell * n,
                    row <= ell,
                    target == interleaved_codeword(messages@, points@, self.multipliers_view(), k as nat, ell as nat),
                    forall|p: int| 0 <= p < column * ell + row ==> #[trigger] codeword@[p] == target[p],
                decreases ell - row,
            {
                proof {
                    vstd::arithmetic::mul::lemma_mul_inequality(row as int + 1, ell as int, k as int);
                    vstd::arithmetic::mul::lemma_mul_is_distributive_add_other_way(k as int, row as int, 1);
                    vstd::arithmetic::mul::lemma_mul_is_commutative(ell as int, k as int);
                }
                let start = row * k;
                let message = &messages[start..start + k];
                proof {
                    assert(seq_wf(message@));
                    assert(multiplier.wf());
                }
                let value = multiplier.mul(horner(message, point));
                let position = column * ell + row;
                codeword[position] = value;
                proof {
                    vstd::arithmetic::div_mod::lemma_fundamental_div_mod_converse(
                        position as int,
                        ell as int,
                        column as int,
                        row as int,
                    );
                    vstd::arithmetic::mul::lemma_mul_is_commutative(column as int, ell as int);
                    assert(codeword@[position as int] == target[position as int]);
                }
                row += 1;
            }
            column += 1;
        }
        proof {
            vstd::arithmetic::mul::lemma_mul_is_commutative(n as int, ell as int);
            assert(codeword@ =~= target);
        }
        Ok(())
    }

    /// Column `index` of a column-major word: its `ℓ` row symbols.
    pub fn column<'w>(&self, word: &'w [F], index: usize) -> (r: &'w [F])
        requires
            (index + 1) * self.order_view() <= word@.len(),
        ensures
            r@ == word@.subrange(
                index * self.order_view(),
                index * self.order_view() + self.order_view(),
            ),
    {
        let word_length = word.len();
        proof {
            vstd::arithmetic::mul::lemma_mul_is_distributive_add_other_way(self.order as int, index as int, 1);
        }
        let start = index * self.order;
        &word[start..start + self.order]
    }

    /// The number of columns in which two words differ.
    pub fn column_distance(&self, a: &[F], b: &[F]) -> (r: usize)
        requires
            self.wf(),
        ensures
            r == chunk_mismatches(
                a@,
                b@,
                self.order_view() as nat,
                common_chunks(a@.len(), b@.len(), self.order_view() as nat) as int,
            ),
    {
        chunk_distance(a, b, self.order)
    }
}

} // verus!
