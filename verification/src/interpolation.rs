//! Lagrange interpolation through point–value samples.
use vstd::prelude::*;

use crate::field::Field;
use crate::division::lemma_conv_partial_wf;
use crate::polynomial::{
    add_seq, conv, is_trimmed, lemma_mul_seq_len, lemma_trim, mul_seq, scale_seq, seq_wf, trim,
    Polynomial, PolynomialError,
};

verus! {

/// `X − x` as a coefficient sequence.
pub open spec fn linear_factor<F: Field>(x: F) -> Seq<F> {
    seq![x.neg_spec(), F::one_spec()]
}

/// The Lagrange numerator `Π (X − x_j)` over `j < m`, `j ≠ i`, multiplied in
/// increasing `j`.
pub open spec fn lagrange_basis<F: Field>(points: Seq<F>, i: int, m: int) -> Seq<F>
    decreases m,
{
    if m <= 0 {
        seq![F::one_spec()]
    } else if m - 1 == i {
        lagrange_basis(points, i, m - 1)
    } else {
        mul_seq(lagrange_basis(points, i, m - 1), linear_factor(points[m - 1]))
    }
}

/// The Lagrange denominator `Π (x_i − x_j)` over `j < m`, `j ≠ i`.
pub open spec fn lagrange_denominator<F: Field>(points: Seq<F>, i: int, m: int) -> F
    decreases m,
{
    if m <= 0 {
        F::one_spec()
    } else if m - 1 == i {
        lagrange_denominator(points, i, m - 1)
    } else {
        lagrange_denominator(points, i, m - 1).mul_spec(points[i].sub_spec(points[m - 1]))
    }
}

/// The sum of the first `m` Lagrange terms `y_i / d_i · basis_i`.
pub open spec fn lagrange_sum<F: Field>(points: Seq<F>, values: Seq<F>, m: int) -> Seq<F>
    decreases m,
{
    if m <= 0 {
        Seq::empty()
    } else {
        let i = m - 1;
        let n = points.len() as int;
        let scalar = values[i].mul_spec(
            lagrange_denominator(points, i, n).inverse_spec().unwrap(),
        );
        trim(add_seq(lagrange_sum(points, values, m - 1), scale_seq(lagrange_basis(points, i, n), scalar)))
    }
}

/// Every Lagrange denominator is nonzero (no point repeats, in a field).
pub open spec fn denominators_nonzero<F: Field>(points: Seq<F>) -> bool {
    forall|i: int|
        0 <= i < points.len() ==> #[trigger] lagrange_denominator(points, i, points.len() as int)
            != F::zero_spec()
}

/// The canonical product of canonical sequences is canonical.
pub proof fn lemma_mul_seq_wf<F: Field>(a: Seq<F>, b: Seq<F>)
    requires
        F::field_valid(),
        seq_wf(a),
        seq_wf(b),
    ensures
        seq_wf(mul_seq(a, b)),
        is_trimmed(mul_seq(a, b)),
{
    if a.len() > 0 && b.len() > 0 {
        let c = conv(a, b);
        assert forall|k: int| 0 <= k < c.len() implies (#[trigger] c[k]).wf() by {
            lemma_conv_partial_wf(a, b, k, a.len() as int);
        }
        lemma_trim(c);
    }
}

proof fn lemma_basis_bounds<F: Field>(points: Seq<F>, i: int, m: int)
    requires
        F::field_valid(),
        seq_wf(points),
        m <= points.len(),
        0 <= i < points.len(),
    ensures
        lagrange_basis(points, i, m).len() <= (if m <= 0 {
            1
        } else {
            m + 1
        }),
        seq_wf(lagrange_basis(points, i, m)),
        is_trimmed(lagrange_basis(points, i, m)),
        lagrange_denominator(points, i, m).wf(),
    decreases m,
{
    F::lemma_closure(F::one_spec(), F::one_spec());
    if m > 0 {
        lemma_basis_bounds(points, i, m - 1);
        if m - 1 != i {
            let b = lagrange_basis(points, i, m - 1);
            let l = linear_factor(points[m - 1]);
            lemma_mul_seq_len(b, l);
            F::lemma_closure(points[m - 1], points[m - 1]);
            assert(seq_wf(l)) by {
                assert(l[0] == points[m - 1].neg_spec());
                assert(l[1] == F::one_spec());
            }
            lemma_mul_seq_wf(b, l);
            F::lemma_closure(points[i], points[m - 1]);
            F::lemma_closure(
                lagrange_denominator(points, i, m - 1),
                points[i].sub_spec(points[m - 1]),
            );
        }
    }
}

impl<F: Field> Polynomial<F> {
    /// Lagrange interpolation through `(points[i], values[i])`.
    ///
    /// Fails when the slices differ in length, or when a Lagrange denominator
    /// vanishes (a repeated point).
    pub fn interpolate(points: &[F], values: &[F]) -> (r: Result<Self, PolynomialError>)
        requires
            F::field_valid(),
            seq_wf(points@),
            seq_wf(values@),
            points@.len() < usize::MAX,
        ensures
            points@.len() != values@.len() ==> r == Err::<Self, PolynomialError>(
                PolynomialError::PointValueLengthMismatch,
            ),
            points@.len() == values@.len() ==> (r is Ok <==> denominators_nonzero(points@)),
            points@.len() == values@.len() && r is Err ==> r == Err::<Self, PolynomialError>(
                PolynomialError::DuplicateInterpolationPoint,
            ),
            r matches Ok(p) ==> p.wf() && p@ == lagrange_sum(
                points@,
                values@,
                points@.len() as int,
            ),
    {
        if points.len() != values.len() {
            return Err(PolynomialError::PointValueLengthMismatch);
        }
        let n = points.len();
        let mut result = Self::zero();
        let mut index: usize = 0;
        while index < n
            invariant
                F::field_valid(),
                seq_wf(points@),
                seq_wf(values@),
                n == points@.len(),
                n == values@.len(),
                n < usize::MAX,
                index <= n,
                result.wf(),
                result@ == lagrange_sum(points@, values@, index as int),
                forall|i: int|
                    0 <= i < index ==> #[trigger] lagrange_denominator(points@, i, n as int)
                        != F::zero_spec(),
            decreases n - index,
        {
            let point = points[index];
            let value = values[index];
            let mut basis = Self::one();
            let mut denominator = F::one();
            let mut other: usize = 0;
            while other < n
                invariant
                    F::field_valid(),
                    seq_wf(points@),
                    n == points@.len(),
                    n < usize::MAX,
                    index < n,
                    point == points@[index as int],
                    other <= n,
                    basis.wf(),
                    basis@ == lagrange_basis(points@, index as int, other as int),
                    basis@.len() <= other + 1,
                    denominator == lagrange_denominator(points@, index as int, other as int),
                    denominator.wf(),
                decreases n - other,
            {
                proof {
                    lemma_basis_bounds(points@, index as int, other as int + 1);
                }
                if index != other {
                    let mut factor_coefficients: Vec<F> = Vec::new();
                    factor_coefficients.push(points[other].neg());
                    factor_coefficients.push(F::one());
                    proof {
                        F::lemma_closure(points@[other as int], points@[other as int]);
                        assert(factor_coefficients@ =~= linear_factor(points@[other as int]));
                        lemma_trim(factor_coefficients@);
                    }
                    let factor = Self::from_coefficients(factor_coefficients);
                    basis = basis.mul(&factor);
                    denominator = denominator.mul(point.sub(points[other]));
                }
                other += 1;
            }
            proof {
                lemma_basis_bounds(points@, index as int, n as int);
            }
            let inverse = match denominator.inverse() {
                Some(inverse) => inverse,
                None => {
                    return Err(PolynomialError::DuplicateInterpolationPoint);
                },
            };
            let scaled = basis.scale(value.mul(inverse));
            result = result.add(&scaled);
            index += 1;
        }
        Ok(result)
    }
}

} // verus!
