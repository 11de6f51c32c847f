//! Allocation-free polynomial evaluation over a coefficient slice.
use vstd::prelude::*;

use crate::field::Field;
use crate::polynomial::{eval_seq, seq_wf};

verus! {

/// Evaluate the polynomial with the given low-to-high `coefficients` at
/// `point` by Horner's method.
pub fn horner<F: Field>(coefficients: &[F], point: F) -> (r: F)
    requires
        F::field_valid(),
        seq_wf(coefficients@),
        point.wf(),
    ensures
        r == eval_seq(coefficients@, point),
        r.wf(),
{
    let ghost s = coefficients@;
    let mut value = F::zero();
    let mut index = coefficients.len();
    proof {
        assert(s.subrange(index as int, s.len() as int) =~= Seq::<F>::empty());
    }
    while index > 0
        invariant
            seq_wf(s),
            point.wf(),
            s == coefficients@,
            index <= s.len(),
            value == eval_seq(s.subrange(index as int, s.len() as int), point),
            value.wf(),
        decreases index,
    {
        index -= 1;
        proof {
            assert(s.subrange(index as int, s.len() as int).drop_first() =~= s.subrange(
                index + 1,
                s.len() as int,
            ));
        }
        value = value.mul(point).add(coefficients[index]);
    }
    assert(s.subrange(0, s.len() as int) =~= s);
    value
}

} // verus!
