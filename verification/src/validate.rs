//! Shared shape checks for code constructors.
use vstd::prelude::*;

use crate::error::Error;
use crate::field::Field;
use crate::polynomial::seq_wf;

verus! {

/// The index of the first zero element at or after `from`, or the length
/// when there is none.
pub open spec fn first_zero_from<F: Field>(s: Seq<F>, from: int) -> int
    decreases s.len() - from,
{
    if from < 0 || from >= s.len() {
        s.len() as int
    } else if s[from] == F::zero_spec() {
        from
    } else {
        first_zero_from(s, from + 1)
    }
}

/// The index of the first zero element, or the length when there is none.
pub open spec fn first_zero<F: Field>(s: Seq<F>) -> int {
    first_zero_from(s, 0)
}

/// Every element is nonzero.
pub open spec fn all_nonzero<F: Field>(s: Seq<F>) -> bool {
    forall|i: int| 0 <= i < s.len() ==> #[trigger] s[i] != F::zero_spec()
}

pub proof fn lemma_first_zero<F: Field>(s: Seq<F>, from: int)
    requires
        0 <= from <= s.len(),
    ensures
        from <= first_zero_from(s, from) <= s.len(),
        first_zero_from(s, from) < s.len() ==> s[first_zero_from(s, from)] == F::zero_spec(),
        forall|i: int| from <= i < first_zero_from(s, from) ==> s[i] != F::zero_spec(),
    decreases s.len() - from,
{
    if from < s.len() && s[from] != F::zero_spec() {
        lemma_first_zero(s, from + 1);
    }
}

/// The first error of a base GRS shape: multiplier count, dimension range
/// `1 <= k < n`, then the first zero multiplier.
pub open spec fn base_error<F: Field>(multipliers: Seq<F>, dimension: usize, length: usize) -> Option<
    Error,
> {
    if multipliers.len() != length {
        Some(Error::MultiplierCount { expected: length, got: multipliers.len() as usize })
    } else if dimension == 0 || dimension >= length {
        Some(Error::InvalidDimension { dimension, length })
    } else if first_zero(multipliers) < multipliers.len() {
        Some(Error::ZeroMultiplier { index: first_zero(multipliers) as usize })
    } else {
        None
    }
}

/// The index of the first zero element, or the length.
pub fn find_zero<F: Field>(s: &[F]) -> (r: usize)
    requires
        seq_wf(s@),
    ensures
        r == first_zero(s@),
        r <= s@.len(),
        r == s@.len() <==> all_nonzero(s@),
{
    proof {
        lemma_first_zero(s@, 0);
    }
    let mut index: usize = 0;
    while index < s.len()
        invariant
            index <= s@.len(),
            seq_wf(s@),
            first_zero_from(s@, index as int) == first_zero(s@),
        decreases s@.len() - index,
    {
        if s[index].is_zero() {
            return index;
        }
        index += 1;
    }
    index
}

/// Check the base GRS shape shared by the families.
pub fn validate_base<F: Field>(multipliers: &[F], dimension: usize, length: usize) -> (r: Result<
    (),
    Error,
>)
    requires
        seq_wf(multipliers@),
    ensures
        r is Ok <==> base_error(multipliers@, dimension, length) is None,
        r matches Err(e) ==> base_error(multipliers@, dimension, length) == Some(e),
{
    if multipliers.len() != length {
        return Err(Error::MultiplierCount { expected: length, got: multipliers.len() });
    }
    if dimension == 0 || dimension >= length {
        return Err(Error::InvalidDimension { dimension, length });
    }
    let index = find_zero(multipliers);
    if index < multipliers.len() {
        return Err(Error::ZeroMultiplier { index });
    }
    Ok(())
}

} // verus!
