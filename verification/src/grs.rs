//! Generalized Reed–Solomon codes over a [`Field`] with an exhaustive
//! Guruswami–Sudan reference list decoder.
use vstd::arithmetic::mul::*;
use vstd::prelude::*;

use crate::field::{Field, FieldAxioms};
use crate::linear::{in_kernel, is_vector, matrix_wf, nonzero_null_vector, row_dot};
use crate::polynomial::{Polynomial, eval_seq, seq_wf, trim, lemma_trim, binomial_field, binomial_in_field};
use crate::reference::{all_vectors, enumerate_polynomials, hamming_distance, hamming_spec, lemma_all_vectors_len};

verus! {

pub const MAX_REFERENCE_MESSAGES: usize = 1_000_000;

pub const MAX_REFERENCE_MATRIX_CELLS: usize = 4_000_000;

/// Failure while building a GRS code or running its reference decoder.
#[derive(Clone, Copy, Debug, Eq, PartialEq)]
pub enum GrsError {
    EmptyCode,
    MultiplierLengthMismatch,
    ZeroDimension,
    DimensionExceedsLength,
    DuplicateEvaluationPoint,
    ZeroMultiplier,
    MessageDegreeTooLarge,
    ReceivedWordLengthMismatch,
    ZeroMultiplicity,
    RadiusExceedsLength,
    RadiusOutsideInterpolationBound { radius: usize, exclusive_bound: usize },
    ArithmeticOverflow,
    InvalidFieldEnumeration,
    ReferenceInstanceTooLarge,
    InterpolationHasNoNullspace,
    InterpolationVerificationFailed,
}

/// `r` is the floor of the square root of `x`.
pub open spec fn is_isqrt(x: int, r: int) -> bool {
    0 <= r && r * r <= x && x < (r + 1) * (r + 1)
}

/// The floor of the square root of a nonnegative integer.
pub open spec fn isqrt_spec(x: int) -> int {
    choose|r: int| is_isqrt(x, r)
}

/// The floor square root is unique, so any witness is `isqrt_spec`.
pub proof fn lemma_isqrt_unique(x: int, r: int)
    requires
        is_isqrt(x, r),
    ensures
        isqrt_spec(x) == r,
{
    let s = isqrt_spec(x);
    assert(is_isqrt(x, s));
    if s < r {
        assert((s + 1) * (s + 1) <= r * r) by (nonlinear_arith)
            requires
                0 <= s,
                s + 1 <= r,
        ;
    } else if r < s {
        assert((r + 1) * (r + 1) <= s * s) by (nonlinear_arith)
            requires
                0 <= r,
                r + 1 <= s,
        ;
    }
}

/// The square root rounded down, by bisection on `[0, 2^64)`.
fn isqrt_u128(value: u128) -> (r: u128)
    ensures
        is_isqrt(value as int, r as int),
{
    let mut low: u128 = 0;
    let mut high: u128 = 0x1_0000_0000_0000_0000;
    assert(value < high * high) by (nonlinear_arith)
        requires
            high == 0x1_0000_0000_0000_0000u128,
            value <= u128::MAX,
    ;
    while high - low > 1
        invariant
            low < high <= 0x1_0000_0000_0000_0000u128,
            low * low <= value,
            value < high * high,
        decreases high - low,
    {
        let middle = low + (high - low) / 2;
        assert(middle * middle < 0x1_0000_0000_0000_0000_0000_0000_0000_0000) by (nonlinear_arith)
            requires
                middle < 0x1_0000_0000_0000_0000u128,
        ;
        if middle * middle <= value {
            low = middle;
        } else {
            high = middle;
        }
    }
    low
}

/// The exact Guruswami–Sudan parameter computation, as
/// `(radius, multiplicity, weighted-degree bound, exclusive radius bound,
/// list-size bound)`.
pub open spec fn gs_parameters_spec(length: int, dimension: int, radius: int, multiplicity: int) -> Result<
    (usize, usize, usize, usize, Option<usize>),
    GrsError,
> {
    if length == 0 {
        Err(GrsError::EmptyCode)
    } else if dimension == 0 {
        Err(GrsError::ZeroDimension)
    } else if dimension > length {
        Err(GrsError::DimensionExceedsLength)
    } else if multiplicity == 0 {
        Err(GrsError::ZeroMultiplicity)
    } else if radius > length {
        Err(GrsError::RadiusExceedsLength)
    } else if dimension == 1 {
        if radius >= length {
            Err(
                GrsError::RadiusOutsideInterpolationBound {
                    radius: radius as usize,
                    exclusive_bound: length as usize,
                },
            )
        } else {
            Ok((radius as usize, multiplicity as usize, 0usize, length as usize, None))
        }
    } else {
        let w = length * (dimension - 1) * multiplicity * (multiplicity + 1);
        let rn = length * (dimension - 1) * (multiplicity + 1);
        let ln = length * multiplicity * (multiplicity + 1);
        if w > u128::MAX {
            Err(GrsError::ArithmeticOverflow)
        } else if isqrt_spec(w) > usize::MAX {
            Err(GrsError::ArithmeticOverflow)
        } else if isqrt_spec(rn / multiplicity) > usize::MAX {
            Err(GrsError::ArithmeticOverflow)
        } else {
            let root = isqrt_spec(rn / multiplicity);
            let bound = if length > root {
                length - root
            } else {
                0
            };
            if radius >= bound {
                Err(
                    GrsError::RadiusOutsideInterpolationBound {
                        radius: radius as usize,
                        exclusive_bound: bound as usize,
                    },
                )
            } else if isqrt_spec(ln / (dimension - 1)) > usize::MAX {
                Err(GrsError::ArithmeticOverflow)
            } else {
                Ok(
                    (
                        radius as usize,
                        multiplicity as usize,
                        isqrt_spec(w) as usize,
                        bound as usize,
                        Some(isqrt_spec(ln / (dimension - 1)) as usize),
                    ),
                )
            }
        }
    }
}

/// Validated Guruswami–Sudan parameters for one decode geometry.
#[derive(Clone, Copy, Debug, Eq, PartialEq)]
pub struct GuruswamiSudanParameters {
    radius: usize,
    multiplicity: usize,
    weighted_degree_bound: usize,
    radius_exclusive_bound: usize,
    list_size_bound: Option<usize>,
}

impl View for GuruswamiSudanParameters {
    type V = (usize, usize, usize, usize, Option<usize>);

    closed spec fn view(&self) -> Self::V {
        (
            self.radius,
            self.multiplicity,
            self.weighted_degree_bound,
            self.radius_exclusive_bound,
            self.list_size_bound,
        )
    }
}

/// The product of all `factors`, as an integer.
pub open spec fn product_spec(factors: Seq<u128>) -> int
    decreases factors.len(),
{
    if factors.len() == 0 {
        1
    } else {
        product_spec(factors.drop_last()) * factors.last()
    }
}

/// Some prefix product of `factors` exceeds `u128::MAX`.
pub open spec fn product_overflows(factors: Seq<u128>) -> bool {
    exists|i: int| 0 <= i <= factors.len() && #[trigger] product_spec(factors.take(i)) > u128::MAX
}

/// The checked product of `factors`, failing when a running product overflows.
pub fn checked_product(factors: &[u128]) -> (r: Result<u128, GrsError>)
    ensures
        product_overflows(factors@) ==> r == Err::<u128, GrsError>(GrsError::ArithmeticOverflow),
        !product_overflows(factors@) ==> r == Ok::<u128, GrsError>(product_spec(factors@) as u128),
{
    let mut product: u128 = 1;
    let mut i: usize = 0;
    proof {
        assert(factors@.take(0) =~= Seq::<u128>::empty());
    }
    while i < factors.len()
        invariant
            i <= factors@.len(),
            product == product_spec(factors@.take(i as int)),
            forall|j: int| 0 <= j <= i ==> #[trigger] product_spec(factors@.take(j)) <= u128::MAX,
        decreases factors@.len() - i,
    {
        proof {
            assert(factors@.take(i + 1).drop_last() =~= factors@.take(i as int));
        }
        match product.checked_mul(factors[i]) {
            Some(next) => {
                product = next;
            },
            None => {
                proof {
                    assert(product_spec(factors@.take(i + 1)) > u128::MAX);
                }
                return Err(GrsError::ArithmeticOverflow);
            },
        }
        i += 1;
    }
    proof {
        assert(factors@.take(i as int) =~= factors@);
    }
    Ok(product)
}

proof fn lemma_product4(a: u128, b: u128, c: u128, d: u128)
    ensures
        product_spec(seq![a, b, c, d]) == a * b * c * d,
        product_spec(seq![a, b, c]) == a * b * c,
        a >= 1 && b >= 1 && c >= 1 && d >= 1 ==> (product_overflows(seq![a, b, c, d]) <==> a
            * b * c * d > u128::MAX),
        a >= 1 && b >= 1 && c >= 1 ==> (product_overflows(seq![a, b, c]) <==> a * b * c
            > u128::MAX),
{
    reveal_with_fuel(product_spec, 5);
    let s4 = seq![a, b, c, d];
    let s3 = seq![a, b, c];
    assert(s4.drop_last() =~= s3);
    assert(s3.drop_last() =~= seq![a, b]);
    assert(seq![a, b].drop_last() =~= seq![a]);
    assert(seq![a].drop_last() =~= Seq::<u128>::empty());
    assert(s4.take(4) =~= s4);
    assert(s4.take(3) =~= s3);
    assert(s4.take(2) =~= seq![a, b]);
    assert(s4.take(1) =~= seq![a]);
    assert(s4.take(0) =~= Seq::<u128>::empty());
    assert(s3.take(3) =~= s3);
    assert(s3.take(2) =~= seq![a, b]);
    assert(s3.take(1) =~= seq![a]);
    assert(s3.take(0) =~= Seq::<u128>::empty());
    if a >= 1 && b >= 1 && c >= 1 {
        assert(a <= a * b && a * b <= a * b * c) by (nonlinear_arith)
            requires
                a >= 1,
                b >= 1,
                c >= 1,
        ;
        if d >= 1 {
            assert(a * b * c <= a * b * c * d) by (nonlinear_arith)
                requires
                    a * b * c >= 1,
                    d >= 1,
            ;
            if a * b * c * d > u128::MAX {
                assert(product_spec(s4.take(4)) > u128::MAX);
            }
        }
        if a * b * c > u128::MAX {
            assert(product_spec(s3.take(3)) > u128::MAX);
            if d >= 1 {
                assert(product_spec(s4.take(3)) > u128::MAX);
            }
        }
    }
}

fn u128_to_usize(value: u128) -> (r: Result<usize, GrsError>)
    ensures
        value <= usize::MAX ==> r == Ok::<usize, GrsError>(value as usize),
        value > usize::MAX ==> r == Err::<usize, GrsError>(GrsError::ArithmeticOverflow),
{
    if value > usize::MAX as u128 {
        Err(GrsError::ArithmeticOverflow)
    } else {
        Ok(value as usize)
    }
}

impl GuruswamiSudanParameters {
    /// Validate a decode geometry and compute the exact integer bounds of the
    /// Guruswami–Sudan construction.
    pub fn new(length: usize, dimension: usize, radius: usize, multiplicity: usize) -> (r: Result<
        Self,
        GrsError,
    >)
        ensures
            match r {
                Ok(p) => gs_parameters_spec(
                    length as int,
                    dimension as int,
                    radius as int,
                    multiplicity as int,
                ) == Ok::<(usize, usize, usize, usize, Option<usize>), GrsError>(p@),
                Err(e) => gs_parameters_spec(
                    length as int,
                    dimension as int,
                    radius as int,
                    multiplicity as int,
                ) == Err::<(usize, usize, usize, usize, Option<usize>), GrsError>(e),
            },
    {
        if length == 0 {
            return Err(GrsError::EmptyCode);
        }
        if dimension == 0 {
            return Err(GrsError::ZeroDimension);
        }
        if dimension > length {
            return Err(GrsError::DimensionExceedsLength);
        }
        if multiplicity == 0 {
            return Err(GrsError::ZeroMultiplicity);
        }
        if radius > length {
            return Err(GrsError::RadiusExceedsLength);
        }
        if dimension == 1 {
            let radius_exclusive_bound = length;
            if radius >= radius_exclusive_bound {
                return Err(
                    GrsError::RadiusOutsideInterpolationBound {
                        radius,
                        exclusive_bound: radius_exclusive_bound,
                    },
                );
            }
            return Ok(
                Self {
                    radius,
                    multiplicity,
                    weighted_degree_bound: 0,
                    radius_exclusive_bound,
                    list_size_bound: None,
                },
            );
        }
        let ghost n = length as int;
        let ghost k1 = (dimension - 1) as int;
        let ghost m = multiplicity as int;
        let length_wide = length as u128;
        let dimension_minus_one = (dimension - 1) as u128;
        let multiplicity_wide = multiplicity as u128;
        let multiplicity_plus_one = multiplicity_wide + 1;
        proof {
            lemma_product4(length_wide, dimension_minus_one, multiplicity_wide, multiplicity_plus_one);
            lemma_product4(length_wide, dimension_minus_one, multiplicity_plus_one, 1);
            lemma_product4(length_wide, multiplicity_wide, multiplicity_plus_one, 1);
            assert(n * k1 * (m + 1) <= n * k1 * m * (m + 1)) by (nonlinear_arith)
                requires
                    n >= 1,
                    k1 >= 1,
                    m >= 1,
            ;
            assert(n * m * (m + 1) <= n * k1 * m * (m + 1)) by (nonlinear_arith)
                requires
                    n >= 1,
                    k1 >= 1,
                    m >= 1,
            ;
        }
        let weighted_radicand = checked_product(
            &[length_wide, dimension_minus_one, multiplicity_wide, multiplicity_plus_one],
        )?;
        let weighted_root = isqrt_u128(weighted_radicand);
        proof {
            lemma_isqrt_unique(weighted_radicand as int, weighted_root as int);
        }
        let weighted_degree_bound = u128_to_usize(weighted_root)?;
        let radius_radicand_numerator = checked_product(
            &[length_wide, dimension_minus_one, multiplicity_plus_one],
        )?;
        let radius_root_wide = isqrt_u128(radius_radicand_numerator / multiplicity_wide);
        proof {
            lemma_isqrt_unique(
                (radius_radicand_numerator / multiplicity_wide) as int,
                radius_root_wide as int,
            );
        }
        let radius_root = u128_to_usize(radius_root_wide)?;
        let radius_exclusive_bound = length.saturating_sub(radius_root);
        if radius >= radius_exclusive_bound {
            return Err(
                GrsError::RadiusOutsideInterpolationBound {
                    radius,
                    exclusive_bound: radius_exclusive_bound,
                },
            );
        }
        let list_radicand_numerator = checked_product(
            &[length_wide, multiplicity_wide, multiplicity_plus_one],
        )?;
        let list_root = isqrt_u128(list_radicand_numerator / dimension_minus_one);
        proof {
            lemma_isqrt_unique(
                (list_radicand_numerator / dimension_minus_one) as int,
                list_root as int,
            );
        }
        let list_size_bound = u128_to_usize(list_root)?;
        Ok(
            Self {
                radius,
                multiplicity,
                weighted_degree_bound,
                radius_exclusive_bound,
                list_size_bound: Some(list_size_bound),
            },
        )
    }

    pub fn radius(self) -> (r: usize)
        ensures
            r == self@.0,
    {
        self.radius
    }

    pub fn multiplicity(self) -> (r: usize)
        ensures
            r == self@.1,
    {
        self.multiplicity
    }

    pub fn weighted_degree_bound(self) -> (r: usize)
        ensures
            r == self@.2,
    {
        self.weighted_degree_bound
    }

    pub fn radius_exclusive_bound(self) -> (r: usize)
        ensures
            r == self@.3,
    {
        self.radius_exclusive_bound
    }

    pub fn list_size_bound(self) -> (r: Option<usize>)
        ensures
            r == self@.4,
    {
        self.list_size_bound
    }
}

} // verus!

verus! {

/// Two positions of `s` hold the same element.
pub open spec fn has_duplicate<F>(s: Seq<F>) -> bool {
    exists|i: int, j: int| 0 <= i < j < s.len() && s[i] == s[j]
}

/// The GRS codeword of message coefficients `message`: `v_i · f(α_i)`.
pub open spec fn grs_encode_spec<F: Field>(points: Seq<F>, multipliers: Seq<F>, message: Seq<F>) -> Seq<F> {
    Seq::new(points.len(), |i: int| eval_seq(message, points[i]).mul_spec(multipliers[i]))
}

/// A decoded message together with its codeword and distance to the
/// received word.
#[derive(Debug, Eq, PartialEq)]
pub struct DecodedCandidate<F: Field> {
    pub polynomial: Polynomial<F>,
    pub codeword: Vec<F>,
    pub distance: usize,
}

/// A generalized Reed–Solomon code `GRS(α, v, k)` over a [`Field`].
#[derive(Debug, Eq, PartialEq)]
pub struct GrsCode<F: Field> {
    evaluation_points: Vec<F>,
    multipliers: Vec<F>,
    dimension: usize,
}

impl<F: Field> GrsCode<F> {
    pub closed spec fn points_spec(&self) -> Seq<F> {
        self.evaluation_points@
    }

    pub closed spec fn multipliers_spec(&self) -> Seq<F> {
        self.multipliers@
    }

    pub closed spec fn dimension_spec(&self) -> nat {
        self.dimension as nat
    }

    /// A validated code: distinct canonical points, nonzero canonical
    /// multipliers of the same count, and `1 <= k <= n`.
    pub open spec fn wf(&self) -> bool {
        &&& F::field_valid()
        &&& seq_wf(self.points_spec())
        &&& seq_wf(self.multipliers_spec())
        &&& self.points_spec().len() > 0
        &&& self.points_spec().len() == self.multipliers_spec().len()
        &&& 1 <= self.dimension_spec() <= self.points_spec().len()
        &&& !has_duplicate(self.points_spec())
        &&& forall|i: int|
            0 <= i < self.multipliers_spec().len() ==> #[trigger] self.multipliers_spec()[i]
                != F::zero_spec()
    }

    pub fn new(evaluation_points: Vec<F>, multipliers: Vec<F>, dimension: usize) -> (r: Result<
        Self,
        GrsError,
    >)
        requires
            F::field_valid(),
            seq_wf(evaluation_points@),
            seq_wf(multipliers@),
        ensures
            evaluation_points@.len() == 0 ==> r == Err::<Self, GrsError>(GrsError::EmptyCode),
            evaluation_points@.len() > 0 && evaluation_points@.len() != multipliers@.len() ==> r
                == Err::<Self, GrsError>(GrsError::MultiplierLengthMismatch),
            evaluation_points@.len() > 0 && evaluation_points@.len() == multipliers@.len()
                && dimension == 0 ==> r == Err::<Self, GrsError>(GrsError::ZeroDimension),
            evaluation_points@.len() > 0 && evaluation_points@.len() == multipliers@.len()
                && dimension > evaluation_points@.len() ==> r == Err::<Self, GrsError>(
                GrsError::DimensionExceedsLength,
            ),
            evaluation_points@.len() > 0 && evaluation_points@.len() == multipliers@.len() && 1
                <= dimension <= evaluation_points@.len() && has_duplicate(evaluation_points@) ==> r
                == Err::<Self, GrsError>(GrsError::DuplicateEvaluationPoint),
            evaluation_points@.len() > 0 && evaluation_points@.len() == multipliers@.len() && 1
                <= dimension <= evaluation_points@.len() && !has_duplicate(evaluation_points@)
                && multipliers@.contains(F::zero_spec()) ==> r == Err::<Self, GrsError>(
                GrsError::ZeroMultiplier,
            ),
            r is Ok <==> (evaluation_points@.len() > 0 && evaluation_points@.len()
                == multipliers@.len() && 1 <= dimension <= evaluation_points@.len()
                && !has_duplicate(evaluation_points@) && !multipliers@.contains(F::zero_spec())),
            r matches Ok(code) ==> code.wf() && code.points_spec() == evaluation_points@
                && code.multipliers_spec() == multipliers@ && code.dimension_spec() == dimension,
    {
        if evaluation_points.len() == 0 {
            return Err(GrsError::EmptyCode);
        }
        if evaluation_points.len() != multipliers.len() {
            return Err(GrsError::MultiplierLengthMismatch);
        }
        if dimension == 0 {
            return Err(GrsError::ZeroDimension);
        }
        if dimension > evaluation_points.len() {
            return Err(GrsError::DimensionExceedsLength);
        }
        let n = evaluation_points.len();
        let mut index: usize = 0;
        while index < n
            invariant
                n == evaluation_points@.len(),
                n == multipliers@.len(),
                1 <= dimension <= n,
                index <= n,
                forall|i: int, j: int|
                    0 <= i < j < index ==> evaluation_points@[i] != evaluation_points@[j],
            decreases n - index,
        {
            let point = evaluation_points[index];
            let mut earlier: usize = 0;
            while earlier < index
                invariant
                    n == evaluation_points@.len(),
                    n == multipliers@.len(),
                    1 <= dimension <= n,
                    index < n,
                    point == evaluation_points@[index as int],
                    earlier <= index,
                    forall|i: int| 0 <= i < earlier ==> evaluation_points@[i] != point,
                decreases index - earlier,
            {
                if evaluation_points[earlier].equals(point) {
                    proof {
                        assert(has_duplicate(evaluation_points@)) by {
                            assert(evaluation_points@[earlier as int] == evaluation_points@[index as int]);
                        }
                    }
                    return Err(GrsError::DuplicateEvaluationPoint);
                }
                earlier += 1;
            }
            index += 1;
        }
        proof {
            assert(!has_duplicate(evaluation_points@)) by {
                if has_duplicate(evaluation_points@) {
                    let (i, j) = choose|i: int, j: int|
                        0 <= i < j < n && evaluation_points@[i] == evaluation_points@[j];
                    assert(evaluation_points@[i] != evaluation_points@[j]);
                }
            }
        }
        let mut index: usize = 0;
        while index < n
            invariant
                n == multipliers@.len(),
                n == evaluation_points@.len(),
                1 <= dimension <= n,
                !has_duplicate(evaluation_points@),
                seq_wf(multipliers@),
                index <= n,
                forall|i: int| 0 <= i < index ==> multipliers@[i] != F::zero_spec(),
            decreases n - index,
        {
            if multipliers[index].is_zero() {
                proof {
                    assert(multipliers@[index as int] == F::zero_spec());
                }
                return Err(GrsError::ZeroMultiplier);
            }
            index += 1;
        }
        proof {
            assert(!multipliers@.contains(F::zero_spec())) by {
                if multipliers@.contains(F::zero_spec()) {
                    let i = choose|i: int| 0 <= i < n && multipliers@[i] == F::zero_spec();
                    assert(multipliers@[i] != F::zero_spec());
                }
            }
        }
        Ok(Self { evaluation_points, multipliers, dimension })
    }

    pub fn length(&self) -> (r: usize)
        ensures
            r == self.points_spec().len(),
    {
        self.evaluation_points.len()
    }

    pub fn dimension(&self) -> (r: usize)
        ensures
            r == self.dimension_spec(),
    {
        self.dimension
    }

    /// Encode a message polynomial of degree below `k`.
    pub fn encode(&self, message: &Polynomial<F>) -> (r: Result<Vec<F>, GrsError>)
        requires
            self.wf(),
            message.wf(),
        ensures
            message@.len() > self.dimension_spec() ==> r == Err::<Vec<F>, GrsError>(
                GrsError::MessageDegreeTooLarge,
            ),
            message@.len() <= self.dimension_spec() ==> r is Ok,
            r matches Ok(c) ==> c@ == grs_encode_spec(
                self.points_spec(),
                self.multipliers_spec(),
                message@,
            ) && seq_wf(c@),
    {
        if message.coefficients().len() > self.dimension {
            return Err(GrsError::MessageDegreeTooLarge);
        }
        let n = self.evaluation_points.len();
        let mut codeword: Vec<F> = Vec::with_capacity(n);
        let mut index: usize = 0;
        while index < n
            invariant
                self.wf(),
                message.wf(),
                n == self.points_spec().len(),
                index <= n,
                codeword@.len() == index,
                forall|i: int|
                    0 <= i < index ==> #[trigger] codeword@[i] == eval_seq(
                        message@,
                        self.points_spec()[i],
                    ).mul_spec(self.multipliers_spec()[i]),
                seq_wf(codeword@),
            decreases n - index,
        {
            let value = message.evaluate(self.evaluation_points[index]);
            codeword.push(value.mul(self.multipliers[index]));
            index += 1;
        }
        assert(codeword@ =~= grs_encode_spec(self.points_spec(), self.multipliers_spec(), message@));
        Ok(codeword)
    }
}

/// The field enumeration is nonempty, holds zero and one, and repeats nothing.
pub open spec fn valid_enumeration<F: Field>(elements: Seq<F>) -> bool {
    elements.len() > 0 && elements.contains(F::zero_spec()) && elements.contains(F::one_spec())
        && !has_duplicate(elements)
}

pub fn validate_field_enumeration<F: Field>(field_elements: &[F]) -> (r: Result<(), GrsError>)
    requires
        F::field_valid(),
    ensures
        r is Ok <==> valid_enumeration(field_elements@),
        r matches Err(e) ==> e == GrsError::InvalidFieldEnumeration,
{
    let n = field_elements.len();
    if n == 0 {
        return Err(GrsError::InvalidFieldEnumeration);
    }
    let zero = F::zero();
    let one = F::one();
    let mut has_zero = false;
    let mut has_one = false;
    let mut index: usize = 0;
    while index < n
        invariant
            n == field_elements@.len(),
            index <= n,
            zero == F::zero_spec(),
            one == F::one_spec(),
            has_zero == field_elements@.subrange(0, index as int).contains(zero),
            has_one == field_elements@.subrange(0, index as int).contains(one),
        decreases n - index,
    {
        proof {
            let old_prefix = field_elements@.subrange(0, index as int);
            let prefix = field_elements@.subrange(0, index + 1);
            let e = field_elements@[index as int];
            assert(prefix =~= old_prefix.push(e));
            assert forall|x: F| prefix.contains(x) == (old_prefix.contains(x) || e == x) by {
                if prefix.contains(x) {
                    let i = choose|i: int| 0 <= i < prefix.len() && prefix[i] == x;
                    if i < index {
                        assert(old_prefix[i] == x);
                    }
                }
                if old_prefix.contains(x) {
                    let i = choose|i: int| 0 <= i < old_prefix.len() && old_prefix[i] == x;
                    assert(prefix[i] == x);
                }
                if e == x {
                    assert(prefix[index as int] == x);
                }
            }
        }
        if field_elements[index].equals(zero) {
            has_zero = true;
        }
        if field_elements[index].equals(one) {
            has_one = true;
        }
        index += 1;
    }
    assert(field_elements@.subrange(0, n as int) =~= field_elements@);
    if !has_zero || !has_one {
        return Err(GrsError::InvalidFieldEnumeration);
    }
    let mut index: usize = 0;
    while index < n
        invariant
            n == field_elements@.len(),
            index <= n,
            forall|i: int, j: int| 0 <= i < j < index ==> field_elements@[i] != field_elements@[j],
        decreases n - index,
    {
        let element = field_elements[index];
        let mut earlier: usize = 0;
        while earlier < index
            invariant
                n == field_elements@.len(),
                index < n,
                element == field_elements@[index as int],
                earlier <= index,
                forall|i: int| 0 <= i < earlier ==> field_elements@[i] != element,
            decreases index - earlier,
        {
            if field_elements[earlier].equals(element) {
                proof {
                    assert(field_elements@[earlier as int] == field_elements@[index as int]);
                }
                return Err(GrsError::InvalidFieldEnumeration);
            }
            earlier += 1;
        }
        index += 1;
    }
    Ok(())
}

/// The running message count `fs^1, fs^2, …` of the exhaustive search,
/// starting from `count`, fails on overflow or once it exceeds the cap.
pub open spec fn message_count_check(field_size: int, steps: nat, count: int) -> Result<(), GrsError>
    decreases steps,
{
    if steps == 0 {
        Ok(())
    } else if count * field_size > usize::MAX {
        Err(GrsError::ArithmeticOverflow)
    } else if count * field_size > MAX_REFERENCE_MESSAGES {
        Err(GrsError::ReferenceInstanceTooLarge)
    } else {
        message_count_check(field_size, (steps - 1) as nat, count * field_size)
    }
}

pub fn check_reference_message_count(field_size: usize, dimension: usize) -> (r: Result<(), GrsError>)
    ensures
        r == message_count_check(field_size as int, dimension as nat, 1),
{
    let mut count: usize = 1;
    let mut step: usize = 0;
    while step < dimension
        invariant
            step <= dimension,
            count <= MAX_REFERENCE_MESSAGES,
            message_count_check(field_size as int, dimension as nat, 1) == message_count_check(
                field_size as int,
                (dimension - step) as nat,
                count as int,
            ),
        decreases dimension - step,
    {
        match count.checked_mul(field_size) {
            Some(next) => {
                count = next;
            },
            None => {
                return Err(GrsError::ArithmeticOverflow);
            },
        }
        if count > MAX_REFERENCE_MESSAGES {
            return Err(GrsError::ReferenceInstanceTooLarge);
        }
        step += 1;
    }
    Ok(())
}

/// The number of Hasse-derivative constraints `n · m (m + 1) / 2`.
pub fn checked_constraint_count(length: usize, multiplicity: usize) -> (r: Result<usize, GrsError>)
    ensures
        multiplicity + 1 > usize::MAX || length * multiplicity > usize::MAX || length * multiplicity
            * (multiplicity + 1) > usize::MAX ==> r == Err::<usize, GrsError>(
            GrsError::ArithmeticOverflow,
        ),
        !(multiplicity + 1 > usize::MAX || length * multiplicity > usize::MAX || length
            * multiplicity * (multiplicity + 1) > usize::MAX) ==> r == Ok::<usize, GrsError>(
            (length * multiplicity * (multiplicity + 1) / 2) as usize,
        ),
{
    let multiplicity_plus_one = match multiplicity.checked_add(1) {
        Some(v) => v,
        None => {
            return Err(GrsError::ArithmeticOverflow);
        },
    };
    let product = match length.checked_mul(multiplicity) {
        Some(v) => v,
        None => {
            return Err(GrsError::ArithmeticOverflow);
        },
    };
    match product.checked_mul(multiplicity_plus_one) {
        Some(v) => Ok(v / 2),
        None => Err(GrsError::ArithmeticOverflow),
    }
}

} // verus!

verus! {

/// A monomial `x^a · y^b` of the interpolation polynomial.
#[derive(Clone, Copy, Debug, Eq, PartialEq)]
pub struct BivariateMonomial {
    pub x_degree: usize,
    pub y_degree: usize,
}

/// A nonzero term of the interpolation polynomial.
#[derive(Clone, Copy, Debug, Eq, PartialEq)]
pub struct BivariateTerm<F: Field> {
    pub monomial: BivariateMonomial,
    pub coefficient: F,
}

/// A bivariate polynomial stored as its nonzero terms.
#[derive(Debug, Eq, PartialEq)]
pub struct BivariatePolynomial<F: Field> {
    terms: Vec<BivariateTerm<F>>,
}

impl<F: Field> View for BivariatePolynomial<F> {
    type V = Seq<BivariateTerm<F>>;

    closed spec fn view(&self) -> Seq<BivariateTerm<F>> {
        self.terms@
    }
}

/// The terms with nonzero coefficient among the first `n` monomials.
pub open spec fn nonzero_terms<F: Field>(monomials: Seq<BivariateMonomial>, coefficients: Seq<F>, n: nat) -> Seq<
    BivariateTerm<F>,
>
    decreases n,
{
    if n == 0 {
        Seq::empty()
    } else {
        let prev = nonzero_terms(monomials, coefficients, (n - 1) as nat);
        if coefficients[n - 1] == F::zero_spec() {
            prev
        } else {
            prev.push(BivariateTerm { monomial: monomials[n - 1], coefficient: coefficients[n - 1] })
        }
    }
}

/// The Hasse derivative of order `(i, j)` of one monomial, evaluated at `(x, y)`:
/// `C(a, i) C(b, j) x^(a-i) y^(b-j)`.
pub open spec fn hasse_value_spec<F: Field>(
    monomial: BivariateMonomial,
    x_order: nat,
    y_order: nat,
    x: F,
    y: F,
) -> F {
    if x_order > monomial.x_degree || y_order > monomial.y_degree {
        F::zero_spec()
    } else {
        binomial_field::<F>(monomial.x_degree as nat, x_order).mul_spec(
            binomial_field::<F>(monomial.y_degree as nat, y_order),
        ).mul_spec(x.pow_spec((monomial.x_degree - x_order) as nat)).mul_spec(
            y.pow_spec((monomial.y_degree - y_order) as nat),
        )
    }
}

/// The Hasse derivative of order `(i, j)` of the first `n` terms at `(x, y)`.
pub open spec fn hasse_eval_spec<F: Field>(
    terms: Seq<BivariateTerm<F>>,
    n: nat,
    x_order: nat,
    y_order: nat,
    x: F,
    y: F,
) -> F
    decreases n,
{
    if n == 0 {
        F::zero_spec()
    } else {
        hasse_eval_spec(terms, (n - 1) as nat, x_order, y_order, x, y).add_spec(
            terms[n - 1].coefficient.mul_spec(
                hasse_value_spec(terms[n - 1].monomial, x_order, y_order, x, y),
            ),
        )
    }
}

/// The polynomial has a zero of multiplicity `m` at every `(points[i], values[i])`.
pub open spec fn satisfies_spec<F: Field>(
    terms: Seq<BivariateTerm<F>>,
    points: Seq<F>,
    values: Seq<F>,
    multiplicity: nat,
) -> bool {
    forall|i: int, xo: nat, yo: nat|
        0 <= i < points.len() && i < values.len() && xo < multiplicity && yo < multiplicity - xo
            ==> #[trigger] hasse_eval_spec(terms, terms.len(), xo, yo, points[i], values[i])
            == F::zero_spec()
}

/// `c^d` as canonical coefficient sequences.
pub open spec fn pow_seq<F: Field>(c: Seq<F>, d: nat) -> Seq<F>
    decreases d,
{
    if d == 0 {
        seq![F::one_spec()]
    } else {
        crate::polynomial::mul_seq(pow_seq(c, (d - 1) as nat), c)
    }
}

/// Add `coefficient · x^shift · power` into the accumulator, growing it as needed.
pub open spec fn subst_step<F: Field>(acc: Seq<F>, shift: nat, coefficient: F, power: Seq<F>) -> Seq<F> {
    Seq::new(
        crate::polynomial::max_len(acc.len(), shift + power.len()),
        |i: int|
            if shift <= i < shift + power.len() {
                crate::polynomial::coeff_at(acc, i).add_spec(coefficient.mul_spec(power[i - shift]))
            } else {
                crate::polynomial::coeff_at(acc, i)
            },
    )
}

/// The coefficients of `Q(x, c(x))` accumulated over the first `n` terms.
pub open spec fn subst_acc<F: Field>(terms: Seq<BivariateTerm<F>>, n: nat, c: Seq<F>) -> Seq<F>
    decreases n,
{
    if n == 0 {
        Seq::empty()
    } else {
        let t = terms[n - 1];
        subst_step(
            subst_acc(terms, (n - 1) as nat, c),
            t.monomial.x_degree as nat,
            t.coefficient,
            pow_seq(c, t.monomial.y_degree as nat),
        )
    }
}

/// The canonical univariate polynomial `Q(x, c(x))`.
pub open spec fn substitute_spec<F: Field>(terms: Seq<BivariateTerm<F>>, c: Seq<F>) -> Seq<F> {
    trim(subst_acc(terms, terms.len(), c))
}

pub open spec fn terms_wf<F: Field>(terms: Seq<BivariateTerm<F>>) -> bool {
    forall|i: int| 0 <= i < terms.len() ==> (#[trigger] terms[i]).coefficient.wf()
}

/// The largest `y` degree among the terms (zero for no terms).
pub open spec fn max_y_degree<F: Field>(terms: Seq<BivariateTerm<F>>, n: nat) -> nat
    decreases n,
{
    if n == 0 {
        0
    } else {
        let prev = max_y_degree(terms, (n - 1) as nat);
        if terms[n - 1].monomial.y_degree > prev {
            terms[n - 1].monomial.y_degree as nat
        } else {
            prev
        }
    }
}

proof fn lemma_max_y_degree<F: Field>(terms: Seq<BivariateTerm<F>>, n: nat)
    requires
        n <= terms.len(),
    ensures
        forall|i: int| 0 <= i < n ==> terms[i].monomial.y_degree <= max_y_degree(terms, n),
        n > 0 ==> exists|i: int|
            0 <= i < n && terms[i].monomial.y_degree == max_y_degree(terms, n),
    decreases n,
{
    if n > 0 {
        lemma_max_y_degree(terms, (n - 1) as nat);
        let prev = max_y_degree(terms, (n - 1) as nat);
        if terms[n - 1].monomial.y_degree > prev {
            assert(terms[n - 1].monomial.y_degree == max_y_degree(terms, n));
        } else if n > 1 {
            let i = choose|i: int|
                0 <= i < n - 1 && terms[i].monomial.y_degree == max_y_degree(terms, (n - 1) as nat);
            assert(terms[i].monomial.y_degree == max_y_degree(terms, n));
        } else {
            assert(terms[0].monomial.y_degree == max_y_degree(terms, n));
        }
    }
}

proof fn lemma_pow_seq<F: Field>(c: Seq<F>, d: nat)
    requires
        F::field_valid(),
        seq_wf(c),
        crate::polynomial::is_trimmed(c),
    ensures
        seq_wf(pow_seq(c, d)),
        crate::polynomial::is_trimmed(pow_seq(c, d)),
        pow_seq(c, d).len() <= d * c.len() + 1,
    decreases d,
{
    F::lemma_closure(F::one_spec(), F::one_spec());
    if d > 0 {
        lemma_pow_seq(c, (d - 1) as nat);
        let p = pow_seq(c, (d - 1) as nat);
        crate::polynomial::lemma_mul_seq_len(p, c);
        if p.len() > 0 && c.len() > 0 {
            lemma_conv_wf(p, c);
            lemma_trim(crate::polynomial::conv(p, c));
        }
        assert(pow_seq(c, d).len() <= d * c.len() + 1) by (nonlinear_arith)
            requires
                pow_seq(c, d).len() <= p.len() + c.len(),
                p.len() <= (d - 1) * c.len() + 1,
                d >= 1,
        ;
    }
}

proof fn lemma_conv_partial_wf<F: Field>(a: Seq<F>, b: Seq<F>, k: int, n: int)
    requires
        F::field_valid(),
        seq_wf(a),
        seq_wf(b),
        n <= a.len(),
    ensures
        crate::polynomial::conv_partial(a, b, k, n).wf(),
    decreases n,
{
    F::lemma_closure(F::zero_spec(), F::zero_spec());
    if n > 0 {
        lemma_conv_partial_wf(a, b, k, n - 1);
        let j = k - (n - 1);
        if 0 <= j < b.len() {
            F::lemma_closure(a[n - 1], b[j]);
            F::lemma_closure(
                crate::polynomial::conv_partial(a, b, k, n - 1),
                a[n - 1].mul_spec(b[j]),
            );
        }
    }
}

proof fn lemma_conv_wf<F: Field>(a: Seq<F>, b: Seq<F>)
    requires
        F::field_valid(),
        seq_wf(a),
        seq_wf(b),
        a.len() > 0,
        b.len() > 0,
    ensures
        seq_wf(crate::polynomial::conv(a, b)),
{
    let c = crate::polynomial::conv(a, b);
    assert forall|k: int| 0 <= k < c.len() implies (#[trigger] c[k]).wf() by {
        lemma_conv_partial_wf(a, b, k, a.len() as int);
    }
}

/// The monomial `x^a y^b` respects the weighted-degree bound
/// `a + w·b <= W`.
pub open spec fn is_interpolation_monomial(monomial: BivariateMonomial, y_weight: nat, bound: nat) -> bool {
    monomial.x_degree + y_weight * monomial.y_degree <= bound
}

/// The row of monomials `x^0 y^b, x^1 y^b, …, x^(W − w·b) y^b`.
pub open spec fn monomial_row(y_weight: nat, bound: nat, y_degree: nat) -> Seq<BivariateMonomial> {
    Seq::new(
        (bound - y_weight * y_degree + 1) as nat,
        |x: int| BivariateMonomial { x_degree: x as usize, y_degree: y_degree as usize },
    )
}

/// The rows `b = 0, 1, …, rows − 1`, concatenated (`y`-major order).
pub open spec fn monomial_rows(y_weight: nat, bound: nat, rows: nat) -> Seq<BivariateMonomial>
    decreases rows,
{
    if rows == 0 {
        Seq::empty()
    } else {
        monomial_rows(y_weight, bound, (rows - 1) as nat) + monomial_row(y_weight, bound, (rows - 1) as nat)
    }
}

/// Every monomial `x^a y^b` with `a + (k − 1)·b <= W`, listed `y`-major:
/// for `b = 0, 1, …, ⌊W / (k − 1)⌋` the exponents `a = 0, …, W − (k − 1)·b`.
pub fn interpolation_monomials(dimension: usize, weighted_degree_bound: usize) -> (r: Vec<
    BivariateMonomial,
>)
    requires
        dimension >= 2,
    ensures
        r@ == monomial_rows(
            (dimension - 1) as nat,
            weighted_degree_bound as nat,
            (weighted_degree_bound as nat / (dimension - 1) as nat + 1) as nat,
        ),
        r@.len() >= weighted_degree_bound + 1,
        forall|i: int|
            0 <= i < r@.len() ==> is_interpolation_monomial(
                #[trigger] r@[i],
                (dimension - 1) as nat,
                weighted_degree_bound as nat,
            ),
{
    let y_weight = dimension - 1;
    let maximum_y_degree = weighted_degree_bound / y_weight;
    let ghost w = y_weight as nat;
    let ghost bound = weighted_degree_bound as nat;
    let mut monomials: Vec<BivariateMonomial> = Vec::new();
    let mut y_degree: usize = 0;
    loop
        invariant_except_break
            y_degree <= maximum_y_degree,
            monomials@ == monomial_rows(w, bound, y_degree as nat),
            y_degree > 0 ==> monomials@.len() >= weighted_degree_bound + 1,
        invariant
            y_weight == dimension - 1,
            y_weight >= 1,
            w == y_weight,
            bound == weighted_degree_bound,
            maximum_y_degree == weighted_degree_bound / y_weight,
            forall|i: int|
                0 <= i < monomials@.len() ==> is_interpolation_monomial(
                    #[trigger] monomials@[i],
                    w,
                    bound,
                ),
        ensures
            monomials@ == monomial_rows(w, bound, (maximum_y_degree + 1) as nat),
            monomials@.len() >= weighted_degree_bound + 1,
        decreases maximum_y_degree - y_degree,
    {
        proof {
            assert(y_weight * y_degree <= weighted_degree_bound) by (nonlinear_arith)
                requires
                    y_degree <= weighted_degree_bound / y_weight,
                    y_weight >= 1,
            ;
        }
        let maximum_x_degree = weighted_degree_bound - y_weight * y_degree;
        let ghost before = monomials@;
        let ghost row = monomial_row(w, bound, y_degree as nat);
        assert(row.len() == maximum_x_degree + 1);
        let mut x_degree: usize = 0;
        loop
            invariant_except_break
                x_degree <= maximum_x_degree,
                monomials@ == before + row.subrange(0, x_degree as int),
            invariant
                y_weight >= 1,
                w == y_weight,
                bound == weighted_degree_bound,
                y_weight * y_degree <= weighted_degree_bound,
                maximum_x_degree == weighted_degree_bound - y_weight * y_degree,
                row == monomial_row(w, bound, y_degree as nat),
                row.len() == maximum_x_degree + 1,
                forall|i: int|
                    0 <= i < monomials@.len() ==> is_interpolation_monomial(
                        #[trigger] monomials@[i],
                        w,
                        bound,
                    ),
            ensures
                monomials@ == before + row,
            decreases maximum_x_degree - x_degree,
        {
            monomials.push(BivariateMonomial { x_degree, y_degree });
            proof {
                assert(row[x_degree as int] == BivariateMonomial { x_degree, y_degree });
                assert(row.subrange(0, x_degree + 1) =~= row.subrange(0, x_degree as int).push(
                    row[x_degree as int],
                ));
            }
            if x_degree == maximum_x_degree {
                proof {
                    assert(row.subrange(0, row.len() as int) =~= row);
                }
                break;
            }
            x_degree += 1;
        }
        proof {
            assert(monomial_rows(w, bound, (y_degree + 1) as nat) == before + row);
        }
        if y_degree == maximum_y_degree {
            break;
        }
        y_degree += 1;
    }
    monomials
}

pub fn monomial_hasse_value<F: Field>(
    monomial: BivariateMonomial,
    x_order: usize,
    y_order: usize,
    x: F,
    y: F,
) -> (r: F)
    requires
        F::field_valid(),
        x.wf(),
        y.wf(),
    ensures
        r == hasse_value_spec(monomial, x_order as nat, y_order as nat, x, y),
        r.wf(),
{
    if x_order > monomial.x_degree || y_order > monomial.y_degree {
        return F::zero();
    }
    let bx = binomial_in_field::<F>(monomial.x_degree, x_order);
    let by = binomial_in_field::<F>(monomial.y_degree, y_order);
    let px = x.pow((monomial.x_degree - x_order) as u64);
    let py = y.pow((monomial.y_degree - y_order) as u64);
    bx.mul(by).mul(px).mul(py)
}

impl<F: Field> BivariatePolynomial<F> {
    pub fn new(monomials: Vec<BivariateMonomial>, coefficients: Vec<F>) -> (r: Self)
        requires
            F::field_valid(),
            seq_wf(coefficients@),
        ensures
            r@ == nonzero_terms(
                monomials@,
                coefficients@,
                crate::polynomial::min_len(monomials@.len(), coefficients@.len()),
            ),
            terms_wf(r@),
            forall|i: int| 0 <= i < r@.len() ==> (#[trigger] r@[i]).coefficient != F::zero_spec(),
            forall|i: int|
                0 <= i < r@.len() ==> monomials@.contains((#[trigger] r@[i]).monomial),
    {
        let count = if monomials.len() <= coefficients.len() {
            monomials.len()
        } else {
            coefficients.len()
        };
        let mut terms: Vec<BivariateTerm<F>> = Vec::new();
        let mut index: usize = 0;
        while index < count
            invariant
                F::field_valid(),
                seq_wf(coefficients@),
                count <= monomials@.len(),
                count <= coefficients@.len(),
                index <= count,
                terms@ == nonzero_terms(monomials@, coefficients@, index as nat),
                terms_wf(terms@),
                forall|i: int| 0 <= i < terms@.len() ==> (#[trigger] terms@[i]).coefficient != F::zero_spec(),
                forall|i: int|
                    0 <= i < terms@.len() ==> monomials@.contains((#[trigger] terms@[i]).monomial),
            decreases count - index,
        {
            let coefficient = coefficients[index];
            if !coefficient.is_zero() {
                proof {
                    assert(monomials@[index as int] == monomials@[index as int]);
                }
                terms.push(BivariateTerm { monomial: monomials[index], coefficient });
            }
            index += 1;
        }
        BivariatePolynomial { terms }
    }

    pub fn is_zero(&self) -> (b: bool)
        ensures
            b == (self@.len() == 0),
    {
        self.terms.len() == 0
    }

    pub fn hasse_evaluate(&self, x_order: usize, y_order: usize, x: F, y: F) -> (r: F)
        requires
            F::field_valid(),
            terms_wf(self@),
            x.wf(),
            y.wf(),
        ensures
            r == hasse_eval_spec(self@, self@.len(), x_order as nat, y_order as nat, x, y),
            r.wf(),
    {
        let mut sum = F::zero();
        let mut index: usize = 0;
        while index < self.terms.len()
            invariant
                F::field_valid(),
                terms_wf(self@),
                x.wf(),
                y.wf(),
                index <= self@.len(),
                sum == hasse_eval_spec(self@, index as nat, x_order as nat, y_order as nat, x, y),
                sum.wf(),
            decreases self@.len() - index,
        {
            let term = self.terms[index];
            let value = monomial_hasse_value(term.monomial, x_order, y_order, x, y);
            proof {
                assert(self@[index as int].coefficient.wf());
            }
            sum = sum.add(term.coefficient.mul(value));
            index += 1;
        }
        sum
    }

    pub fn satisfies_constraints(&self, points: &[F], values: &[F], multiplicity: usize) -> (b: bool)
        requires
            F::field_valid(),
            terms_wf(self@),
            seq_wf(points@),
            seq_wf(values@),
        ensures
            b == satisfies_spec(self@, points@, values@, multiplicity as nat),
    {
        let count = if points.len() <= values.len() {
            points.len()
        } else {
            values.len()
        };
        let mut i: usize = 0;
        while i < count
            invariant
                F::field_valid(),
                terms_wf(self@),
                seq_wf(points@),
                seq_wf(values@),
                count == crate::polynomial::min_len(points@.len(), values@.len()),
                i <= count,
                forall|p: int, xo: nat, yo: nat|
                    0 <= p < i && xo < multiplicity && yo < multiplicity - xo ==> #[trigger] hasse_eval_spec(
                        self@,
                        self@.len(),
                        xo,
                        yo,
                        points@[p],
                        values@[p],
                    ) == F::zero_spec(),
            decreases count - i,
        {
            let mut x_order: usize = 0;
            while x_order < multiplicity
                invariant
                    F::field_valid(),
                    terms_wf(self@),
                    seq_wf(points@),
                    seq_wf(values@),
                    count == crate::polynomial::min_len(points@.len(), values@.len()),
                    i < count,
                    x_order <= multiplicity,
                    forall|p: int, xo: nat, yo: nat|
                        0 <= p < i && xo < multiplicity && yo < multiplicity - xo ==> #[trigger] hasse_eval_spec(
                            self@,
                            self@.len(),
                            xo,
                            yo,
                            points@[p],
                            values@[p],
                        ) == F::zero_spec(),
                    forall|xo: nat, yo: nat|
                        xo < x_order && yo < multiplicity - xo ==> #[trigger] hasse_eval_spec(
                            self@,
                            self@.len(),
                            xo,
                            yo,
                            points@[i as int],
                            values@[i as int],
                        ) == F::zero_spec(),
                decreases multiplicity - x_order,
            {
                let mut y_order: usize = 0;
                while y_order < multiplicity - x_order
                    invariant
                        F::field_valid(),
                        terms_wf(self@),
                        seq_wf(points@),
                        seq_wf(values@),
                        count == crate::polynomial::min_len(points@.len(), values@.len()),
                        i < count,
                        x_order < multiplicity,
                        y_order <= multiplicity - x_order,
                        forall|p: int, xo: nat, yo: nat|
                            0 <= p < i && xo < multiplicity && yo < multiplicity - xo ==> #[trigger] hasse_eval_spec(
                                self@,
                                self@.len(),
                                xo,
                                yo,
                                points@[p],
                                values@[p],
                            ) == F::zero_spec(),
                        forall|xo: nat, yo: nat|
                            xo < x_order && yo < multiplicity - xo ==> #[trigger] hasse_eval_spec(
                                self@,
                                self@.len(),
                                xo,
                                yo,
                                points@[i as int],
                                values@[i as int],
                            ) == F::zero_spec(),
                        forall|yo: nat|
                            yo < y_order ==> #[trigger] hasse_eval_spec(
                                self@,
                                self@.len(),
                                x_order as nat,
                                yo,
                                points@[i as int],
                                values@[i as int],
                            ) == F::zero_spec(),
                    decreases multiplicity - x_order - y_order,
                {
                    let value = self.hasse_evaluate(x_order, y_order, points[i], values[i]);
                    if !value.is_zero() {
                        return false;
                    }
                    y_order += 1;
                }
                x_order += 1;
            }
            i += 1;
        }
        true
    }
}

} // verus!

verus! {

impl<F: Field> BivariatePolynomial<F> {
    /// The univariate polynomial `Q(x, c(x))`.
    pub fn substitute_y(&self, polynomial: &Polynomial<F>) -> (r: Polynomial<F>)
        requires
            F::field_valid(),
            terms_wf(self@),
            polynomial.wf(),
            polynomial@.len() < usize::MAX,
            forall|i: int|
                0 <= i < self@.len() ==> (#[trigger] self@[i]).monomial.x_degree + (
                self@[i].monomial.y_degree + 1) * (polynomial@.len() + 1) <= usize::MAX,
        ensures
            r.wf(),
            r@ == substitute_spec(self@, polynomial@),
    {
        let ghost c = polynomial@;
        let ghost terms = self@;
        let mut maximum_y_degree: usize = 0;
        let mut index: usize = 0;
        while index < self.terms.len()
            invariant
                index <= terms.len(),
                terms == self@,
                maximum_y_degree == max_y_degree(terms, index as nat),
            decreases terms.len() - index,
        {
            if self.terms[index].monomial.y_degree > maximum_y_degree {
                maximum_y_degree = self.terms[index].monomial.y_degree;
            }
            index += 1;
        }
        proof {
            lemma_max_y_degree(terms, terms.len());
            if terms.len() > 0 {
                let i = choose|i: int|
                    0 <= i < terms.len() && terms[i].monomial.y_degree == max_y_degree(
                        terms,
                        terms.len(),
                    );
                assert(self@[i].monomial.x_degree + (self@[i].monomial.y_degree + 1) * (
                polynomial@.len() + 1) <= usize::MAX);
                assert(self@[i].monomial.y_degree == maximum_y_degree);
            } else {
                assert(maximum_y_degree == 0);
                assert((maximum_y_degree + 1) * (c.len() + 1) == c.len() + 1) by (nonlinear_arith)
                    requires maximum_y_degree == 0;
            }
            assert((maximum_y_degree + 1) * (c.len() + 1) <= usize::MAX);
        }
        let mut powers: Vec<Polynomial<F>> = Vec::new();
        powers.push(Polynomial::one());
        proof {
            assert(pow_seq(c, 0) == seq![F::one_spec()]);
        }
        while powers.len() <= maximum_y_degree
            invariant
                F::field_valid(),
                polynomial.wf(),
                c == polynomial@,
                (maximum_y_degree + 1) * (c.len() + 1) <= usize::MAX,
                1 <= powers@.len() <= maximum_y_degree + 1,
                forall|d: int|
                    0 <= d < powers@.len() ==> (#[trigger] powers@[d])@ == pow_seq(c, d as nat)
                        && powers@[d].wf(),
            decreases maximum_y_degree + 1 - powers@.len(),
        {
            let d = powers.len();
            proof {
                lemma_pow_seq(c, (d - 1) as nat);
                assert((d - 1) * c.len() + 1 + c.len() <= (maximum_y_degree + 1) * (c.len() + 1))
                    by (nonlinear_arith)
                    requires
                        d <= maximum_y_degree,
                        d >= 1,
                ;
            }
            let next = powers[d - 1].mul(polynomial);
            powers.push(next);
        }
        let mut coefficients: Vec<F> = Vec::new();
        let zero = F::zero();
        let mut term_index: usize = 0;
        while term_index < self.terms.len()
            invariant
                F::field_valid(),
                polynomial.wf(),
                c == polynomial@,
                terms == self@,
                terms_wf(terms),
                zero == F::zero_spec(),
                zero.wf(),
                term_index <= terms.len(),
                maximum_y_degree == max_y_degree(terms, terms.len()),
                forall|i: int| 0 <= i < terms.len() ==> terms[i].monomial.y_degree <= maximum_y_degree,
                forall|i: int|
                    0 <= i < terms.len() ==> (#[trigger] terms[i]).monomial.x_degree + (
                    terms[i].monomial.y_degree + 1) * (c.len() + 1) <= usize::MAX,
                powers@.len() == maximum_y_degree + 1,
                forall|d: int|
                    0 <= d < powers@.len() ==> (#[trigger] powers@[d])@ == pow_seq(c, d as nat)
                        && powers@[d].wf(),
                coefficients@ == subst_acc(terms, term_index as nat, c),
                seq_wf(coefficients@),
            decreases terms.len() - term_index,
        {
            let term = self.terms[term_index];
            let x_degree = term.monomial.x_degree;
            let power = &powers[term.monomial.y_degree];
            let ghost acc = coefficients@;
            let ghost p = power@;
            proof {
                lemma_pow_seq(c, term.monomial.y_degree as nat);
                assert(p.len() <= term.monomial.y_degree * c.len() + 1);
                assert(term.monomial.y_degree * c.len() + 1 <= (term.monomial.y_degree + 1) * (
                c.len() + 1)) by (nonlinear_arith);
                assert(terms[term_index as int].coefficient.wf());
            }
            let required_length = x_degree + power.coefficients().len();
            while coefficients.len() < required_length
                invariant
                    coefficients@.len() <= crate::polynomial::max_len(acc.len(), required_length as nat),
                    coefficients@.len() >= acc.len(),
                    zero == F::zero_spec(),
                    zero.wf(),
                    forall|i: int| 0 <= i < coefficients@.len() ==> #[trigger] coefficients@[i]
                        == crate::polynomial::coeff_at(acc, i),
                    seq_wf(coefficients@),
                decreases required_length - coefficients@.len(),
            {
                coefficients.push(zero);
            }
            let ghost extended = coefficients@;
            let mut power_degree: usize = 0;
            while power_degree < power.coefficients().len()
                invariant
                    p == power@,
                    power.wf(),
                    term.coefficient.wf(),
                    required_length == x_degree + p.len(),
                    coefficients@.len() == crate::polynomial::max_len(acc.len(), required_length as nat),
                    power_degree <= p.len(),
                    forall|i: int|
                        0 <= i < coefficients@.len() ==> #[trigger] coefficients@[i] == (if x_degree
                            <= i < x_degree + power_degree {
                            crate::polynomial::coeff_at(acc, i).add_spec(
                                term.coefficient.mul_spec(p[i - x_degree]),
                            )
                        } else {
                            crate::polynomial::coeff_at(acc, i)
                        }),
                    seq_wf(coefficients@),
                decreases p.len() - power_degree,
            {
                let output_degree = x_degree + power_degree;
                let power_coefficient = power.coefficients()[power_degree];
                let updated = coefficients[output_degree].add(term.coefficient.mul(power_coefficient));
                coefficients.set(output_degree, updated);
                power_degree += 1;
            }
            proof {
                assert(coefficients@ =~= subst_step(
                    acc,
                    x_degree as nat,
                    term.coefficient,
                    pow_seq(c, term.monomial.y_degree as nat),
                ));
            }
            term_index += 1;
        }
        Polynomial::from_coefficients(coefficients)
    }
}


} // verus!

verus! {

/// Messages kept by the reference filter: in order, the first occurrence of each
/// candidate whose codeword lies within `radius` of `received`.
pub open spec fn filter_spec<F: Field>(
    points: Seq<F>,
    multipliers: Seq<F>,
    candidates: Seq<Seq<F>>,
    received: Seq<F>,
    radius: nat,
    n: nat,
) -> Seq<Seq<F>>
    decreases n,
{
    if n == 0 {
        Seq::empty()
    } else {
        let prev = filter_spec(points, multipliers, candidates, received, radius, (n - 1) as nat);
        let c = candidates[n - 1];
        if prev.contains(c) || hamming_spec(grs_encode_spec(points, multipliers, c), received)
            > radius {
            prev
        } else {
            prev.push(c)
        }
    }
}

/// The candidates `c` among the first `n` for which `Q(x, c(x))` is zero.
pub open spec fn roots_spec<F: Field>(terms: Seq<BivariateTerm<F>>, candidates: Seq<Seq<F>>, n: nat) -> Seq<
    Seq<F>,
>
    decreases n,
{
    if n == 0 {
        Seq::empty()
    } else {
        let prev = roots_spec(terms, candidates, (n - 1) as nat);
        if substitute_spec(terms, candidates[n - 1]).len() == 0 {
            prev.push(candidates[n - 1])
        } else {
            prev
        }
    }
}

/// The canonical messages of degree below `k` over the enumerated field.
pub open spec fn enumerated_messages<F: Field>(elements: Seq<F>, dimension: nat) -> Seq<Seq<F>> {
    all_vectors(elements, dimension).map_values(|v: Seq<F>| trim(v))
}

/// The received word divided coordinate-wise by the column multipliers.
pub open spec fn normalized_spec<F: Field>(received: Seq<F>, multipliers: Seq<F>) -> Seq<F> {
    Seq::new(
        received.len(),
        |i: int| received[i].mul_spec(multipliers[i].inverse_spec().unwrap()),
    )
}

/// The output list holds exactly `messages`, each with its codeword and its
/// distance to `received`.
pub open spec fn candidates_match<F: Field>(
    output: Seq<DecodedCandidate<F>>,
    messages: Seq<Seq<F>>,
    points: Seq<F>,
    multipliers: Seq<F>,
    received: Seq<F>,
) -> bool {
    &&& output.len() == messages.len()
    &&& forall|i: int|
        0 <= i < output.len() ==> {
            &&& (#[trigger] output[i]).polynomial@ == messages[i]
            &&& output[i].polynomial.wf()
            &&& output[i].codeword@ == grs_encode_spec(points, multipliers, messages[i])
            &&& output[i].distance == hamming_spec(output[i].codeword@, received)
        }
}

/// `message_count_check` succeeding with at least two field elements bounds
/// the dimension: `count · 2^steps <= 1_000_000`.
proof fn lemma_message_count_small(field_size: int, steps: nat, count: int)
    requires
        field_size >= 2,
        count >= 1,
        steps >= 1,
        message_count_check(field_size, steps, count) is Ok,
    ensures
        count * two_pow(steps) <= MAX_REFERENCE_MESSAGES,
    decreases steps,
{
    reveal_with_fuel(two_pow, 2);
    assert(count * 2 <= count * field_size) by (nonlinear_arith)
        requires
            field_size >= 2,
            count >= 1,
    ;
    if steps > 1 {
        lemma_message_count_small(field_size, (steps - 1) as nat, count * field_size);
        assert(count * two_pow(steps) <= count * field_size * two_pow((steps - 1) as nat))
            by (nonlinear_arith)
            requires
                two_pow(steps) == 2 * two_pow((steps - 1) as nat),
                field_size >= 2,
                count >= 1,
                two_pow((steps - 1) as nat) >= 0,
        ;
    }
}

pub open spec fn two_pow(n: nat) -> nat
    decreases n,
{
    if n == 0 {
        1
    } else {
        2 * two_pow((n - 1) as nat)
    }
}

proof fn lemma_two_pow_monotone(a: nat, b: nat)
    requires
        a <= b,
    ensures
        two_pow(a) <= two_pow(b),
    decreases b,
{
    if a < b {
        lemma_two_pow_monotone(a, (b - 1) as nat);
    }
}

/// A successful message-count check over at least two elements leaves the
/// dimension below 20.
proof fn lemma_dimension_small(field_size: int, dimension: nat)
    requires
        field_size >= 2,
        message_count_check(field_size, dimension, 1) is Ok,
    ensures
        dimension < 20,
{
    if dimension >= 20 {
        lemma_message_count_small(field_size, dimension, 1);
        lemma_two_pow_monotone(20, dimension);
        reveal_with_fuel(two_pow, 21);
        assert(two_pow(20) == 1048576);
    }
}

/// The Hasse values of order `(xo, yo)` at `(x, y)` of every monomial.
pub open spec fn hasse_row<F: Field>(monomials: Seq<BivariateMonomial>, xo: nat, yo: nat, x: F, y: F) -> Seq<F> {
    Seq::new(monomials.len(), |j: int| hasse_value_spec(monomials[j], xo, yo, x, y))
}

/// `Σ_{xo < x} (m − xo)`: the constraints of the first `x` derivative orders
/// at one point.
pub open spec fn order_count(m: nat, x: nat) -> nat
    decreases x,
{
    if x == 0 {
        0
    } else {
        order_count(m, (x - 1) as nat) + (m - (x - 1)) as nat
    }
}

proof fn lemma_order_count(m: nat, x: nat)
    requires
        x <= m,
    ensures
        2 * order_count(m, x) == x * (2 * m + 1 - x),
    decreases x,
{
    if x == 0 {
        assert(x * (2 * m + 1 - x) == 0);
    } else {
        lemma_order_count(m, (x - 1) as nat);
        assert(2 * order_count(m, x) == x * (2 * m + 1 - x)) by (nonlinear_arith)
            requires
                2 * order_count(m, (x - 1) as nat) == (x - 1) * (2 * m + 1 - (x - 1)),
                order_count(m, x) == order_count(m, (x - 1) as nat) + (m - (x - 1)),
                x <= m,
                x >= 1,
        ;
    }
}

/// The interpolation monomials for dimension `k` and weighted-degree bound `W`.
pub open spec fn interpolation_monomials_spec(dimension: usize, bound: usize) -> Seq<BivariateMonomial> {
    monomial_rows((dimension - 1) as nat, bound as nat, (bound as nat / (dimension - 1) as nat + 1) as nat)
}

/// The polynomial with these coefficients on these monomials vanishes to
/// order `m` at every sample.
pub open spec fn interpolates<F: Field>(
    monomials: Seq<BivariateMonomial>,
    coefficients: Seq<F>,
    points: Seq<F>,
    values: Seq<F>,
    multiplicity: nat,
) -> bool {
    satisfies_spec(nonzero_terms(monomials, coefficients, monomials.len()), points, values, multiplicity)
}

/// Some coefficient vector with a nonzero entry interpolates the samples.
pub open spec fn has_nonzero_interpolant<F: Field>(
    monomials: Seq<BivariateMonomial>,
    points: Seq<F>,
    values: Seq<F>,
    multiplicity: nat,
) -> bool {
    exists|coefficients: Seq<F>|
        #![trigger interpolates(monomials, coefficients, points, values, multiplicity)]
        is_vector(coefficients, monomials.len()) && interpolates(
            monomials,
            coefficients,
            points,
            values,
            multiplicity,
        ) && exists|j: int| 0 <= j < coefficients.len() && coefficients[j] != F::zero_spec()
}

/// The constraint count `n · m (m + 1) / 2` overflows `usize` on the way.
pub open spec fn constraint_overflow(length: nat, multiplicity: nat) -> bool {
    multiplicity + 1 > usize::MAX || length * multiplicity > usize::MAX || length * multiplicity * (
    multiplicity + 1) > usize::MAX
}

proof fn lemma_hasse_eval_prefix<F: Field>(
    a: Seq<BivariateTerm<F>>,
    b: Seq<BivariateTerm<F>>,
    n: nat,
    xo: nat,
    yo: nat,
    x: F,
    y: F,
)
    requires
        n <= a.len(),
        n <= b.len(),
        forall|i: int| 0 <= i < n ==> a[i] == b[i],
    ensures
        hasse_eval_spec(a, n, xo, yo, x, y) == hasse_eval_spec(b, n, xo, yo, x, y),
    decreases n,
{
    if n > 0 {
        lemma_hasse_eval_prefix(a, b, (n - 1) as nat, xo, yo, x, y);
    }
}

proof fn lemma_nonzero_terms_len<F: Field>(monomials: Seq<BivariateMonomial>, coefficients: Seq<F>, n: nat)
    ensures
        nonzero_terms(monomials, coefficients, n).len() <= n,
        (exists|j: int| 0 <= j < n && coefficients[j] != F::zero_spec()) ==> nonzero_terms(
            monomials,
            coefficients,
            n,
        ).len() > 0,
    decreases n,
{
    if n > 0 {
        lemma_nonzero_terms_len(monomials, coefficients, (n - 1) as nat);
        if exists|j: int| 0 <= j < n && coefficients[j] != F::zero_spec() {
            let j = choose|j: int| 0 <= j < n && coefficients[j] != F::zero_spec();
            if j < n - 1 {
                assert(exists|i: int| 0 <= i < n - 1 && coefficients[i] != F::zero_spec());
            }
        }
    }
}

/// The Hasse derivative of the nonzero terms is the dot product of the
/// monomials' Hasse values with the full coefficient vector.
proof fn lemma_hasse_eval_dot<F: FieldAxioms>(
    monomials: Seq<BivariateMonomial>,
    coefficients: Seq<F>,
    n: nat,
    xo: nat,
    yo: nat,
    x: F,
    y: F,
)
    requires
        F::field_valid(),
        n <= monomials.len(),
        n <= coefficients.len(),
        seq_wf(coefficients),
        seq_wf(hasse_row(monomials, xo, yo, x, y)),
    ensures
        hasse_eval_spec(
            nonzero_terms(monomials, coefficients, n),
            nonzero_terms(monomials, coefficients, n).len(),
            xo,
            yo,
            x,
            y,
        ) == row_dot(hasse_row(monomials, xo, yo, x, y), coefficients, n as int),
    decreases n,
{
    let row = hasse_row(monomials, xo, yo, x, y);
    if n > 0 {
        let k = (n - 1) as nat;
        lemma_hasse_eval_dot(monomials, coefficients, k, xo, yo, x, y);
        let prev = nonzero_terms(monomials, coefficients, k);
        let d = row_dot(row, coefficients, k as int);
        crate::linear::lemma_row_dot_wf(row, coefficients, k as int);
        let (h, c) = (row[k as int], coefficients[k as int]);
        F::lemma_closure(h, c);
        F::lemma_ring(h, c, c);
        F::lemma_ring(d, F::zero_spec(), F::zero_spec());
        F::lemma_ring(h, F::zero_spec(), F::zero_spec());
        if c != F::zero_spec() {
            let t = BivariateTerm { monomial: monomials[k as int], coefficient: c };
            lemma_hasse_eval_prefix(prev.push(t), prev, prev.len(), xo, yo, x, y);
        }
    }
}

/// Every nonnegative integer has a floor square root.
proof fn lemma_isqrt_exists(x: nat)
    ensures
        is_isqrt(x as int, isqrt_spec(x as int)),
    decreases x,
{
    if x == 0 {
        assert(is_isqrt(0, 0));
    } else {
        lemma_isqrt_exists((x - 1) as nat);
        let s = isqrt_spec(x - 1);
        if (s + 1) * (s + 1) <= x {
            assert(x < (s + 2) * (s + 2)) by (nonlinear_arith)
                requires
                    x - 1 < (s + 1) * (s + 1),
                    s >= 0,
            ;
            assert(is_isqrt(x as int, s + 1));
        } else {
            assert(is_isqrt(x as int, s));
        }
    }
}

/// The decoding condition over integer parameters.
proof fn lemma_decoding_condition(length: int, dimension: int, radius: int, multiplicity: int)
    requires
        dimension >= 2,
        radius >= 0,
        multiplicity >= 0,
        gs_parameters_spec(length, dimension, radius, multiplicity) is Ok,
    ensures
        (length - radius) * multiplicity > gs_parameters_spec(length, dimension, radius, multiplicity)->Ok_0.2,
{
    let n = length;
    let k1 = dimension - 1;
    let m = multiplicity;
    let w = n * k1 * m * (m + 1);
    let rn = n * k1 * (m + 1);
    assert(n >= 1 && k1 >= 1 && m >= 1);
    assert(w >= 0 && rn >= 0) by (nonlinear_arith)
        requires
            n >= 1,
            k1 >= 1,
            m >= 1,
            w == n * k1 * m * (m + 1),
            rn == n * k1 * (m + 1),
    ;
    lemma_isqrt_exists(w as nat);
    lemma_isqrt_exists((rn / m) as nat);
    let d = isqrt_spec(w);
    let r = isqrt_spec(rn / m);
    let t = n - radius;
    assert(t >= r + 1);
    assert(w == rn * m) by (nonlinear_arith)
        requires
            w == n * k1 * m * (m + 1),
            rn == n * k1 * (m + 1),
    ;
    assert(rn < m * ((r + 1) * (r + 1))) by (nonlinear_arith)
        requires
            m >= 1,
            rn >= 0,
            rn / m < (r + 1) * (r + 1),
    ;
    assert(d < t * m) by (nonlinear_arith)
        requires
            d >= 0,
            d * d <= w,
            w == rn * m,
            rn < m * ((r + 1) * (r + 1)),
            t >= r + 1,
            r >= 0,
            m >= 1,
    ;
}

/// Decoding condition of the parameters: a message that agrees with the
/// received word outside the decoding radius agrees on `t >= n − radius`
/// points, and `t·m` exceeds the weighted-degree bound, so the interpolation
/// polynomial has more zeros (with multiplicity) along the message than its
/// weighted degree allows.
pub proof fn law_decoding_radius_meets_interpolation_condition(
    length: usize,
    dimension: usize,
    radius: usize,
    multiplicity: usize,
)
    requires
        dimension >= 2,
        gs_parameters_spec(length as int, dimension as int, radius as int, multiplicity as int) is Ok,
    ensures
        ({
            let p = gs_parameters_spec(length as int, dimension as int, radius as int, multiplicity as int)->Ok_0;
            (length - radius) * multiplicity > p.2
        }),
{
    lemma_decoding_condition(length as int, dimension as int, radius as int, multiplicity as int);
}

/// List-size bound of the parameters: every monomial `x^a y^b` under the
/// weighted-degree bound has `b` at most the list-size bound, so the
/// interpolation polynomial has at most that many `y`-roots.
pub proof fn law_list_size_bounds_y_degree(
    length: usize,
    dimension: usize,
    radius: usize,
    multiplicity: usize,
    monomial: BivariateMonomial,
)
    requires
        dimension >= 2,
        gs_parameters_spec(length as int, dimension as int, radius as int, multiplicity as int) is Ok,
        is_interpolation_monomial(
            monomial,
            (dimension - 1) as nat,
            gs_parameters_spec(length as int, dimension as int, radius as int, multiplicity as int)->Ok_0.2 as nat,
        ),
    ensures
        ({
            let p = gs_parameters_spec(length as int, dimension as int, radius as int, multiplicity as int)->Ok_0;
            p.4 matches Some(bound) && monomial.y_degree <= bound
        }),
{
    let n = length as int;
    let k1 = dimension - 1;
    let m = multiplicity as int;
    let w = n * k1 * m * (m + 1);
    let ln = n * m * (m + 1);
    assert(n >= 1 && k1 >= 1 && m >= 1);
    assert(w >= 0 && ln >= 0 && w == ln * k1) by (nonlinear_arith)
        requires
            n >= 1,
            k1 >= 1,
            m >= 1,
            w == n * k1 * m * (m + 1),
            ln == n * m * (m + 1),
    ;
    lemma_isqrt_exists(w as nat);
    lemma_isqrt_exists((ln / k1) as nat);
    let d = isqrt_spec(w);
    let l = isqrt_spec(ln / k1);
    let y = monomial.y_degree as int;
    let x = monomial.x_degree as int;
    assert(x + k1 * y <= d);
    assert(k1 * y <= d);
    assert(y * y * k1 <= ln) by (nonlinear_arith)
        requires
            k1 >= 1,
            y >= 0,
            k1 * y <= d,
            d >= 0,
            d * d <= w,
            w == ln * k1,
    ;
    assert(y * y <= ln / k1) by (nonlinear_arith)
        requires
            k1 >= 1,
            y * y * k1 <= ln,
    ;
    assert(y <= l) by (nonlinear_arith)
        requires
            y >= 0,
            l >= 0,
            y * y <= ln / k1,
            ln / k1 < (l + 1) * (l + 1),
    ;
}

/// The first `rows` rows of monomials number `rows·(2W + 2 − w·(rows − 1))/2`.
proof fn lemma_monomial_rows_len(w: nat, bound: nat, rows: nat)
    requires
        w >= 1,
        rows == 0 || w * (rows - 1) <= bound,
    ensures
        2 * monomial_rows(w, bound, rows).len() == rows * (2 * bound + 2 - w * (rows - 1)),
    decreases rows,
{
    if rows > 0 {
        let r = (rows - 1) as nat;
        if r > 0 {
            assert(w * (r - 1) <= w * r) by (nonlinear_arith)
                requires
                    r >= 1,
            ;
        }
        lemma_monomial_rows_len(w, bound, r);
        assert(monomial_row(w, bound, r).len() == bound - w * r + 1);
        assert(2 * monomial_rows(w, bound, rows).len() == rows * (2 * bound + 2 - w * (rows - 1)))
            by (nonlinear_arith)
            requires
                2 * monomial_rows(w, bound, r).len() == r * (2 * bound + 2 - w * (r - 1)),
                monomial_rows(w, bound, rows).len() == monomial_rows(w, bound, r).len() + (bound - w * r
                    + 1),
                rows == r + 1,
        ;
    }
}

/// The Guruswami–Sudan weighted-degree bound `W = ⌊√(n·w·m(m+1))⌋` leaves
/// more monomials `x^a y^b` with `a + w·b ≤ W` than the `n·m(m+1)/2`
/// constraints.
proof fn lemma_enough_monomials(n: nat, w: nat, m: nat, bound: nat)
    requires
        w >= 1,
        is_isqrt((n * w * m * (m + 1)) as int, bound as int),
    ensures
        monomial_rows(w, bound, bound / w + 1).len() > n * m * (m + 1) / 2,
{
    let b = bound / w;
    let r = bound % w;
    assert(bound == w * b + r && 0 <= r < w) by (nonlinear_arith)
        requires
            w >= 1,
            b == bound / w,
            r == bound % w,
    ;
    lemma_monomial_rows_len(w, bound, b + 1);
    let count = monomial_rows(w, bound, b + 1).len();
    let t = n * m * (m + 1);
    assert(n * w * m * (m + 1) == w * t) by (nonlinear_arith)
        requires
            t == n * m * (m + 1),
    ;
    assert(2 * w * count >= (bound + 1) * (bound + 1)) by (nonlinear_arith)
        requires
            2 * count == (b + 1) * (2 * bound + 2 - w * b),
            bound == w * b + r,
            0 <= r < w,
            w >= 1,
            b >= 0,
    ;
    assert(2 * count > t) by (nonlinear_arith)
        requires
            2 * w * count >= (bound + 1) * (bound + 1),
            w * t < (bound + 1) * (bound + 1),
            w >= 1,
    ;
}

/// Every row is the Hasse row of some sample `p < count` and orders
/// `xo < m`, `yo < m − xo`.
pub open spec fn rows_are_constraints<F: Field>(
    matrix: Seq<Vec<F>>,
    monomials: Seq<BivariateMonomial>,
    points: Seq<F>,
    values: Seq<F>,
    m: nat,
    count: int,
) -> bool {
    forall|r: int|
        #![trigger matrix[r]]
        0 <= r < matrix.len() ==> exists|p: int, xo: nat, yo: nat|
            0 <= p < count && xo < m && yo < m - xo && matrix[r]@ == #[trigger] hasse_row(
                monomials,
                xo,
                yo,
                points[p],
                values[p],
            )
}

/// The constraint `(p, xo, yo)` precedes `(pi, xi, yi)` in build order.
pub open spec fn constraint_before(p: int, xo: nat, yo: nat, pi: int, xi: nat, yi: nat) -> bool {
    p < pi || (p == pi && (xo < xi || (xo == xi && yo < yi)))
}

/// Every constraint preceding `(pi, xi, yi)` has a row.
pub open spec fn constraints_covered<F: Field>(
    matrix: Seq<Vec<F>>,
    monomials: Seq<BivariateMonomial>,
    points: Seq<F>,
    values: Seq<F>,
    m: nat,
    pi: int,
    xi: nat,
    yi: nat,
) -> bool {
    forall|p: int, xo: nat, yo: nat|
        #![trigger constraint_before(p, xo, yo, pi, xi, yi)]
        0 <= p && constraint_before(p, xo, yo, pi, xi, yi) && xo < m && yo < m - xo ==> exists|r: int|
            0 <= r < matrix.len() && matrix[r]@ == hasse_row(monomials, xo, yo, points[p], values[p])
}

proof fn lemma_push_constraint<F: Field>(
    matrix: Seq<Vec<F>>,
    row: Vec<F>,
    monomials: Seq<BivariateMonomial>,
    points: Seq<F>,
    values: Seq<F>,
    m: nat,
    count: int,
    pi: int,
    xi: nat,
    yi: nat,
)
    requires
        rows_are_constraints(matrix, monomials, points, values, m, count),
        constraints_covered(matrix, monomials, points, values, m, pi, xi, yi),
        0 <= pi < count,
        xi < m,
        yi < m - xi,
        row@ == hasse_row(monomials, xi, yi, points[pi], values[pi]),
    ensures
        rows_are_constraints(matrix.push(row), monomials, points, values, m, count),
        constraints_covered(matrix.push(row), monomials, points, values, m, pi, xi, yi + 1),
{
    let after = matrix.push(row);
    assert forall|r: int|
        #![trigger after[r]]
        0 <= r < after.len() implies exists|p: int, xo: nat, yo: nat|
            0 <= p < count && xo < m && yo < m - xo && after[r]@ == #[trigger] hasse_row(
                monomials,
                xo,
                yo,
                points[p],
                values[p],
            ) by {
        if r < matrix.len() {
            assert(after[r] == matrix[r]);
            assert(matrix[r] == matrix[r]);
        } else {
            assert(after[r]@ == hasse_row(monomials, xi, yi, points[pi], values[pi]));
        }
    }
    assert forall|p: int, xo: nat, yo: nat|
        #![trigger constraint_before(p, xo, yo, pi, xi, yi + 1)]
        0 <= p && constraint_before(p, xo, yo, pi, xi, yi + 1) && xo < m && yo < m - xo implies exists|r: int|
        0 <= r < after.len() && after[r]@ == hasse_row(monomials, xo, yo, points[p], values[p]) by {
        let hr = hasse_row(monomials, xo, yo, points[p], values[p]);
        if p == pi && xo == xi && yo == yi {
            assert(after[matrix.len() as int]@ == hr);
        } else {
            assert(constraint_before(p, xo, yo, pi, xi, yi));
            let r = choose|r: int| 0 <= r < matrix.len() && matrix[r]@ == hr;
            assert(after[r] == matrix[r]);
        }
    }
}

proof fn lemma_next_order<F: Field>(
    matrix: Seq<Vec<F>>,
    monomials: Seq<BivariateMonomial>,
    points: Seq<F>,
    values: Seq<F>,
    m: nat,
    pi: int,
    xi: nat,
)
    requires
        xi < m,
        constraints_covered(matrix, monomials, points, values, m, pi, xi, (m - xi) as nat),
    ensures
        constraints_covered(matrix, monomials, points, values, m, pi, xi + 1, 0),
{
    assert forall|p: int, xo: nat, yo: nat|
        #![trigger constraint_before(p, xo, yo, pi, xi + 1, 0)]
        0 <= p && constraint_before(p, xo, yo, pi, xi + 1, 0) && xo < m && yo < m - xo implies exists|r: int|
        0 <= r < matrix.len() && matrix[r]@ == hasse_row(monomials, xo, yo, points[p], values[p]) by {
        let hr = hasse_row(monomials, xo, yo, points[p], values[p]);
        assert(constraint_before(p, xo, yo, pi, xi, (m - xi) as nat));
    }
}

proof fn lemma_next_point<F: Field>(
    matrix: Seq<Vec<F>>,
    monomials: Seq<BivariateMonomial>,
    points: Seq<F>,
    values: Seq<F>,
    m: nat,
    pi: int,
)
    requires
        constraints_covered(matrix, monomials, points, values, m, pi, m, 0),
    ensures
        constraints_covered(matrix, monomials, points, values, m, pi + 1, 0, 0),
{
    assert forall|p: int, xo: nat, yo: nat|
        #![trigger constraint_before(p, xo, yo, pi + 1, 0, 0)]
        0 <= p && constraint_before(p, xo, yo, pi + 1, 0, 0) && xo < m && yo < m - xo implies exists|r: int|
        0 <= r < matrix.len() && matrix[r]@ == hasse_row(monomials, xo, yo, points[p], values[p]) by {
        let hr = hasse_row(monomials, xo, yo, points[p], values[p]);
        assert(constraint_before(p, xo, yo, pi, m, 0));
    }
}

/// The Hasse-derivative constraint rows: for each sample in order, for each
/// `x`-order `i < m` and `y`-order `j < m − i`, the Hasse values of every
/// monomial.
fn constraint_matrix<F: Field>(
    points: &[F],
    values: &[F],
    multiplicity: usize,
    monomials: &Vec<BivariateMonomial>,
) -> (matrix: Vec<Vec<F>>)
    requires
        F::field_valid(),
        seq_wf(points@),
        seq_wf(values@),
    ensures
        matrix_wf(matrix@, monomials@.len()),
        matrix@.len() == crate::polynomial::min_len(points@.len(), values@.len()) * order_count(
            multiplicity as nat,
            multiplicity as nat,
        ),
        rows_are_constraints(
            matrix@,
            monomials@,
            points@,
            values@,
            multiplicity as nat,
            crate::polynomial::min_len(points@.len(), values@.len()) as int,
        ),
        constraints_covered(
            matrix@,
            monomials@,
            points@,
            values@,
            multiplicity as nat,
            crate::polynomial::min_len(points@.len(), values@.len()) as int,
            0,
            0,
        ),
{
    let mut matrix: Vec<Vec<F>> = Vec::new();
    let count = if points.len() <= values.len() {
        points.len()
    } else {
        values.len()
    };
    let ghost m = multiplicity as nat;
    let ghost (mon, ps, vs) = (monomials@, points@, values@);
    let mut point_index: usize = 0;
    while point_index < count
        invariant
            F::field_valid(),
            seq_wf(ps),
            seq_wf(vs),
            ps == points@,
            vs == values@,
            mon == monomials@,
            m == multiplicity,
            count == crate::polynomial::min_len(ps.len(), vs.len()),
            point_index <= count,
            matrix_wf(matrix@, mon.len()),
            matrix@.len() == point_index * order_count(m, m),
            rows_are_constraints(matrix@, mon, ps, vs, m, count as int),
            constraints_covered(matrix@, mon, ps, vs, m, point_index as int, 0, 0),
        decreases count - point_index,
    {
        let point = points[point_index];
        let value = values[point_index];
        let ghost start = matrix@.len();
        let mut x_order: usize = 0;
        while x_order < multiplicity
            invariant
                F::field_valid(),
                ps == points@,
                vs == values@,
                mon == monomials@,
                m == multiplicity,
                count == crate::polynomial::min_len(ps.len(), vs.len()),
                point_index < count,
                point == ps[point_index as int],
                value == vs[point_index as int],
                point.wf(),
                value.wf(),
                x_order <= multiplicity,
                matrix_wf(matrix@, mon.len()),
                start == point_index * order_count(m, m),
                matrix@.len() == start + order_count(m, x_order as nat),
                rows_are_constraints(matrix@, mon, ps, vs, m, count as int),
                constraints_covered(matrix@, mon, ps, vs, m, point_index as int, x_order as nat, 0),
            decreases multiplicity - x_order,
        {
            let mut y_order: usize = 0;
            while y_order < multiplicity - x_order
                invariant
                    F::field_valid(),
                    ps == points@,
                    vs == values@,
                    mon == monomials@,
                    m == multiplicity,
                    count == crate::polynomial::min_len(ps.len(), vs.len()),
                    point_index < count,
                    point == ps[point_index as int],
                    value == vs[point_index as int],
                    point.wf(),
                    value.wf(),
                    x_order < multiplicity,
                    y_order <= multiplicity - x_order,
                    matrix_wf(matrix@, mon.len()),
                    start == point_index * order_count(m, m),
                    matrix@.len() == start + order_count(m, x_order as nat) + y_order,
                    rows_are_constraints(matrix@, mon, ps, vs, m, count as int),
                    constraints_covered(
                        matrix@,
                        mon,
                        ps,
                        vs,
                        m,
                        point_index as int,
                        x_order as nat,
                        y_order as nat,
                    ),
                decreases multiplicity - x_order - y_order,
            {
                let mut row: Vec<F> = Vec::with_capacity(monomials.len());
                let mut j: usize = 0;
                while j < monomials.len()
                    invariant
                        F::field_valid(),
                        point.wf(),
                        value.wf(),
                        j <= monomials@.len(),
                        row@.len() == j,
                        seq_wf(row@),
                        forall|i: int| 0 <= i < j ==> #[trigger] row@[i] == hasse_value_spec(
                            monomials@[i],
                            x_order as nat,
                            y_order as nat,
                            point,
                            value,
                        ),
                    decreases monomials@.len() - j,
                {
                    row.push(monomial_hasse_value(monomials[j], x_order, y_order, point, value));
                    j += 1;
                }
                proof {
                    assert(row@ =~= hasse_row(mon, x_order as nat, y_order as nat, point, value));
                    lemma_push_constraint(
                        matrix@,
                        row,
                        mon,
                        ps,
                        vs,
                        m,
                        count as int,
                        point_index as int,
                        x_order as nat,
                        y_order as nat,
                    );
                }
                matrix.push(row);
                y_order += 1;
            }
            proof {
                lemma_next_order(matrix@, mon, ps, vs, m, point_index as int, x_order as nat);
            }
            x_order += 1;
        }
        proof {
            lemma_next_point(matrix@, mon, ps, vs, m, point_index as int);
            assert((point_index + 1) * order_count(m, m) == point_index * order_count(m, m) + order_count(m, m))
                by (nonlinear_arith);
        }
        point_index += 1;
    }
    matrix
}

/// Interpolation in matrix form: a coefficient vector is in the kernel of the
/// stacked Hasse rows exactly when its polynomial interpolates the samples.
proof fn lemma_kernel_interpolates<F: FieldAxioms>(
    matrix: Seq<Vec<F>>,
    monomials: Seq<BivariateMonomial>,
    coefficients: Seq<F>,
    points: Seq<F>,
    values: Seq<F>,
    multiplicity: nat,
)
    requires
        F::field_valid(),
        matrix_wf(matrix, monomials.len()),
        is_vector(coefficients, monomials.len()),
        seq_wf(points),
        seq_wf(values),
        rows_are_constraints(matrix, monomials, points, values, multiplicity, crate::polynomial::min_len(
            points.len(),
            values.len(),
        ) as int),
        constraints_covered(
            matrix,
            monomials,
            points,
            values,
            multiplicity,
            crate::polynomial::min_len(points.len(), values.len()) as int,
            0,
            0,
        ),
    ensures
        in_kernel(matrix, coefficients, monomials.len()) == interpolates(
            monomials,
            coefficients,
            points,
            values,
            multiplicity,
        ),
{
    let n = monomials.len();
    let terms = nonzero_terms(monomials, coefficients, n);
    if in_kernel(matrix, coefficients, n) {
        assert forall|p: int, xo: nat, yo: nat|
            0 <= p < points.len() && p < values.len() && xo < multiplicity && yo < multiplicity - xo
                implies #[trigger] hasse_eval_spec(terms, terms.len(), xo, yo, points[p], values[p])
            == F::zero_spec() by {
            let hr = hasse_row(monomials, xo, yo, points[p], values[p]);
            assert(constraint_before(p, xo, yo, crate::polynomial::min_len(points.len(), values.len()) as int, 0, 0));
            let r = choose|r: int| 0 <= r < matrix.len() && matrix[r]@ == hr;
            assert(row_dot(matrix[r]@, coefficients, n as int) == F::zero_spec());
            lemma_hasse_eval_dot(monomials, coefficients, n, xo, yo, points[p], values[p]);
        }
    }
    if interpolates(monomials, coefficients, points, values, multiplicity) {
        assert forall|r: int| 0 <= r < matrix.len() implies row_dot(#[trigger] matrix[r]@, coefficients, n as int)
            == F::zero_spec() by {
            let (p, xo, yo) = choose|p: int, xo: nat, yo: nat|
                0 <= p < crate::polynomial::min_len(points.len(), values.len()) && xo < multiplicity && yo
                    < multiplicity - xo && matrix[r]@ == #[trigger] hasse_row(
                    monomials,
                    xo,
                    yo,
                    points[p],
                    values[p],
                );
            lemma_hasse_eval_dot(monomials, coefficients, n, xo, yo, points[p], values[p]);
            assert(hasse_eval_spec(terms, terms.len(), xo, yo, points[p], values[p]) == F::zero_spec());
        }
    }
}

impl<F: FieldAxioms> GrsCode<F> {
    /// Find a nonzero bivariate polynomial with a zero of multiplicity `m` at
    /// every `(α_i, y_i)` whose monomials respect the weighted-degree bound.
    ///
    /// Over a field the result is decided by the samples: it exists exactly
    /// when some nonzero coefficient vector over the monomials interpolates
    /// them (in particular whenever the monomials outnumber the constraints).
    #[verifier::spinoff_prover]
    #[verifier::rlimit(50)]
    pub fn interpolate(
        &self,
        normalized_received: &[F],
        parameters: GuruswamiSudanParameters,
    ) -> (r: Result<BivariatePolynomial<F>, GrsError>)
        requires
            self.wf(),
            self.dimension_spec() >= 2,
            seq_wf(normalized_received@),
            parameters@.1 >= 1,
        ensures
            r matches Ok(q) ==> {
                &&& q@.len() > 0
                &&& terms_wf(q@)
                &&& forall|i: int| 0 <= i < q@.len() ==> (#[trigger] q@[i]).coefficient != F::zero_spec()
                &&& satisfies_spec(q@, self.points_spec(), normalized_received@, parameters@.1 as nat)
                &&& parameters@.2 < MAX_REFERENCE_MATRIX_CELLS
                &&& forall|i: int|
                    0 <= i < q@.len() ==> is_interpolation_monomial(
                        (#[trigger] q@[i]).monomial,
                        (self.dimension_spec() - 1) as nat,
                        parameters@.2 as nat,
                    )
            },
            ({
                let monomials = interpolation_monomials_spec(self.dimension_spec() as usize, parameters@.2);
                let n = self.points_spec().len();
                let m = parameters@.1 as nat;
                let overflow = constraint_overflow(n, m) || (n * m * (m + 1) / 2) * monomials.len()
                    > usize::MAX;
                let too_large = !overflow && (n * m * (m + 1) / 2) * monomials.len()
                    > MAX_REFERENCE_MATRIX_CELLS;
                let rows = crate::polynomial::min_len(n, normalized_received@.len()) * order_count(m, m);
                &&& (r == Err::<BivariatePolynomial<F>, GrsError>(GrsError::ArithmeticOverflow)) == overflow
                &&& (r == Err::<BivariatePolynomial<F>, GrsError>(GrsError::ReferenceInstanceTooLarge))
                    == too_large
                &&& r matches Err(e) ==> (e == GrsError::ArithmeticOverflow || e
                    == GrsError::ReferenceInstanceTooLarge || e == GrsError::InterpolationHasNoNullspace
                    || e == GrsError::InterpolationVerificationFailed)
                &&& F::is_field() ==> r != Err::<BivariatePolynomial<F>, GrsError>(
                    GrsError::InterpolationVerificationFailed,
                )
                &&& F::is_field() ==> ((r is Ok) == (!overflow && !too_large && has_nonzero_interpolant(
                    monomials,
                    self.points_spec(),
                    normalized_received@,
                    m,
                )))
                &&& F::is_field() && !overflow && !too_large && rows < monomials.len() ==> r is Ok
            }),
    {
        let weighted_degree_bound = parameters.weighted_degree_bound();
        let multiplicity = parameters.multiplicity();
        let monomials = interpolation_monomials(self.dimension, weighted_degree_bound);
        let ghost mon = monomials@;
        let ghost field = F::is_field();
        let constraint_count = checked_constraint_count(self.length(), multiplicity)?;
        let matrix_cells = match constraint_count.checked_mul(monomials.len()) {
            Some(cells) => cells,
            None => {
                return Err(GrsError::ArithmeticOverflow);
            },
        };
        if matrix_cells > MAX_REFERENCE_MATRIX_CELLS {
            return Err(GrsError::ReferenceInstanceTooLarge);
        }
        let matrix = constraint_matrix(
            self.evaluation_points.as_slice(),
            normalized_received,
            multiplicity,
            &monomials,
        );
        let ghost points = self.points_spec();
        let ghost values = normalized_received@;
        let ghost m = multiplicity as nat;
        let ghost count = crate::polynomial::min_len(points.len(), values.len());
        let ghost mat = matrix@;
        proof {
            lemma_order_count(m, m);
            assert(count * order_count(m, m) == crate::polynomial::min_len(points.len(), values.len()) * order_count(m, m));
        }
        let nullspace = nonzero_null_vector(matrix, monomials.len());
        let coefficients = match nullspace {
            Ok(solution) => solution,
            Err(e) => {
                proof {
                    if field {
                        assert forall|c: Seq<F>|
                            #![trigger interpolates(mon, c, points, values, m)]
                            is_vector(c, mon.len()) && interpolates(mon, c, points, values, m) implies !exists|j: int|
                                0 <= j < c.len() && c[j] != F::zero_spec() by {
                            lemma_kernel_interpolates(mat, mon, c, points, values, m);
                            assert(in_kernel(mat, c, mon.len()));
                        }
                    }
                }
                return Err(e);
            },
        };
        let ghost solution = coefficients@;
        let interpolation = BivariatePolynomial::new(monomials, coefficients);
        proof {
            if field {
                lemma_kernel_interpolates(mat, mon, solution, points, values, m);
                assert(interpolates(mon, solution, points, values, m));
                F::lemma_closure(F::one_spec(), F::one_spec());
                let j = choose|j: int| 0 <= j < mon.len() && solution[j] == F::one_spec();
                assert(solution[j] != F::zero_spec());
                lemma_nonzero_terms_len(mon, solution, mon.len());
                assert(interpolation@ == nonzero_terms(mon, solution, mon.len()));
                assert(has_nonzero_interpolant(mon, points, values, m));
            }
        }
        if interpolation.is_zero() || !interpolation.satisfies_constraints(
            self.evaluation_points.as_slice(),
            normalized_received,
            multiplicity,
        ) {
            return Err(GrsError::InterpolationVerificationFailed);
        }
        proof {
            assert(constraint_count >= 1) by {
                assert(self.points_spec().len() * multiplicity * (multiplicity + 1) >= 2)
                    by (nonlinear_arith)
                    requires
                        self.points_spec().len() >= 1,
                        multiplicity >= 1,
                ;
            }
            assert(weighted_degree_bound + 1 <= matrix_cells) by (nonlinear_arith)
                requires
                    matrix_cells == constraint_count * mon.len(),
                    constraint_count >= 1,
                    mon.len() >= weighted_degree_bound + 1,
            ;
            assert forall|i: int| 0 <= i < interpolation@.len() implies is_interpolation_monomial(
                (#[trigger] interpolation@[i]).monomial,
                (self.dimension_spec() - 1) as nat,
                weighted_degree_bound as nat,
            ) by {
                let j = choose|j: int| 0 <= j < mon.len() && mon[j] == interpolation@[i].monomial;
                assert(is_interpolation_monomial(
                    mon[j],
                    (self.dimension_spec() - 1) as nat,
                    weighted_degree_bound as nat,
                ));
            }
        }
        Ok(interpolation)
    }

    /// Keep, in order and without repeats, the candidates whose codewords lie
    /// within `radius` of `received`.
    pub fn filter_reference_candidates(
        &self,
        candidates: Vec<Polynomial<F>>,
        received: &[F],
        radius: usize,
    ) -> (r: Result<Vec<DecodedCandidate<F>>, GrsError>)
        requires
            self.wf(),
            received@.len() == self.points_spec().len(),
            forall|i: int|
                0 <= i < candidates@.len() ==> (#[trigger] candidates@[i]).wf()
                    && candidates@[i]@.len() <= self.dimension_spec(),
        ensures
            r matches Ok(output) && candidates_match(
                output@,
                filter_spec(
                    self.points_spec(),
                    self.multipliers_spec(),
                    candidates@.map_values(|p: Polynomial<F>| p@),
                    received@,
                    radius as nat,
                    candidates@.len(),
                ),
                self.points_spec(),
                self.multipliers_spec(),
                received@,
            ),
    {
        let ghost views = candidates@.map_values(|p: Polynomial<F>| p@);
        let mut output: Vec<DecodedCandidate<F>> = Vec::new();
        let mut index: usize = 0;
        while index < candidates.len()
            invariant
                self.wf(),
                received@.len() == self.points_spec().len(),
                views == candidates@.map_values(|p: Polynomial<F>| p@),
                forall|i: int|
                    0 <= i < candidates@.len() ==> (#[trigger] candidates@[i]).wf()
                        && candidates@[i]@.len() <= self.dimension_spec(),
                index <= candidates@.len(),
                candidates_match(
                    output@,
                    filter_spec(
                        self.points_spec(),
                        self.multipliers_spec(),
                        views,
                        received@,
                        radius as nat,
                        index as nat,
                    ),
                    self.points_spec(),
                    self.multipliers_spec(),
                    received@,
                ),
            decreases candidates@.len() - index,
        {
            let ghost prev = filter_spec(
                self.points_spec(),
                self.multipliers_spec(),
                views,
                received@,
                radius as nat,
                index as nat,
            );
            let polynomial = &candidates[index];
            let mut seen = false;
            let mut j: usize = 0;
            while j < output.len()
                invariant
                    j <= output@.len(),
                    output@.len() == prev.len(),
                    forall|t: int| 0 <= t < output@.len() ==> (#[trigger] output@[t]).polynomial@ == prev[t],
                    seen == exists|t: int| 0 <= t < j && prev[t] == polynomial@,
                decreases output@.len() - j,
            {
                if output[j].polynomial.equals(polynomial) {
                    seen = true;
                }
                j += 1;
            }
            proof {
                assert(views[index as int] == polynomial@);
                assert(seen == prev.contains(polynomial@));
            }
            if !seen {
                let codeword = match self.encode(polynomial) {
                    Ok(c) => c,
                    Err(e) => {
                        return Err(e);
                    },
                };
                let distance = match hamming_distance(codeword.as_slice(), received) {
                    Some(d) => d,
                    None => {
                        return Err(GrsError::ReceivedWordLengthMismatch);
                    },
                };
                if distance <= radius {
                    output.push(
                        DecodedCandidate { polynomial: polynomial.clone(), codeword, distance },
                    );
                }
            }
            index += 1;
        }
        Ok(output)
    }
}

} // verus!

verus! {

impl<F: FieldAxioms> GrsCode<F> {
    /// Exhaustive Guruswami–Sudan reference list decoding.
    ///
    /// For `k = 1` the candidates are all constant messages; otherwise an
    /// interpolation polynomial `Q` is built and the candidates are the
    /// enumerated messages `f` with `Q(x, f(x)) = 0`. Either way the returned
    /// list holds, in enumeration order and without repeats, the candidates
    /// whose codewords lie within `radius` of `received`.
    pub fn list_decode_reference(
        &self,
        received: &[F],
        radius: usize,
        multiplicity: usize,
        field_elements: &[F],
    ) -> (r: Result<Vec<DecodedCandidate<F>>, GrsError>)
        requires
            self.wf(),
            seq_wf(received@),
            seq_wf(field_elements@),
        ensures
            received@.len() != self.points_spec().len() ==> r == Err::<
                Vec<DecodedCandidate<F>>,
                GrsError,
            >(GrsError::ReceivedWordLengthMismatch),
            received@.len() == self.points_spec().len() ==> match gs_parameters_spec(
                self.points_spec().len() as int,
                self.dimension_spec() as int,
                radius as int,
                multiplicity as int,
            ) {
                Err(e) => r == Err::<Vec<DecodedCandidate<F>>, GrsError>(e),
                Ok(p) => if !valid_enumeration(field_elements@) {
                    r == Err::<Vec<DecodedCandidate<F>>, GrsError>(
                        GrsError::InvalidFieldEnumeration,
                    )
                } else {
                    match message_count_check(
                        field_elements@.len() as int,
                        self.dimension_spec(),
                        1,
                    ) {
                        Err(e) => r == Err::<Vec<DecodedCandidate<F>>, GrsError>(e),
                        Ok(_) => if self.dimension_spec() == 1 {
                            r matches Ok(output) && candidates_match(
                                output@,
                                filter_spec(
                                    self.points_spec(),
                                    self.multipliers_spec(),
                                    enumerated_messages(field_elements@, 1),
                                    received@,
                                    radius as nat,
                                    enumerated_messages(field_elements@, 1).len(),
                                ),
                                self.points_spec(),
                                self.multipliers_spec(),
                                received@,
                            )
                        } else {
                            &&& r matches Err(e) ==> (e == GrsError::ArithmeticOverflow || e
                                == GrsError::ReferenceInstanceTooLarge || e
                                == GrsError::InterpolationHasNoNullspace || e
                                == GrsError::InterpolationVerificationFailed)
                            &&& ({
                                let monomials = interpolation_monomials_spec(
                                    self.dimension_spec() as usize,
                                    p.2,
                                );
                                let n = self.points_spec().len();
                                let m = p.1 as nat;
                                let overflow = constraint_overflow(n, m) || (n * m * (m + 1) / 2)
                                    * monomials.len() > usize::MAX;
                                let too_large = !overflow && (n * m * (m + 1) / 2) * monomials.len()
                                    > MAX_REFERENCE_MATRIX_CELLS;
                                &&& (r == Err::<Vec<DecodedCandidate<F>>, GrsError>(
                                    GrsError::ArithmeticOverflow,
                                )) == overflow
                                &&& (r == Err::<Vec<DecodedCandidate<F>>, GrsError>(
                                    GrsError::ReferenceInstanceTooLarge,
                                )) == too_large
                                &&& F::is_field() ==> r != Err::<Vec<DecodedCandidate<F>>, GrsError>(
                                    GrsError::InterpolationVerificationFailed,
                                )
                                &&& F::is_field() ==> ((r is Ok) == (!overflow && !too_large
                                    && has_nonzero_interpolant(
                                    monomials,
                                    self.points_spec(),
                                    normalized_spec(received@, self.multipliers_spec()),
                                    m,
                                )))
                                &&& F::is_field() && !overflow && !too_large ==> r is Ok
                            })
                            &&& r matches Ok(output) ==> exists|q: Seq<BivariateTerm<F>>|
                                {
                                    &&& q.len() > 0
                                    &&& forall|i: int|
                                        0 <= i < q.len() ==> (#[trigger] q[i]).coefficient
                                            != F::zero_spec() && is_interpolation_monomial(
                                            q[i].monomial,
                                            (self.dimension_spec() - 1) as nat,
                                            p.2 as nat,
                                        )
                                    &&& satisfies_spec(
                                        q,
                                        self.points_spec(),
                                        normalized_spec(received@, self.multipliers_spec()),
                                        p.1 as nat,
                                    )
                                    &&& candidates_match(
                                        output@,
                                        filter_spec(
                                            self.points_spec(),
                                            self.multipliers_spec(),
                                            #[trigger] roots_spec(
                                                q,
                                                enumerated_messages(
                                                    field_elements@,
                                                    self.dimension_spec(),
                                                ),
                                                enumerated_messages(
                                                    field_elements@,
                                                    self.dimension_spec(),
                                                ).len(),
                                            ),
                                            received@,
                                            radius as nat,
                                            roots_spec(
                                                q,
                                                enumerated_messages(
                                                    field_elements@,
                                                    self.dimension_spec(),
                                                ),
                                                enumerated_messages(
                                                    field_elements@,
                                                    self.dimension_spec(),
                                                ).len(),
                                            ).len(),
                                        ),
                                        self.points_spec(),
                                        self.multipliers_spec(),
                                        received@,
                                    )
                                }
                        },
                    }
                },
            },
    {
        if received.len() != self.length() {
            return Err(GrsError::ReceivedWordLengthMismatch);
        }
        let parameters = GuruswamiSudanParameters::new(
            self.length(),
            self.dimension,
            radius,
            multiplicity,
        )?;
        validate_field_enumeration(field_elements)?;
        check_reference_message_count(field_elements.len(), self.dimension)?;
        let ghost messages = enumerated_messages(field_elements@, self.dimension_spec());
        let enumerated = enumerate_polynomials(field_elements, self.dimension);
        proof {
            lemma_all_vectors_len(field_elements@, self.dimension_spec());
            assert(enumerated@.map_values(|p: Polynomial<F>| p@) =~= messages);
            assert forall|i: int| 0 <= i < enumerated@.len() implies (#[trigger] enumerated@[i]).wf()
                && enumerated@[i]@.len() <= self.dimension_spec() by {
                lemma_trim(all_vectors(field_elements@, self.dimension_spec())[i]);
            }
        }
        if self.dimension == 1 {
            return self.filter_reference_candidates(enumerated, received, parameters.radius());
        }
        let mut normalized: Vec<F> = Vec::with_capacity(received.len());
        let mut index: usize = 0;
        while index < received.len()
            invariant
                self.wf(),
                seq_wf(received@),
                received@.len() == self.points_spec().len(),
                index <= received@.len(),
                normalized@ == normalized_spec(received@, self.multipliers_spec()).subrange(
                    0,
                    index as int,
                ),
                seq_wf(normalized@),
            decreases received@.len() - index,
        {
            proof {
                assert(self.multipliers_spec()[index as int] != F::zero_spec());
                F::lemma_closure(received@[index as int], self.multipliers_spec()[index as int]);
            }
            let value = received[index].divide(self.multipliers[index]).unwrap();
            normalized.push(value);
            proof {
                assert(normalized@ =~= normalized_spec(received@, self.multipliers_spec()).subrange(
                    0,
                    index + 1,
                ));
            }
            index += 1;
        }
        proof {
            assert(normalized@ =~= normalized_spec(received@, self.multipliers_spec()));
        }
        proof {
            let n = self.points_spec().len();
            let w = (self.dimension_spec() - 1) as nat;
            let m = parameters@.1 as nat;
            let total = (n * w * m * (m + 1)) as nat;
            lemma_isqrt_exists(total);
            lemma_enough_monomials(n, w, m, parameters@.2 as nat);
            lemma_order_count(m, m);
            assert(n * order_count(m, m) == n * m * (m + 1) / 2) by (nonlinear_arith)
                requires
                    2 * order_count(m, m) == m * (2 * m + 1 - m),
            ;
        }
        let interpolation = self.interpolate(normalized.as_slice(), parameters)?;
        let ghost q = interpolation@;
        let mut roots: Vec<Polynomial<F>> = Vec::new();
        let mut index: usize = 0;
        proof {
            F::lemma_closure(F::zero_spec(), F::zero_spec());
            let i = choose|i: int| 0 <= i < field_elements@.len() && field_elements@[i] == F::zero_spec();
            let j = choose|j: int| 0 <= j < field_elements@.len() && field_elements@[j] == F::one_spec();
            assert(i != j);
            lemma_dimension_small(field_elements@.len() as int, self.dimension_spec());
        }
        while index < enumerated.len()
            invariant
                self.wf(),
                self.dimension_spec() >= 2,
                self.dimension_spec() < 20,
                q == interpolation@,
                q.len() > 0,
                terms_wf(q),
                forall|i: int| 0 <= i < q.len() ==> (#[trigger] q[i]).coefficient != F::zero_spec(),
                parameters@.2 < MAX_REFERENCE_MATRIX_CELLS,
                forall|i: int|
                    0 <= i < q.len() ==> is_interpolation_monomial(
                        (#[trigger] q[i]).monomial,
                        (self.dimension_spec() - 1) as nat,
                        parameters@.2 as nat,
                    ),
                enumerated@.map_values(|p: Polynomial<F>| p@) == messages,
                forall|i: int|
                    0 <= i < enumerated@.len() ==> (#[trigger] enumerated@[i]).wf()
                        && enumerated@[i]@.len() <= self.dimension_spec(),
                index <= enumerated@.len(),
                roots@.map_values(|p: Polynomial<F>| p@) == roots_spec(q, messages, index as nat),
                forall|i: int|
                    0 <= i < roots@.len() ==> (#[trigger] roots@[i]).wf() && roots@[i]@.len()
                        <= self.dimension_spec(),
            decreases enumerated@.len() - index,
        {
            let candidate = &enumerated[index];
            proof {
                assert forall|i: int| 0 <= i < q.len() implies (#[trigger] q[i]).monomial.x_degree + (
                q[i].monomial.y_degree + 1) * (candidate@.len() + 1) <= usize::MAX by {
                    let x = q[i].monomial.x_degree;
                    let y = q[i].monomial.y_degree;
                    let w = parameters@.2;
                    let k1 = (self.dimension_spec() - 1) as nat;
                    assert(x + k1 * y <= w);
                    assert(y <= w) by (nonlinear_arith)
                        requires
                            x + k1 * y <= w,
                            k1 >= 1,
                    ;
                    assert(x + (y + 1) * (candidate@.len() + 1) <= usize::MAX) by (nonlinear_arith)
                        requires
                            x <= w,
                            y <= w,
                            w < MAX_REFERENCE_MATRIX_CELLS,
                            candidate@.len() <= 20,
                    ;
                }
                assert(messages[index as int] == candidate@);
            }
            let substituted = interpolation.substitute_y(candidate);
            if substituted.is_zero() {
                roots.push(candidate.clone());
            }
            proof {
                assert(roots@.map_values(|p: Polynomial<F>| p@) =~= roots_spec(
                    q,
                    messages,
                    (index + 1) as nat,
                ));
            }
            index += 1;
        }
        proof {
            assert(satisfies_spec(
                q,
                self.points_spec(),
                normalized_spec(received@, self.multipliers_spec()),
                parameters@.1 as nat,
            ));
        }
        let ghost roots_view = roots@.map_values(|p: Polynomial<F>| p@);
        let out = self.filter_reference_candidates(roots, received, parameters.radius());
        proof {
            assert(roots_view == roots_spec(q, messages, messages.len()));
        }
        out
    }
}

} // verus!

verus! {

/// Received symbols agree with a codeword exactly where the normalized
/// symbols agree with the message's values.
proof fn lemma_normalized_agreement<F: FieldAxioms>(
    points: Seq<F>,
    multipliers: Seq<F>,
    f: Seq<F>,
    received: Seq<F>,
    m: int,
)
    requires
        F::is_field(),
        seq_wf(points),
        seq_wf(multipliers),
        seq_wf(f),
        seq_wf(received),
        points.len() == multipliers.len(),
        received.len() == points.len(),
        0 <= m <= points.len(),
        forall|i: int| 0 <= i < multipliers.len() ==> #[trigger] multipliers[i] != F::zero_spec(),
    ensures
        hamming_spec(grs_encode_spec(points, multipliers, f).take(m), received.take(m)) == hamming_spec(
            Seq::new(points.len(), |i: int| eval_seq(f, points[i])).take(m),
            normalized_spec(received, multipliers).take(m),
        ),
    decreases m,
{
    if m > 0 {
        lemma_normalized_agreement(points, multipliers, f, received, m - 1);
        let c = grs_encode_spec(points, multipliers, f);
        let e = Seq::new(points.len(), |i: int| eval_seq(f, points[i]));
        let y = normalized_spec(received, multipliers);
        assert(c.take(m).drop_last() =~= c.take(m - 1));
        assert(received.take(m).drop_last() =~= received.take(m - 1));
        assert(e.take(m).drop_last() =~= e.take(m - 1));
        assert(y.take(m).drop_last() =~= y.take(m - 1));
        let i = m - 1;
        let v = multipliers[i];
        let w = v.inverse_spec().unwrap();
        F::lemma_field_valid();
        crate::laws::lemma_eval_seq_wf(f, points[i]);
        let fx = eval_seq(f, points[i]);
        F::lemma_closure(v, v);
        F::lemma_inverse(v);
        F::lemma_closure(fx, v);
        F::lemma_closure(received[i], w);
        // f(α)·v = r  <=>  f(α) = r·v⁻¹
        F::lemma_ring(fx, v, w);
        F::lemma_ring(received[i], w, v);
        F::lemma_ring(w, v, v);
        F::lemma_ring(fx, F::one_spec(), F::one_spec());
        F::lemma_ring(received[i], F::one_spec(), F::one_spec());
        if c[i] == received[i] {
            assert(y[i] == fx);
        }
        if e[i] == y[i] {
            assert(c[i] == received[i]);
        }
    }
}

/// A candidate listed among the first `n` roots lies in the filtered list
/// when its codeword is within the radius.
proof fn lemma_filter_keeps<F: Field>(
    points: Seq<F>,
    multipliers: Seq<F>,
    candidates: Seq<Seq<F>>,
    received: Seq<F>,
    radius: nat,
    n: nat,
    j: int,
)
    requires
        0 <= j < n <= candidates.len(),
        hamming_spec(grs_encode_spec(points, multipliers, candidates[j]), received) <= radius,
    ensures
        filter_spec(points, multipliers, candidates, received, radius, n).contains(candidates[j]),
    decreases n,
{
    let prev = filter_spec(points, multipliers, candidates, received, radius, (n - 1) as nat);
    if j < n - 1 {
        lemma_filter_keeps(points, multipliers, candidates, received, radius, (n - 1) as nat, j);
        let k = choose|k: int| 0 <= k < prev.len() && prev[k] == candidates[j];
        if !prev.contains(candidates[n - 1]) && hamming_spec(
            grs_encode_spec(points, multipliers, candidates[n - 1]),
            received,
        ) <= radius {
            assert(prev.push(candidates[n - 1])[k] == candidates[j]);
        }
    } else {
        if !prev.contains(candidates[j]) {
            assert(prev.push(candidates[j])[prev.len() as int] == candidates[j]);
        }
    }
}

/// Every candidate among the first `n` along which `Q` vanishes is a root.
proof fn lemma_roots_keep<F: Field>(terms: Seq<BivariateTerm<F>>, candidates: Seq<Seq<F>>, n: nat, j: int)
    requires
        0 <= j < n <= candidates.len(),
        substitute_spec(terms, candidates[j]).len() == 0,
    ensures
        roots_spec(terms, candidates, n).contains(candidates[j]),
    decreases n,
{
    let prev = roots_spec(terms, candidates, (n - 1) as nat);
    if j < n - 1 {
        lemma_roots_keep(terms, candidates, (n - 1) as nat, j);
        let k = choose|k: int| 0 <= k < prev.len() && prev[k] == candidates[j];
        if substitute_spec(terms, candidates[n - 1]).len() == 0 {
            assert(prev.push(candidates[n - 1])[k] == candidates[j]);
        }
    } else {
        assert(prev.push(candidates[j])[prev.len() as int] == candidates[j]);
    }
}

/// Completeness of the reference decoder at multiplicity one: for any
/// interpolant that its contract admits (vanishing at every normalized sample,
/// within the weighted-degree bound), every enumerated message whose codeword
/// lies within the radius of the received word passes both the root test and
/// the distance filter, so it is in the decoded list.
pub proof fn law_reference_decoder_is_complete_at_multiplicity_one<F: FieldAxioms>(
    code: &GrsCode<F>,
    received: Seq<F>,
    radius: usize,
    elements: Seq<F>,
    q: Seq<BivariateTerm<F>>,
    j: int,
)
    requires
        F::is_field(),
        code.wf(),
        code.dimension_spec() >= 2,
        seq_wf(received),
        seq_wf(elements),
        received.len() == code.points_spec().len(),
        gs_parameters_spec(
            code.points_spec().len() as int,
            code.dimension_spec() as int,
            radius as int,
            1,
        ) is Ok,
        terms_wf(q),
        satisfies_spec(q, code.points_spec(), normalized_spec(received, code.multipliers_spec()), 1),
        forall|i: int|
            0 <= i < q.len() ==> is_interpolation_monomial(
                (#[trigger] q[i]).monomial,
                (code.dimension_spec() - 1) as nat,
                gs_parameters_spec(
                    code.points_spec().len() as int,
                    code.dimension_spec() as int,
                    radius as int,
                    1,
                )->Ok_0.2 as nat,
            ),
        0 <= j < enumerated_messages(elements, code.dimension_spec()).len(),
        hamming_spec(
            grs_encode_spec(
                code.points_spec(),
                code.multipliers_spec(),
                enumerated_messages(elements, code.dimension_spec())[j],
            ),
            received,
        ) <= radius,
    ensures
        ({
            let messages = enumerated_messages(elements, code.dimension_spec());
            let roots = roots_spec(q, messages, messages.len());
            filter_spec(
                code.points_spec(),
                code.multipliers_spec(),
                roots,
                received,
                radius as nat,
                roots.len(),
            ).contains(messages[j])
        }),
{
    let points = code.points_spec();
    let multipliers = code.multipliers_spec();
    let k = code.dimension_spec();
    let n = points.len();
    let messages = enumerated_messages(elements, k);
    let f = messages[j];
    let values = normalized_spec(received, multipliers);
    let bound = gs_parameters_spec(n as int, k as int, radius as int, 1)->Ok_0.2;
    F::lemma_field_valid();
    // f has degree below k and canonical coefficients
    crate::reference::lemma_all_vectors_len(elements, k);
    let v = all_vectors(elements, k)[j];
    lemma_trim(v);
    assert(f == trim(v));
    assert(seq_wf(v)) by {
        assert forall|i: int| 0 <= i < v.len() implies (#[trigger] v[i]).wf() by {
            assert(crate::reference::vector_over(v, elements));
            let e = choose|e: int| 0 <= e < elements.len() && elements[e] == v[i];
        }
    }
    // the normalized samples are canonical
    assert(seq_wf(values)) by {
        assert forall|i: int| 0 <= i < values.len() implies (#[trigger] values[i]).wf() by {
            F::lemma_closure(multipliers[i], multipliers[i]);
            F::lemma_closure(received[i], multipliers[i].inverse_spec().unwrap());
        }
    }
    // distinct points
    assert(crate::domain::distinct(points)) by {
        assert forall|a: int, b: int| 0 <= a < b < points.len() implies points[a] != points[b] by {
            if points[a] == points[b] {
                assert(has_duplicate(points));
            }
        }
    }
    // agreement exceeds the weighted-degree bound
    lemma_decoding_condition(n as int, k as int, radius as int, 1);
    lemma_normalized_agreement(points, multipliers, f, received, n as int);
    let c = grs_encode_spec(points, multipliers, f);
    let e = Seq::new(points.len(), |i: int| eval_seq(f, points[i]));
    assert(c.take(n as int) =~= c);
    assert(received.take(n as int) =~= received);
    assert(e.take(n as int) =~= e);
    assert(values.take(n as int) =~= values);
    crate::polynomial_laws::law_interpolant_vanishes_on_close_messages(
        q,
        points,
        values,
        (k - 1) as nat,
        bound as nat,
        f,
    );
    lemma_roots_keep(q, messages, messages.len(), j);
    let roots = roots_spec(q, messages, messages.len());
    let r = choose|r: int| 0 <= r < roots.len() && roots[r] == f;
    lemma_filter_keeps(points, multipliers, roots, received, radius as nat, roots.len(), r);
}

} // verus!
