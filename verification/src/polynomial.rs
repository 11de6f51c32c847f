//! Canonical dense univariate polynomials over a [`Field`], in coefficient
//! order, with the model of each operation as a function on coefficient
//! sequences.
use vstd::prelude::*;

use crate::field::Field;

verus! {

/// Failure of a polynomial operation.
#[derive(Clone, Copy, Debug, Eq, PartialEq)]
pub enum PolynomialError {
    DivisionByZero,
    NonInvertibleLeadingCoefficient,
    PointValueLengthMismatch,
    DuplicateInterpolationPoint,
}

/// Every element of the sequence is canonical.
pub open spec fn seq_wf<F: Field>(s: Seq<F>) -> bool {
    forall|i: int| 0 <= i < s.len() ==> (#[trigger] s[i]).wf()
}

/// No trailing zero coefficient (the zero polynomial is the empty sequence).
pub open spec fn is_trimmed<F: Field>(s: Seq<F>) -> bool {
    s.len() == 0 || s.last() != F::zero_spec()
}

/// Drop trailing zero coefficients.
pub open spec fn trim<F: Field>(s: Seq<F>) -> Seq<F>
    decreases s.len(),
{
    if s.len() > 0 && s.last() == F::zero_spec() {
        trim(s.drop_last())
    } else {
        s
    }
}

/// Coefficient `i`, zero beyond the stored length.
pub open spec fn coeff_at<F: Field>(s: Seq<F>, i: int) -> F {
    if 0 <= i < s.len() {
        s[i]
    } else {
        F::zero_spec()
    }
}

/// Horner evaluation: `s(x) = s[0] + x · (s[1..])(x)`, accumulated from the top.
pub open spec fn eval_seq<F: Field>(s: Seq<F>, x: F) -> F
    decreases s.len(),
{
    if s.len() == 0 {
        F::zero_spec()
    } else {
        eval_seq(s.drop_first(), x).mul_spec(x).add_spec(s[0])
    }
}

pub open spec fn min_len(a: nat, b: nat) -> nat {
    if a <= b {
        a
    } else {
        b
    }
}

pub open spec fn max_len(a: nat, b: nat) -> nat {
    if a >= b {
        a
    } else {
        b
    }
}

/// Coefficient-wise sum before trimming.
pub open spec fn add_seq<F: Field>(a: Seq<F>, b: Seq<F>) -> Seq<F> {
    Seq::new(max_len(a.len(), b.len()), |i: int| coeff_at(a, i).add_spec(coeff_at(b, i)))
}

/// Coefficient-wise difference before trimming.
pub open spec fn sub_seq<F: Field>(a: Seq<F>, b: Seq<F>) -> Seq<F> {
    Seq::new(max_len(a.len(), b.len()), |i: int| coeff_at(a, i).sub_spec(coeff_at(b, i)))
}

/// Coefficient `k` of `a · b` summed over the first `n` coefficients of `a`:
/// `Σ_{i < n, 0 <= k-i < |b|} a[i] · b[k-i]`, accumulated in increasing `i`.
pub open spec fn conv_partial<F: Field>(a: Seq<F>, b: Seq<F>, k: int, n: int) -> F
    decreases n,
{
    if n <= 0 {
        F::zero_spec()
    } else {
        let prev = conv_partial(a, b, k, n - 1);
        let j = k - (n - 1);
        if 0 <= j < b.len() {
            prev.add_spec(a[n - 1].mul_spec(b[j]))
        } else {
            prev
        }
    }
}

/// The product coefficient sequence of two nonempty sequences (length
/// `|a| + |b| - 1`), before trimming.
pub open spec fn conv<F: Field>(a: Seq<F>, b: Seq<F>) -> Seq<F> {
    Seq::new((a.len() + b.len() - 1) as nat, |k: int| conv_partial(a, b, k, a.len() as int))
}

/// The canonical product of two canonical coefficient sequences.
pub open spec fn mul_seq<F: Field>(a: Seq<F>, b: Seq<F>) -> Seq<F> {
    if a.len() == 0 || b.len() == 0 {
        Seq::empty()
    } else {
        trim(conv(a, b))
    }
}

/// The canonical product of a coefficient sequence by a scalar.
pub open spec fn scale_seq<F: Field>(s: Seq<F>, c: F) -> Seq<F> {
    if c == F::zero_spec() || s.len() == 0 {
        Seq::empty()
    } else {
        trim(s.map_values(|x: F| x.mul_spec(c)))
    }
}

/// Add a constant to a canonical sequence.
pub open spec fn add_constant<F: Field>(s: Seq<F>, c: F) -> Seq<F> {
    if c == F::zero_spec() {
        s
    } else if s.len() == 0 {
        seq![c]
    } else {
        trim(s.update(0, s[0].add_spec(c)))
    }
}

/// Horner composition `outer(inner)`: `outer[0] + inner · (outer[1..])(inner)`.
pub open spec fn compose_seq<F: Field>(outer: Seq<F>, inner: Seq<F>) -> Seq<F>
    decreases outer.len(),
{
    if outer.len() == 0 {
        Seq::empty()
    } else {
        add_constant(mul_seq(compose_seq(outer.drop_first(), inner), inner), outer[0])
    }
}

/// Binomial coefficient `C(n, k)` in the field, by Pascal's rule.
pub open spec fn binomial_spec<F: Field>(n: nat, k: nat) -> F
    decreases n,
{
    if k > n {
        F::zero_spec()
    } else if k == 0 {
        F::one_spec()
    } else {
        binomial_spec::<F>((n - 1) as nat, k).add_spec(
            binomial_spec::<F>((n - 1) as nat, (k - 1) as nat),
        )
    }
}

/// The binomial coefficient as the reference algorithm produces it: Pascal's
/// row up to the smaller of `k` and `n - k`.
pub open spec fn binomial_field<F: Field>(n: nat, k: nat) -> F {
    if k > n {
        F::zero_spec()
    } else if k <= n - k {
        binomial_spec::<F>(n, k)
    } else {
        binomial_spec::<F>(n, (n - k) as nat)
    }
}

/// The formal derivative: coefficient `i` is `(i + 1) · s[i + 1]`.
pub open spec fn derivative_seq<F: Field>(s: Seq<F>) -> Seq<F> {
    if s.len() < 2 {
        Seq::empty()
    } else {
        trim(
            Seq::new(
                (s.len() - 1) as nat,
                |i: int| s[i + 1].mul_spec(F::from_u64_spec((i + 1) as u64)),
            ),
        )
    }
}

/// The Hasse derivative of order `r`: coefficient `i` is `C(i + r, r) · s[i + r]`.
pub open spec fn hasse_seq<F: Field>(s: Seq<F>, r: nat) -> Seq<F> {
    if r == 0 {
        s
    } else if s.len() == 0 || r > s.len() - 1 {
        Seq::empty()
    } else {
        trim(
            Seq::new(
                (s.len() - r) as nat,
                |i: int| s[i + r].mul_spec(binomial_field::<F>((i + r) as nat, r)),
            ),
        )
    }
}

pub proof fn lemma_trim<F: Field>(s: Seq<F>)
    ensures
        is_trimmed(trim(s)),
        trim(s).len() <= s.len(),
        forall|i: int| 0 <= i < trim(s).len() ==> trim(s)[i] == s[i],
        forall|i: int| trim(s).len() <= i < s.len() ==> s[i] == F::zero_spec(),
        seq_wf(s) ==> seq_wf(trim(s)),
        is_trimmed(s) ==> trim(s) == s,
    decreases s.len(),
{
    if s.len() > 0 && s.last() == F::zero_spec() {
        let d = s.drop_last();
        lemma_trim(d);
        assert forall|i: int| 0 <= i < trim(s).len() implies trim(s)[i] == s[i] by {
            assert(trim(d)[i] == d[i]);
        }
        assert forall|i: int| trim(s).len() <= i < s.len() implies s[i] == F::zero_spec() by {
            if i < d.len() {
                assert(d[i] == F::zero_spec());
            }
        }
    }
}

/// Multiplication never lengthens beyond `|a| + |b| - 1`.
pub proof fn lemma_mul_seq_len<F: Field>(a: Seq<F>, b: Seq<F>)
    ensures
        a.len() > 0 && b.len() > 0 ==> mul_seq(a, b).len() <= a.len() + b.len() - 1,
        a.len() == 0 || b.len() == 0 ==> mul_seq(a, b).len() == 0,
{
    if a.len() > 0 && b.len() > 0 {
        lemma_trim(conv(a, b));
    }
}

/// Composition stays within `|outer| · (|inner| + 1)` coefficients.
pub proof fn lemma_compose_len<F: Field>(outer: Seq<F>, inner: Seq<F>)
    ensures
        compose_seq(outer, inner).len() <= outer.len() * (inner.len() + 1),
    decreases outer.len(),
{
    if outer.len() > 0 {
        let t = outer.len();
        let m = inner.len();
        let c = compose_seq(outer.drop_first(), inner);
        lemma_compose_len(outer.drop_first(), inner);
        lemma_mul_seq_len(c, inner);
        let p = mul_seq(c, inner);
        assert(p.len() <= (t - 1) * (m + 1) + m) by (nonlinear_arith)
            requires
                c.len() <= (t - 1) * (m + 1),
                c.len() > 0 && m > 0 ==> p.len() <= c.len() + m - 1,
                c.len() == 0 || m == 0 ==> p.len() == 0,
        ;
        let r = add_constant(p, outer[0]);
        if outer[0] != F::zero_spec() && p.len() > 0 {
            lemma_trim(p.update(0, p[0].add_spec(outer[0])));
        }
        assert(r.len() <= t * (m + 1)) by (nonlinear_arith)
            requires
                p.len() <= (t - 1) * (m + 1) + m,
                r.len() <= p.len() || r.len() == 1,
                t >= 1,
        ;
    }
}

/// Trimming is determined by coefficients: equal up to trailing zeros means
/// equal after trimming.
pub proof fn lemma_trim_coeff_eq<F: Field>(a: Seq<F>, b: Seq<F>)
    requires
        forall|i: int| 0 <= i < max_len(a.len(), b.len()) ==> coeff_at(a, i) == coeff_at(b, i),
    ensures
        trim(a) == trim(b),
    decreases a.len() + b.len(),
{
    if a.len() > 0 && a.last() == F::zero_spec() {
        assert forall|i: int| 0 <= i < max_len(a.drop_last().len(), b.len()) implies coeff_at(
            a.drop_last(),
            i,
        ) == coeff_at(b, i) by {
            assert(coeff_at(a, i) == coeff_at(b, i));
        }
        lemma_trim_coeff_eq(a.drop_last(), b);
    } else if b.len() > 0 && b.last() == F::zero_spec() {
        assert forall|i: int| 0 <= i < max_len(a.len(), b.drop_last().len()) implies coeff_at(
            a,
            i,
        ) == coeff_at(b.drop_last(), i) by {
            assert(coeff_at(a, i) == coeff_at(b, i));
        }
        lemma_trim_coeff_eq(a, b.drop_last());
    } else {
        if a.len() < b.len() {
            assert(coeff_at(a, b.len() - 1) == coeff_at(b, b.len() - 1));
        } else if b.len() < a.len() {
            assert(coeff_at(a, a.len() - 1) == coeff_at(b, a.len() - 1));
        }
        assert(a =~= b) by {
            assert forall|i: int| 0 <= i < a.len() implies a[i] == b[i] by {
                assert(coeff_at(a, i) == coeff_at(b, i));
            }
        }
    }
}

/// Canonical dense polynomial in coefficient order.
///
/// The coefficient at index `i` belongs to `x^i`. Trailing zero coefficients
/// are removed, and the zero polynomial is represented by an empty vector.
#[derive(Debug, Eq, PartialEq)]
pub struct Polynomial<F: Field> {
    coefficients: Vec<F>,
}

impl<F: Field> View for Polynomial<F> {
    type V = Seq<F>;

    closed spec fn view(&self) -> Seq<F> {
        self.coefficients@
    }
}

impl<F: Field> Clone for Polynomial<F> {
    fn clone(&self) -> (r: Self)
        ensures
            r@ == self@,
    {
        Polynomial { coefficients: copy_elements(&self.coefficients) }
    }
}

/// Copy a slice of field elements into a fresh vector.
pub(crate) fn copy_elements<F: Field>(s: &[F]) -> (r: Vec<F>)
    ensures
        r@ == s@,
{
    let mut out: Vec<F> = Vec::with_capacity(s.len());
    let mut i: usize = 0;
    while i < s.len()
        invariant
            i <= s.len(),
            out@ == s@.subrange(0, i as int),
        decreases s.len() - i,
    {
        out.push(s[i]);
        i += 1;
    }
    assert(out@ =~= s@);
    out
}

/// Pop trailing zero coefficients in place.
pub(crate) fn trim_vec<F: Field>(v: &mut Vec<F>)
    requires
        seq_wf(old(v)@),
    ensures
        final(v)@ == trim(old(v)@),
{
    proof {
        lemma_trim(old(v)@);
    }
    while v.len() > 0 && v[v.len() - 1].is_zero()
        invariant
            seq_wf(v@),
            trim(v@) == trim(old(v)@),
        decreases v.len(),
    {
        proof {
            assert(v@.last() == F::zero_spec());
            assert(v@.drop_last() =~= v@.subrange(0, v.len() - 1));
        }
        v.pop();
    }
    proof {
        lemma_trim(v@);
    }
}

impl<F: Field> Polynomial<F> {
    /// Canonical: valid field, canonical coefficients, no trailing zero.
    pub open spec fn wf(&self) -> bool {
        F::field_valid() && seq_wf(self@) && is_trimmed(self@)
    }

    pub fn zero() -> (r: Self)
        requires
            F::field_valid(),
        ensures
            r.wf(),
            r@ == Seq::<F>::empty(),
    {
        Polynomial { coefficients: Vec::new() }
    }

    pub fn one() -> (r: Self)
        requires
            F::field_valid(),
        ensures
            r.wf(),
            r@ == seq![F::one_spec()],
    {
        let r = Self::constant(F::one());
        proof {
            F::lemma_closure(F::one_spec(), F::one_spec());
            lemma_trim(seq![F::one_spec()]);
        }
        r
    }

    pub fn constant(value: F) -> (r: Self)
        requires
            value.wf(),
        ensures
            r.wf(),
            r@ == trim(seq![value]),
    {
        let mut coefficients = Vec::new();
        coefficients.push(value);
        proof {
            F::lemma_closure(value, value);
            assert(coefficients@ =~= seq![value]);
        }
        Self::from_coefficients(coefficients)
    }

    pub fn from_coefficients(coefficients: Vec<F>) -> (r: Self)
        requires
            F::field_valid(),
            seq_wf(coefficients@),
        ensures
            r.wf(),
            r@ == trim(coefficients@),
    {
        let ghost original = coefficients@;
        let mut coefficients = coefficients;
        trim_vec(&mut coefficients);
        proof {
            lemma_trim(original);
        }
        Polynomial { coefficients }
    }

    pub fn coefficients(&self) -> (r: &[F])
        ensures
            r@ == self@,
    {
        self.coefficients.as_slice()
    }

    pub fn coefficient(&self, index: usize) -> (r: F)
        requires
            self.wf(),
        ensures
            r == coeff_at(self@, index as int),
            r.wf(),
    {
        if index < self.coefficients.len() {
            self.coefficients[index]
        } else {
            F::zero()
        }
    }

    pub fn degree(&self) -> (r: Option<usize>)
        ensures
            r is None <==> self@.len() == 0,
            r matches Some(d) ==> d + 1 == self@.len() && d < usize::MAX,
    {
        if self.coefficients.len() == 0 {
            None
        } else {
            Some(self.coefficients.len() - 1)
        }
    }

    /// Drop trailing zero coefficients in place.
    pub fn trim(&mut self)
        requires
            F::field_valid(),
            seq_wf(old(self)@),
        ensures
            final(self)@ == trim(old(self)@),
            final(self).wf(),
    {
        proof {
            lemma_trim(old(self)@);
        }
        trim_vec(&mut self.coefficients);
    }

    pub fn is_zero(&self) -> (b: bool)
        ensures
            b == (self@.len() == 0),
    {
        self.coefficients.len() == 0
    }

    /// Coefficient-wise equality.
    pub fn equals(&self, other: &Self) -> (b: bool)
        ensures
            b == (self@ == other@),
    {
        if self.coefficients.len() != other.coefficients.len() {
            return false;
        }
        let mut i: usize = 0;
        while i < self.coefficients.len()
            invariant
                self@.len() == other@.len(),
                i <= self@.len(),
                forall|j: int| 0 <= j < i ==> self@[j] == other@[j],
            decreases self@.len() - i,
        {
            if !self.coefficients[i].equals(other.coefficients[i]) {
                return false;
            }
            i += 1;
        }
        assert(self@ =~= other@);
        true
    }

    pub fn add(&self, rhs: &Self) -> (r: Self)
        requires
            self.wf(),
            rhs.wf(),
        ensures
            r.wf(),
            r@ == trim(add_seq(self@, rhs@)),
    {
        let length = if self.coefficients.len() >= rhs.coefficients.len() {
            self.coefficients.len()
        } else {
            rhs.coefficients.len()
        };
        let mut coefficients: Vec<F> = Vec::with_capacity(length);
        let mut index: usize = 0;
        while index < length
            invariant
                self.wf(),
                rhs.wf(),
                length == max_len(self@.len(), rhs@.len()),
                index <= length,
                coefficients@.len() == index,
                forall|j: int|
                    0 <= j < index ==> #[trigger] coefficients@[j] == coeff_at(self@, j).add_spec(
                        coeff_at(rhs@, j),
                    ),
                seq_wf(coefficients@),
            decreases length - index,
        {
            let a = self.coefficient(index);
            let b = rhs.coefficient(index);
            coefficients.push(a.add(b));
            index += 1;
        }
        assert(coefficients@ =~= add_seq(self@, rhs@));
        Self::from_coefficients(coefficients)
    }

    pub fn sub(&self, rhs: &Self) -> (r: Self)
        requires
            self.wf(),
            rhs.wf(),
        ensures
            r.wf(),
            r@ == trim(sub_seq(self@, rhs@)),
    {
        let length = if self.coefficients.len() >= rhs.coefficients.len() {
            self.coefficients.len()
        } else {
            rhs.coefficients.len()
        };
        let mut coefficients: Vec<F> = Vec::with_capacity(length);
        let mut index: usize = 0;
        while index < length
            invariant
                self.wf(),
                rhs.wf(),
                length == max_len(self@.len(), rhs@.len()),
                index <= length,
                coefficients@.len() == index,
                forall|j: int|
                    0 <= j < index ==> #[trigger] coefficients@[j] == coeff_at(self@, j).sub_spec(
                        coeff_at(rhs@, j),
                    ),
                seq_wf(coefficients@),
            decreases length - index,
        {
            let a = self.coefficient(index);
            let b = rhs.coefficient(index);
            coefficients.push(a.sub(b));
            index += 1;
        }
        assert(coefficients@ =~= sub_seq(self@, rhs@));
        Self::from_coefficients(coefficients)
    }

    pub fn scale(&self, scalar: F) -> (r: Self)
        requires
            self.wf(),
            scalar.wf(),
        ensures
            r.wf(),
            r@ == scale_seq(self@, scalar),
    {
        if scalar.is_zero() || self.is_zero() {
            return Self::zero();
        }
        let mut coefficients: Vec<F> = Vec::with_capacity(self.coefficients.len());
        let mut index: usize = 0;
        while index < self.coefficients.len()
            invariant
                self.wf(),
                scalar.wf(),
                index <= self@.len(),
                coefficients@.len() == index,
                forall|j: int|
                    0 <= j < index ==> #[trigger] coefficients@[j] == self@[j].mul_spec(scalar),
                seq_wf(coefficients@),
            decreases self@.len() - index,
        {
            coefficients.push(self.coefficients[index].mul(scalar));
            index += 1;
        }
        assert(coefficients@ =~= self@.map_values(|x: F| x.mul_spec(scalar)));
        Self::from_coefficients(coefficients)
    }

    pub fn mul(&self, rhs: &Self) -> (r: Self)
        requires
            self.wf(),
            rhs.wf(),
            self@.len() + rhs@.len() <= usize::MAX + 1,
        ensures
            r.wf(),
            r@ == mul_seq(self@, rhs@),
    {
        if self.is_zero() || rhs.is_zero() {
            return Self::zero();
        }
        let la = self.coefficients.len();
        let lb = rhs.coefficients.len();
        let mut coefficients: Vec<F> = Vec::new();
        let zero = F::zero();
        let total = la - 1 + lb;
        while coefficients.len() < total
            invariant
                coefficients@.len() <= total,
                zero == F::zero_spec(),
                forall|k: int| 0 <= k < coefficients@.len() ==> #[trigger] coefficients@[k] == zero,
            decreases total - coefficients@.len(),
        {
            coefficients.push(zero);
        }
        let ghost a = self@;
        let ghost b = rhs@;
        let mut left_index: usize = 0;
        while left_index < la
            invariant
                self.wf(),
                rhs.wf(),
                a == self@,
                b == rhs@,
                la == a.len(),
                lb == b.len(),
                la >= 1,
                lb >= 1,
                total == la + lb - 1,
                left_index <= la,
                coefficients@.len() == total,
                forall|k: int|
                    0 <= k < total ==> #[trigger] coefficients@[k] == conv_partial(
                        a,
                        b,
                        k,
                        left_index as int,
                    ),
                seq_wf(coefficients@),
            decreases la - left_index,
        {
            let left = self.coefficients[left_index];
            let mut right_index: usize = 0;
            while right_index < lb
                invariant
                    self.wf(),
                    rhs.wf(),
                    a == self@,
                    b == rhs@,
                    la == a.len(),
                    lb == b.len(),
                    total == la + lb - 1,
                    left_index < la,
                    left == a[left_index as int],
                    right_index <= lb,
                    coefficients@.len() == total,
                    forall|k: int|
                        0 <= k < total ==> #[trigger] coefficients@[k] == (if left_index <= k
                            < left_index + right_index {
                            conv_partial(a, b, k, left_index + 1)
                        } else {
                            conv_partial(a, b, k, left_index as int)
                        }),
                    seq_wf(coefficients@),
                decreases lb - right_index,
            {
                let output = left_index + right_index;
                let product = left.mul(rhs.coefficients[right_index]);
                let updated = coefficients[output].add(product);
                coefficients.set(output, updated);
                proof {
                    assert forall|k: int| 0 <= k < total implies #[trigger] coefficients@[k] == (
                    if left_index <= k < left_index + right_index + 1 {
                        conv_partial(a, b, k, left_index + 1)
                    } else {
                        conv_partial(a, b, k, left_index as int)
                    }) by {
                        if k == output {
                            assert(k - left_index == right_index);
                        }
                    }
                }
                right_index += 1;
            }
            proof {
                assert forall|k: int| 0 <= k < total implies #[trigger] coefficients@[k]
                    == conv_partial(a, b, k, left_index + 1) by {
                    if !(left_index <= k < left_index + lb) {
                        assert(conv_partial(a, b, k, left_index + 1) == conv_partial(
                            a,
                            b,
                            k,
                            left_index as int,
                        ));
                    }
                }
            }
            left_index += 1;
        }
        assert(coefficients@ =~= conv(a, b));
        Self::from_coefficients(coefficients)
    }

    pub fn derivative(&self) -> (r: Self)
        requires
            self.wf(),
        ensures
            r.wf(),
            r@ == derivative_seq(self@),
    {
        if self.coefficients.len() < 2 {
            return Self::zero();
        }
        let n = self.coefficients.len();
        let mut coefficients: Vec<F> = Vec::with_capacity(n - 1);
        let mut degree: usize = 1;
        while degree < n
            invariant
                self.wf(),
                n == self@.len(),
                1 <= degree <= n,
                coefficients@.len() == degree - 1,
                forall|i: int|
                    0 <= i < degree - 1 ==> #[trigger] coefficients@[i] == self@[i + 1].mul_spec(
                        F::from_u64_spec((i + 1) as u64),
                    ),
                seq_wf(coefficients@),
            decreases n - degree,
        {
            let factor = F::from_u64(degree as u64);
            coefficients.push(self.coefficients[degree].mul(factor));
            degree += 1;
        }
        assert(coefficients@ =~= Seq::new(
            (self@.len() - 1) as nat,
            |i: int| self@[i + 1].mul_spec(F::from_u64_spec((i + 1) as u64)),
        ));
        Self::from_coefficients(coefficients)
    }

    pub fn hasse_derivative(&self, order: usize) -> (r: Self)
        requires
            self.wf(),
        ensures
            r.wf(),
            r@ == hasse_seq(self@, order as nat),
    {
        if order == 0 {
            return self.clone();
        }
        let n = self.coefficients.len();
        if n == 0 || order > n - 1 {
            return Self::zero();
        }
        let mut coefficients: Vec<F> = Vec::with_capacity(n - order);
        let mut degree: usize = order;
        while degree < n
            invariant
                self.wf(),
                n == self@.len(),
                0 < order <= degree <= n,
                coefficients@.len() == degree - order,
                forall|i: int|
                    0 <= i < degree - order ==> #[trigger] coefficients@[i] == self@[i
                        + order].mul_spec(binomial_field::<F>((i + order) as nat, order as nat)),
                seq_wf(coefficients@),
            decreases n - degree,
        {
            let factor = binomial_in_field::<F>(degree, order);
            coefficients.push(self.coefficients[degree].mul(factor));
            degree += 1;
        }
        assert(coefficients@ =~= Seq::new(
            (self@.len() - order) as nat,
            |i: int| self@[i + order].mul_spec(binomial_field::<F>((i + order) as nat, order as nat)),
        ));
        Self::from_coefficients(coefficients)
    }

    pub fn evaluate(&self, point: F) -> (r: F)
        requires
            self.wf(),
            point.wf(),
        ensures
            r == eval_seq(self@, point),
            r.wf(),
    {
        let ghost s = self@;
        let mut value = F::zero();
        let mut index = self.coefficients.len();
        proof {
            assert(s.subrange(index as int, s.len() as int) =~= Seq::<F>::empty());
        }
        while index > 0
            invariant
                self.wf(),
                point.wf(),
                s == self@,
                index <= s.len(),
                value == eval_seq(s.subrange(index as int, s.len() as int), point),
                value.wf(),
            decreases index,
        {
            index -= 1;
            proof {
                assert(s.subrange(index as int, s.len() as int).drop_first() =~= s.subrange(
                    index + 1,
                    s.len() as int,
                ));
            }
            value = value.mul(point).add(self.coefficients[index]);
        }
        assert(s.subrange(0, s.len() as int) =~= s);
        value
    }

    pub fn multipoint_evaluate(&self, points: &[F]) -> (r: Vec<F>)
        requires
            self.wf(),
            seq_wf(points@),
        ensures
            r@.len() == points@.len(),
            forall|i: int| 0 <= i < points@.len() ==> #[trigger] r@[i] == eval_seq(self@, points@[i]),
            seq_wf(r@),
    {
        let mut values: Vec<F> = Vec::with_capacity(points.len());
        let mut i: usize = 0;
        while i < points.len()
            invariant
                self.wf(),
                seq_wf(points@),
                i <= points@.len(),
                values@.len() == i,
                forall|j: int| 0 <= j < i ==> #[trigger] values@[j] == eval_seq(self@, points@[j]),
                seq_wf(values@),
            decreases points@.len() - i,
        {
            values.push(self.evaluate(points[i]));
            i += 1;
        }
        values
    }

    pub fn compose(&self, inner: &Self) -> (r: Self)
        requires
            self.wf(),
            inner.wf(),
            self@.len() * (inner@.len() + 1) <= usize::MAX,
        ensures
            r.wf(),
            r@ == compose_seq(self@, inner@),
    {
        let ghost s = self@;
        let mut result = Self::zero();
        let mut index = self.coefficients.len();
        proof {
            assert(s.subrange(index as int, s.len() as int) =~= Seq::<F>::empty());
        }
        while index > 0
            invariant
                self.wf(),
                inner.wf(),
                s == self@,
                s.len() * (inner@.len() + 1) <= usize::MAX,
                index <= s.len(),
                result.wf(),
                result@ == compose_seq(s.subrange(index as int, s.len() as int), inner@),
            decreases index,
        {
            index -= 1;
            proof {
                assert(s.subrange(index as int, s.len() as int).drop_first() =~= s.subrange(
                    index + 1,
                    s.len() as int,
                ));
            }
            let coefficient = self.coefficients[index];
            proof {
                let rest = s.subrange(index + 1, s.len() as int);
                lemma_compose_len(rest, inner@);
                assert(rest.len() * (inner@.len() + 1) <= s.len() * (inner@.len() + 1) - (inner@.len() + 1)) by (nonlinear_arith)
                    requires rest.len() + 1 <= s.len();
                assert(result@ == compose_seq(rest, inner@));
                assert(result@.len() + inner@.len() <= usize::MAX);
            }
            result = result.mul(inner);
            if coefficient.is_zero() {
                continue;
            }
            if result.coefficients.len() == 0 {
                result.coefficients.push(coefficient);
                proof {
                    assert(result@ =~= seq![coefficient]);
                }
            } else {
                let updated = result.coefficients[0].add(coefficient);
                let ghost before = result@;
                result.coefficients.set(0, updated);
                proof {
                    assert(result@ =~= before.update(0, before[0].add_spec(coefficient)));
                    F::lemma_closure(before[0], coefficient);
                    assert(seq_wf(result@));
                }
                trim_vec(&mut result.coefficients);
                proof {
                    lemma_trim(before.update(0, before[0].add_spec(coefficient)));
                }
            }
        }
        assert(s.subrange(0, s.len() as int) =~= s);
        result
    }
}

/// `C(n, k)` computed in the field with one Pascal row of length
/// `min(k, n-k) + 1`.
pub fn binomial_in_field<F: Field>(n: usize, k: usize) -> (r: F)
    requires
        F::field_valid(),
    ensures
        r == binomial_field::<F>(n as nat, k as nat),
        r.wf(),
{
    proof {
        F::lemma_closure(F::zero_spec(), F::zero_spec());
    }
    if k > n {
        return F::zero();
    }
    let ghost k0 = k;
    let k = if k <= n - k { k } else { n - k };
    let mut row: Vec<F> = Vec::new();
    row.push(F::one());
    while row.len() <= k
        invariant
            k <= n,
            F::field_valid(),
            row@.len() <= k + 1,
            row@.len() >= 1,
            row@[0] == F::one_spec(),
            forall|j: int| 1 <= j < row@.len() ==> #[trigger] row@[j] == F::zero_spec(),
        decreases k + 1 - row@.len(),
    {
        row.push(F::zero());
    }
    let mut step: usize = 0;
    while step < n
        invariant
            step <= n,
            row@.len() == k + 1,
            k <= n,
            F::field_valid(),
            forall|j: int|
                0 <= j <= k ==> #[trigger] row@[j] == binomial_spec::<F>(
                    step as nat,
                    j as nat,
                ),
        decreases n - step,
    {
        let current_n = step + 1;
        let top = if k < current_n { k } else { current_n };
        let mut current_k = top;
        while current_k >= 1
            invariant
                1 <= current_n <= n,
                row@.len() == k + 1,
                k <= n,
                top <= k,
                top <= current_n,
                current_k <= top,
                F::field_valid(),
                forall|j: int|
                    0 <= j <= k ==> #[trigger] row@[j] == (if current_k < j <= top {
                        binomial_spec::<F>(current_n as nat, j as nat)
                    } else {
                        binomial_spec::<F>((current_n - 1) as nat, j as nat)
                    }),
            decreases current_k,
        {
            proof {
                lemma_binomial_wf::<F>((current_n - 1) as nat, (current_k - 1) as nat);
                lemma_binomial_wf::<F>((current_n - 1) as nat, current_k as nat);
            }
            let updated = row[current_k].add(row[current_k - 1]);
            row.set(current_k, updated);
            current_k -= 1;
        }
        proof {
            assert forall|j: int| 0 <= j <= k implies #[trigger] row@[j] == binomial_spec::<F>(
                current_n as nat,
                j as nat,
            ) by {
                if j == 0 {
                } else if j > top {
                    assert(j > current_n);
                }
            }
        }
        step += 1;
    }
    proof {
        lemma_binomial_wf::<F>(n as nat, k as nat);
    }
    row[k]
}

pub proof fn lemma_binomial_wf<F: Field>(n: nat, k: nat)
    requires
        F::field_valid(),
    ensures
        binomial_spec::<F>(n, k).wf(),
    decreases n,
{
    F::lemma_closure(F::zero_spec(), F::zero_spec());
    if k > n || k == 0 {
    } else {
        lemma_binomial_wf::<F>((n - 1) as nat, (k - 1) as nat);
        lemma_binomial_wf::<F>((n - 1) as nat, k);
        F::lemma_closure(
            binomial_spec::<F>((n - 1) as nat, k),
            binomial_spec::<F>((n - 1) as nat, (k - 1) as nat),
        );
    }
}

} // verus!
