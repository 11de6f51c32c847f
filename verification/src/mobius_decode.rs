//! The Möbius decoder's own logic: the two normalizations of a received word
//! (moved points, renormalized base domain) and the pullback of a recovered
//! `g` to the message `f` through the adjugate map.
use vstd::prelude::*;

use crate::decode::low_part;
use crate::error::Error;
use crate::field::Field;
use crate::mobius::{denominator_at, determinant_spec, MobiusGrsCode, MobiusMap};
use crate::outcome::UniqueDecode;
use crate::polynomial::{coeff_at, conv, conv_partial, seq_wf, trim, Polynomial};
use crate::puncture::low_parts_into;
use crate::validate::{all_nonzero, lemma_first_zero};

verus! {

/// `p · (l0 + l1·Y)`, each coefficient accumulated from zero as the
/// reference loop does: first the `l1` term from below, then the `l0` term.
pub open spec fn mul_linear_spec<F: Field>(p: Seq<F>, l0: F, l1: F) -> Seq<F> {
    Seq::new(
        p.len() + 1,
        |d: int|
            {
                let low = if d >= 1 {
                    F::zero_spec().add_spec(p[d - 1].mul_spec(l1))
                } else {
                    F::zero_spec()
                };
                if d < p.len() {
                    low.add_spec(p[d].mul_spec(l0))
                } else {
                    low
                }
            },
    )
}

/// `(l0 + l1·Y)^i` by repeated `mul_linear_spec` from `[1]`.
pub open spec fn linear_power<F: Field>(l0: F, l1: F, i: nat) -> Seq<F>
    decreases i,
{
    if i == 0 {
        seq![F::one_spec()]
    } else {
        mul_linear_spec(linear_power(l0, l1, (i - 1) as nat), l0, l1)
    }
}

/// `s` truncated or zero-padded to length `k`.
pub open spec fn resize_spec<F: Field>(s: Seq<F>, k: nat) -> Seq<F> {
    Seq::new(k, |d: int| if d < s.len() { s[d] } else { F::zero_spec() })
}

/// Row `i` of the pullback basis: the coefficients of `N^i · D^{k−1−i}` with
/// `N = d·Y + b` and `D = c·Y + a`, resized to `k`.
pub open spec fn pullback_row<F: Field>(m: MobiusMap<F>, k: nat, i: nat) -> Seq<F> {
    resize_spec(
        conv(linear_power(m.b, m.d, i), linear_power(m.a, m.c, (k - 1 - i) as nat)),
        k,
    )
}

/// `Σ_{s < m} g_s · basis[s][deg]`, accumulated in increasing `s`.
pub open spec fn column_sum<F: Field>(basis: Seq<Seq<F>>, g: Seq<F>, degree: int, m: int) -> F
    decreases m,
{
    if m <= 0 {
        F::zero_spec()
    } else {
        column_sum(basis, g, degree, m - 1).add_spec(coeff_at(g, m - 1).mul_spec(basis[m - 1][degree]))
    }
}

/// The message `f = Δ^{−(k−1)} · Σ_i g_i · N^i D^{k−1−i}` recovered from `g`.
pub open spec fn pulled_back<F: Field>(basis: Seq<Seq<F>>, scalar: F, g: Seq<F>, k: nat) -> Seq<F> {
    trim(Seq::new(k, |degree: int| scalar.mul_spec(column_sum(basis, g, degree, k as int))))
}

/// The inverse, with zero mapped to zero.
pub open spec fn inverse_or_zero<F: Field>(x: F) -> F {
    match x.inverse_spec() {
        Some(inverse) => inverse,
        None => F::zero_spec(),
    }
}

pub proof fn lemma_linear_power<F: Field>(l0: F, l1: F, i: nat)
    requires
        F::field_valid(),
        l0.wf(),
        l1.wf(),
    ensures
        linear_power(l0, l1, i).len() == i + 1,
        seq_wf(linear_power(l0, l1, i)),
    decreases i,
{
    F::lemma_closure(F::one_spec(), F::one_spec());
    if i > 0 {
        lemma_linear_power(l0, l1, (i - 1) as nat);
        let p = linear_power(l0, l1, (i - 1) as nat);
        let r = mul_linear_spec(p, l0, l1);
        assert forall|d: int| 0 <= d < r.len() implies (#[trigger] r[d]).wf() by {
            if d >= 1 {
                F::lemma_closure(p[d - 1], l1);
                F::lemma_closure(F::zero_spec(), p[d - 1].mul_spec(l1));
            }
            if d < p.len() {
                F::lemma_closure(p[d], l0);
                let low = if d >= 1 {
                    F::zero_spec().add_spec(p[d - 1].mul_spec(l1))
                } else {
                    F::zero_spec()
                };
                F::lemma_closure(low, p[d].mul_spec(l0));
            }
        }
    }
}

/// Multiply a coefficient vector by `l0 + l1·Y`.
fn mul_linear<F: Field>(poly: &[F], l0: F, l1: F) -> (r: Vec<F>)
    requires
        F::field_valid(),
        seq_wf(poly@),
        l0.wf(),
        l1.wf(),
        poly@.len() < usize::MAX,
    ensures
        r@ == mul_linear_spec(poly@, l0, l1),
        seq_wf(r@),
{
    let p = poly;
    let n = p.len();
    let mut result: Vec<F> = Vec::with_capacity(n + 1);
    while result.len() < n + 1
        invariant
            F::field_valid(),
            n < usize::MAX,
            result@.len() <= n + 1,
            forall|d: int| 0 <= d < result@.len() ==> #[trigger] result@[d] == F::zero_spec(),
        decreases n + 1 - result@.len(),
    {
        result.push(F::zero());
    }
    proof {
        F::lemma_closure(F::zero_spec(), F::zero_spec());
    }
    let ghost target = mul_linear_spec(p@, l0, l1);
    let mut degree: usize = 0;
    while degree < n
        invariant
            F::field_valid(),
            seq_wf(p@),
            l0.wf(),
            l1.wf(),
            n == p@.len(),
            target == mul_linear_spec(p@, l0, l1),
            result@.len() == n + 1,
            degree <= n,
            forall|d: int| 0 <= d < degree ==> #[trigger] result@[d] == target[d],
            result@[degree as int] == (if degree >= 1 {
                F::zero_spec().add_spec(p@[degree - 1].mul_spec(l1))
            } else {
                F::zero_spec()
            }),
            forall|d: int| degree < d <= n ==> #[trigger] result@[d] == F::zero_spec(),
            seq_wf(result@),
        decreases n - degree,
    {
        let coefficient = p[degree];
        let first = result[degree].add(coefficient.mul(l0));
        result.set(degree, first);
        let second = result[degree + 1].add(coefficient.mul(l1));
        result.set(degree + 1, second);
        degree += 1;
    }
    assert(result@ =~= target);
    result
}

/// The product coefficient vector of two nonempty vectors.
fn convolve<F: Field>(a: &[F], b: &[F]) -> (r: Vec<F>)
    requires
        F::field_valid(),
        seq_wf(a@),
        seq_wf(b@),
        a@.len() >= 1,
        b@.len() >= 1,
        a@.len() + b@.len() <= usize::MAX,
    ensures
        r@ == conv(a@, b@),
        seq_wf(r@),
{
    let la = a.len();
    let lb = b.len();
    let total = la - 1 + lb;
    let zero = F::zero();
    let mut coefficients: Vec<F> = Vec::with_capacity(total);
    while coefficients.len() < total
        invariant
            coefficients@.len() <= total,
            zero == F::zero_spec(),
            forall|k: int| 0 <= k < coefficients@.len() ==> #[trigger] coefficients@[k] == zero,
        decreases total - coefficients@.len(),
    {
        coefficients.push(zero);
    }
    proof {
        F::lemma_closure(zero, zero);
    }
    let mut i: usize = 0;
    while i < la
        invariant
            F::field_valid(),
            seq_wf(a@),
            seq_wf(b@),
            la == a@.len(),
            lb == b@.len(),
            la >= 1,
            lb >= 1,
            total == la + lb - 1,
            i <= la,
            coefficients@.len() == total,
            forall|k: int| 0 <= k < total ==> #[trigger] coefficients@[k] == conv_partial(a@, b@, k, i as int),
            seq_wf(coefficients@),
        decreases la - i,
    {
        let x = a[i];
        let mut j: usize = 0;
        while j < lb
            invariant
                F::field_valid(),
                seq_wf(a@),
                seq_wf(b@),
                la == a@.len(),
                lb == b@.len(),
                total == la + lb - 1,
                i < la,
                x == a@[i as int],
                j <= lb,
                coefficients@.len() == total,
                forall|k: int|
                    0 <= k < total ==> #[trigger] coefficients@[k] == (if i <= k < i + j {
                        conv_partial(a@, b@, k, i + 1)
                    } else {
                        conv_partial(a@, b@, k, i as int)
                    }),
                seq_wf(coefficients@),
            decreases lb - j,
        {
            let output = i + j;
            let updated = coefficients[output].add(x.mul(b[j]));
            coefficients.set(output, updated);
            proof {
                assert forall|k: int| 0 <= k < total implies #[trigger] coefficients@[k] == (if i <= k
                    < i + j + 1 {
                    conv_partial(a@, b@, k, i + 1)
                } else {
                    conv_partial(a@, b@, k, i as int)
                }) by {
                    if k == output {
                        assert(k - i == j);
                    }
                }
            }
            j += 1;
        }
        proof {
            assert forall|k: int| 0 <= k < total implies #[trigger] coefficients@[k] == conv_partial(
                a@,
                b@,
                k,
                i + 1,
            ) by {
                if !(i <= k < i + lb) {
                    assert(conv_partial(a@, b@, k, i + 1) == conv_partial(a@, b@, k, i as int));
                }
            }
        }
        i += 1;
    }
    assert(coefficients@ =~= conv(a@, b@));
    coefficients
}

/// The Möbius decoder's data: both normalizations and the pullback basis.
pub struct MobiusGrsDecoder<F: Field> {
    moved: Vec<F>,
    inverse_multipliers: Vec<F>,
    base_normalizers: Vec<F>,
    pullback_basis: Vec<Vec<F>>,
    pullback_scalar: F,
    dimension: usize,
    length: usize,
    target_radius: usize,
    map: Ghost<MobiusMap<F>>,
    points: Ghost<Seq<F>>,
    multipliers: Ghost<Seq<F>>,
}

impl<F: Field> MobiusGrsDecoder<F> {
    pub closed spec fn moved_view(&self) -> Seq<F> {
        self.moved@
    }

    pub closed spec fn map_view(&self) -> MobiusMap<F> {
        self.map@
    }

    pub closed spec fn points_view(&self) -> Seq<F> {
        self.points@
    }

    pub closed spec fn multipliers_view(&self) -> Seq<F> {
        self.multipliers@
    }

    pub closed spec fn dimension_view(&self) -> usize {
        self.dimension
    }

    pub closed spec fn target_radius_view(&self) -> usize {
        self.target_radius
    }

    pub closed spec fn basis_view(&self) -> Seq<Seq<F>> {
        self.pullback_basis@.map_values(|row: Vec<F>| row@)
    }

    pub closed spec fn scalar_view(&self) -> F {
        self.pullback_scalar
    }

    /// The per-coordinate factor `(c·α_i + d)^{k−1} · w_i^{−1}`.
    pub open spec fn normalizer_spec(&self, i: int) -> F {
        denominator_at(self.map_view(), self.points_view()[i]).pow_spec(
            (self.dimension_view() - 1) as nat,
        ).mul_spec(self.multipliers_view()[i].inverse_spec().unwrap())
    }

    pub closed spec fn wf(&self) -> bool {
        let n = self.length as int;
        &&& F::field_valid()
        &&& self.dimension >= 1
        &&& self.points@.len() == n
        &&& self.multipliers@.len() == n
        &&& self.moved@.len() == n
        &&& self.inverse_multipliers@.len() == n
        &&& self.base_normalizers@.len() == n
        &&& seq_wf(self.inverse_multipliers@)
        &&& seq_wf(self.base_normalizers@)
        &&& forall|i: int|
            0 <= i < n ==> Some(#[trigger] self.inverse_multipliers@[i])
                == self.multipliers@[i].inverse_spec()
        &&& forall|i: int| 0 <= i < n ==> #[trigger] self.base_normalizers@[i] == self.normalizer_spec(i)
        &&& self.pullback_basis@.len() == self.dimension
        &&& forall|i: int|
            0 <= i < self.dimension ==> (#[trigger] self.pullback_basis@[i])@ == pullback_row(
                self.map@,
                self.dimension as nat,
                i as nat,
            )
        &&& forall|i: int| 0 <= i < self.dimension ==> seq_wf(#[trigger] self.pullback_basis@[i]@)
        &&& self.pullback_scalar == inverse_or_zero(
            determinant_spec(self.map@).pow_spec((self.dimension - 1) as nat),
        )
        &&& self.pullback_scalar.wf()
    }

    /// The decoder's pullback data: row `i` of the basis is the coefficient
    /// vector of `N^i · D^{k−1−i}`, and the scalar inverts `Δ^{k−1}`.
    pub proof fn lemma_pullback_data(&self)
        requires
            self.wf(),
        ensures
            F::field_valid(),
            self.dimension_view() >= 1,
            self.basis_view().len() == self.dimension_view(),
            forall|i: int|
                0 <= i < self.dimension_view() ==> #[trigger] self.basis_view()[i] == pullback_row(
                    self.map_view(),
                    self.dimension_view() as nat,
                    i as nat,
                ),
            self.scalar_view() == inverse_or_zero(
                determinant_spec(self.map_view()).pow_spec((self.dimension_view() - 1) as nat),
            ),
    {
        assert forall|i: int| 0 <= i < self.dimension_view() implies #[trigger] self.basis_view()[i]
            == pullback_row(self.map_view(), self.dimension_view() as nat, i as nat) by {
            assert(self.pullback_basis@[i]@ == pullback_row(self.map@, self.dimension as nat, i as nat));
        }
    }

    /// Build the decoder data for a code and a decoding radius.
    pub fn new(code: &MobiusGrsCode<F>, target_radius: usize) -> (r: Self)
        requires
            code.wf(),
        ensures
            r.wf(),
            r.moved_view() == code.moved_view(),
            r.map_view() == code.map_view(),
            r.points_view() == code.points_view(),
            r.multipliers_view() == code.multipliers_view(),
            r.dimension_view() == code.dimension_view(),
            r.target_radius_view() == target_radius,
    {
        let length = code.length();
        let dimension = code.dimension();
        let map = *code.map();
        let points = code.domain().points();
        let multipliers = code.multipliers();
        let exponent = (dimension - 1) as u64;
        proof {
            lemma_first_zero(multipliers@, 0);
        }
        let mut inverse_multipliers: Vec<F> = Vec::with_capacity(length);
        let mut base_normalizers: Vec<F> = Vec::with_capacity(length);
        let mut i: usize = 0;
        while i < length
            invariant
                code.wf(),
                map == code.map_view(),
                points@ == code.points_view(),
                multipliers@ == code.multipliers_view(),
                length == points@.len(),
                length == multipliers@.len(),
                all_nonzero(multipliers@),
                dimension == code.dimension_view(),
                dimension >= 1,
                exponent == dimension - 1,
                i <= length,
                inverse_multipliers@.len() == i,
                base_normalizers@.len() == i,
                seq_wf(inverse_multipliers@),
                seq_wf(base_normalizers@),
                forall|j: int|
                    0 <= j < i ==> Some(#[trigger] inverse_multipliers@[j]) == multipliers@[j].inverse_spec(),
                forall|j: int|
                    0 <= j < i ==> #[trigger] base_normalizers@[j] == denominator_at(map, points@[j]).pow_spec(
                        (dimension - 1) as nat,
                    ).mul_spec(multipliers@[j].inverse_spec().unwrap()),
            decreases length - i,
        {
            proof {
                assert(multipliers@[i as int].wf());
                assert(multipliers@[i as int] != F::zero_spec());
                assert(points@[i as int].wf());
            }
            let inverse = multipliers[i].inverse().unwrap();
            inverse_multipliers.push(inverse);
            let denominator = map.c.mul(points[i]).add(map.d);
            let normalizer = denominator.pow(exponent).mul(inverse);
            base_normalizers.push(normalizer);
            i += 1;
        }
        let pullback_basis = build_pullback_basis(&map, dimension);
        let power = map.determinant().pow(exponent);
        let pullback_scalar = match power.inverse() {
            Some(inverse) => inverse,
            None => F::zero(),
        };
        MobiusGrsDecoder {
            moved: crate::polynomial::copy_elements(code.moved_points()),
            inverse_multipliers,
            base_normalizers,
            pullback_basis,
            pullback_scalar,
            dimension,
            length,
            target_radius,
            map: Ghost(map),
            points: Ghost(points@),
            multipliers: Ghost(multipliers@),
        }
    }

    /// The moved points `β`, the domain the moved-point route decodes on.
    pub fn moved_points(&self) -> (r: &[F])
        ensures
            r@ == self.moved_view(),
    {
        self.moved.as_slice()
    }

    /// The decoding radius this decoder was built for.
    pub fn target_radius(&self) -> (r: usize)
        ensures
            r == self.target_radius_view(),
    {
        self.target_radius
    }

    /// Message dimension `k`.
    pub fn dimension(&self) -> (r: usize)
        ensures
            r == self.dimension_view(),
    {
        self.dimension
    }

    /// Code length `n`.
    pub fn length(&self) -> (r: usize)
        requires
            self.wf(),
        ensures
            r == self.points_view().len(),
    {
        self.length
    }

    /// Normalize a received word for the moved-point route: `r_i · w_i^{−1}`.
    pub fn normalize_moved(&self, received: &[F]) -> (r: Result<Vec<F>, Error>)
        requires
            self.wf(),
            seq_wf(received@),
        ensures
            r is Err <==> received@.len() != self.points_view().len(),
            r is Err ==> r == Err::<Vec<F>, Error>(
                Error::ReceivedLength {
                    expected: self.points_view().len() as usize,
                    got: received@.len() as usize,
                },
            ),
            r matches Ok(v) ==> v@.len() == received@.len() && seq_wf(v@) && forall|i: int|
                0 <= i < v@.len() ==> #[trigger] v@[i] == received@[i].mul_spec(
                    self.multipliers_view()[i].inverse_spec().unwrap(),
                ),
    {
        if received.len() != self.length {
            return Err(Error::ReceivedLength { expected: self.length, got: received.len() });
        }
        let mut normalized: Vec<F> = Vec::with_capacity(self.length);
        let mut i: usize = 0;
        while i < self.length
            invariant
                self.wf(),
                seq_wf(received@),
                self.length == received@.len(),
                i <= self.length,
                normalized@.len() == i,
                seq_wf(normalized@),
                forall|j: int|
                    0 <= j < i ==> #[trigger] normalized@[j] == received@[j].mul_spec(
                        self.multipliers_view()[j].inverse_spec().unwrap(),
                    ),
            decreases self.length - i,
        {
            proof {
                assert(Some(self.inverse_multipliers@[i as int]) == self.multipliers@[i as int].inverse_spec());
            }
            normalized.push(received[i].mul(self.inverse_multipliers[i]));
            i += 1;
        }
        Ok(normalized)
    }

    /// Normalize a received word for the base-domain route:
    /// `r_i · (c·α_i + d)^{k−1} · w_i^{−1}`, the values of `g` at `α`.
    pub fn normalize_base(&self, received: &[F]) -> (r: Result<Vec<F>, Error>)
        requires
            self.wf(),
            seq_wf(received@),
        ensures
            r is Err <==> received@.len() != self.points_view().len(),
            r is Err ==> r == Err::<Vec<F>, Error>(
                Error::ReceivedLength {
                    expected: self.points_view().len() as usize,
                    got: received@.len() as usize,
                },
            ),
            r matches Ok(v) ==> v@.len() == received@.len() && seq_wf(v@) && forall|i: int|
                0 <= i < v@.len() ==> #[trigger] v@[i] == received@[i].mul_spec(self.normalizer_spec(i)),
    {
        if received.len() != self.length {
            return Err(Error::ReceivedLength { expected: self.length, got: received.len() });
        }
        let mut normalized: Vec<F> = Vec::with_capacity(self.length);
        let mut i: usize = 0;
        while i < self.length
            invariant
                self.wf(),
                seq_wf(received@),
                self.length == received@.len(),
                i <= self.length,
                normalized@.len() == i,
                seq_wf(normalized@),
                forall|j: int|
                    0 <= j < i ==> #[trigger] normalized@[j] == received@[j].mul_spec(self.normalizer_spec(j)),
            decreases self.length - i,
        {
            proof {
                assert(self.base_normalizers@[i as int] == self.normalizer_spec(i as int));
                assert(self.base_normalizers@[i as int].wf());
            }
            normalized.push(received[i].mul(self.base_normalizers[i]));
            i += 1;
        }
        Ok(normalized)
    }

    /// Convert a recovered `g` (degree `< k`) into the message `f`.
    pub fn pull_back(&self, candidate: &Polynomial<F>) -> (r: Polynomial<F>)
        requires
            self.wf(),
            candidate.wf(),
        ensures
            r.wf(),
            r@ == pulled_back(self.basis_view(), self.scalar_view(), candidate@, self.dimension_view() as nat),
    {
        let k = self.dimension;
        let ghost basis = self.basis_view();
        let mut message: Vec<F> = Vec::with_capacity(k);
        let mut degree: usize = 0;
        while degree < k
            invariant
                self.wf(),
                candidate.wf(),
                basis == self.basis_view(),
                k == self.dimension,
                degree <= k,
                message@.len() == degree,
                seq_wf(message@),
                forall|d: int|
                    0 <= d < degree ==> #[trigger] message@[d] == self.pullback_scalar.mul_spec(
                        column_sum(basis, candidate@, d, k as int),
                    ),
            decreases k - degree,
        {
            let mut accumulator = F::zero();
            let mut source: usize = 0;
            while source < k
                invariant
                    self.wf(),
                    candidate.wf(),
                    basis == self.basis_view(),
                    k == self.dimension,
                    degree < k,
                    source <= k,
                    accumulator == column_sum(basis, candidate@, degree as int, source as int),
                    accumulator.wf(),
                decreases k - source,
            {
                let row = &self.pullback_basis[source];
                proof {
                    assert(row@ == basis[source as int]);
                    assert(row@ == pullback_row(self.map@, k as nat, source as nat));
                    assert(seq_wf(row@));
                }
                accumulator = accumulator.add(candidate.coefficient(source).mul(row[degree]));
                source += 1;
            }
            message.push(self.pullback_scalar.mul(accumulator));
            degree += 1;
        }
        proof {
            assert(message@ =~= Seq::new(
                k as nat,
                |d: int| self.pullback_scalar.mul_spec(column_sum(basis, candidate@, d, k as int)),
            ));
        }
        Polynomial::from_coefficients(message)
    }

    /// The moved-point route: the ambient candidates already are the
    /// messages; keep their degree-`< k` parts, in order.
    pub fn list_decode_moved_into(
        &self,
        ambient: &[Polynomial<F>],
        output: &mut Vec<Polynomial<F>>,
    ) -> (count: usize)
        requires
            forall|i: int| 0 <= i < ambient@.len() ==> (#[trigger] ambient@[i]).wf(),
        ensures
            final(output)@.len() == ambient@.len(),
            count == ambient@.len(),
            forall|i: int|
                0 <= i < ambient@.len() ==> (#[trigger] final(output)@[i])@ == low_part(
                    ambient@[i]@,
                    self.dimension_view() as nat,
                ) && final(output)@[i].wf(),
    {
        low_parts_into(ambient, self.dimension, output)
    }

    /// The default route (moved points).
    pub fn list_decode_into(
        &self,
        ambient: &[Polynomial<F>],
        output: &mut Vec<Polynomial<F>>,
    ) -> (count: usize)
        requires
            forall|i: int| 0 <= i < ambient@.len() ==> (#[trigger] ambient@[i]).wf(),
        ensures
            final(output)@.len() == ambient@.len(),
            count == ambient@.len(),
            forall|i: int|
                0 <= i < ambient@.len() ==> (#[trigger] final(output)@[i])@ == low_part(
                    ambient@[i]@,
                    self.dimension_view() as nat,
                ) && final(output)@[i].wf(),
    {
        self.list_decode_moved_into(ambient, output)
    }

    /// The base-domain route: pull every recovered `g` back to its message.
    pub fn list_decode_normalized_into(
        &self,
        ambient: &[Polynomial<F>],
        output: &mut Vec<Polynomial<F>>,
    ) -> (count: usize)
        requires
            self.wf(),
            forall|i: int| 0 <= i < ambient@.len() ==> (#[trigger] ambient@[i]).wf(),
        ensures
            final(output)@.len() == ambient@.len(),
            count == ambient@.len(),
            forall|i: int|
                0 <= i < ambient@.len() ==> (#[trigger] final(output)@[i])@ == pulled_back(
                    self.basis_view(),
                    self.scalar_view(),
                    ambient@[i]@,
                    self.dimension_view() as nat,
                ) && final(output)@[i].wf(),
    {
        output.clear();
        let mut index: usize = 0;
        while index < ambient.len()
            invariant
                self.wf(),
                forall|i: int| 0 <= i < ambient@.len() ==> (#[trigger] ambient@[i]).wf(),
                index <= ambient@.len(),
                output@.len() == index,
                forall|i: int|
                    0 <= i < index ==> (#[trigger] output@[i])@ == pulled_back(
                        self.basis_view(),
                        self.scalar_view(),
                        ambient@[i]@,
                        self.dimension_view() as nat,
                    ) && output@[i].wf(),
            decreases ambient@.len() - index,
        {
            let message = self.pull_back(&ambient[index]);
            output.push(message);
            index += 1;
        }
        output.len()
    }

    /// Uniquely decode via the moved-point route.
    pub fn unique_decode(&self, ambient: &[Polynomial<F>]) -> (r: UniqueDecode<F>)
        requires
            forall|i: int| 0 <= i < ambient@.len() ==> (#[trigger] ambient@[i]).wf(),
        ensures
            ambient@.len() == 0 ==> r is NoCandidate,
            ambient@.len() == 1 ==> (r matches UniqueDecode::Message(m) && m@ == low_part(
                ambient@[0]@,
                self.dimension_view() as nat,
            )),
            ambient@.len() > 1 ==> r is Ambiguous,
    {
        let mut filtered: Vec<Polynomial<F>> = Vec::new();
        self.list_decode_into(ambient, &mut filtered);
        UniqueDecode::from_list(filtered)
    }
}

/// The pullback basis rows `N^i · D^{k−1−i}` for `i < k`, with
/// `N(Y) = d·Y + b` and `D(Y) = c·Y + a` (the characteristic-two adjugate).
fn build_pullback_basis<F: Field>(map: &MobiusMap<F>, dimension: usize) -> (r: Vec<Vec<F>>)
    requires
        map.wf(),
        F::field_valid(),
        dimension >= 1,
        dimension < usize::MAX,
    ensures
        r@.len() == dimension,
        forall|i: int| 0 <= i < dimension ==> (#[trigger] r@[i])@ == pullback_row(*map, dimension as nat, i as nat),
        forall|i: int| 0 <= i < dimension ==> seq_wf(#[trigger] r@[i]@),
{
    let adjugate = map.adjugate();
    let mut numerator_powers: Vec<Vec<F>> = Vec::new();
    let mut denominator_powers: Vec<Vec<F>> = Vec::new();
    let mut unit: Vec<F> = Vec::new();
    unit.push(F::one());
    numerator_powers.push(unit);
    let mut unit2: Vec<F> = Vec::new();
    unit2.push(F::one());
    denominator_powers.push(unit2);
    proof {
        F::lemma_closure(F::one_spec(), F::one_spec());
        assert(numerator_powers@[0]@ =~= linear_power(map.b, map.d, 0));
        assert(denominator_powers@[0]@ =~= linear_power(map.a, map.c, 0));
    }
    let mut step: usize = 1;
    while step < dimension
        invariant
            map.wf(),
            F::field_valid(),
            adjugate == (MobiusMap { a: map.d, b: map.b, c: map.c, d: map.a }),
            1 <= step <= dimension,
            dimension < usize::MAX,
            numerator_powers@.len() == step,
            denominator_powers@.len() == step,
            forall|i: int| 0 <= i < step ==> (#[trigger] numerator_powers@[i])@ == linear_power(map.b, map.d, i as nat),
            forall|i: int| 0 <= i < step ==> (#[trigger] denominator_powers@[i])@ == linear_power(map.a, map.c, i as nat),
        decreases dimension - step,
    {
        proof {
            lemma_linear_power(map.b, map.d, (step - 1) as nat);
            lemma_linear_power(map.a, map.c, (step - 1) as nat);
        }
        let next_numerator = mul_linear(numerator_powers[step - 1].as_slice(), adjugate.b, adjugate.a);
        numerator_powers.push(next_numerator);
        let next_denominator = mul_linear(denominator_powers[step - 1].as_slice(), adjugate.d, adjugate.c);
        denominator_powers.push(next_denominator);
        step += 1;
    }
    let mut basis: Vec<Vec<F>> = Vec::with_capacity(dimension);
    let mut i: usize = 0;
    while i < dimension
        invariant
            map.wf(),
            F::field_valid(),
            dimension < usize::MAX,
            numerator_powers@.len() == dimension,
            denominator_powers@.len() == dimension,
            forall|q: int| 0 <= q < dimension ==> (#[trigger] numerator_powers@[q])@ == linear_power(map.b, map.d, q as nat),
            forall|q: int| 0 <= q < dimension ==> (#[trigger] denominator_powers@[q])@ == linear_power(map.a, map.c, q as nat),
            i <= dimension,
            basis@.len() == i,
            forall|q: int| 0 <= q < i ==> (#[trigger] basis@[q])@ == pullback_row(*map, dimension as nat, q as nat),
            forall|q: int| 0 <= q < i ==> seq_wf(#[trigger] basis@[q]@),
        decreases dimension - i,
    {
        proof {
            lemma_linear_power(map.b, map.d, i as nat);
            lemma_linear_power(map.a, map.c, (dimension - 1 - i) as nat);
        }
        let product = convolve(
            numerator_powers[i].as_slice(),
            denominator_powers[dimension - 1 - i].as_slice(),
        );
        let row = resize(product, dimension);
        basis.push(row);
        i += 1;
    }
    basis
}

/// Truncate or zero-pad to length `k`.
fn resize<F: Field>(v: Vec<F>, k: usize) -> (r: Vec<F>)
    requires
        F::field_valid(),
        seq_wf(v@),
    ensures
        r@ == resize_spec(v@, k as nat),
        seq_wf(r@),
{
    proof {
        F::lemma_closure(F::zero_spec(), F::zero_spec());
    }
    let mut out: Vec<F> = Vec::with_capacity(k);
    let mut d: usize = 0;
    while d < k
        invariant
            F::field_valid(),
            seq_wf(v@),
            d <= k,
            out@.len() == d,
            forall|q: int| 0 <= q < d ==> #[trigger] out@[q] == (if q < v@.len() { v@[q] } else { F::zero_spec() }),
            seq_wf(out@),
        decreases k - d,
    {
        if d < v.len() {
            out.push(v[d]);
        } else {
            out.push(F::zero());
        }
        d += 1;
    }
    assert(out@ =~= resize_spec(v@, k as nat));
    out
}

} // verus!
