//! The Möbius decoder's base-domain route: the normalized base word is the
//! evaluation of the homogenized message polynomial `g`, and, in
//! characteristic two, pulling `g` back through the adjugate map recovers the
//! message.
use vstd::prelude::*;

use crate::field::{Field, FieldAxioms};
use crate::mobius::{apply_spec, denominator_at, determinant_spec, MobiusGrsCode, MobiusMap};
use crate::mobius_decode::{
    column_sum, inverse_or_zero, linear_power, mul_linear_spec, pulled_back, resize_spec, MobiusGrsDecoder,
};
use crate::polynomial::{add_seq, coeff_at, conv, eval_seq, seq_wf, trim};
use crate::polynomial_laws::{lemma_eval_add, lemma_eval_congruent};

verus! {

/// `x^e` as a product of `e` factors.
pub open spec fn power<F: Field>(x: F, e: nat) -> F
    decreases e,
{
    if e == 0 {
        F::one_spec()
    } else {
        power(x, (e - 1) as nat).mul_spec(x)
    }
}

/// `Σ_{i < m} t(i)`, accumulated upward from zero.
pub open spec fn series<F: Field>(t: spec_fn(int) -> F, m: int) -> F
    decreases m,
{
    if m <= 0 {
        F::zero_spec()
    } else {
        series(t, m - 1).add_spec(t(m - 1))
    }
}

pub proof fn lemma_power_wf<F: FieldAxioms>(x: F, e: nat)
    requires
        F::field_valid(),
        x.wf(),
    ensures
        power(x, e).wf(),
    decreases e,
{
    F::lemma_closure(F::one_spec(), F::one_spec());
    if e > 0 {
        lemma_power_wf(x, (e - 1) as nat);
        F::lemma_closure(power(x, (e - 1) as nat), x);
    }
}

/// The field's own power agrees with the product of factors.
pub proof fn lemma_pow_is_power<F: FieldAxioms>(x: F, e: nat)
    requires
        x.wf(),
    ensures
        x.pow_spec(e) == power(x, e),
    decreases e,
{
    F::lemma_pow_step(x, 0);
    if e > 0 {
        lemma_pow_is_power(x, (e - 1) as nat);
        F::lemma_pow_step(x, (e - 1) as nat);
    }
}

/// `x^(i + j) = x^i · x^j`.
pub proof fn lemma_power_add<F: FieldAxioms>(x: F, i: nat, j: nat)
    requires
        F::field_valid(),
        x.wf(),
    ensures
        power(x, i + j) == power(x, i).mul_spec(power(x, j)),
    decreases j,
{
    lemma_power_wf(x, i);
    F::lemma_closure(F::one_spec(), F::one_spec());
    F::lemma_ring(power(x, i), F::one_spec(), F::one_spec());
    if j > 0 {
        lemma_power_add(x, i, (j - 1) as nat);
        lemma_power_wf(x, (j - 1) as nat);
        F::lemma_ring(power(x, i), power(x, (j - 1) as nat), x);
        assert(power(x, i + j) == power(x, (i + j - 1) as nat).mul_spec(x));
    }
}

/// `(x·y)^e = x^e · y^e`.
pub proof fn lemma_power_mul<F: FieldAxioms>(x: F, y: F, e: nat)
    requires
        F::field_valid(),
        x.wf(),
        y.wf(),
    ensures
        power(x.mul_spec(y), e) == power(x, e).mul_spec(power(y, e)),
    decreases e,
{
    F::lemma_closure(F::one_spec(), F::one_spec());
    F::lemma_ring(F::one_spec(), F::one_spec(), F::one_spec());
    if e > 0 {
        let k = (e - 1) as nat;
        lemma_power_mul(x, y, k);
        lemma_power_wf(x, k);
        lemma_power_wf(y, k);
        F::lemma_closure(x, y);
        let (p, q) = (power(x, k), power(y, k));
        // (p·q)·(x·y) = (p·x)·(q·y)
        F::lemma_closure(p, q);
        F::lemma_closure(p, x);
        F::lemma_closure(q, y);
        F::lemma_ring(p, q, x.mul_spec(y));
        F::lemma_ring(q, x, y);
        F::lemma_ring(x, q, y);
        F::lemma_ring(q, x, x);
        F::lemma_ring(p, x, q.mul_spec(y));
        F::lemma_closure(x, q);
        F::lemma_ring(p, x.mul_spec(q), y);
        F::lemma_ring(p, x, q);
    }
}

/// Series with equal terms are equal.
pub proof fn lemma_series_congruent<F: Field>(s: spec_fn(int) -> F, t: spec_fn(int) -> F, m: int)
    requires
        forall|i: int| 0 <= i < m ==> #[trigger] s(i) == t(i),
    ensures
        series(s, m) == series(t, m),
    decreases m,
{
    if m > 0 {
        lemma_series_congruent(s, t, m - 1);
    }
}

pub proof fn lemma_series_wf<F: FieldAxioms>(t: spec_fn(int) -> F, m: int)
    requires
        F::field_valid(),
        forall|i: int| 0 <= i < m ==> #[trigger] t(i).wf(),
    ensures
        series(t, m).wf(),
    decreases m,
{
    F::lemma_closure(F::zero_spec(), F::zero_spec());
    if m > 0 {
        lemma_series_wf(t, m - 1);
        F::lemma_closure(series(t, m - 1), t(m - 1));
    }
}

/// `Σ t(i)·c = (Σ t(i))·c`.
pub proof fn lemma_series_scale<F: FieldAxioms>(t: spec_fn(int) -> F, c: F, m: int)
    requires
        F::field_valid(),
        c.wf(),
        forall|i: int| 0 <= i < m ==> #[trigger] t(i).wf(),
    ensures
        series(|i: int| t(i).mul_spec(c), m) == series(t, m).mul_spec(c),
    decreases m,
{
    F::lemma_closure(F::zero_spec(), F::zero_spec());
    F::lemma_ring(c, F::zero_spec(), F::zero_spec());
    F::lemma_ring(F::zero_spec(), c, c);
    if m > 0 {
        lemma_series_scale(t, c, m - 1);
        lemma_series_wf(t, m - 1);
        crate::laws::lemma_distribute_right(series(t, m - 1), t(m - 1), c);
    }
}

/// Horner's value is the power sum: `v(z) = Σ_{i < |v|} v_i · z^i`.
pub proof fn lemma_eval_power_sum<F: FieldAxioms>(v: Seq<F>, z: F)
    requires
        F::field_valid(),
        seq_wf(v),
        z.wf(),
    ensures
        eval_seq(v, z) == series(|i: int| coeff_at(v, i).mul_spec(power(z, i as nat)), v.len() as int),
    decreases v.len(),
{
    let t = |i: int| coeff_at(v, i).mul_spec(power(z, i as nat));
    F::lemma_closure(F::zero_spec(), F::zero_spec());
    F::lemma_closure(z, z);
    if v.len() > 0 {
        let w = v.drop_first();
        lemma_eval_power_sum(w, z);
        let u = |i: int| coeff_at(w, i).mul_spec(power(z, i as nat));
        lemma_shift_series(v, z, w.len() as int);
        // eval(v) = eval(w)·z + v0 = Σ u·z + v0
        assert forall|i: int| 0 <= i < w.len() implies #[trigger] u(i).wf() by {
            lemma_power_wf(z, i as nat);
            F::lemma_closure(w[i], power(z, i as nat));
        }
        lemma_series_wf(u, w.len() as int);
        F::lemma_closure(series(u, w.len() as int), z);
        F::lemma_ring(series(u, w.len() as int).mul_spec(z), v[0], v[0]);
    }
}

/// Peeling the constant term: `Σ_{i < m+1} v_i z^i = v_0 + (Σ_{i < m} v_{i+1} z^i)·z`.
proof fn lemma_shift_series<F: FieldAxioms>(v: Seq<F>, z: F, m: int)
    requires
        F::field_valid(),
        seq_wf(v),
        v.len() >= 1,
        z.wf(),
        0 <= m,
    ensures
        series(|i: int| coeff_at(v, i).mul_spec(power(z, i as nat)), m + 1) == v[0].add_spec(
            series(|i: int| coeff_at(v.drop_first(), i).mul_spec(power(z, i as nat)), m).mul_spec(z),
        ),
    decreases m,
{
    let t = |i: int| coeff_at(v, i).mul_spec(power(z, i as nat));
    let u = |i: int| coeff_at(v.drop_first(), i).mul_spec(power(z, i as nat));
    let z0 = F::zero_spec();
    F::lemma_closure(z0, z0);
    F::lemma_closure(F::one_spec(), F::one_spec());
    F::lemma_ring(v[0], F::one_spec(), F::one_spec());
    F::lemma_ring(z0, v[0], v[0]);
    F::lemma_ring(v[0], z0, z0);
    F::lemma_ring(z, z0, z0);
    F::lemma_ring(z0, z, z);
    assert(t(0) == v[0]);
    assert(series(t, 0) == z0);
    assert(series(t, 1) == v[0]);
    if m > 0 {
        lemma_shift_series(v, z, m - 1);
        let c = coeff_at(v.drop_first(), m - 1);
        assert(coeff_at(v, m) == c);
        F::lemma_closure(c, c);
        lemma_power_wf(z, (m - 1) as nat);
        let p = power(z, (m - 1) as nat);
        assert forall|i: int| 0 <= i < m - 1 implies #[trigger] u(i).wf() by {
            lemma_power_wf(z, i as nat);
            F::lemma_closure(coeff_at(v.drop_first(), i), power(z, i as nat));
        }
        lemma_series_wf(u, m - 1);
        let s = series(u, m - 1);
        F::lemma_closure(c, p);
        // t(m) = c·(p·z) = (c·p)·z
        F::lemma_ring(c, p, z);
        // (s + c·p)·z = s·z + (c·p)·z
        crate::laws::lemma_distribute_right(s, c.mul_spec(p), z);
        F::lemma_closure(s, z);
        F::lemma_closure(c.mul_spec(p), z);
        F::lemma_ring(v[0], s.mul_spec(z), c.mul_spec(p).mul_spec(z));
    }
}

/// `(p·(l0 + l1·Y))(y) = p(y)·(l0 + l1·y)`.
proof fn lemma_eval_mul_linear<F: FieldAxioms>(p: Seq<F>, l0: F, l1: F, y: F)
    requires
        F::field_valid(),
        seq_wf(p),
        l0.wf(),
        l1.wf(),
        y.wf(),
    ensures
        eval_seq(mul_linear_spec(p, l0, l1), y) == eval_seq(p, y).mul_spec(l0.add_spec(l1.mul_spec(y))),
{
    let z = F::zero_spec();
    F::lemma_closure(z, z);
    let a = Seq::new(p.len(), |d: int| l0.mul_spec(p[d]));
    let s = Seq::new(p.len(), |d: int| l1.mul_spec(p[d]));
    let b = seq![z] + s;
    let r = mul_linear_spec(p, l0, l1);
    let u = add_seq(a, b);
    crate::polynomial_laws::lemma_eval_scaled(p, l0, y);
    crate::polynomial_laws::lemma_eval_scaled(p, l1, y);
    assert(seq_wf(b)) by {
        assert forall|i: int| 0 <= i < b.len() implies (#[trigger] b[i]).wf() by {
            if i > 0 {
                assert(b[i] == s[i - 1]);
            }
        }
    }
    lemma_eval_add(a, b, y);
    assert forall|i: int| 0 <= i implies #[trigger] coeff_at(r, i) == coeff_at(u, i) by {
        if i < r.len() {
            let low = if i >= 1 {
                z.add_spec(p[i - 1].mul_spec(l1))
            } else {
                z
            };
            if i >= 1 {
                F::lemma_closure(p[i - 1], l1);
                F::lemma_ring(p[i - 1], l1, l1);
                F::lemma_ring(z, p[i - 1].mul_spec(l1), p[i - 1].mul_spec(l1));
                F::lemma_ring(p[i - 1].mul_spec(l1), z, z);
                assert(b[i] == s[i - 1]);
            }
            if i < p.len() {
                F::lemma_closure(p[i], l0);
                F::lemma_ring(p[i], l0, l0);
                F::lemma_ring(l0.mul_spec(p[i]), z, z);
                F::lemma_ring(z, l0.mul_spec(p[i]), z);
                if i >= 1 {
                    F::lemma_ring(low, l0.mul_spec(p[i]), l0.mul_spec(p[i]));
                    F::lemma_closure(l1, p[i - 1]);
                }
            } else {
                F::lemma_ring(low, z, z);
                F::lemma_ring(z, low, low);
                if i >= 1 {
                    F::lemma_closure(l1, p[i - 1]);
                }
            }
        }
    }
    assert(seq_wf(r)) by {
        assert forall|d: int| 0 <= d < r.len() implies (#[trigger] r[d]).wf() by {
            let low = if d >= 1 {
                z.add_spec(p[d - 1].mul_spec(l1))
            } else {
                z
            };
            if d >= 1 {
                F::lemma_closure(p[d - 1], l1);
                F::lemma_closure(z, p[d - 1].mul_spec(l1));
            }
            if d < p.len() {
                F::lemma_closure(p[d], l0);
                F::lemma_closure(low, p[d].mul_spec(l0));
            }
        }
    }
    lemma_eval_congruent(r, u, y);
    // b(y) = s(y)·y + 0
    assert(b.drop_first() =~= s);
    crate::laws::lemma_eval_seq_wf(s, y);
    crate::laws::lemma_eval_seq_wf(p, y);
    let e = eval_seq(p, y);
    F::lemma_closure(eval_seq(s, y), y);
    F::lemma_ring(eval_seq(s, y).mul_spec(y), z, z);
    // l0·e + (l1·e)·y = e·(l0 + l1·y)
    F::lemma_closure(l1, y);
    F::lemma_ring(e, l0, l1.mul_spec(y));
    F::lemma_ring(l0, e, e);
    F::lemma_ring(l1, e, y);
    F::lemma_ring(e, y, y);
    F::lemma_ring(l1, y, e);
    F::lemma_ring(e, l1, y);
    F::lemma_closure(e, l1);
    F::lemma_ring(e.mul_spec(l1), y, y);
    F::lemma_ring(l1, e, e);
}

/// `(l0 + l1·Y)^i` evaluates to `(l0 + l1·y)^i`.
pub proof fn lemma_eval_linear_power<F: FieldAxioms>(l0: F, l1: F, i: nat, y: F)
    requires
        F::field_valid(),
        l0.wf(),
        l1.wf(),
        y.wf(),
    ensures
        eval_seq(linear_power(l0, l1, i), y) == power(l0.add_spec(l1.mul_spec(y)), i),
        seq_wf(linear_power(l0, l1, i)),
        linear_power(l0, l1, i).len() == i + 1,
    decreases i,
{
    crate::mobius_decode::lemma_linear_power(l0, l1, i);
    let one = F::one_spec();
    let z = F::zero_spec();
    F::lemma_closure(one, one);
    if i == 0 {
        let s = seq![one];
        assert(s.drop_first().len() == 0);
        F::lemma_ring(y, z, z);
        F::lemma_ring(z, y, y);
        F::lemma_ring(one, z, z);
        F::lemma_ring(z, one, one);
        assert(eval_seq(s.drop_first(), y) == z);
    } else {
        lemma_eval_linear_power(l0, l1, (i - 1) as nat, y);
        lemma_eval_mul_linear(linear_power(l0, l1, (i - 1) as nat), l0, l1, y);
    }
}

/// Row `i` of a homogenized basis: the coefficients of
/// `(n0 + n1·Y)^i · (d0 + d1·Y)^{k−1−i}`, resized to `k`.
pub open spec fn basis_row<F: Field>(n0: F, n1: F, d0: F, d1: F, k: nat, i: nat) -> Seq<F> {
    resize_spec(conv(linear_power(n0, n1, i), linear_power(d0, d1, (k - 1 - i) as nat)), k)
}

/// `Σ_{i < m} v_i · rows_i`, coefficient by coefficient over `k` degrees.
pub open spec fn combination<F: Field>(rows: Seq<Seq<F>>, v: Seq<F>, k: nat, m: int) -> Seq<F> {
    Seq::new(k, |degree: int| column_sum(rows, v, degree, m))
}

/// A basis row evaluates to `(n0 + n1·y)^i · (d0 + d1·y)^{k−1−i}`.
pub proof fn lemma_eval_basis_row<F: FieldAxioms>(n0: F, n1: F, d0: F, d1: F, k: nat, i: nat, y: F)
    requires
        F::field_valid(),
        n0.wf(),
        n1.wf(),
        d0.wf(),
        d1.wf(),
        y.wf(),
        i < k,
    ensures
        basis_row(n0, n1, d0, d1, k, i).len() == k,
        seq_wf(basis_row(n0, n1, d0, d1, k, i)),
        eval_seq(basis_row(n0, n1, d0, d1, k, i), y) == power(n0.add_spec(n1.mul_spec(y)), i).mul_spec(
            power(d0.add_spec(d1.mul_spec(y)), (k - 1 - i) as nat),
        ),
{
    let a = linear_power(n0, n1, i);
    let b = linear_power(d0, d1, (k - 1 - i) as nat);
    lemma_eval_linear_power(n0, n1, i, y);
    lemma_eval_linear_power(d0, d1, (k - 1 - i) as nat, y);
    crate::polynomial_laws::lemma_eval_conv(a, b, y);
    let c = conv(a, b);
    assert(c.len() == k);
    assert(resize_spec(c, k) =~= c);
}

/// A combination of rows evaluates to the combination of the rows' values.
pub proof fn lemma_eval_combination<F: FieldAxioms>(rows: Seq<Seq<F>>, v: Seq<F>, k: nat, m: int, y: F)
    requires
        F::field_valid(),
        0 <= m <= rows.len(),
        seq_wf(v),
        y.wf(),
        forall|i: int| 0 <= i < rows.len() ==> (#[trigger] rows[i]).len() == k && seq_wf(rows[i]),
    ensures
        seq_wf(combination(rows, v, k, m)),
        eval_seq(combination(rows, v, k, m), y) == series(
            |i: int| coeff_at(v, i).mul_spec(eval_seq(rows[i], y)),
            m,
        ),
    decreases m,
{
    let z = F::zero_spec();
    F::lemma_closure(z, z);
    let c = combination(rows, v, k, m);
    if m == 0 {
        assert(seq_wf(c));
        assert forall|i: int| 0 <= i implies #[trigger] coeff_at(c, i) == coeff_at(Seq::<F>::empty(), i) by {
        }
        lemma_eval_congruent(c, Seq::<F>::empty(), y);
    } else {
        lemma_eval_combination(rows, v, k, m - 1, y);
        let prev = combination(rows, v, k, m - 1);
        let row = rows[m - 1];
        let w = coeff_at(v, m - 1);
        assert(w.wf());
        let scaled = Seq::new(row.len(), |d: int| w.mul_spec(row[d]));
        crate::polynomial_laws::lemma_eval_scaled(row, w, y);
        lemma_eval_add(prev, scaled, y);
        assert(c =~= add_seq(prev, scaled));
        crate::laws::lemma_eval_seq_wf(row, y);
    }
}

/// Trailing terms that vanish do not change a series.
proof fn lemma_series_tail<F: FieldAxioms>(t: spec_fn(int) -> F, n: int, m: int)
    requires
        F::field_valid(),
        0 <= n <= m,
        forall|i: int| n <= i < m ==> #[trigger] t(i) == F::zero_spec(),
        forall|i: int| 0 <= i < m ==> #[trigger] t(i).wf(),
    ensures
        series(t, m) == series(t, n),
    decreases m,
{
    if m > n {
        lemma_series_tail(t, n, m - 1);
        lemma_series_wf(t, m - 1);
        F::lemma_closure(F::zero_spec(), F::zero_spec());
        F::lemma_ring(series(t, m - 1), F::zero_spec(), F::zero_spec());
    }
}

/// Homogenization: with `N = z·D`, `Σ_{i < k} v_i · N^i · D^{k−1−i} = v(z) · D^{k−1}`
/// for `|v| <= k`.
pub proof fn lemma_homogenized<F: FieldAxioms>(v: Seq<F>, z: F, dd: F, k: nat)
    requires
        F::field_valid(),
        seq_wf(v),
        z.wf(),
        dd.wf(),
        v.len() <= k,
        k >= 1,
    ensures
        series(
            |i: int| coeff_at(v, i).mul_spec(
                power(z.mul_spec(dd), i as nat).mul_spec(power(dd, (k - 1 - i) as nat)),
            ),
            k as int,
        ) == eval_seq(v, z).mul_spec(power(dd, (k - 1) as nat)),
{
    let t = |i: int| coeff_at(v, i).mul_spec(power(z, i as nat));
    let h = |i: int| coeff_at(v, i).mul_spec(
        power(z.mul_spec(dd), i as nat).mul_spec(power(dd, (k - 1 - i) as nat)),
    );
    let q = power(dd, (k - 1) as nat);
    lemma_power_wf(dd, (k - 1) as nat);
    F::lemma_closure(F::zero_spec(), F::zero_spec());
    assert forall|i: int| 0 <= i < k implies #[trigger] t(i).wf() by {
        lemma_power_wf(z, i as nat);
        F::lemma_closure(coeff_at(v, i), power(z, i as nat));
    }
    assert forall|i: int| 0 <= i < k implies #[trigger] h(i) == t(i).mul_spec(q) by {
        let (c, pz, pd, pr) = (
            coeff_at(v, i),
            power(z, i as nat),
            power(dd, i as nat),
            power(dd, (k - 1 - i) as nat),
        );
        lemma_power_wf(z, i as nat);
        lemma_power_wf(dd, i as nat);
        lemma_power_wf(dd, (k - 1 - i) as nat);
        lemma_power_mul(z, dd, i as nat);
        lemma_power_add(dd, i as nat, (k - 1 - i) as nat);
        assert((i as nat) + ((k - 1 - i) as nat) == (k - 1) as nat);
        // c·((pz·pd)·pr) = (c·pz)·(pd·pr)
        F::lemma_closure(pz, pd);
        F::lemma_closure(pd, pr);
        F::lemma_closure(c, pz);
        F::lemma_ring(pz, pd, pr);
        F::lemma_ring(c, pz, pd.mul_spec(pr));
    }
    lemma_series_congruent(h, |i: int| t(i).mul_spec(q), k as int);
    lemma_series_scale(t, q, k as int);
    lemma_eval_power_sum(v, z);
    assert forall|i: int| v.len() <= i < k implies #[trigger] t(i) == F::zero_spec() by {
        lemma_power_wf(z, i as nat);
        F::lemma_ring(power(z, i as nat), F::zero_spec(), F::zero_spec());
        F::lemma_ring(F::zero_spec(), power(z, i as nat), power(z, i as nat));
    }
    lemma_series_tail(t, v.len() as int, k as int);
}

/// The forward basis of a map: row `j` holds `(b + a·Y)^j · (d + c·Y)^{k−1−j}`.
pub open spec fn forward_rows<F: Field>(m: MobiusMap<F>, k: nat) -> Seq<Seq<F>> {
    Seq::new(k, |j: int| basis_row(m.b, m.a, m.d, m.c, k, j as nat))
}

/// The homogenized message `g(Y) = Σ_j f_j · (a·Y + b)^j · (c·Y + d)^{k−1−j}`:
/// the polynomial the base-domain route decodes.
pub open spec fn homogenized_message<F: Field>(m: MobiusMap<F>, f: Seq<F>, k: nat) -> Seq<F> {
    combination(forward_rows(m, k), f, k, k as int)
}

/// The homogenized message evaluates termwise.
proof fn lemma_eval_homogenized<F: FieldAxioms>(m: MobiusMap<F>, f: Seq<F>, k: nat, y: F)
    requires
        F::field_valid(),
        m.wf(),
        seq_wf(f),
        y.wf(),
        k >= 1,
    ensures
        seq_wf(homogenized_message(m, f, k)),
        homogenized_message(m, f, k).len() == k,
        eval_seq(homogenized_message(m, f, k), y) == series(
            |j: int| coeff_at(f, j).mul_spec(
                power(m.b.add_spec(m.a.mul_spec(y)), j as nat).mul_spec(
                    power(m.d.add_spec(m.c.mul_spec(y)), (k - 1 - j) as nat),
                ),
            ),
            k as int,
        ),
{
    let rows = forward_rows(m, k);
    assert forall|j: int| 0 <= j < rows.len() implies (#[trigger] rows[j]).len() == k && seq_wf(rows[j]) by {
        lemma_eval_basis_row(m.b, m.a, m.d, m.c, k, j as nat, y);
    }
    lemma_eval_combination(rows, f, k, k as int, y);
    assert forall|j: int| 0 <= j < k implies #[trigger] coeff_at(f, j).mul_spec(eval_seq(rows[j], y))
        == coeff_at(f, j).mul_spec(
        power(m.b.add_spec(m.a.mul_spec(y)), j as nat).mul_spec(
            power(m.d.add_spec(m.c.mul_spec(y)), (k - 1 - j) as nat),
        ),
    ) by {
        lemma_eval_basis_row(m.b, m.a, m.d, m.c, k, j as nat, y);
    }
    lemma_series_congruent(
        |j: int| coeff_at(f, j).mul_spec(eval_seq(rows[j], y)),
        |j: int| coeff_at(f, j).mul_spec(
            power(m.b.add_spec(m.a.mul_spec(y)), j as nat).mul_spec(
                power(m.d.add_spec(m.c.mul_spec(y)), (k - 1 - j) as nat),
            ),
        ),
        k as int,
    );
}

/// `(a·b)·(c·d) = (a·c)·(b·d)`.
proof fn lemma_mul_interchange<F: FieldAxioms>(a: F, b: F, c: F, d: F)
    requires
        a.wf(),
        b.wf(),
        c.wf(),
        d.wf(),
    ensures
        a.mul_spec(b).mul_spec(c.mul_spec(d)) == a.mul_spec(c).mul_spec(b.mul_spec(d)),
{
    F::lemma_closure(a, b);
    F::lemma_closure(c, d);
    F::lemma_closure(b, c);
    F::lemma_closure(c, b);
    F::lemma_closure(b, d);
    F::lemma_closure(a, c);
    F::lemma_closure(b.mul_spec(c), d);
    F::lemma_closure(c.mul_spec(b), d);
    F::lemma_ring(a, b, c.mul_spec(d));
    F::lemma_ring(b, c, d);
    F::lemma_ring(c, b, d);
    F::lemma_ring(b, c, c);
    F::lemma_ring(a, c, b.mul_spec(d));
}

/// Law A: the base-domain normalization `r_i · (c·α_i + d)^{k−1} · w_i^{−1}`
/// of a Möbius codeword is the homogenized message evaluated at `α_i`, so
/// decoding on the base domain recovers `g`.
pub proof fn law_mobius_base_normalization_is_homogenized_message<F: FieldAxioms>(
    code: &MobiusGrsCode<F>,
    decoder: &MobiusGrsDecoder<F>,
    f: Seq<F>,
    i: int,
)
    requires
        F::is_field(),
        code.wf(),
        decoder.map_view() == code.map_view(),
        decoder.points_view() == code.points_view(),
        decoder.multipliers_view() == code.multipliers_view(),
        decoder.dimension_view() == code.dimension_view(),
        seq_wf(f),
        f.len() == code.dimension_view(),
        0 <= i < code.points_view().len(),
    ensures
        code.codeword_spec(f)[i].mul_spec(decoder.normalizer_spec(i)) == eval_seq(
            homogenized_message(code.map_view(), f, code.dimension_view() as nat),
            code.points_view()[i],
        ),
{
    F::lemma_field_valid();
    let m = code.map_view();
    let k = code.dimension_view() as nat;
    let x = code.points_view()[i];
    let w = code.multipliers_view()[i];
    let points = code.points_view();
    crate::validate::lemma_first_zero(code.multipliers_view(), 0);
    crate::validate::lemma_first_zero(crate::mobius::pole_denominators(m, points), 0);
    assert(crate::mobius::pole_denominators(m, points)[i] != F::zero_spec());
    let big_b = denominator_at(m, x);
    let big_a = m.a.mul_spec(x).add_spec(m.b);
    F::lemma_closure(m.a, x);
    F::lemma_closure(m.c, x);
    F::lemma_closure(m.a.mul_spec(x), m.b);
    F::lemma_closure(m.c.mul_spec(x), m.d);
    F::lemma_closure(big_b, big_b);
    let inv_b = big_b.inverse_spec().unwrap();
    F::lemma_inverse(big_b);
    let beta = big_a.mul_spec(inv_b);
    F::lemma_closure(big_a, inv_b);
    assert(code.moved_view()[i] == beta);
    // β·(d + c·x) = A
    let dd = m.d.add_spec(m.c.mul_spec(x));
    F::lemma_ring(m.c.mul_spec(x), m.d, m.d);
    assert(dd == big_b);
    F::lemma_ring(big_a, inv_b, big_b);
    F::lemma_ring(inv_b, big_b, big_b);
    F::lemma_ring(big_a, F::one_spec(), F::one_spec());
    assert(beta.mul_spec(dd) == big_a);
    F::lemma_ring(m.a.mul_spec(x), m.b, m.b);
    assert(big_a == m.b.add_spec(m.a.mul_spec(x)));
    // g(x) = Σ f_j (β·B)^j B^{k−1−j} = f(β)·B^{k−1}
    lemma_eval_homogenized(m, f, k, x);
    lemma_homogenized(f, beta, dd, k);
    lemma_series_congruent(
        |j: int| coeff_at(f, j).mul_spec(
            power(m.b.add_spec(m.a.mul_spec(x)), j as nat).mul_spec(
                power(m.d.add_spec(m.c.mul_spec(x)), (k - 1 - j) as nat),
            ),
        ),
        |j: int| coeff_at(f, j).mul_spec(
            power(beta.mul_spec(dd), j as nat).mul_spec(power(dd, (k - 1 - j) as nat)),
        ),
        k as int,
    );
    // r_i · (B^{k−1} · w⁻¹) = (w · f(β)) · (B^{k−1} · w⁻¹) = f(β) · B^{k−1}
    lemma_pow_is_power(big_b, (k - 1) as nat);
    lemma_power_wf(big_b, (k - 1) as nat);
    crate::laws::lemma_eval_seq_wf(f, beta);
    assert(w.wf() && w != F::zero_spec());
    F::lemma_closure(w, w);
    let inv_w = w.inverse_spec().unwrap();
    F::lemma_inverse(w);
    let e = eval_seq(f, beta);
    let p = power(big_b, (k - 1) as nat);
    F::lemma_closure(w, inv_w);
    F::lemma_ring(w, e, e);
    lemma_mul_interchange(e, w, p, inv_w);
    F::lemma_closure(e, p);
    F::lemma_ring(e.mul_spec(p), F::one_spec(), F::one_spec());
    assert(code.codeword_spec(f)[i] == w.mul_spec(e));
    assert(decoder.normalizer_spec(i) == p.mul_spec(inv_w));
    assert(w.mul_spec(e).mul_spec(p.mul_spec(inv_w)) == e.mul_spec(p));
    assert(eval_seq(homogenized_message(m, f, k), x) == e.mul_spec(power(dd, (k - 1) as nat)));
}

/// In characteristic two every element is its own negative.
proof fn lemma_char_two<F: FieldAxioms>(x: F)
    requires
        F::field_valid(),
        x.wf(),
        F::one_spec().add_spec(F::one_spec()) == F::zero_spec(),
    ensures
        x.add_spec(x) == F::zero_spec(),
        x.neg_spec() == x,
{
    let (o, z) = (F::one_spec(), F::zero_spec());
    F::lemma_closure(o, o);
    F::lemma_closure(x, x);
    F::lemma_ring(x, o, o);
    F::lemma_ring(x, z, z);
    F::lemma_ring(x, x, x);
    F::lemma_ring(x.neg_spec(), x, x);
    crate::distance::lemma_add_right_cancel(x, x.neg_spec(), x);
}

/// The adjugate identities in characteristic two: with `D = a + c·y`,
/// `N = b + d·y` and `z·D = N`, `(b + a·z)·D = Δ·y` and `(d + c·z)·D = Δ`.
proof fn lemma_adjugate<F: FieldAxioms>(m: MobiusMap<F>, y: F, z: F)
    requires
        F::field_valid(),
        F::one_spec().add_spec(F::one_spec()) == F::zero_spec(),
        m.wf(),
        y.wf(),
        z.wf(),
        z.mul_spec(m.a.add_spec(m.c.mul_spec(y))) == m.b.add_spec(m.d.mul_spec(y)),
    ensures
        m.b.add_spec(m.a.mul_spec(z)).mul_spec(m.a.add_spec(m.c.mul_spec(y))) == determinant_spec(m).mul_spec(y),
        m.d.add_spec(m.c.mul_spec(z)).mul_spec(m.a.add_spec(m.c.mul_spec(y))) == determinant_spec(m),
{
    let (a, b, c, d) = (m.a, m.b, m.c, m.d);
    let zero = F::zero_spec();
    F::lemma_closure(zero, zero);
    F::lemma_closure(c, y);
    F::lemma_closure(d, y);
    F::lemma_closure(a, z);
    F::lemma_closure(c, z);
    let big_d = a.add_spec(c.mul_spec(y));
    let big_n = b.add_spec(d.mul_spec(y));
    F::lemma_closure(a, c.mul_spec(y));
    F::lemma_closure(b, d.mul_spec(y));
    F::lemma_closure(a, d);
    F::lemma_closure(b, c);
    F::lemma_closure(a, b);
    F::lemma_closure(c, d);
    F::lemma_closure(b, c.mul_spec(y));
    F::lemma_closure(a, d.mul_spec(y));
    F::lemma_closure(d, c.mul_spec(y));
    F::lemma_closure(c, d.mul_spec(y));
    F::lemma_closure(b.mul_spec(c), y);
    F::lemma_closure(a.mul_spec(d), y);
    F::lemma_closure(c.mul_spec(d), y);
    F::lemma_closure(b.mul_spec(c), a.mul_spec(d));
    F::lemma_closure(a.mul_spec(d), b.mul_spec(c));
    F::lemma_closure(b.mul_spec(c), b.mul_spec(c));
    F::lemma_closure(a.mul_spec(d), (b.mul_spec(c)).neg_spec());
    // Δ = a·d − b·c = a·d + b·c
    lemma_char_two(b.mul_spec(c));
    F::lemma_ring(a.mul_spec(d), b.mul_spec(c), b.mul_spec(c));
    let delta = determinant_spec(m);
    assert(delta == a.mul_spec(d).add_spec(b.mul_spec(c)));
    // (b + a·z)·D = b·D + (a·z)·D = b·D + a·N
    crate::laws::lemma_distribute_right(b, a.mul_spec(z), big_d);
    F::lemma_ring(a, z, big_d);
    // b·D = b·a + b·(c·y), a·N = a·b + a·(d·y)
    F::lemma_ring(b, a, c.mul_spec(y));
    F::lemma_ring(a, b, d.mul_spec(y));
    crate::laws::lemma_add_interchange(b.mul_spec(a), b.mul_spec(c.mul_spec(y)), a.mul_spec(b), a.mul_spec(d.mul_spec(y)));
    F::lemma_ring(b, a, a);
    lemma_char_two(a.mul_spec(b));
    F::lemma_ring(b, c, y);
    F::lemma_ring(a, d, y);
    crate::laws::lemma_distribute_right(b.mul_spec(c), a.mul_spec(d), y);
    F::lemma_ring(b.mul_spec(c), a.mul_spec(d), a.mul_spec(d));
    F::lemma_closure(delta, y);
    F::lemma_ring(delta.mul_spec(y), zero, zero);
    F::lemma_ring(zero, delta.mul_spec(y), delta.mul_spec(y));
    // (d + c·z)·D = d·D + c·N = (d·a + c·b) + (d·(c·y) + c·(d·y))
    crate::laws::lemma_distribute_right(d, c.mul_spec(z), big_d);
    F::lemma_ring(c, z, big_d);
    F::lemma_ring(d, a, c.mul_spec(y));
    F::lemma_ring(c, b, d.mul_spec(y));
    crate::laws::lemma_add_interchange(d.mul_spec(a), d.mul_spec(c.mul_spec(y)), c.mul_spec(b), c.mul_spec(d.mul_spec(y)));
    F::lemma_ring(d, a, a);
    F::lemma_ring(c, b, b);
    F::lemma_ring(d, c, y);
    F::lemma_ring(c, d, y);
    F::lemma_ring(d, c, c);
    lemma_char_two(c.mul_spec(d).mul_spec(y));
    F::lemma_ring(delta, zero, zero);
}

/// One pulled-back term: with `p·D = Δ·y` and `q·D = Δ`,
/// `(f_j · p^j · q^r) · D^{j+r} = (f_j · y^j) · Δ^{j+r}`.
proof fn lemma_pullback_term<F: FieldAxioms>(fj: F, p: F, q: F, dd: F, delta: F, y: F, j: nat, r: nat)
    requires
        F::field_valid(),
        fj.wf(),
        p.wf(),
        q.wf(),
        dd.wf(),
        delta.wf(),
        y.wf(),
        p.mul_spec(dd) == delta.mul_spec(y),
        q.mul_spec(dd) == delta,
    ensures
        fj.mul_spec(power(p, j).mul_spec(power(q, r))).mul_spec(power(dd, j + r)) == fj.mul_spec(
            power(y, j),
        ).mul_spec(power(delta, j + r)),
{
    lemma_power_wf(p, j);
    lemma_power_wf(q, r);
    lemma_power_wf(dd, j);
    lemma_power_wf(dd, r);
    lemma_power_wf(y, j);
    lemma_power_wf(delta, j);
    lemma_power_wf(delta, r);
    lemma_power_add(dd, j, r);
    lemma_power_add(delta, j, r);
    lemma_power_mul(p, dd, j);
    lemma_power_mul(q, dd, r);
    lemma_power_mul(delta, y, j);
    let (pj, qr, dj, dr, yj, ej, er) = (
        power(p, j),
        power(q, r),
        power(dd, j),
        power(dd, r),
        power(y, j),
        power(delta, j),
        power(delta, r),
    );
    // (pj·qr)·(dj·dr) = (pj·dj)·(qr·dr) = (ej·yj)·er
    lemma_mul_interchange(pj, qr, dj, dr);
    // (ej·yj)·er = yj·(ej·er)
    F::lemma_closure(ej, yj);
    F::lemma_ring(ej, yj, er);
    F::lemma_ring(yj, ej, er);
    F::lemma_ring(ej, yj, yj);
    F::lemma_closure(yj, ej);
    F::lemma_ring(yj, ej, ej);
    F::lemma_closure(ej, er);
    // fj·X·P = fj·(X·P)
    F::lemma_closure(pj, qr);
    F::lemma_closure(dj, dr);
    F::lemma_ring(fj, pj.mul_spec(qr), dj.mul_spec(dr));
    F::lemma_ring(fj, yj, ej.mul_spec(er));
}

/// Law B: in characteristic two, pulling the homogenized message back
/// through the adjugate map gives a polynomial that takes the message's value
/// at every point off the pole `c·y + a = 0` of the inverse map: the
/// base-domain route returns the messages the moved-point route returns.
pub proof fn law_mobius_pullback_recovers_message<F: FieldAxioms>(
    code: &MobiusGrsCode<F>,
    decoder: &MobiusGrsDecoder<F>,
    f: Seq<F>,
    y: F,
)
    requires
        F::is_field(),
        F::one_spec().add_spec(F::one_spec()) == F::zero_spec(),
        code.wf(),
        decoder.wf(),
        decoder.map_view() == code.map_view(),
        decoder.dimension_view() == code.dimension_view(),
        seq_wf(f),
        f.len() == code.dimension_view(),
        y.wf(),
        code.map_view().c.mul_spec(y).add_spec(code.map_view().a) != F::zero_spec(),
    ensures
        eval_seq(
            pulled_back(
                decoder.basis_view(),
                decoder.scalar_view(),
                homogenized_message(code.map_view(), f, code.dimension_view() as nat),
                code.dimension_view() as nat,
            ),
            y,
        ) == eval_seq(f, y),
{
    F::lemma_field_valid();
    let m = code.map_view();
    let k = code.dimension_view() as nat;
    let zero = F::zero_spec();
    F::lemma_closure(zero, zero);
    decoder.lemma_pullback_data();
    let g = homogenized_message(m, f, k);
    let basis = decoder.basis_view();
    let s = decoder.scalar_view();
    let delta = determinant_spec(m);
    // D = a + c·y, N = b + d·y, z = N·D⁻¹
    F::lemma_closure(m.c, y);
    F::lemma_closure(m.d, y);
    let big_d = m.a.add_spec(m.c.mul_spec(y));
    let big_n = m.b.add_spec(m.d.mul_spec(y));
    F::lemma_closure(m.a, m.c.mul_spec(y));
    F::lemma_closure(m.b, m.d.mul_spec(y));
    F::lemma_ring(m.c.mul_spec(y), m.a, m.a);
    assert(big_d != zero);
    F::lemma_closure(big_d, big_d);
    let inv_d = big_d.inverse_spec().unwrap();
    F::lemma_inverse(big_d);
    let z = big_n.mul_spec(inv_d);
    F::lemma_closure(big_n, inv_d);
    F::lemma_ring(big_n, inv_d, big_d);
    F::lemma_ring(inv_d, big_d, big_d);
    F::lemma_ring(big_n, F::one_spec(), F::one_spec());
    assert(z.mul_spec(big_d) == big_n);
    // the pulled-back combination evaluates to g(z)·D^{k−1}
    lemma_eval_homogenized(m, f, k, y);
    lemma_eval_homogenized(m, f, k, z);
    assert forall|i: int| 0 <= i < basis.len() implies (#[trigger] basis[i]).len() == k && seq_wf(basis[i]) by {
        lemma_eval_basis_row(m.b, m.d, m.a, m.c, k, i as nat, y);
    }
    lemma_eval_combination(basis, g, k, k as int, y);
    let c = combination(basis, g, k, k as int);
    assert forall|i: int| 0 <= i < k implies #[trigger] coeff_at(g, i).mul_spec(eval_seq(basis[i], y))
        == coeff_at(g, i).mul_spec(
        power(z.mul_spec(big_d), i as nat).mul_spec(power(big_d, (k - 1 - i) as nat)),
    ) by {
        lemma_eval_basis_row(m.b, m.d, m.a, m.c, k, i as nat, y);
    }
    lemma_series_congruent(
        |i: int| coeff_at(g, i).mul_spec(eval_seq(basis[i], y)),
        |i: int| coeff_at(g, i).mul_spec(
            power(z.mul_spec(big_d), i as nat).mul_spec(power(big_d, (k - 1 - i) as nat)),
        ),
        k as int,
    );
    lemma_homogenized(g, z, big_d, k);
    // g(z)·D^{k−1} = Σ_j (f_j·y^j)·Δ^{k−1} = f(y)·Δ^{k−1}
    let p = m.b.add_spec(m.a.mul_spec(z));
    let q = m.d.add_spec(m.c.mul_spec(z));
    F::lemma_closure(m.a, z);
    F::lemma_closure(m.c, z);
    F::lemma_closure(m.b, m.a.mul_spec(z));
    F::lemma_closure(m.d, m.c.mul_spec(z));
    lemma_adjugate(m, y, z);
    F::lemma_closure(m.a, m.d);
    F::lemma_closure(m.b, m.c);
    F::lemma_closure(m.a.mul_spec(m.d), m.b.mul_spec(m.c));
    let dk = power(big_d, (k - 1) as nat);
    let ek = power(delta, (k - 1) as nat);
    lemma_power_wf(big_d, (k - 1) as nat);
    lemma_power_wf(delta, (k - 1) as nat);
    let u = |j: int| coeff_at(f, j).mul_spec(power(p, j as nat).mul_spec(power(q, (k - 1 - j) as nat)));
    let t = |j: int| coeff_at(f, j).mul_spec(power(y, j as nat));
    assert forall|j: int| 0 <= j < k implies #[trigger] u(j).wf() by {
        lemma_power_wf(p, j as nat);
        lemma_power_wf(q, (k - 1 - j) as nat);
        F::lemma_closure(power(p, j as nat), power(q, (k - 1 - j) as nat));
        F::lemma_closure(coeff_at(f, j), power(p, j as nat).mul_spec(power(q, (k - 1 - j) as nat)));
    }
    assert forall|j: int| 0 <= j < k implies #[trigger] t(j).wf() by {
        lemma_power_wf(y, j as nat);
        F::lemma_closure(coeff_at(f, j), power(y, j as nat));
    }
    lemma_series_scale(u, dk, k as int);
    assert forall|j: int| 0 <= j < k implies #[trigger] u(j).mul_spec(dk) == t(j).mul_spec(ek) by {
        lemma_pullback_term(coeff_at(f, j), p, q, big_d, delta, y, j as nat, (k - 1 - j) as nat);
        assert((j as nat) + ((k - 1 - j) as nat) == (k - 1) as nat);
    }
    lemma_series_congruent(|j: int| u(j).mul_spec(dk), |j: int| t(j).mul_spec(ek), k as int);
    lemma_series_scale(t, ek, k as int);
    lemma_eval_power_sum(f, y);
    crate::validate::lemma_first_zero(code.multipliers_view(), 0);
    assert(delta != zero);
    lemma_pow_is_power(delta, (k - 1) as nat);
    lemma_power_nonzero(delta, (k - 1) as nat);
    F::lemma_closure(ek, ek);
    F::lemma_inverse(ek);
    // eval(pulled_back) = s · (f(y)·Δ^{k−1}) = f(y)
    let scaled = Seq::new(c.len(), |d: int| s.mul_spec(c[d]));
    assert(seq_wf(c));
    F::lemma_closure(s, s);
    crate::polynomial_laws::lemma_eval_scaled(c, s, y);
    let pb = pulled_back(basis, s, g, k);
    assert(scaled =~= Seq::new(k, |degree: int| s.mul_spec(column_sum(basis, g, degree, k as int))));
    assert(pb == trim(scaled));
    crate::polynomial::lemma_trim(scaled);
    assert forall|i: int| 0 <= i implies #[trigger] coeff_at(pb, i) == coeff_at(scaled, i) by {
        if i >= pb.len() && i < scaled.len() {
            assert(scaled[i] == zero);
        }
    }
    lemma_eval_congruent(pb, scaled, y);
    // s = (Δ^{k−1})⁻¹ and Δ^{k−1} ≠ 0
    crate::laws::lemma_eval_seq_wf(f, y);
    let e = eval_seq(f, y);
    F::lemma_ring(s, e, ek);
    F::lemma_ring(e, ek, s);
    F::lemma_ring(ek, s, s);
    F::lemma_closure(e, ek);
    F::lemma_closure(ek, s);
    F::lemma_ring(e, F::one_spec(), F::one_spec());
    F::lemma_ring(s, e.mul_spec(ek), e.mul_spec(ek));
}

/// Powers of a nonzero element are nonzero in a field.
proof fn lemma_power_nonzero<F: FieldAxioms>(x: F, e: nat)
    requires
        F::is_field(),
        x.wf(),
        x != F::zero_spec(),
    ensures
        power(x, e) != F::zero_spec(),
    decreases e,
{
    F::lemma_field_valid();
    F::lemma_closure(x, x);
    if e > 0 {
        lemma_power_nonzero(x, (e - 1) as nat);
        lemma_power_wf(x, (e - 1) as nat);
        crate::laws::lemma_mul_nonzero(power(x, (e - 1) as nat), x);
    }
}

} // verus!
