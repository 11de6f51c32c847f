//! Minimum distance: a nonzero polynomial of degree below `k` vanishes on at
//! most `k − 1` distinct points, so GRS codewords of distinct messages differ
//! in at least `n − k + 1` coordinates.
use vstd::prelude::*;

use crate::code::evaluations;
use crate::domain::distinct;
use crate::extend::{dot, extension_values, projective_functional, ExtendedGrsCode};
use crate::field::{Field, FieldAxioms};
use crate::grs::grs_encode_spec;
use crate::polynomial::{
    add_seq, coeff_at, eval_seq, is_trimmed, lemma_trim, lemma_trim_coeff_eq, max_len, seq_wf, sub_seq,
    trim,
};
use crate::polynomial_laws::{lemma_eval_add, lemma_eval_congruent};
use crate::reference::hamming_spec;

verus! {

/// The number of `i < n` at which `s` vanishes on `points[i]`.
pub open spec fn root_count<F: Field>(s: Seq<F>, points: Seq<F>, n: int) -> nat
    decreases n,
{
    if n <= 0 {
        0
    } else {
        root_count(s, points, n - 1) + if eval_seq(s, points[n - 1]) == F::zero_spec() {
            1nat
        } else {
            0nat
        }
    }
}

/// Synthetic division by `Y − r`: `p = Q·(Y − r) + p(r)`.
pub open spec fn root_quotient<F: Field>(p: Seq<F>, r: F) -> Seq<F>
    decreases p.len(),
{
    if p.len() <= 1 {
        Seq::empty()
    } else {
        seq![eval_seq(p.drop_first(), r)] + root_quotient(p.drop_first(), r)
    }
}

/// `(u·(y − r) + v)·y + c = (u·y + v)·(y − r) + (v·r + c)`.
proof fn lemma_quotient_algebra<F: FieldAxioms>(u: F, v: F, y: F, r: F, c: F)
    requires
        u.wf(),
        v.wf(),
        y.wf(),
        r.wf(),
        c.wf(),
    ensures
        u.mul_spec(y.sub_spec(r)).add_spec(v).mul_spec(y).add_spec(c) == u.mul_spec(y).add_spec(v).mul_spec(
            y.sub_spec(r),
        ).add_spec(v.mul_spec(r).add_spec(c)),
{
    F::lemma_closure(y, r);
    let e = y.sub_spec(r);
    F::lemma_closure(u, e);
    F::lemma_closure(u, y);
    F::lemma_closure(e, y);
    F::lemma_closure(v, y);
    F::lemma_closure(v, e);
    F::lemma_closure(v, r);
    F::lemma_closure(u.mul_spec(e), v);
    F::lemma_closure(u.mul_spec(y), v);
    F::lemma_closure(u, e.mul_spec(y));
    F::lemma_closure(v.mul_spec(r), c);
    F::lemma_closure(v.mul_spec(y), c);
    F::lemma_closure(r, r);
    F::lemma_closure(e, r);
    // e + r = y
    F::lemma_ring(y, r.neg_spec(), r);
    F::lemma_ring(r.neg_spec(), r, r);
    F::lemma_ring(r, r, r);
    F::lemma_ring(y, r, r);
    assert(e.add_spec(r) == y);
    // left: (u·e + v)·y + c = u·(e·y) + v·y + c
    crate::laws::lemma_distribute_right(u.mul_spec(e), v, y);
    F::lemma_ring(u, e, y);
    // right: (u·y + v)·e = u·(e·y) + v·e
    crate::laws::lemma_distribute_right(u.mul_spec(y), v, e);
    F::lemma_ring(u, y, e);
    F::lemma_ring(y, e, e);
    // v·e + (v·r + c) = (v·e + v·r) + c = v·(e + r) + c = v·y + c
    F::lemma_ring(v.mul_spec(e), v.mul_spec(r), c);
    F::lemma_ring(v, e, r);
    // (a + b) + c with a = u·(e·y), b = v·e vs a + (b + (v·r + c))
    let a = u.mul_spec(e.mul_spec(y));
    F::lemma_closure(a, a);
    F::lemma_ring(a, v.mul_spec(y), c);
    F::lemma_ring(a, v.mul_spec(e), v.mul_spec(r).add_spec(c));
}

/// Synthetic division: the quotient has one coefficient fewer, keeps the
/// leading coefficient, and `p(y) = Q(y)·(y − r) + p(r)`.
pub proof fn lemma_root_quotient<F: FieldAxioms>(p: Seq<F>, r: F, y: F)
    requires
        F::field_valid(),
        seq_wf(p),
        p.len() >= 1,
        r.wf(),
        y.wf(),
    ensures
        root_quotient(p, r).len() == p.len() - 1,
        seq_wf(root_quotient(p, r)),
        p.len() >= 2 ==> root_quotient(p, r).last() == p.last(),
        eval_seq(p, y) == eval_seq(root_quotient(p, r), y).mul_spec(y.sub_spec(r)).add_spec(eval_seq(p, r)),
    decreases p.len(),
{
    let z = F::zero_spec();
    F::lemma_closure(z, z);
    F::lemma_closure(y, r);
    let q = root_quotient(p, r);
    if p.len() == 1 {
        // p(x) = 0·x + p0 = p0 for every x
        F::lemma_ring(y, z, z);
        F::lemma_ring(r, z, z);
        F::lemma_ring(z, y, y);
        F::lemma_ring(z, r, r);
        F::lemma_ring(p[0], z, z);
        F::lemma_ring(z, p[0], p[0]);
        F::lemma_ring(y.sub_spec(r), z, z);
        F::lemma_ring(z, y.sub_spec(r), y.sub_spec(r));
        assert(p.drop_first().len() == 0);
        assert(eval_seq(p.drop_first(), y) == z);
        assert(eval_seq(p.drop_first(), r) == z);
        assert(eval_seq(q, y) == z);
        assert(eval_seq(p, y) == p[0]);
        assert(eval_seq(p, r) == p[0]);
    } else {
        let t = p.drop_first();
        lemma_root_quotient(t, r, y);
        let qt = root_quotient(t, r);
        assert(q.drop_first() =~= qt);
        crate::laws::lemma_eval_seq_wf(t, r);
        crate::laws::lemma_eval_seq_wf(t, y);
        crate::laws::lemma_eval_seq_wf(qt, y);
        let (u, v) = (eval_seq(qt, y), eval_seq(t, r));
        assert(seq_wf(q)) by {
            assert forall|i: int| 0 <= i < q.len() implies (#[trigger] q[i]).wf() by {
                if i > 0 {
                    assert(q[i] == qt[i - 1]);
                }
            }
        }
        lemma_quotient_algebra(u, v, y, r, p[0]);
        if t.len() == 1 {
            F::lemma_ring(r, z, z);
            F::lemma_ring(z, r, r);
            F::lemma_ring(z, t[0], t[0]);
            F::lemma_ring(t[0], z, z);
            assert(t.drop_first().len() == 0);
            assert(eval_seq(t.drop_first(), r) == z);
            assert(eval_seq(t, r) == t[0]);
            assert(q.last() == q[0]);
        } else {
            assert(q.last() == qt.last());
        }
    }
}

/// `x − y = 0` only when `x = y`.
proof fn lemma_sub_zero<F: FieldAxioms>(x: F, y: F)
    requires
        x.wf(),
        y.wf(),
        x.sub_spec(y) == F::zero_spec(),
    ensures
        x == y,
{
    F::lemma_closure(x, y);
    F::lemma_closure(y, y);
    let n = y.neg_spec();
    // x = x + (−y + y) = (x − y) + y = 0 + y = y
    F::lemma_ring(x, y, y);
    F::lemma_ring(x, n, y);
    F::lemma_ring(n, y, y);
    F::lemma_ring(y, y, y);
    F::lemma_ring(y, F::zero_spec(), F::zero_spec());
    F::lemma_ring(F::zero_spec(), y, y);
    F::lemma_ring(x, F::zero_spec(), F::zero_spec());
}

/// Counting: if every root of `p` among the first `n` points is a root of
/// `q` or the point `i0`, then `p` has at most one more root there.
proof fn lemma_root_count_cover<F: Field>(p: Seq<F>, q: Seq<F>, points: Seq<F>, n: int, i0: int)
    requires
        forall|j: int|
            0 <= j < n && eval_seq(p, #[trigger] points[j]) == F::zero_spec() ==> j == i0 || eval_seq(
                q,
                points[j],
            ) == F::zero_spec(),
    ensures
        root_count(p, points, n) <= root_count(q, points, n) + if 0 <= i0 < n {
            1nat
        } else {
            0nat
        },
    decreases n,
{
    if n > 0 {
        lemma_root_count_cover(p, q, points, n - 1, i0);
        let j = n - 1;
        if eval_seq(p, points[j]) == F::zero_spec() {
            assert(j == i0 || eval_seq(q, points[j]) == F::zero_spec());
        }
    }
}

/// With no root among the first `n` points the count is zero; otherwise a
/// root index exists.
proof fn lemma_root_count_witness<F: Field>(s: Seq<F>, points: Seq<F>, n: int)
    ensures
        root_count(s, points, n) > 0 ==> exists|i: int|
            0 <= i < n && eval_seq(s, #[trigger] points[i]) == F::zero_spec(),
    decreases n,
{
    if n > 0 {
        lemma_root_count_witness(s, points, n - 1);
        if eval_seq(s, points[n - 1]) == F::zero_spec() {
            assert(eval_seq(s, points[n - 1]) == F::zero_spec());
        }
    }
}

/// Root bound: a polynomial with nonzero leading coefficient and `d + 1`
/// coefficients vanishes on at most `d` distinct points.
pub proof fn lemma_root_bound<F: FieldAxioms>(p: Seq<F>, points: Seq<F>, n: int)
    requires
        F::is_field(),
        seq_wf(p),
        p.len() >= 1,
        p.last() != F::zero_spec(),
        seq_wf(points),
        distinct(points),
        0 <= n <= points.len(),
    ensures
        root_count(p, points, n) <= p.len() - 1,
    decreases p.len(),
{
    F::lemma_field_valid();
    lemma_root_count_witness(p, points, n);
    if root_count(p, points, n) > 0 {
        let i0 = choose|i: int| 0 <= i < n && eval_seq(p, #[trigger] points[i]) == F::zero_spec();
        let r = points[i0];
        lemma_root_quotient(p, r, r);
        if p.len() == 1 {
            // a nonzero constant has no root
            let z = F::zero_spec();
            F::lemma_closure(z, z);
            F::lemma_ring(r, z, z);
            F::lemma_ring(z, r, r);
            F::lemma_ring(z, p[0], p[0]);
            F::lemma_ring(p[0], z, z);
            assert(p.drop_first().len() == 0);
            assert(eval_seq(p.drop_first(), r) == z);
            assert(eval_seq(p, r) == p[0]);
            assert(false);
        } else {
            let q = root_quotient(p, r);
            lemma_root_bound(q, points, n);
            assert forall|j: int|
                0 <= j < n && eval_seq(p, #[trigger] points[j]) == F::zero_spec() implies j == i0
                || eval_seq(q, points[j]) == F::zero_spec() by {
                if j != i0 {
                    let y = points[j];
                    lemma_root_quotient(p, r, y);
                    crate::laws::lemma_eval_seq_wf(q, y);
                    F::lemma_closure(y, r);
                    let e = y.sub_spec(r);
                    F::lemma_closure(eval_seq(q, y), e);
                    F::lemma_ring(eval_seq(q, y).mul_spec(e), F::zero_spec(), F::zero_spec());
                    assert(eval_seq(q, y).mul_spec(e) == F::zero_spec());
                    if e == F::zero_spec() {
                        lemma_sub_zero(y, r);
                        assert(points[j] == points[i0]);
                        assert(false);
                    }
                    if eval_seq(q, y) != F::zero_spec() {
                        crate::laws::lemma_mul_nonzero(eval_seq(q, y), e);
                    }
                }
            }
            lemma_root_count_cover(p, q, points, n, i0);
        }
    }
}

/// `a + o = b + o` forces `a = b`.
pub proof fn lemma_add_right_cancel<F: FieldAxioms>(a: F, b: F, o: F)
    requires
        a.wf(),
        b.wf(),
        o.wf(),
        a.add_spec(o) == b.add_spec(o),
    ensures
        a == b,
{
    F::lemma_closure(o, o);
    let n = o.neg_spec();
    F::lemma_closure(a, o);
    F::lemma_closure(b, o);
    // a = a + (o + −o) = (a + o) + −o = (b + o) + −o = b + (o + −o) = b
    F::lemma_ring(a, o, n);
    F::lemma_ring(b, o, n);
    F::lemma_ring(o, o, o);
    F::lemma_ring(a, F::zero_spec(), F::zero_spec());
    F::lemma_ring(b, F::zero_spec(), F::zero_spec());
}

/// `u + v = u` forces `v = 0`.
proof fn lemma_add_cancel<F: FieldAxioms>(u: F, v: F)
    requires
        u.wf(),
        v.wf(),
        u.add_spec(v) == u,
    ensures
        v == F::zero_spec(),
{
    F::lemma_closure(u, v);
    F::lemma_closure(u, u);
    let n = u.neg_spec();
    // v = (−u + u) + v = −u + (u + v) = −u + u = 0
    F::lemma_ring(n, u, v);
    F::lemma_ring(u, n, n);
    F::lemma_ring(n, u, u);
    F::lemma_ring(v, F::zero_spec(), F::zero_spec());
    F::lemma_ring(F::zero_spec(), v, v);
}

/// `a·w = b·w` with `w ≠ 0` forces `a = b` in a field.
proof fn lemma_cancel_factor<F: FieldAxioms>(a: F, b: F, w: F)
    requires
        F::is_field(),
        a.wf(),
        b.wf(),
        w.wf(),
        w != F::zero_spec(),
        a.mul_spec(w) == b.mul_spec(w),
    ensures
        a == b,
{
    F::lemma_field_valid();
    F::lemma_closure(w, w);
    let t = w.inverse_spec().unwrap();
    F::lemma_inverse(w);
    F::lemma_ring(a, w, t);
    F::lemma_ring(b, w, t);
    F::lemma_ring(a, a, a);
    F::lemma_ring(b, b, b);
}

/// The difference polynomial `d = trim(f − g)`: it vanishes exactly where
/// `f` and `g` agree, it is nonzero when the trimmed polynomials differ, it
/// has at most as many coefficients as the longer of the two, and one fewer
/// when both have the same length and leading entry.
proof fn lemma_difference<F: FieldAxioms>(f: Seq<F>, g: Seq<F>, y: F)
    requires
        F::field_valid(),
        seq_wf(f),
        seq_wf(g),
        y.wf(),
    ensures
        seq_wf(trim(sub_seq(f, g))),
        is_trimmed(trim(sub_seq(f, g))),
        trim(sub_seq(f, g)).len() <= max_len(f.len(), g.len()),
        trim(f) != trim(g) ==> trim(sub_seq(f, g)).len() >= 1,
        f.len() == g.len() && f.len() >= 1 && f.last() == g.last() ==> trim(sub_seq(f, g)).len()
            <= f.len() - 1,
        (eval_seq(trim(sub_seq(f, g)), y) == F::zero_spec()) == (eval_seq(f, y) == eval_seq(g, y)),
{
    let s = sub_seq(f, g);
    let d = trim(s);
    F::lemma_closure(F::zero_spec(), F::zero_spec());
    assert(seq_wf(s)) by {
        assert forall|i: int| 0 <= i < s.len() implies (#[trigger] s[i]).wf() by {
            F::lemma_closure(F::zero_spec(), F::zero_spec());
            F::lemma_closure(coeff_at(f, i), coeff_at(g, i));
        }
    }
    lemma_trim(s);
    if trim(f) != trim(g) && d.len() == 0 {
        assert forall|i: int| 0 <= i < max_len(f.len(), g.len()) implies coeff_at(f, i) == coeff_at(g, i) by {
            F::lemma_closure(F::zero_spec(), F::zero_spec());
            assert(s[i] == F::zero_spec());
            lemma_sub_zero(coeff_at(f, i), coeff_at(g, i));
        }
        lemma_trim_coeff_eq(f, g);
    }
    if f.len() == g.len() && f.len() >= 1 && f.last() == g.last() {
        F::lemma_ring(f.last(), f.last(), f.last());
        assert(s.last() == F::zero_spec());
        lemma_trim(s.drop_last());
    }
    // f = g + s coefficient by coefficient
    let u = add_seq(g, s);
    assert forall|i: int| 0 <= i implies #[trigger] coeff_at(u, i) == coeff_at(f, i) by {
        F::lemma_closure(F::zero_spec(), F::zero_spec());
        let (a, b) = (coeff_at(f, i), coeff_at(g, i));
        F::lemma_closure(a, b);
        F::lemma_closure(b, b);
        if i < max_len(f.len(), g.len()) {
            // b + (a − b) = b + (a + −b) = (a + −b) + b = a + (−b + b) = a + 0 = a
            F::lemma_closure(a, b.neg_spec());
            F::lemma_ring(b, a.add_spec(b.neg_spec()), a);
            F::lemma_ring(a, b.neg_spec(), b);
            F::lemma_ring(b.neg_spec(), b, b);
            F::lemma_ring(b, b, b);
            F::lemma_ring(a, b, b);
        }
    }
    lemma_eval_add(g, s, y);
    assert(seq_wf(u));
    lemma_eval_congruent(u, f, y);
    assert forall|i: int| 0 <= i implies #[trigger] coeff_at(d, i) == coeff_at(s, i) by {
        if i >= d.len() && i < s.len() {
            assert(s[i] == F::zero_spec());
        }
    }
    lemma_eval_congruent(d, s, y);
    crate::laws::lemma_eval_seq_wf(g, y);
    crate::laws::lemma_eval_seq_wf(s, y);
    if eval_seq(f, y) == eval_seq(g, y) {
        lemma_add_cancel(eval_seq(g, y), eval_seq(s, y));
    } else {
        F::lemma_ring(eval_seq(g, y), F::zero_spec(), F::zero_spec());
    }
}

/// Counting disagreements: when coordinate `i` agrees exactly at the roots
/// of `d`, the Hamming distance plus the root count is the length.
proof fn lemma_hamming_roots<F: Field>(a: Seq<F>, b: Seq<F>, d: Seq<F>, points: Seq<F>, m: int)
    requires
        0 <= m <= a.len(),
        m <= b.len(),
        m <= points.len(),
        forall|i: int|
            0 <= i < m ==> (#[trigger] a[i] == b[i]) == (eval_seq(d, points[i]) == F::zero_spec()),
    ensures
        hamming_spec(a.subrange(0, m), b.subrange(0, m)) + root_count(d, points, m) == m,
    decreases m,
{
    if m > 0 {
        lemma_hamming_roots(a, b, d, points, m - 1);
        assert(a.subrange(0, m).drop_last() =~= a.subrange(0, m - 1));
        assert(b.subrange(0, m).drop_last() =~= b.subrange(0, m - 1));
        assert(a[m - 1] == b[m - 1] <==> eval_seq(d, points[m - 1]) == F::zero_spec());
    }
}

/// GRS codes are MDS: the codewords of two distinct polynomials with at most
/// `k` coefficients each differ in at least `n − k + 1` coordinates.
pub proof fn law_grs_minimum_distance<F: FieldAxioms>(
    points: Seq<F>,
    multipliers: Seq<F>,
    f: Seq<F>,
    g: Seq<F>,
    k: nat,
)
    requires
        F::is_field(),
        seq_wf(points),
        distinct(points),
        seq_wf(multipliers),
        multipliers.len() == points.len(),
        forall|i: int| 0 <= i < multipliers.len() ==> #[trigger] multipliers[i] != F::zero_spec(),
        seq_wf(f),
        seq_wf(g),
        f.len() <= k,
        g.len() <= k,
        trim(f) != trim(g),
    ensures
        hamming_spec(grs_encode_spec(points, multipliers, f), grs_encode_spec(points, multipliers, g)) + k
            >= points.len() + 1,
{
    F::lemma_field_valid();
    let n = points.len() as int;
    let (a, b) = (grs_encode_spec(points, multipliers, f), grs_encode_spec(points, multipliers, g));
    let d = trim(sub_seq(f, g));
    F::lemma_closure(F::zero_spec(), F::zero_spec());
    lemma_difference(f, g, F::zero_spec());
    assert forall|i: int| 0 <= i < n implies (#[trigger] a[i] == b[i]) == (eval_seq(d, points[i])
        == F::zero_spec()) by {
        lemma_difference(f, g, points[i]);
        crate::laws::lemma_eval_seq_wf(f, points[i]);
        crate::laws::lemma_eval_seq_wf(g, points[i]);
        if a[i] == b[i] {
            lemma_cancel_factor(eval_seq(f, points[i]), eval_seq(g, points[i]), multipliers[i]);
        }
    }
    lemma_hamming_roots(a, b, d, points, n);
    assert(a.subrange(0, n) =~= a);
    assert(b.subrange(0, n) =~= b);
    lemma_root_bound(d, points, n);
}

/// `⟨e_{k−1}, f⟩ = f_{k−1}`.
proof fn lemma_unit_dot<F: FieldAxioms>(f: Seq<F>, k: nat, m: int)
    requires
        F::field_valid(),
        seq_wf(f),
        f.len() == k,
        k >= 1,
        0 <= m <= k,
    ensures
        dot(projective_functional::<F>(k), f, m) == if m == k {
            f[k - 1]
        } else {
            F::zero_spec()
        },
    decreases m,
{
    let z = F::zero_spec();
    F::lemma_closure(z, z);
    F::lemma_closure(F::one_spec(), F::one_spec());
    if m > 0 {
        lemma_unit_dot(f, k, m - 1);
        let x = f[m - 1];
        F::lemma_ring(x, z, z);
        F::lemma_ring(z, x, x);
        F::lemma_ring(x, F::one_spec(), F::one_spec());
        F::lemma_ring(z, z, z);
        F::lemma_ring(F::one_spec(), x, x);
    }
}

/// The projective extension is MDS: as an `[n + 1, k]` code its codewords of
/// distinct messages differ in at least `n − k + 2` coordinates.
pub proof fn law_projective_extension_minimum_distance<F: FieldAxioms>(
    code: &ExtendedGrsCode<F>,
    f: Seq<F>,
    g: Seq<F>,
)
    requires
        F::is_field(),
        code.wf(),
        code.functionals_view() == seq![projective_functional::<F>(code.dimension_view() as nat)],
        f.len() == code.dimension_view(),
        g.len() == code.dimension_view(),
        seq_wf(f),
        seq_wf(g),
        f != g,
    ensures
        hamming_spec(code.codeword_spec(f), code.codeword_spec(g)) + code.dimension_view()
            >= code.points_view().len() + 2,
{
    F::lemma_field_valid();
    let k = code.dimension_view() as nat;
    let points = code.points_view();
    let w = code.multipliers_view();
    let n = points.len() as int;
    crate::extend::lemma_functionals_ok(code.functionals_view(), k, 0);
    crate::validate::lemma_first_zero(w, 0);
    let (a, b) = (evaluations(f, points, w), evaluations(g, points, w));
    let d = trim(sub_seq(f, g));
    F::lemma_closure(F::zero_spec(), F::zero_spec());
    lemma_difference(f, g, F::zero_spec());
    assert(trim(f) != trim(g)) by {
        lemma_trim(f);
        lemma_trim(g);
        if trim(f) == trim(g) {
            assert forall|i: int| 0 <= i < k implies f[i] == g[i] by {
                if i < trim(f).len() {
                    assert(f[i] == trim(f)[i]);
                    assert(g[i] == trim(g)[i]);
                }
            }
            assert(f =~= g);
        }
    }
    assert forall|i: int| 0 <= i < n implies (#[trigger] a[i] == b[i]) == (eval_seq(d, points[i])
        == F::zero_spec()) by {
        lemma_difference(f, g, points[i]);
        crate::laws::lemma_eval_seq_wf(f, points[i]);
        crate::laws::lemma_eval_seq_wf(g, points[i]);
        F::lemma_ring(w[i], eval_seq(f, points[i]), eval_seq(f, points[i]));
        F::lemma_ring(w[i], eval_seq(g, points[i]), eval_seq(g, points[i]));
        if a[i] == b[i] {
            lemma_cancel_factor(eval_seq(f, points[i]), eval_seq(g, points[i]), w[i]);
        }
    }
    lemma_hamming_roots(a, b, d, points, n);
    assert(a.subrange(0, n) =~= a);
    assert(b.subrange(0, n) =~= b);
    lemma_root_bound(d, points, n);
    // the appended coordinate carries `v · f_{k−1}`
    let ea = extension_values(code.functionals_view(), w, points.len(), f);
    let eb = extension_values(code.functionals_view(), w, points.len(), g);
    lemma_unit_dot(f, k, k as int);
    lemma_unit_dot(g, k, k as int);
    let v = w[n];
    assert(ea.len() == 1 && eb.len() == 1);
    assert(ea[0] == v.mul_spec(f[k - 1]));
    assert(eb[0] == v.mul_spec(g[k - 1]));
    let (ca, cb) = (code.codeword_spec(f), code.codeword_spec(g));
    assert(ca.drop_last() =~= a);
    assert(cb.drop_last() =~= b);
    assert(ca.last() == ea[0]);
    assert(cb.last() == eb[0]);
    if f[k - 1] != g[k - 1] {
        F::lemma_ring(v, f[k - 1], f[k - 1]);
        F::lemma_ring(v, g[k - 1], g[k - 1]);
        if ea[0] == eb[0] {
            lemma_cancel_factor(f[k - 1], g[k - 1], v);
        }
    }
}

/// A polynomial vanishing at every one of the first `m` points has `m` roots
/// there.
proof fn lemma_all_roots<F: Field>(d: Seq<F>, points: Seq<F>, m: int)
    requires
        0 <= m <= points.len(),
        forall|i: int| 0 <= i < m ==> eval_seq(d, #[trigger] points[i]) == F::zero_spec(),
    ensures
        root_count(d, points, m) == m,
    decreases m,
{
    if m > 0 {
        lemma_all_roots(d, points, m - 1);
        assert(eval_seq(d, points[m - 1]) == F::zero_spec());
    }
}

/// Interpolation is unique: two canonical polynomials with at most `n`
/// coefficients that agree on `n` distinct points are equal.
pub proof fn law_interpolation_is_unique<F: FieldAxioms>(points: Seq<F>, f: Seq<F>, g: Seq<F>)
    requires
        F::is_field(),
        seq_wf(points),
        distinct(points),
        seq_wf(f),
        seq_wf(g),
        is_trimmed(f),
        is_trimmed(g),
        f.len() <= points.len(),
        g.len() <= points.len(),
        forall|i: int| 0 <= i < points.len() ==> eval_seq(f, #[trigger] points[i]) == eval_seq(g, points[i]),
    ensures
        f == g,
{
    F::lemma_field_valid();
    lemma_trim(f);
    lemma_trim(g);
    if f != g {
        let d = trim(sub_seq(f, g));
        assert forall|i: int| 0 <= i < points.len() implies eval_seq(d, #[trigger] points[i]) == F::zero_spec() by {
            lemma_difference(f, g, points[i]);
        }
        F::lemma_closure(F::zero_spec(), F::zero_spec());
        lemma_difference(f, g, F::zero_spec());
        if f.len() == 0 && g.len() == 0 {
            assert(f =~= g);
        }
        lemma_all_roots(d, points, points.len() as int);
        lemma_root_bound(d, points, points.len() as int);
        assert(false);
    }
}

} // verus!
