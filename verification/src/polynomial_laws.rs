//! Identities of the coefficient-sequence model of polynomials: evaluation
//! respects sums, products, composition and substitution; the ring laws of
//! the product, the degree of a product, division of a smaller dividend,
//! binomial symmetry, and the root lemma behind list decoding.
use vstd::prelude::*;

use crate::division::{lemma_coeff_trim, lemma_conv_partial_wf};
use crate::field::{Field, FieldAxioms};
use crate::interpolation::lemma_mul_seq_wf;
use crate::laws::lemma_eval_seq_wf;
use crate::grs::{
    hasse_eval_spec, hasse_value_spec, is_interpolation_monomial, pow_seq, satisfies_spec, subst_acc,
    subst_step, substitute_spec, terms_wf, BivariateTerm,
};
use crate::interpolation::{
    denominators_nonzero, lagrange_basis, lagrange_denominator, lagrange_sum, linear_factor,
};
use crate::polynomial::{
    binomial_field, binomial_spec, lemma_binomial_wf, add_constant, add_seq, coeff_at, compose_seq, conv, conv_partial, eval_seq, is_trimmed,
    lemma_trim, lemma_trim_coeff_eq, max_len, mul_seq, scale_seq, seq_wf, sub_seq, trim,
};

verus! {

/// `s` without its constant coefficient (the empty sequence stays empty).
pub open spec fn tail<F>(s: Seq<F>) -> Seq<F> {
    if s.len() == 0 {
        s
    } else {
        s.drop_first()
    }
}

/// Zero is absorbing for products and neutral for sums.
proof fn lemma_zero_facts<F: FieldAxioms>(x: F)
    requires
        x.wf(),
    ensures
        F::field_valid(),
        F::zero_spec().wf(),
        x.mul_spec(F::zero_spec()) == F::zero_spec(),
        F::zero_spec().mul_spec(x) == F::zero_spec(),
        x.add_spec(F::zero_spec()) == x,
        F::zero_spec().add_spec(x) == x,
{
    F::lemma_closure(x, x);
    F::lemma_ring(x, F::zero_spec(), F::zero_spec());
    F::lemma_ring(F::zero_spec(), x, x);
}

proof fn lemma_tail<F: Field>(s: Seq<F>)
    ensures
        forall|i: int| 0 <= i ==> #[trigger] coeff_at(tail(s), i) == coeff_at(s, i + 1),
        seq_wf(s) ==> seq_wf(tail(s)),
        s.len() > 0 ==> tail(s).len() == s.len() - 1,
{
    if s.len() > 0 {
        assert forall|i: int| 0 <= i implies #[trigger] coeff_at(tail(s), i) == coeff_at(s, i + 1) by {
            if i < tail(s).len() {
                assert(tail(s)[i] == s[i + 1]);
            }
        }
    }
}

/// Horner's step on any sequence: `s(x) = (tail s)(x) · x + s_0`.
proof fn lemma_eval_step<F: FieldAxioms>(s: Seq<F>, x: F)
    requires
        seq_wf(s),
        x.wf(),
    ensures
        eval_seq(s, x) == eval_seq(tail(s), x).mul_spec(x).add_spec(coeff_at(s, 0)),
{
    lemma_zero_facts(x);
    if s.len() == 0 {
        lemma_zero_facts(F::zero_spec());
    }
}

/// Evaluation reads coefficients only: sequences that agree up to trailing
/// zeros evaluate alike.
pub proof fn lemma_eval_congruent<F: FieldAxioms>(s: Seq<F>, t: Seq<F>, x: F)
    requires
        seq_wf(s),
        seq_wf(t),
        x.wf(),
        forall|i: int| 0 <= i ==> #[trigger] coeff_at(s, i) == coeff_at(t, i),
    ensures
        eval_seq(s, x) == eval_seq(t, x),
    decreases s.len() + t.len(),
{
    if s.len() > 0 || t.len() > 0 {
        lemma_tail(s);
        lemma_tail(t);
        assert forall|i: int| 0 <= i implies #[trigger] coeff_at(tail(s), i) == coeff_at(tail(t), i) by {
            assert(coeff_at(s, i + 1) == coeff_at(t, i + 1));
        }
        lemma_eval_congruent(tail(s), tail(t), x);
        lemma_eval_step(s, x);
        lemma_eval_step(t, x);
        assert(coeff_at(s, 0) == coeff_at(t, 0));
    }
}

/// Evaluation is additive over coefficient-wise sums.
pub proof fn lemma_eval_add<F: FieldAxioms>(s: Seq<F>, t: Seq<F>, x: F)
    requires
        seq_wf(s),
        seq_wf(t),
        x.wf(),
    ensures
        seq_wf(add_seq(s, t)),
        eval_seq(add_seq(s, t), x) == eval_seq(s, x).add_spec(eval_seq(t, x)),
    decreases s.len() + t.len(),
{
    let u = add_seq(s, t);
    lemma_zero_facts(x);
    assert forall|i: int| 0 <= i < u.len() implies (#[trigger] u[i]).wf() by {
        F::lemma_closure(coeff_at(s, i), coeff_at(t, i));
    }
    F::lemma_closure(x, x);
    if u.len() == 0 {
        lemma_zero_facts(F::zero_spec());
    } else {
        lemma_tail(s);
        lemma_tail(t);
        assert(u.drop_first() =~= add_seq(tail(s), tail(t))) by {
            assert forall|i: int| 0 <= i < u.drop_first().len() implies u.drop_first()[i] == add_seq(
                tail(s),
                tail(t),
            )[i] by {
                assert(coeff_at(tail(s), i) == coeff_at(s, i + 1));
                assert(coeff_at(tail(t), i) == coeff_at(t, i + 1));
            }
        }
        lemma_eval_add(tail(s), tail(t), x);
        lemma_eval_step(s, x);
        lemma_eval_step(t, x);
        let a = eval_seq(tail(s), x);
        let b = eval_seq(tail(t), x);
        lemma_eval_seq_wf(tail(s), x);
        lemma_eval_seq_wf(tail(t), x);
        let s0 = coeff_at(s, 0);
        let t0 = coeff_at(t, 0);
        assert(s0.wf() && t0.wf());
        F::lemma_closure(a, x);
        F::lemma_closure(b, x);
        crate::laws::lemma_distribute_right(a, b, x);
        crate::laws::lemma_add_interchange(a.mul_spec(x), b.mul_spec(x), s0, t0);
    }
}

/// Evaluation commutes with scaling every coefficient by `c`.
pub proof fn lemma_eval_scaled<F: FieldAxioms>(s: Seq<F>, c: F, x: F)
    requires
        seq_wf(s),
        c.wf(),
        x.wf(),
    ensures
        seq_wf(Seq::new(s.len(), |i: int| c.mul_spec(s[i]))),
        eval_seq(Seq::new(s.len(), |i: int| c.mul_spec(s[i])), x) == c.mul_spec(eval_seq(s, x)),
    decreases s.len(),
{
    let v = Seq::new(s.len(), |i: int| c.mul_spec(s[i]));
    lemma_zero_facts(c);
    lemma_zero_facts(x);
    assert forall|i: int| 0 <= i < v.len() implies (#[trigger] v[i]).wf() by {
        F::lemma_closure(c, s[i]);
    }
    if s.len() > 0 {
        let rest = s.drop_first();
        assert(v.drop_first() =~= Seq::new(rest.len(), |i: int| c.mul_spec(rest[i])));
        lemma_eval_scaled(rest, c, x);
        let e = eval_seq(rest, x);
        lemma_eval_seq_wf(rest, x);
        F::lemma_closure(e, x);
        F::lemma_ring(c, e, x);
        F::lemma_ring(c, e.mul_spec(x), s[0]);
    }
}

/// A partial product coefficient at a negative degree is zero.
proof fn lemma_conv_negative<F: Field>(a: Seq<F>, b: Seq<F>, k: int, n: int)
    requires
        k < 0,
        0 <= n,
    ensures
        conv_partial(a, b, k, n) == F::zero_spec(),
    decreases n,
{
    if n > 0 {
        lemma_conv_negative(a, b, k, n - 1);
    }
}

/// The term of a product coefficient contributed by `a_0`.
pub open spec fn leading_term<F: Field>(a: Seq<F>, b: Seq<F>, k: int) -> F {
    if 0 <= k < b.len() {
        a[0].mul_spec(b[k])
    } else {
        F::zero_spec()
    }
}

/// Splitting off the first coefficient of the left factor:
/// `(a·b)_k = a_0 b_k + ((tail a)·b)_{k-1}`.
proof fn lemma_conv_partial_split<F: FieldAxioms>(a: Seq<F>, b: Seq<F>, k: int, n: int)
    requires
        F::field_valid(),
        seq_wf(a),
        seq_wf(b),
        1 <= n <= a.len(),
    ensures
        conv_partial(a, b, k, n) == leading_term(a, b, k).add_spec(conv_partial(a.drop_first(), b, k - 1, n - 1)),
    decreases n,
{
    let rest = a.drop_first();
    let first = leading_term(a, b, k);
    F::lemma_closure(a[0], a[0]);
    assert(seq_wf(rest)) by {
        assert forall|i: int| 0 <= i < rest.len() implies (#[trigger] rest[i]).wf() by {
            assert(rest[i] == a[i + 1]);
        }
    }
    assert(first.wf()) by {
        if 0 <= k < b.len() {
            F::lemma_closure(a[0], b[k]);
        }
    }
    lemma_zero_facts(first);
    if n > 1 {
        lemma_conv_partial_split(a, b, k, n - 1);
        let j = k - (n - 1);
        lemma_conv_partial_wf(rest, b, k - 1, n - 2);
        let x = conv_partial(rest, b, k - 1, n - 2);
        assert(conv_partial(a, b, k, n - 1) == first.add_spec(x));
        if 0 <= j < b.len() {
            assert(rest[n - 2] == a[n - 1]);
            F::lemma_closure(a[n - 1], b[j]);
            F::lemma_ring(first, x, a[n - 1].mul_spec(b[j]));
            assert(conv_partial(rest, b, k - 1, n - 1) == x.add_spec(rest[n - 2].mul_spec(b[j])));
            assert(conv_partial(a, b, k, n) == first.add_spec(x).add_spec(a[n - 1].mul_spec(b[j])));
        } else {
            assert(conv_partial(rest, b, k - 1, n - 1) == x);
            assert(conv_partial(a, b, k, n) == first.add_spec(x));
        }
    } else {
        assert(conv_partial(rest, b, k - 1, 0) == F::zero_spec());
        assert(conv_partial(a, b, k, 0) == F::zero_spec());
        if 0 <= k < b.len() {
            assert(conv_partial(a, b, k, 1) == F::zero_spec().add_spec(a[0].mul_spec(b[k])));
        } else {
            assert(conv_partial(a, b, k, 1) == F::zero_spec());
        }
    }
}

/// Evaluation is multiplicative on the raw product of nonempty sequences.
pub proof fn lemma_eval_conv<F: FieldAxioms>(a: Seq<F>, b: Seq<F>, x: F)
    requires
        seq_wf(a),
        seq_wf(b),
        x.wf(),
        a.len() >= 1,
        b.len() >= 1,
    ensures
        seq_wf(conv(a, b)),
        eval_seq(conv(a, b), x) == eval_seq(a, x).mul_spec(eval_seq(b, x)),
    decreases a.len(),
{
    lemma_zero_facts(x);
    F::lemma_closure(x, x);
    let c = conv(a, b);
    assert forall|k: int| 0 <= k < c.len() implies (#[trigger] c[k]).wf() by {
        lemma_conv_partial_wf(a, b, k, a.len() as int);
    }
    let p = Seq::new(b.len(), |k: int| a[0].mul_spec(b[k]));
    lemma_eval_scaled(b, a[0], x);
    let eb = eval_seq(b, x);
    lemma_eval_seq_wf(b, x);
    let rest = a.drop_first();
    if a.len() == 1 {
        assert(c =~= p) by {
            assert forall|k: int| 0 <= k < c.len() implies c[k] == p[k] by {
                lemma_conv_partial_split(a, b, k, 1);
                F::lemma_closure(a[0], b[k]);
                lemma_zero_facts(a[0].mul_spec(b[k]));
            }
        }
        // a(x) = 0·x + a_0 = a_0
        lemma_zero_facts(a[0]);
        assert(eval_seq(rest, x) == F::zero_spec());
    } else {
        let q = conv(rest, b);
        lemma_eval_conv(rest, b, x);
        let shifted = seq![F::zero_spec()] + q;
        assert(seq_wf(shifted)) by {
            assert forall|i: int| 0 <= i < shifted.len() implies (#[trigger] shifted[i]).wf() by {
                if i > 0 {
                    assert(shifted[i] == q[i - 1]);
                }
            }
        }
        assert(seq_wf(p)) by {
            assert forall|i: int| 0 <= i < p.len() implies (#[trigger] p[i]).wf() by {
                F::lemma_closure(a[0], b[i]);
            }
        }
        assert(c =~= add_seq(p, shifted)) by {
            assert forall|k: int| 0 <= k < c.len() implies c[k] == add_seq(p, shifted)[k] by {
                lemma_conv_partial_split(a, b, k, a.len() as int);
                if k == 0 {
                    lemma_conv_negative(rest, b, -1, rest.len() as int);
                } else {
                    assert(shifted[k] == q[k - 1]);
                }
            }
        }
        lemma_eval_add(p, shifted, x);
        assert(shifted.drop_first() =~= q);
        let ea = eval_seq(rest, x);
        let eq = eval_seq(q, x);
        lemma_eval_seq_wf(rest, x);
        lemma_eval_seq_wf(q, x);
        F::lemma_closure(eq, x);
        lemma_zero_facts(eq.mul_spec(x));
        // a_0·b(x) + (ea·eb)·x = (ea·x + a_0)·eb
        F::lemma_closure(ea, eb);
        F::lemma_closure(ea, x);
        F::lemma_ring(ea, eb, x);
        F::lemma_ring(eb, x, x);
        F::lemma_ring(ea, x, eb);
        crate::laws::lemma_distribute_right(a[0], ea.mul_spec(x), eb);
        F::lemma_ring(a[0], ea.mul_spec(x), eb);
    }
}

/// Trailing zeros do not change a value.
proof fn lemma_eval_trim<F: FieldAxioms>(s: Seq<F>, x: F)
    requires
        seq_wf(s),
        x.wf(),
    ensures
        eval_seq(trim(s), x) == eval_seq(s, x),
{
    lemma_trim(s);
    assert forall|i: int| 0 <= i implies #[trigger] coeff_at(trim(s), i) == coeff_at(s, i) by {
        lemma_coeff_trim(s, i);
    }
    lemma_eval_congruent(trim(s), s, x);
}

/// Evaluation is multiplicative: `(a·b)(x) = a(x)·b(x)`.
pub proof fn law_evaluation_of_product<F: FieldAxioms>(a: Seq<F>, b: Seq<F>, x: F)
    requires
        seq_wf(a),
        seq_wf(b),
        x.wf(),
    ensures
        eval_seq(mul_seq(a, b), x) == eval_seq(a, x).mul_spec(eval_seq(b, x)),
{
    lemma_zero_facts(x);
    lemma_eval_seq_wf(a, x);
    lemma_eval_seq_wf(b, x);
    if a.len() == 0 {
        lemma_zero_facts(eval_seq(b, x));
    } else if b.len() == 0 {
        lemma_zero_facts(eval_seq(a, x));
    } else {
        lemma_eval_conv(a, b, x);
        lemma_eval_trim(conv(a, b), x);
    }
}

/// Adding a constant adds it to every value.
proof fn lemma_eval_add_constant<F: FieldAxioms>(s: Seq<F>, c: F, x: F)
    requires
        seq_wf(s),
        c.wf(),
        x.wf(),
    ensures
        seq_wf(add_constant(s, c)),
        eval_seq(add_constant(s, c), x) == eval_seq(s, x).add_spec(c),
{
    lemma_zero_facts(x);
    lemma_eval_seq_wf(s, x);
    lemma_zero_facts(eval_seq(s, x));
    lemma_zero_facts(c);
    if c == F::zero_spec() {
    } else if s.len() == 0 {
        let single = seq![c];
        assert(single.drop_first() =~= Seq::<F>::empty());
        assert(single[0] == c);
        assert(eval_seq(single.drop_first(), x) == F::zero_spec());
        assert(add_constant(s, c) == single);
        assert(eval_seq(single, x) == F::zero_spec().mul_spec(x).add_spec(c));
    } else {
        let u = s.update(0, s[0].add_spec(c));
        F::lemma_closure(s[0], c);
        assert(seq_wf(u)) by {
            assert forall|i: int| 0 <= i < u.len() implies (#[trigger] u[i]).wf() by {
                if i != 0 {
                    assert(u[i] == s[i]);
                }
            }
        }
        lemma_trim(u);
        lemma_eval_trim(u, x);
        assert(u.drop_first() =~= s.drop_first());
        let e = eval_seq(s.drop_first(), x);
        lemma_eval_seq_wf(s.drop_first(), x);
        F::lemma_closure(e, x);
        F::lemma_ring(e.mul_spec(x), s[0], c);
        assert(add_constant(s, c) == trim(u));
        assert(eval_seq(u, x) == e.mul_spec(x).add_spec(s[0].add_spec(c)));
        assert(eval_seq(s, x) == e.mul_spec(x).add_spec(s[0]));
    }
}

/// The composition of canonical sequences is canonical.
proof fn lemma_compose_wf<F: FieldAxioms>(outer: Seq<F>, inner: Seq<F>)
    requires
        F::field_valid(),
        seq_wf(outer),
        seq_wf(inner),
    ensures
        seq_wf(compose_seq(outer, inner)),
    decreases outer.len(),
{
    if outer.len() > 0 {
        lemma_compose_wf(outer.drop_first(), inner);
        let product = mul_seq(compose_seq(outer.drop_first(), inner), inner);
        lemma_mul_seq_wf(compose_seq(outer.drop_first(), inner), inner);
        F::lemma_closure(outer[0], outer[0]);
        lemma_eval_add_constant(product, outer[0], outer[0]);
    }
}

/// Evaluation respects composition: `(o ∘ i)(x) = o(i(x))`.
pub proof fn law_evaluation_of_composition<F: FieldAxioms>(outer: Seq<F>, inner: Seq<F>, x: F)
    requires
        seq_wf(outer),
        seq_wf(inner),
        x.wf(),
    ensures
        eval_seq(compose_seq(outer, inner), x) == eval_seq(outer, eval_seq(inner, x)),
    decreases outer.len(),
{
    F::lemma_closure(x, x);
    if outer.len() > 0 {
        let rest = outer.drop_first();
        let y = eval_seq(inner, x);
        lemma_eval_seq_wf(inner, x);
        law_evaluation_of_composition(rest, inner, x);
        lemma_compose_wf(rest, inner);
        let composed = compose_seq(rest, inner);
        law_evaluation_of_product(composed, inner, x);
        lemma_mul_seq_wf(composed, inner);
        lemma_eval_add_constant(mul_seq(composed, inner), outer[0], x);
    }
}

/// `(p + q) − q = p`.
proof fn lemma_add_sub<F: FieldAxioms>(p: F, q: F)
    requires
        p.wf(),
        q.wf(),
    ensures
        p.add_spec(q).sub_spec(q) == p,
{
    F::lemma_closure(p, q);
    F::lemma_closure(q, q);
    F::lemma_ring(p.add_spec(q), q, q);
    F::lemma_ring(p, q, q.neg_spec());
    F::lemma_ring(q, q, q);
    F::lemma_ring(p, p, p);
}

/// Subtraction undoes addition: `(a + b) − b = a` for canonical `a`.
pub proof fn law_add_then_subtract<F: FieldAxioms>(a: Seq<F>, b: Seq<F>)
    requires
        F::field_valid(),
        seq_wf(a),
        seq_wf(b),
        is_trimmed(a),
    ensures
        trim(sub_seq(trim(add_seq(a, b)), b)) == a,
{
    let sum = add_seq(a, b);
    let difference = sub_seq(trim(sum), b);
    F::lemma_closure(F::zero_spec(), F::zero_spec());
    lemma_trim(sum);
    assert forall|i: int| 0 <= i < max_len(difference.len(), a.len()) implies coeff_at(difference, i) == coeff_at(
        a,
        i,
    ) by {
        lemma_coeff_trim(sum, i);
        let p = coeff_at(a, i);
        let q = coeff_at(b, i);
        lemma_zero_facts(p);
        assert(p.wf() && q.wf());
        if i < difference.len() {
            assert(coeff_at(sum, i) == p.add_spec(q));
            lemma_add_sub(p, q);
        } else {
            assert(i < a.len());
            assert(q == F::zero_spec());
            assert(coeff_at(sum, i) == p.add_spec(q));
        }
    }
    lemma_trim_coeff_eq(difference, a);
    lemma_trim(a);
}


/// `Π (x − x_l)` over `l < m`, `l ≠ i`, multiplied in increasing `l`.
pub open spec fn basis_value<F: Field>(points: Seq<F>, i: int, m: int, x: F) -> F
    decreases m,
{
    if m <= 0 {
        F::one_spec()
    } else if m - 1 == i {
        basis_value(points, i, m - 1, x)
    } else {
        basis_value(points, i, m - 1, x).mul_spec(x.sub_spec(points[m - 1]))
    }
}

/// `X − p` evaluates to `x − p`.
proof fn lemma_eval_linear<F: FieldAxioms>(p: F, x: F)
    requires
        p.wf(),
        x.wf(),
    ensures
        seq_wf(linear_factor(p)),
        eval_seq(linear_factor(p), x) == x.sub_spec(p),
{
    lemma_zero_facts(x);
    F::lemma_closure(p, x);
    F::lemma_closure(F::one_spec(), x);
    let l = linear_factor(p);
    let one = seq![F::one_spec()];
    assert(l.drop_first() =~= one);
    assert(one.drop_first() =~= Seq::<F>::empty());
    lemma_zero_facts(F::one_spec());
    assert(eval_seq(one.drop_first(), x) == F::zero_spec());
    assert(eval_seq(one, x) == F::zero_spec().mul_spec(x).add_spec(F::one_spec()));
    assert(eval_seq(one, x) == F::one_spec());
    F::lemma_ring(x, F::one_spec(), p.neg_spec());
    F::lemma_ring(F::one_spec(), x, x);
    F::lemma_ring(x, p, p);
    assert(eval_seq(l, x) == F::one_spec().mul_spec(x).add_spec(p.neg_spec()));
}

/// The Lagrange numerator evaluates to the product of the linear factors.
proof fn lemma_eval_basis<F: FieldAxioms>(points: Seq<F>, i: int, m: int, x: F)
    requires
        seq_wf(points),
        x.wf(),
        m <= points.len(),
    ensures
        seq_wf(lagrange_basis(points, i, m)),
        basis_value(points, i, m, x).wf(),
        eval_seq(lagrange_basis(points, i, m), x) == basis_value(points, i, m, x),
    decreases m,
{
    lemma_zero_facts(x);
    F::lemma_closure(x, x);
    if m <= 0 {
        let one = seq![F::one_spec()];
        assert(one.drop_first() =~= Seq::<F>::empty());
        lemma_zero_facts(F::one_spec());
        assert(eval_seq(one.drop_first(), x) == F::zero_spec());
        assert(eval_seq(one, x) == F::zero_spec().mul_spec(x).add_spec(F::one_spec()));
        assert(lagrange_basis(points, i, m) == one);
    } else {
        lemma_eval_basis(points, i, m - 1, x);
        if m - 1 != i {
            let previous = lagrange_basis(points, i, m - 1);
            lemma_eval_linear(points[m - 1], x);
            lemma_mul_seq_wf(previous, linear_factor(points[m - 1]));
            law_evaluation_of_product(previous, linear_factor(points[m - 1]), x);
            F::lemma_closure(x, points[m - 1]);
            F::lemma_closure(basis_value(points, i, m - 1, x), x.sub_spec(points[m - 1]));
        }
    }
}

/// At its own point a Lagrange numerator equals the Lagrange denominator.
proof fn lemma_basis_at_own_point<F: Field>(points: Seq<F>, i: int, m: int)
    ensures
        basis_value(points, i, m, points[i]) == lagrange_denominator(points, i, m),
    decreases m,
{
    if m > 0 {
        lemma_basis_at_own_point(points, i, m - 1);
    }
}

/// At another sample point a Lagrange numerator vanishes.
proof fn lemma_basis_at_other_point<F: FieldAxioms>(points: Seq<F>, i: int, j: int, m: int)
    requires
        seq_wf(points),
        0 <= j < m <= points.len(),
        j != i,
    ensures
        basis_value(points, i, m, points[j]) == F::zero_spec(),
    decreases m,
{
    let x = points[j];
    lemma_zero_facts(x);
    if m - 1 == j {
        // the factor (x_j − x_j) is zero
        F::lemma_ring(x, x, x);
        let previous = basis_value(points, i, m - 1, x);
        lemma_basis_value_wf(points, i, m - 1, x);
        lemma_zero_facts(previous);
    } else {
        lemma_basis_at_other_point(points, i, j, m - 1);
        if m - 1 != i {
            F::lemma_closure(x, points[m - 1]);
            lemma_zero_facts(x.sub_spec(points[m - 1]));
        }
    }
}

proof fn lemma_basis_value_wf<F: Field>(points: Seq<F>, i: int, m: int, x: F)
    requires
        seq_wf(points),
        x.wf(),
        m <= points.len(),
    ensures
        basis_value(points, i, m, x).wf(),
    decreases m,
{
    F::lemma_closure(x, x);
    if m > 0 {
        lemma_basis_value_wf(points, i, m - 1, x);
        F::lemma_closure(x, points[m - 1]);
        F::lemma_closure(basis_value(points, i, m - 1, x), x.sub_spec(points[m - 1]));
    }
}

/// Scaling a polynomial scales its values.
proof fn lemma_eval_scale_seq<F: FieldAxioms>(s: Seq<F>, c: F, x: F)
    requires
        seq_wf(s),
        c.wf(),
        x.wf(),
    ensures
        seq_wf(scale_seq(s, c)),
        eval_seq(scale_seq(s, c), x) == eval_seq(s, x).mul_spec(c),
{
    lemma_zero_facts(x);
    lemma_eval_seq_wf(s, x);
    lemma_zero_facts(eval_seq(s, x));
    lemma_zero_facts(c);
    if c != F::zero_spec() && s.len() > 0 {
        let mapped = s.map_values(|v: F| v.mul_spec(c));
        assert(mapped =~= Seq::new(s.len(), |i: int| c.mul_spec(s[i]))) by {
            assert forall|i: int| 0 <= i < s.len() implies mapped[i] == c.mul_spec(s[i]) by {
                F::lemma_ring(s[i], c, c);
            }
        }
        lemma_eval_scaled(s, c, x);
        lemma_trim(mapped);
        lemma_eval_trim(mapped, x);
        F::lemma_ring(c, eval_seq(s, x), x);
    } else if s.len() == 0 {
        F::lemma_ring(c, c, c);
    }
}

/// The partial Lagrange sum at a sample point: the sample value once its
/// term has been added, zero before.
proof fn lemma_eval_lagrange_sum<F: FieldAxioms>(points: Seq<F>, values: Seq<F>, m: int, j: int)
    requires
        F::is_field(),
        seq_wf(points),
        seq_wf(values),
        points.len() == values.len(),
        denominators_nonzero(points),
        0 <= m <= points.len(),
        0 <= j < points.len(),
    ensures
        seq_wf(lagrange_sum(points, values, m)),
        eval_seq(lagrange_sum(points, values, m), points[j]) == (if j < m {
            values[j]
        } else {
            F::zero_spec()
        }),
    decreases m,
{
    let x = points[j];
    let n = points.len() as int;
    lemma_zero_facts(x);
    F::lemma_field_valid();
    if m > 0 {
        let i = m - 1;
        lemma_eval_lagrange_sum(points, values, m - 1, j);
        let previous = lagrange_sum(points, values, m - 1);
        let d = lagrange_denominator(points, i, n);
        assert(d != F::zero_spec());
        lemma_basis_at_own_point(points, i, n);
        lemma_basis_value_wf(points, i, n, points[i]);
        F::lemma_closure(d, d);
        let scalar = values[i].mul_spec(d.inverse_spec().unwrap());
        F::lemma_closure(values[i], d.inverse_spec().unwrap());
        let basis = lagrange_basis(points, i, n);
        lemma_eval_basis(points, i, n, x);
        lemma_eval_scale_seq(basis, scalar, x);
        let term = scale_seq(basis, scalar);
        lemma_eval_add(previous, term, x);
        lemma_trim(add_seq(previous, term));
        lemma_eval_trim(add_seq(previous, term), x);
        let before = eval_seq(previous, x);
        lemma_eval_seq_wf(previous, x);
        lemma_zero_facts(before);
        assert(lagrange_sum(points, values, m) == trim(add_seq(previous, term)));
        assert(eval_seq(lagrange_sum(points, values, m), x) == before.add_spec(eval_seq(basis, x).mul_spec(scalar)));
        if i == j {
            // d · (y_j · d⁻¹) = y_j
            let w = d.inverse_spec().unwrap();
            assert(eval_seq(basis, x) == d);
            assert(before == F::zero_spec());
            F::lemma_ring(scalar, d, d);
            F::lemma_ring(values[i], w, d);
            F::lemma_ring(w, d, d);
            F::lemma_inverse(d);
            lemma_zero_facts(values[i]);
            F::lemma_ring(values[i], F::one_spec(), F::one_spec());
            F::lemma_closure(d, scalar);
            lemma_zero_facts(d.mul_spec(scalar));
            assert(d.mul_spec(scalar) == values[i]);
        } else {
            lemma_basis_at_other_point(points, i, j, n);
            lemma_zero_facts(scalar);
            assert(eval_seq(basis, x).mul_spec(scalar) == F::zero_spec());
        }
    }
}

/// Interpolation reproduces the samples: the Lagrange polynomial through
/// distinct points takes each sample value at its point.
pub proof fn law_interpolation_passes_through_samples<F: FieldAxioms>(points: Seq<F>, values: Seq<F>, j: int)
    requires
        F::is_field(),
        seq_wf(points),
        seq_wf(values),
        points.len() == values.len(),
        denominators_nonzero(points),
        0 <= j < points.len(),
    ensures
        eval_seq(lagrange_sum(points, values, points.len() as int), points[j]) == values[j],
{
    lemma_eval_lagrange_sum(points, values, points.len() as int, j);
}

/// `p − p = 0`: subtracting a polynomial from itself leaves the zero polynomial.
pub proof fn law_subtract_self<F: FieldAxioms>(p: Seq<F>)
    requires
        seq_wf(p),
    ensures
        trim(sub_seq(p, p)) == Seq::<F>::empty(),
{
    let d = sub_seq(p, p);
    let e = Seq::<F>::empty();
    assert forall|i: int| 0 <= i < max_len(d.len(), e.len()) implies coeff_at(d, i) == coeff_at(e, i) by {
        F::lemma_ring(p[i], p[i], p[i]);
    }
    lemma_trim_coeff_eq(d, e);
}

/// The product coefficients of `p · 1`.
proof fn lemma_conv_unit<F: FieldAxioms>(p: Seq<F>, k: int, n: int)
    requires
        F::field_valid(),
        seq_wf(p),
        0 <= k,
        0 <= n <= p.len(),
    ensures
        conv_partial(p, seq![F::one_spec()], k, n) == if k < n {
            p[k]
        } else {
            F::zero_spec()
        },
    decreases n,
{
    if n > 0 {
        lemma_conv_unit(p, k, n - 1);
        if k == n - 1 {
            F::lemma_closure(p[k], p[k]);
            F::lemma_ring(p[k], F::one_spec(), F::zero_spec());
            F::lemma_ring(F::zero_spec(), p[k], p[k]);
            F::lemma_ring(p[k], F::zero_spec(), F::zero_spec());
        }
    }
}

/// `p · 1 = p` and `p · 0 = 0` for a canonical polynomial `p`.
pub proof fn law_multiply_by_one_and_zero<F: FieldAxioms>(p: Seq<F>)
    requires
        F::field_valid(),
        seq_wf(p),
        is_trimmed(p),
    ensures
        mul_seq(p, seq![F::one_spec()]) == p,
        mul_seq(p, Seq::<F>::empty()) == Seq::<F>::empty(),
{
    if p.len() > 0 {
        let c = conv(p, seq![F::one_spec()]);
        assert forall|k: int| 0 <= k < c.len() implies c[k] == p[k] by {
            lemma_conv_unit(p, k, p.len() as int);
        }
        assert(c =~= p);
        lemma_trim(p);
    }
}

/// Over a field the degree of a product is the sum of the degrees: the
/// leading coefficient of `p · q` is the product of the leading coefficients.
pub proof fn law_product_degree<F: FieldAxioms>(p: Seq<F>, q: Seq<F>)
    requires
        F::is_field(),
        seq_wf(p),
        seq_wf(q),
        is_trimmed(p),
        is_trimmed(q),
        p.len() > 0,
        q.len() > 0,
    ensures
        mul_seq(p, q).len() == p.len() + q.len() - 1,
        mul_seq(p, q).last() == p.last().mul_spec(q.last()),
{
    F::lemma_field_valid();
    let c = conv(p, q);
    let k = p.len() + q.len() - 2;
    let n = p.len() as int;
    crate::division::lemma_conv_out_of_range(p, q, k, n - 1);
    let t = p.last().mul_spec(q.last());
    F::lemma_closure(p.last(), q.last());
    F::lemma_ring(t, F::zero_spec(), F::zero_spec());
    F::lemma_ring(F::zero_spec(), t, t);
    assert(c[k] == t);
    crate::laws::lemma_mul_nonzero(p.last(), q.last());
    assert(c.last() == t);
    lemma_trim(c);
}

/// `C(m, m) = 1`.
proof fn lemma_binomial_diagonal<F: FieldAxioms>(m: nat)
    requires
        F::field_valid(),
    ensures
        binomial_spec::<F>(m, m) == F::one_spec(),
    decreases m,
{
    if m > 0 {
        lemma_binomial_diagonal::<F>((m - 1) as nat);
        F::lemma_closure(F::one_spec(), F::one_spec());
        assert(binomial_spec::<F>((m - 1) as nat, m) == F::zero_spec());
        assert(binomial_spec::<F>(m, m) == F::zero_spec().add_spec(F::one_spec()));
        F::lemma_ring(F::zero_spec(), F::one_spec(), F::one_spec());
        F::lemma_ring(F::one_spec(), F::zero_spec(), F::zero_spec());
    }
}

/// Pascal's triangle is symmetric: `C(n, k) = C(n, n − k)`.
proof fn lemma_binomial_spec_symmetric<F: FieldAxioms>(n: nat, k: nat)
    requires
        F::field_valid(),
        k <= n,
    ensures
        binomial_spec::<F>(n, k) == binomial_spec::<F>(n, (n - k) as nat),
    decreases n,
{
    if k == 0 || k == n {
        lemma_binomial_diagonal::<F>(n);
    } else {
        let m = (n - 1) as nat;
        lemma_binomial_spec_symmetric::<F>(m, k);
        lemma_binomial_spec_symmetric::<F>(m, (k - 1) as nat);
        lemma_binomial_wf::<F>(m, k);
        lemma_binomial_wf::<F>(m, (k - 1) as nat);
        F::lemma_closure(F::zero_spec(), F::zero_spec());
        F::lemma_ring(binomial_spec::<F>(m, k), binomial_spec::<F>(m, (k - 1) as nat), F::zero_spec());
        assert(binomial_spec::<F>(n, (n - k) as nat) == binomial_spec::<F>(m, (n - k) as nat).add_spec(
            binomial_spec::<F>(m, (n - k - 1) as nat),
        ));
    }
}

/// The binomial coefficients are symmetric, `C(n, k) = C(n, n − k)`, and obey
/// Pascal's rule `C(n, k) = C(n − 1, k) + C(n − 1, k − 1)`.
pub proof fn law_binomial_symmetry_and_recurrence<F: FieldAxioms>(n: nat, k: nat)
    requires
        F::field_valid(),
        1 <= k <= n,
    ensures
        binomial_field::<F>(n, k) == binomial_field::<F>(n, (n - k) as nat),
        binomial_field::<F>(n, k) == binomial_field::<F>((n - 1) as nat, k).add_spec(
            binomial_field::<F>((n - 1) as nat, (k - 1) as nat),
        ),
{
    let m = (n - 1) as nat;
    lemma_binomial_spec_symmetric::<F>(n, k);
    lemma_binomial_spec_symmetric::<F>(n, (n - k) as nat);
    if k <= m {
        lemma_binomial_spec_symmetric::<F>(m, k);
    }
    lemma_binomial_spec_symmetric::<F>(m, (k - 1) as nat);
    assert(binomial_field::<F>(n, k) == binomial_spec::<F>(n, k));
    assert(binomial_field::<F>(n, (n - k) as nat) == binomial_spec::<F>(n, (n - k) as nat));
    assert(binomial_field::<F>(m, (k - 1) as nat) == binomial_spec::<F>(m, (k - 1) as nat));
    assert(binomial_field::<F>(m, k) == binomial_spec::<F>(m, k));
}

/// `Σ_t c_t · x^(a_t) · y^(b_t)` over the first `n` terms.
pub open spec fn term_sum<F: Field>(terms: Seq<BivariateTerm<F>>, n: nat, x: F, y: F) -> F
    decreases n,
{
    if n == 0 {
        F::zero_spec()
    } else {
        let t = terms[n - 1];
        term_sum(terms, (n - 1) as nat, x, y).add_spec(
            t.coefficient.mul_spec(x.pow_spec(t.monomial.x_degree as nat)).mul_spec(
                y.pow_spec(t.monomial.y_degree as nat),
            ),
        )
    }
}

/// `c^d` evaluates to `c(x)^d`.
proof fn lemma_eval_pow_seq<F: FieldAxioms>(c: Seq<F>, d: nat, x: F)
    requires
        seq_wf(c),
        x.wf(),
    ensures
        seq_wf(pow_seq(c, d)),
        eval_seq(pow_seq(c, d), x) == eval_seq(c, x).pow_spec(d),
    decreases d,
{
    lemma_zero_facts(x);
    lemma_eval_seq_wf(c, x);
    let e = eval_seq(c, x);
    F::lemma_pow_step(e, 0);
    if d == 0 {
        F::lemma_closure(F::one_spec(), F::one_spec());
        let one = seq![F::one_spec()];
        assert(one.drop_first().len() == 0);
        assert(eval_seq(one.drop_first(), x) == F::zero_spec());
        lemma_zero_facts(F::one_spec());
    } else {
        let prev = pow_seq(c, (d - 1) as nat);
        lemma_eval_pow_seq(c, (d - 1) as nat, x);
        crate::interpolation::lemma_mul_seq_wf(prev, c);
        law_evaluation_of_product(prev, c, x);
        F::lemma_pow_step(e, (d - 1) as nat);
    }
}

/// Prefixing `shift` zero coefficients multiplies the value by `x^shift`.
proof fn lemma_eval_shift<F: FieldAxioms>(p: Seq<F>, shift: nat, x: F)
    requires
        seq_wf(p),
        x.wf(),
    ensures
        seq_wf(Seq::new(shift + p.len(), |i: int| if i < shift { F::zero_spec() } else { p[i - shift] })),
        eval_seq(Seq::new(shift + p.len(), |i: int| if i < shift { F::zero_spec() } else { p[i - shift] }), x)
            == x.pow_spec(shift).mul_spec(eval_seq(p, x)),
    decreases shift,
{
    let s = Seq::new(shift + p.len(), |i: int| if i < shift { F::zero_spec() } else { p[i - shift] });
    lemma_zero_facts(x);
    lemma_eval_seq_wf(p, x);
    let e = eval_seq(p, x);
    F::lemma_pow_step(x, 0);
    F::lemma_pow_wf(x, shift);
    if shift == 0 {
        assert(s =~= p);
        F::lemma_closure(e, e);
        F::lemma_ring(e, F::one_spec(), F::one_spec());
        F::lemma_ring(F::one_spec(), e, e);
    } else {
        let k = (shift - 1) as nat;
        let r = Seq::new(k + p.len(), |i: int| if i < k { F::zero_spec() } else { p[i - k] });
        lemma_eval_shift(p, k, x);
        assert(s.drop_first() =~= r);
        F::lemma_pow_step(x, k);
        F::lemma_pow_wf(x, k);
        let xk = x.pow_spec(k);
        F::lemma_closure(xk, e);
        F::lemma_closure(xk.mul_spec(e), x);
        // (x^k·e)·x + 0 = (x^k·x)·e
        F::lemma_ring(xk, e, x);
        F::lemma_ring(e, x, x);
        F::lemma_ring(xk, x, e);
        F::lemma_closure(e, x);
        F::lemma_ring(xk.mul_spec(e).mul_spec(x), F::zero_spec(), F::zero_spec());
    }
}

/// One substitution step adds `c · x^shift · power(x)` to the value.
proof fn lemma_eval_subst_step<F: FieldAxioms>(acc: Seq<F>, shift: nat, c: F, power: Seq<F>, x: F)
    requires
        seq_wf(acc),
        seq_wf(power),
        c.wf(),
        x.wf(),
    ensures
        seq_wf(subst_step(acc, shift, c, power)),
        eval_seq(subst_step(acc, shift, c, power), x) == eval_seq(acc, x).add_spec(
            c.mul_spec(x.pow_spec(shift)).mul_spec(eval_seq(power, x)),
        ),
{
    lemma_zero_facts(x);
    let step = subst_step(acc, shift, c, power);
    let scaled = Seq::new(power.len(), |i: int| c.mul_spec(power[i]));
    lemma_eval_scaled(power, c, x);
    let ss = Seq::new(shift + scaled.len(), |i: int| if i < shift { F::zero_spec() } else { scaled[i - shift] });
    lemma_eval_shift(scaled, shift, x);
    let sum = add_seq(acc, ss);
    lemma_eval_add(acc, ss, x);
    assert forall|i: int| 0 <= i < step.len() implies (#[trigger] step[i]).wf() by {
        if shift <= i < shift + power.len() {
            F::lemma_closure(c, power[i - shift]);
            F::lemma_closure(coeff_at(acc, i), c.mul_spec(power[i - shift]));
        }
    }
    assert forall|i: int| 0 <= i implies #[trigger] coeff_at(step, i) == coeff_at(sum, i) by {
        if i < step.len() {
            lemma_zero_facts(coeff_at(acc, i));
        }
    }
    lemma_eval_congruent(step, sum, x);
    // c·(x^shift)·p(x) arrangements
    let e = eval_seq(power, x);
    lemma_eval_seq_wf(power, x);
    F::lemma_pow_wf(x, shift);
    let xs = x.pow_spec(shift);
    F::lemma_closure(c, e);
    F::lemma_closure(c, xs);
    F::lemma_ring(xs, c, e);
    F::lemma_ring(c, xs, e);
    F::lemma_ring(xs, c, c);
}

/// Evaluation of the substitution `Q(x, c(x))`: its value at `x` is
/// `Σ_t q_t · x^(a_t) · c(x)^(b_t)` over the terms of `Q`.
pub proof fn law_substitution_evaluates_termwise<F: FieldAxioms>(
    terms: Seq<BivariateTerm<F>>,
    c: Seq<F>,
    x: F,
)
    requires
        terms_wf(terms),
        seq_wf(c),
        x.wf(),
    ensures
        eval_seq(substitute_spec(terms, c), x) == term_sum(terms, terms.len(), x, eval_seq(c, x)),
{
    lemma_subst_acc_eval(terms, terms.len(), c, x);
    lemma_eval_trim(subst_acc(terms, terms.len(), c), x);
}

proof fn lemma_subst_acc_eval<F: FieldAxioms>(terms: Seq<BivariateTerm<F>>, n: nat, c: Seq<F>, x: F)
    requires
        terms_wf(terms),
        seq_wf(c),
        x.wf(),
        n <= terms.len(),
    ensures
        seq_wf(subst_acc(terms, n, c)),
        eval_seq(subst_acc(terms, n, c), x) == term_sum(terms, n, x, eval_seq(c, x)),
    decreases n,
{
    lemma_zero_facts(x);
    if n > 0 {
        let t = terms[n - 1];
        let acc = subst_acc(terms, (n - 1) as nat, c);
        lemma_subst_acc_eval(terms, (n - 1) as nat, c, x);
        let power = pow_seq(c, t.monomial.y_degree as nat);
        lemma_eval_pow_seq(c, t.monomial.y_degree as nat, x);
        lemma_eval_subst_step(acc, t.monomial.x_degree as nat, t.coefficient, power, x);
    }
}

/// The Hasse derivative of order `(0, 0)` is the value `Q(x, y)`.
proof fn lemma_hasse_zero_order<F: FieldAxioms>(terms: Seq<BivariateTerm<F>>, n: nat, x: F, y: F)
    requires
        terms_wf(terms),
        n <= terms.len(),
        x.wf(),
        y.wf(),
    ensures
        hasse_eval_spec(terms, n, 0, 0, x, y) == term_sum(terms, n, x, y),
    decreases n,
{
    lemma_zero_facts(x);
    if n > 0 {
        lemma_hasse_zero_order(terms, (n - 1) as nat, x, y);
        let t = terms[n - 1];
        let (a, b) = (t.monomial.x_degree as nat, t.monomial.y_degree as nat);
        let one = F::one_spec();
        assert(binomial_field::<F>(a, 0) == one);
        assert(binomial_field::<F>(b, 0) == one);
        F::lemma_pow_wf(x, a);
        F::lemma_pow_wf(y, b);
        let (xa, yb) = (x.pow_spec(a), y.pow_spec(b));
        F::lemma_closure(one, one);
        F::lemma_ring(one, one, one);
        F::lemma_ring(xa, one, one);
        F::lemma_ring(one, xa, xa);
        F::lemma_closure(xa, yb);
        F::lemma_ring(t.coefficient, xa, yb);
        assert(hasse_value_spec(t.monomial, 0, 0, x, y) == xa.mul_spec(yb));
    }
}

/// `c^b` has at most `w·b + 1` coefficients when `c` has at most `w + 1`.
proof fn lemma_pow_seq_len<F: Field>(c: Seq<F>, b: nat, w: nat)
    requires
        c.len() <= w + 1,
    ensures
        pow_seq(c, b).len() <= w * b + 1,
    decreases b,
{
    if b > 0 {
        let prev = pow_seq(c, (b - 1) as nat);
        lemma_pow_seq_len(c, (b - 1) as nat, w);
        crate::polynomial::lemma_mul_seq_len(prev, c);
        assert(w * (b - 1) + w == w * b) by (nonlinear_arith);
    }
}

/// Every term of weighted degree at most `bound` keeps `Q(x, c(x))` within
/// `bound + 1` coefficients.
proof fn lemma_subst_len<F: Field>(terms: Seq<BivariateTerm<F>>, n: nat, c: Seq<F>, w: nat, bound: nat)
    requires
        n <= terms.len(),
        c.len() <= w + 1,
        forall|i: int| 0 <= i < terms.len() ==> is_interpolation_monomial((#[trigger] terms[i]).monomial, w, bound),
    ensures
        subst_acc(terms, n, c).len() <= bound + 1,
    decreases n,
{
    if n > 0 {
        lemma_subst_len(terms, (n - 1) as nat, c, w, bound);
        let t = terms[n - 1];
        assert(is_interpolation_monomial(t.monomial, w, bound));
        lemma_pow_seq_len(c, t.monomial.y_degree as nat, w);
    }
}

/// An agreement of `evals` with `values` at index `i` is a root of `r` at
/// `points[i]`; then the roots outnumber the agreements.
proof fn lemma_roots_cover_agreements<F: Field>(r: Seq<F>, points: Seq<F>, evals: Seq<F>, values: Seq<F>, m: int)
    requires
        0 <= m <= points.len(),
        evals.len() == points.len(),
        values.len() == points.len(),
        forall|i: int| 0 <= i < points.len() && evals[i] == values[i] ==> eval_seq(r, #[trigger] points[i]) == F::zero_spec(),
    ensures
        crate::distance::root_count(r, points, m) + crate::reference::hamming_spec(evals.take(m), values.take(m)) >= m,
    decreases m,
{
    if m > 0 {
        lemma_roots_cover_agreements(r, points, evals, values, m - 1);
        assert(evals.take(m).drop_last() =~= evals.take(m - 1));
        assert(values.take(m).drop_last() =~= values.take(m - 1));
        if evals[m - 1] == values[m - 1] {
            assert(eval_seq(r, points[m - 1]) == F::zero_spec());
        }
    }
}

/// Sudan's root lemma (multiplicity one): a nonzero-or-zero interpolant `Q`
/// that vanishes at every `(α_i, y_i)`, with every monomial `x^a y^b` of
/// weighted degree `a + w·b <= bound`, vanishes identically along every
/// message `f` of degree at most `w` that agrees with the samples in more
/// than `bound` places: `Q(x, f(x)) = 0`.
pub proof fn law_interpolant_vanishes_on_close_messages<F: FieldAxioms>(
    q: Seq<BivariateTerm<F>>,
    points: Seq<F>,
    values: Seq<F>,
    w: nat,
    bound: nat,
    f: Seq<F>,
)
    requires
        F::is_field(),
        terms_wf(q),
        seq_wf(points),
        crate::domain::distinct(points),
        seq_wf(values),
        values.len() == points.len(),
        satisfies_spec(q, points, values, 1),
        forall|i: int| 0 <= i < q.len() ==> is_interpolation_monomial((#[trigger] q[i]).monomial, w, bound),
        seq_wf(f),
        f.len() <= w + 1,
        crate::reference::hamming_spec(
            Seq::new(points.len(), |i: int| eval_seq(f, points[i])),
            values,
        ) + bound < points.len(),
    ensures
        substitute_spec(q, f) == Seq::<F>::empty(),
{
    F::lemma_field_valid();
    let n = points.len() as int;
    let r = substitute_spec(q, f);
    let evals = Seq::new(points.len(), |i: int| eval_seq(f, points[i]));
    lemma_subst_len(q, q.len(), f, w, bound);
    lemma_trim(subst_acc(q, q.len(), f));
    assert forall|i: int| 0 <= i < points.len() && evals[i] == values[i] implies eval_seq(
        r,
        #[trigger] points[i],
    ) == F::zero_spec() by {
        law_substitution_evaluates_termwise(q, f, points[i]);
        lemma_hasse_zero_order(q, q.len(), points[i], values[i]);
        assert(hasse_eval_spec(q, q.len(), 0, 0, points[i], values[i]) == F::zero_spec());
    }
    lemma_roots_cover_agreements(r, points, evals, values, n);
    assert(evals.take(n) =~= evals);
    assert(values.take(n) =~= values);
    lemma_subst_acc_eval(q, q.len(), f, points[0]);
    if r.len() > 0 {
        crate::distance::lemma_root_bound(r, points, n);
        assert(false);
    }
}

/// Division of a dividend of smaller degree than the divisor: any quotient
/// and remainder with `p = q·d + r` and `deg r < deg d` have `q = 0` and
/// `r = p`.
pub proof fn law_division_of_smaller_dividend<F: FieldAxioms>(p: Seq<F>, d: Seq<F>, q: Seq<F>, r: Seq<F>)
    requires
        F::is_field(),
        seq_wf(p),
        seq_wf(d),
        seq_wf(q),
        seq_wf(r),
        is_trimmed(p),
        is_trimmed(d),
        is_trimmed(q),
        is_trimmed(r),
        p.len() < d.len(),
        r.len() < d.len(),
        p == trim(add_seq(mul_seq(q, d), r)),
    ensures
        q.len() == 0,
        r == p,
{
    F::lemma_field_valid();
    if q.len() > 0 {
        let qd = mul_seq(q, d);
        law_product_degree(q, d);
        let sum = add_seq(qd, r);
        let top = (qd.len() - 1) as int;
        assert(sum.len() == qd.len());
        F::lemma_closure(q.last(), d.last());
        lemma_zero_facts(qd.last());
        assert(coeff_at(r, top) == F::zero_spec());
        assert(sum[top] == qd.last());
        crate::laws::lemma_mul_nonzero(q.last(), d.last());
        assert(sum.last() != F::zero_spec());
        lemma_trim(sum);
        assert(p.len() == sum.len());
        assert(false);
    } else {
        assert(mul_seq(q, d) == Seq::<F>::empty());
        let sum = add_seq(mul_seq(q, d), r);
        assert forall|i: int| 0 <= i < sum.len() implies sum[i] == r[i] by {
            lemma_zero_facts(r[i]);
        }
        assert(sum =~= r);
        lemma_trim(r);
    }
}

/// `Σ_{i<n} a_i · b_{k−i}`, reading `b` through `coeff_at`.
pub open spec fn conv_coeff<F: Field>(a: Seq<F>, b: Seq<F>, k: int, n: int) -> F
    decreases n,
{
    if n <= 0 {
        F::zero_spec()
    } else {
        conv_coeff(a, b, k, n - 1).add_spec(a[n - 1].mul_spec(coeff_at(b, k - (n - 1))))
    }
}

proof fn lemma_conv_coeff_wf<F: FieldAxioms>(a: Seq<F>, b: Seq<F>, k: int, n: int)
    requires
        F::field_valid(),
        seq_wf(a),
        seq_wf(b),
        0 <= n <= a.len(),
    ensures
        conv_coeff(a, b, k, n).wf(),
    decreases n,
{
    F::lemma_closure(F::zero_spec(), F::zero_spec());
    if n > 0 {
        lemma_conv_coeff_wf(a, b, k, n - 1);
        F::lemma_closure(a[n - 1], coeff_at(b, k - (n - 1)));
        F::lemma_closure(conv_coeff(a, b, k, n - 1), a[n - 1].mul_spec(coeff_at(b, k - (n - 1))));
    }
}

/// The partial product coefficient equals its `coeff_at` form.
proof fn lemma_conv_partial_coeff<F: FieldAxioms>(a: Seq<F>, b: Seq<F>, k: int, n: int)
    requires
        F::field_valid(),
        seq_wf(a),
        seq_wf(b),
        0 <= n <= a.len(),
    ensures
        conv_partial(a, b, k, n) == conv_coeff(a, b, k, n),
    decreases n,
{
    if n > 0 {
        lemma_conv_partial_coeff(a, b, k, n - 1);
        let j = k - (n - 1);
        if !(0 <= j < b.len()) {
            lemma_conv_coeff_wf(a, b, k, n - 1);
            lemma_zero_facts(a[n - 1]);
            lemma_zero_facts(conv_coeff(a, b, k, n - 1));
        }
    }
}

/// `conv_coeff` is additive in the right factor's coefficients.
proof fn lemma_conv_coeff_additive<F: FieldAxioms>(a: Seq<F>, b: Seq<F>, c: Seq<F>, e: Seq<F>, k: int, n: int)
    requires
        F::field_valid(),
        seq_wf(a),
        seq_wf(b),
        seq_wf(c),
        seq_wf(e),
        0 <= n <= a.len(),
        forall|j: int| #[trigger] coeff_at(b, j) == coeff_at(c, j).add_spec(coeff_at(e, j)),
    ensures
        conv_coeff(a, b, k, n) == conv_coeff(a, c, k, n).add_spec(conv_coeff(a, e, k, n)),
    decreases n,
{
    F::lemma_closure(F::zero_spec(), F::zero_spec());
    if n == 0 {
        lemma_zero_facts(F::zero_spec());
    } else {
        lemma_conv_coeff_additive(a, b, c, e, k, n - 1);
        let j = k - (n - 1);
        let (x, y) = (coeff_at(c, j), coeff_at(e, j));
        assert(coeff_at(b, j) == x.add_spec(y));
        F::lemma_ring(a[n - 1], x, y);
        lemma_conv_coeff_wf(a, c, k, n - 1);
        lemma_conv_coeff_wf(a, e, k, n - 1);
        F::lemma_closure(a[n - 1], x);
        F::lemma_closure(a[n - 1], y);
        crate::laws::lemma_add_interchange(
            conv_coeff(a, c, k, n - 1),
            conv_coeff(a, e, k, n - 1),
            a[n - 1].mul_spec(x),
            a[n - 1].mul_spec(y),
        );
    }
}

/// Beyond the product's length every summed coefficient of `b` is zero.
proof fn lemma_conv_coeff_high<F: FieldAxioms>(a: Seq<F>, b: Seq<F>, k: int, n: int)
    requires
        F::field_valid(),
        seq_wf(a),
        seq_wf(b),
        0 <= n <= a.len(),
        k - n + 1 >= b.len() || b.len() == 0,
    ensures
        conv_coeff(a, b, k, n) == F::zero_spec(),
    decreases n,
{
    F::lemma_closure(F::zero_spec(), F::zero_spec());
    if n > 0 {
        lemma_conv_coeff_high(a, b, k, n - 1);
        lemma_zero_facts(a[n - 1]);
        lemma_zero_facts(F::zero_spec());
    }
}

/// Every coefficient of a canonical product in `coeff_at` form.
proof fn lemma_mul_seq_coeff_at<F: FieldAxioms>(p: Seq<F>, s: Seq<F>, k: int)
    requires
        F::field_valid(),
        seq_wf(p),
        seq_wf(s),
        0 <= k,
    ensures
        coeff_at(mul_seq(p, s), k) == conv_coeff(p, s, k, p.len() as int),
{
    if p.len() == 0 {
    } else if s.len() == 0 {
        lemma_conv_coeff_high(p, s, k, p.len() as int);
    } else {
        let c = conv(p, s);
        lemma_coeff_trim(c, k);
        lemma_conv_partial_coeff(p, s, k, p.len() as int);
        if k >= c.len() {
            lemma_conv_coeff_high(p, s, k, p.len() as int);
        }
    }
}

/// Multiplication distributes over addition: `p·(q + r) = p·q + p·r`.
pub proof fn law_multiplication_distributes<F: FieldAxioms>(p: Seq<F>, q: Seq<F>, r: Seq<F>)
    requires
        F::field_valid(),
        seq_wf(p),
        seq_wf(q),
        seq_wf(r),
    ensures
        mul_seq(p, trim(add_seq(q, r))) == trim(add_seq(mul_seq(p, q), mul_seq(p, r))),
{
    F::lemma_closure(F::zero_spec(), F::zero_spec());
    let qr = add_seq(q, r);
    let s = trim(qr);
    lemma_eval_add(q, r, F::zero_spec());
    lemma_trim(qr);
    assert forall|j: int| #[trigger] coeff_at(s, j) == coeff_at(q, j).add_spec(coeff_at(r, j)) by {
        lemma_coeff_trim(qr, j);
        lemma_zero_facts(F::zero_spec());
    }
    let left = mul_seq(p, s);
    let (pq, pr) = (mul_seq(p, q), mul_seq(p, r));
    let right = add_seq(pq, pr);
    crate::interpolation::lemma_mul_seq_wf(p, s);
    crate::interpolation::lemma_mul_seq_wf(p, q);
    crate::interpolation::lemma_mul_seq_wf(p, r);
    assert forall|k: int| 0 <= k < max_len(left.len(), right.len()) implies coeff_at(left, k) == coeff_at(
        right,
        k,
    ) by {
        lemma_mul_seq_coeff_at(p, s, k);
        lemma_mul_seq_coeff_at(p, q, k);
        lemma_mul_seq_coeff_at(p, r, k);
        lemma_conv_coeff_additive(p, s, q, r, k, p.len() as int);
        if k >= right.len() {
            lemma_zero_facts(F::zero_spec());
        }
    }
    lemma_trim_coeff_eq(left, right);
    lemma_trim(left);
}

/// The zero facts for an element: `x·0 = 0·x = 0` and `x + 0 = 0 + x = x`.
pub proof fn lemma_zero_facts_pub<F: FieldAxioms>(x: F)
    requires
        x.wf(),
    ensures
        F::field_valid(),
        F::zero_spec().wf(),
        x.mul_spec(F::zero_spec()) == F::zero_spec(),
        F::zero_spec().mul_spec(x) == F::zero_spec(),
        x.add_spec(F::zero_spec()) == x,
        F::zero_spec().add_spec(x) == x,
{
    lemma_zero_facts(x);
}

} // verus!
