//! Lossless reduction: the net Möbius map of a reduced word moves points as
//! its Möbius generators do in turn (L1), and its merged twist program adds
//! up to exactly the twist terms of every twist generator (L3).
use vstd::prelude::*;

use crate::compression::lemma_run_cost;
use crate::descriptor::{
    key_position, lemma_key_position, merge_spec, op_wf, run_spec, twisted_value, CanonicalDescriptor,
    OpView, TransformWord, WordState,
};
use crate::domain::distinct;
use crate::field::{Field, FieldAxioms};
use crate::mobius::{apply_spec, compose_spec, identity_spec};
use crate::polynomial::{eval_seq, seq_wf};
use crate::twist::Twist;

verus! {

/// The twist term `η · f_h · y^{|f| − 1 + t}` of one twist.
pub open spec fn twist_term<F: Field>(message: Seq<F>, y: F, t: Twist<F>) -> F {
    t.coefficient.mul_spec(message[t.hook as int]).mul_spec(
        y.pow_spec((message.len() - 1 + t.offset) as nat),
    )
}

/// The twist generators among the first `m` generators of a word, in order.
pub open spec fn word_twists<F: Field>(ops: Seq<OpView<F>>, m: int) -> Seq<Twist<F>>
    decreases m,
{
    if m <= 0 {
        Seq::empty()
    } else {
        match ops[m - 1] {
            OpView::Twist(t) => word_twists(ops, m - 1).push(t),
            _ => word_twists(ops, m - 1),
        }
    }
}

/// Every twist reads a message coefficient and carries a canonical
/// coefficient.
pub open spec fn terms_readable<F: Field>(message: Seq<F>, twists: Seq<Twist<F>>) -> bool {
    forall|i: int|
        0 <= i < twists.len() ==> (#[trigger] twists[i]).hook < message.len()
            && twists[i].coefficient.wf()
}

proof fn lemma_term_wf<F: FieldAxioms>(message: Seq<F>, y: F, t: Twist<F>)
    requires
        F::field_valid(),
        seq_wf(message),
        y.wf(),
        t.hook < message.len(),
        t.coefficient.wf(),
    ensures
        twist_term(message, y, t).wf(),
{
    F::lemma_closure(t.coefficient, message[t.hook as int]);
    let p = y.pow_spec((message.len() - 1 + t.offset) as nat);
    F::lemma_pow_wf(y, (message.len() - 1 + t.offset) as nat);
    F::lemma_closure(t.coefficient.mul_spec(message[t.hook as int]), p);
}

proof fn lemma_value_wf<F: FieldAxioms>(message: Seq<F>, y: F, twists: Seq<Twist<F>>, m: int)
    requires
        F::field_valid(),
        seq_wf(message),
        y.wf(),
        0 <= m <= twists.len(),
        terms_readable(message, twists),
    ensures
        twisted_value(message, y, twists, m).wf(),
    decreases m,
{
    if m <= 0 {
        crate::laws::lemma_eval_seq_wf(message, y);
    } else {
        lemma_value_wf(message, y, twists, m - 1);
        lemma_term_wf(message, y, twists[m - 1]);
        F::lemma_closure(twisted_value(message, y, twists, m - 1), twist_term(message, y, twists[m - 1]));
    }
}

/// The value over a prefix reads only that prefix.
proof fn lemma_value_prefix<F: Field>(message: Seq<F>, y: F, a: Seq<Twist<F>>, b: Seq<Twist<F>>, m: int)
    requires
        0 <= m <= a.len(),
        m <= b.len(),
        forall|i: int| 0 <= i < m ==> a[i] == b[i],
    ensures
        twisted_value(message, y, a, m) == twisted_value(message, y, b, m),
    decreases m,
{
    if m > 0 {
        lemma_value_prefix(message, y, a, b, m - 1);
    }
}

/// `(p + e) + x = (p + x) + e`.
proof fn lemma_swap<F: FieldAxioms>(p: F, e: F, x: F)
    requires
        p.wf(),
        e.wf(),
        x.wf(),
    ensures
        p.add_spec(e).add_spec(x) == p.add_spec(x).add_spec(e),
{
    F::lemma_ring(p, e, x);
    F::lemma_ring(e, x, p);
    F::lemma_ring(p, x, e);
}

/// Removing a twist removes its term.
proof fn lemma_value_remove<F: FieldAxioms>(message: Seq<F>, y: F, twists: Seq<Twist<F>>, p: int, m: int)
    requires
        F::field_valid(),
        seq_wf(message),
        y.wf(),
        terms_readable(message, twists),
        0 <= p < m <= twists.len(),
    ensures
        twisted_value(message, y, twists.remove(p), m - 1).add_spec(twist_term(message, y, twists[p]))
            == twisted_value(message, y, twists, m),
    decreases m,
{
    let r = twists.remove(p);
    assert(terms_readable(message, r)) by {
        assert forall|i: int| 0 <= i < r.len() implies (#[trigger] r[i]).hook < message.len()
            && r[i].coefficient.wf() by {
            if i < p {
                assert(r[i] == twists[i]);
            } else {
                assert(r[i] == twists[i + 1]);
            }
        }
    }
    if m - 1 > p {
        lemma_value_remove(message, y, twists, p, m - 1);
        assert(r[m - 2] == twists[m - 1]);
        lemma_value_wf(message, y, r, m - 2);
        lemma_term_wf(message, y, twists[p]);
        lemma_term_wf(message, y, twists[m - 1]);
        lemma_swap(
            twisted_value(message, y, r, m - 2),
            twist_term(message, y, twists[m - 1]),
            twist_term(message, y, twists[p]),
        );
    } else {
        lemma_value_prefix(message, y, r, twists, p);
    }
}

/// Replacing a twist replaces its term.
proof fn lemma_value_update<F: FieldAxioms>(
    message: Seq<F>,
    y: F,
    twists: Seq<Twist<F>>,
    p: int,
    t: Twist<F>,
    m: int,
)
    requires
        F::field_valid(),
        seq_wf(message),
        y.wf(),
        terms_readable(message, twists),
        t.hook < message.len(),
        t.coefficient.wf(),
        0 <= p < m <= twists.len(),
    ensures
        twisted_value(message, y, twists.update(p, t), m).add_spec(twist_term(message, y, twists[p]))
            == twisted_value(message, y, twists, m).add_spec(twist_term(message, y, t)),
    decreases m,
{
    let u = twists.update(p, t);
    assert(terms_readable(message, u));
    lemma_term_wf(message, y, twists[p]);
    lemma_term_wf(message, y, t);
    if m - 1 > p {
        lemma_value_update(message, y, twists, p, t, m - 1);
        lemma_value_wf(message, y, u, m - 1);
        lemma_value_wf(message, y, twists, m - 1);
        lemma_term_wf(message, y, twists[m - 1]);
        lemma_swap(
            twisted_value(message, y, u, m - 1),
            twist_term(message, y, twists[m - 1]),
            twist_term(message, y, twists[p]),
        );
        lemma_swap(
            twisted_value(message, y, twists, m - 1),
            twist_term(message, y, twists[m - 1]),
            twist_term(message, y, t),
        );
    } else {
        lemma_value_prefix(message, y, u, twists, p);
        lemma_value_wf(message, y, twists, p);
        lemma_swap(
            twisted_value(message, y, twists, p),
            twist_term(message, y, t),
            twist_term(message, y, twists[p]),
        );
    }
}

/// Twist lists without repeats holding the same twists add up alike.
proof fn lemma_value_permutation<F: FieldAxioms>(message: Seq<F>, y: F, a: Seq<Twist<F>>, b: Seq<Twist<F>>)
    requires
        F::field_valid(),
        seq_wf(message),
        y.wf(),
        terms_readable(message, a),
        terms_readable(message, b),
        distinct(a),
        distinct(b),
        a.len() == b.len(),
        forall|x: Twist<F>| #[trigger] a.contains(x) == b.contains(x),
    ensures
        twisted_value(message, y, a, a.len() as int) == twisted_value(message, y, b, b.len() as int),
    decreases a.len(),
{
    if a.len() > 0 {
        let x = a.last();
        assert(a.contains(x)) by {
            assert(a[a.len() - 1] == x);
        }
        let j = choose|j: int| 0 <= j < b.len() && b[j] == x;
        let a2 = a.drop_last();
        let b2 = b.remove(j);
        assert forall|z: Twist<F>| #[trigger] a2.contains(z) == b2.contains(z) by {
            if a2.contains(z) {
                let i = choose|i: int| 0 <= i < a2.len() && a2[i] == z;
                assert(a[i] == z);
                assert(z != x) by {
                    assert(a[i] != a[a.len() - 1]);
                }
                assert(a.contains(z));
                assert(b.contains(z));
                let t = choose|t: int| 0 <= t < b.len() && b[t] == z;
                assert(t != j);
                if t < j {
                    assert(b2[t] == z);
                } else {
                    assert(b2[t - 1] == z);
                }
            }
            if b2.contains(z) {
                let t = choose|t: int| 0 <= t < b2.len() && b2[t] == z;
                let u = if t < j {
                    t
                } else {
                    t + 1
                };
                assert(b[u] == z);
                assert(u != j);
                assert(z != x) by {
                    assert(b[u] != b[j]);
                }
                assert(a.contains(z));
                let i = choose|i: int| 0 <= i < a.len() && a[i] == z;
                assert(i != a.len() - 1);
                assert(a2[i] == z);
            }
        }
        assert(distinct(b2)) by {
            assert forall|p: int, q: int| 0 <= p < q < b2.len() implies b2[p] != b2[q] by {
                let pp = if p < j {
                    p
                } else {
                    p + 1
                };
                let qq = if q < j {
                    q
                } else {
                    q + 1
                };
                assert(b2[p] == b[pp] && b2[q] == b[qq]);
            }
        }
        assert(terms_readable(message, a2)) by {
            assert forall|i: int| 0 <= i < a2.len() implies (#[trigger] a2[i]).hook < message.len()
                && a2[i].coefficient.wf() by {
                assert(a2[i] == a[i]);
            }
        }
        assert(terms_readable(message, b2)) by {
            assert forall|i: int| 0 <= i < b2.len() implies (#[trigger] b2[i]).hook < message.len()
                && b2[i].coefficient.wf() by {
                if i < j {
                    assert(b2[i] == b[i]);
                } else {
                    assert(b2[i] == b[i + 1]);
                }
            }
        }
        lemma_value_permutation(message, y, a2, b2);
        lemma_value_remove(message, y, b, j, b.len() as int);
        lemma_value_prefix(message, y, a, a2, a2.len() as int);
    }
}

/// `(a + b)·h·p = a·h·p + b·h·p`.
proof fn lemma_term_split<F: FieldAxioms>(a: F, b: F, h: F, p: F)
    requires
        a.wf(),
        b.wf(),
        h.wf(),
        p.wf(),
    ensures
        a.add_spec(b).mul_spec(h).mul_spec(p) == a.mul_spec(h).mul_spec(p).add_spec(b.mul_spec(h).mul_spec(p)),
{
    crate::laws::lemma_distribute_right(a, b, h);
    F::lemma_closure(a, h);
    F::lemma_closure(b, h);
    crate::laws::lemma_distribute_right(a.mul_spec(h), b.mul_spec(h), p);
}

/// Merging one twist into a program adds exactly its term (L3).
proof fn lemma_merge_value<F: FieldAxioms>(message: Seq<F>, y: F, twists: Seq<Twist<F>>, t: Twist<F>)
    requires
        F::field_valid(),
        seq_wf(message),
        y.wf(),
        terms_readable(message, twists),
        t.hook < message.len(),
        t.coefficient.wf(),
    ensures
        twisted_value(
            message,
            y,
            merge_spec(twists, t.offset, t.hook, t.coefficient),
            merge_spec(twists, t.offset, t.hook, t.coefficient).len() as int,
        ) == twisted_value(message, y, twists, twists.len() as int).add_spec(twist_term(message, y, t)),
{
    lemma_key_position(twists, t.offset, t.hook, 0);
    let p = key_position(twists, t.offset, t.hook, 0);
    let n = twists.len() as int;
    let merged = merge_spec(twists, t.offset, t.hook, t.coefficient);
    lemma_term_wf(message, y, t);
    lemma_value_wf(message, y, twists, n);
    if p < n {
        let old = twists[p];
        let combined = old.coefficient.add_spec(t.coefficient);
        let replaced = Twist { offset: t.offset, hook: t.hook, coefficient: combined };
        let h = message[t.hook as int];
        let e = y.pow_spec((message.len() - 1 + t.offset) as nat);
        F::lemma_pow_wf(y, (message.len() - 1 + t.offset) as nat);
        F::lemma_closure(old.coefficient, t.coefficient);
        lemma_term_wf(message, y, old);
        lemma_term_split(old.coefficient, t.coefficient, h, e);
        assert(twist_term(message, y, replaced) == twist_term(message, y, old).add_spec(
            twist_term(message, y, t),
        ));
        let (v, o, w) = (
            twisted_value(message, y, twists, n),
            twist_term(message, y, old),
            twist_term(message, y, t),
        );
        if combined == F::zero_spec() {
            lemma_value_remove(message, y, twists, p, n);
            let rv = twisted_value(message, y, twists.remove(p), n - 1);
            assert(terms_readable(message, twists.remove(p))) by {
                assert forall|i: int| 0 <= i < twists.remove(p).len() implies (#[trigger] twists.remove(
                    p,
                )[i]).hook < message.len() && twists.remove(p)[i].coefficient.wf() by {
                    if i < p {
                        assert(twists.remove(p)[i] == twists[i]);
                    } else {
                        assert(twists.remove(p)[i] == twists[i + 1]);
                    }
                }
            }
            lemma_value_wf(message, y, twists.remove(p), n - 1);
            // term(replaced) = 0·h·e = 0
            F::lemma_ring(h, F::zero_spec(), F::zero_spec());
            F::lemma_ring(F::zero_spec(), h, h);
            F::lemma_ring(e, F::zero_spec(), F::zero_spec());
            F::lemma_ring(F::zero_spec(), e, e);
            F::lemma_closure(F::zero_spec(), F::zero_spec());
            assert(o.add_spec(w) == F::zero_spec());
            // v + w = (rv + o) + w = rv + (o + w) = rv + 0 = rv
            F::lemma_ring(rv, o, w);
            F::lemma_ring(rv, F::zero_spec(), F::zero_spec());
        } else {
            lemma_value_update(message, y, twists, p, replaced, n);
            let uv = twisted_value(message, y, twists.update(p, replaced), n);
            assert(terms_readable(message, twists.update(p, replaced)));
            lemma_value_wf(message, y, twists.update(p, replaced), n);
            // uv + o = v + (o + w) = (v + w) + o, so uv = v + w
            F::lemma_ring(v, o, w);
            F::lemma_closure(v, w);
            F::lemma_ring(v, w, o);
            lemma_swap(v, o, w);
            crate::distance::lemma_add_right_cancel(uv, v.add_spec(w), o);
        }
    } else {
        lemma_value_prefix(message, y, merged, twists, n);
    }
}

/// Along a word's reduction the merged program adds up to the twist terms of
/// every twist generator so far.
proof fn lemma_run_value<F: FieldAxioms>(
    ops: Seq<OpView<F>>,
    k: usize,
    n: usize,
    m: int,
    message: Seq<F>,
    y: F,
)
    requires
        F::field_valid(),
        k <= n,
        0 <= m <= ops.len(),
        forall|i: int| 0 <= i < ops.len() ==> op_wf(#[trigger] ops[i]),
        run_spec(ops, k, n, m) is Ok,
        seq_wf(message),
        message.len() == k,
        y.wf(),
    ensures
        terms_readable(message, word_twists(ops, m)),
        twisted_value(
            message,
            y,
            run_spec(ops, k, n, m)->Ok_0.twists,
            run_spec(ops, k, n, m)->Ok_0.twists.len() as int,
        ) == twisted_value(message, y, word_twists(ops, m), word_twists(ops, m).len() as int),
    decreases m,
{
    if m > 0 {
        lemma_run_value(ops, k, n, m - 1, message, y);
        lemma_run_cost(ops, k, n, m - 1);
        let s = run_spec(ops, k, n, m - 1)->Ok_0;
        let wt = word_twists(ops, m - 1);
        assert(terms_readable(message, s.twists)) by {
            assert forall|i: int| 0 <= i < s.twists.len() implies (#[trigger] s.twists[i]).hook
                < message.len() && s.twists[i].coefficient.wf() by {
                assert(s.twists[i].hook < k);
            }
        }
        assert(op_wf(ops[m - 1]));
        match ops[m - 1] {
            OpView::Twist(t) => {
                lemma_merge_value(message, y, s.twists, t);
                lemma_value_prefix(message, y, wt.push(t), wt, wt.len() as int);
                assert(terms_readable(message, wt.push(t))) by {
                    assert forall|i: int| 0 <= i < wt.push(t).len() implies (#[trigger] wt.push(
                        t,
                    )[i]).hook < message.len() && wt.push(t)[i].coefficient.wf() by {
                        if i < wt.len() {
                            assert(wt.push(t)[i] == wt[i]);
                        }
                    }
                }
            },
            _ => {},
        }
    }
}

/// Lossless twist merging (L3): the twisted message polynomial of the
/// descriptor a word reduces to takes, at every point, the value of the
/// message plus the twist terms of all the word's twist generators, however
/// they collided, cancelled or were reordered.
pub proof fn law_twist_merging_is_lossless<F: FieldAxioms>(
    word: TransformWord<F>,
    s: WordState<F>,
    d: CanonicalDescriptor<F>,
    message: Seq<F>,
    y: F,
)
    requires
        word.wf(),
        word.run() == Ok::<WordState<F>, crate::error::Error>(s),
        word.reduces_to(s, d),
        seq_wf(message),
        message.len() == word.base_view().dimension_view(),
        y.wf(),
    ensures
        twisted_value(message, y, d.twists_view(), d.twists_view().len() as int) == twisted_value(
            message,
            y,
            word_twists(word.ops_view(), word.ops_view().len() as int),
            word_twists(word.ops_view(), word.ops_view().len() as int).len() as int,
        ),
{
    let k = word.base_view().dimension_view();
    let n = word.base_view().points_view().len() as usize;
    let ops = word.ops_view();
    lemma_run_value(ops, k, n, ops.len() as int, message, y);
    lemma_run_cost(ops, k, n, ops.len() as int);
    let dt = d.twists_view();
    assert(distinct(dt)) by {
        assert forall|i: int, j: int| 0 <= i < j < dt.len() implies dt[i] != dt[j] by {
            assert(crate::sorting::key_lt(dt[i], dt[j]));
        }
    }
    assert(distinct(s.twists)) by {
        assert forall|i: int, j: int| 0 <= i < j < s.twists.len() implies s.twists[i]
            != s.twists[j] by {
            assert(!(s.twists[i].offset == s.twists[j].offset && s.twists[i].hook
                == s.twists[j].hook));
        }
    }
    assert(terms_readable(message, dt)) by {
        assert forall|i: int| 0 <= i < dt.len() implies (#[trigger] dt[i]).hook < message.len()
            && dt[i].coefficient.wf() by {
            assert(dt[i].hook < k);
        }
    }
    assert(terms_readable(message, s.twists)) by {
        assert forall|i: int| 0 <= i < s.twists.len() implies (#[trigger] s.twists[i]).hook
            < message.len() && s.twists[i].coefficient.wf() by {
            assert(s.twists[i].hook < k);
        }
    }
    lemma_value_permutation(message, y, dt, s.twists);
}

/// `x` carried through the Möbius generators among the first `m`, in word
/// order; `None` once some generator has its pole there.
pub open spec fn word_mobius_apply<F: Field>(ops: Seq<OpView<F>>, m: int, x: F) -> Option<F>
    decreases m,
{
    if m <= 0 {
        Some(x)
    } else {
        match word_mobius_apply(ops, m - 1, x) {
            None => None,
            Some(z) => match ops[m - 1] {
                OpView::Mobius(map) => apply_spec(map, z),
                _ => Some(z),
            },
        }
    }
}

/// Along a word's reduction the running product map moves `x` as the
/// Möbius generators so far do in turn.
proof fn lemma_run_mobius<F: FieldAxioms>(ops: Seq<OpView<F>>, k: usize, n: usize, m: int, x: F)
    requires
        F::is_field(),
        0 <= m <= ops.len(),
        forall|i: int| 0 <= i < ops.len() ==> op_wf(#[trigger] ops[i]),
        run_spec(ops, k, n, m) is Ok,
        x.wf(),
    ensures
        run_spec(ops, k, n, m)->Ok_0.mobius.wf(),
        word_mobius_apply(ops, m, x) is Some ==> apply_spec(run_spec(ops, k, n, m)->Ok_0.mobius, x)
            == word_mobius_apply(ops, m, x),
    decreases m,
{
    F::lemma_field_valid();
    let (z, o) = (F::zero_spec(), F::one_spec());
    F::lemma_closure(z, o);
    if m <= 0 {
        // (1·x + 0)·(0·x + 1)⁻¹ = x
        F::lemma_unit();
        F::lemma_ring(o, x, x);
        F::lemma_ring(x, o, o);
        F::lemma_ring(z, x, x);
        F::lemma_ring(x, z, z);
        F::lemma_ring(o, z, z);
        F::lemma_ring(z, o, o);
        F::lemma_closure(x, x);
        assert(apply_spec(identity_spec::<F>(), x) == Some(x));
    } else {
        lemma_run_mobius(ops, k, n, m - 1, x);
        let s = run_spec(ops, k, n, m - 1)->Ok_0;
        assert(op_wf(ops[m - 1]));
        match ops[m - 1] {
            OpView::Mobius(map) => {
                let c = compose_spec(map, s.mobius);
                F::lemma_closure(map.a, s.mobius.a);
                F::lemma_closure(map.b, s.mobius.c);
                F::lemma_closure(map.a.mul_spec(s.mobius.a), map.b.mul_spec(s.mobius.c));
                F::lemma_closure(map.a, s.mobius.b);
                F::lemma_closure(map.b, s.mobius.d);
                F::lemma_closure(map.a.mul_spec(s.mobius.b), map.b.mul_spec(s.mobius.d));
                F::lemma_closure(map.c, s.mobius.a);
                F::lemma_closure(map.d, s.mobius.c);
                F::lemma_closure(map.c.mul_spec(s.mobius.a), map.d.mul_spec(s.mobius.c));
                F::lemma_closure(map.c, s.mobius.b);
                F::lemma_closure(map.d, s.mobius.d);
                F::lemma_closure(map.c.mul_spec(s.mobius.b), map.d.mul_spec(s.mobius.d));
                assert(c.wf());
                if word_mobius_apply(ops, m, x) is Some {
                    crate::laws::law_mobius_compose_is_composition(map, s.mobius, x);
                }
            },
            _ => {},
        }
    }
}

/// Lossless Möbius composition (L1): wherever the word's Möbius generators,
/// applied in turn, carry a point without meeting a pole, the descriptor's
/// single scale-normalized map carries it to the same place.
pub proof fn law_mobius_composition_is_lossless<F: FieldAxioms>(
    word: TransformWord<F>,
    s: WordState<F>,
    d: CanonicalDescriptor<F>,
    x: F,
)
    requires
        F::is_field(),
        word.wf(),
        word.run() == Ok::<WordState<F>, crate::error::Error>(s),
        word.reduces_to(s, d),
        x.wf(),
        word_mobius_apply(word.ops_view(), word.ops_view().len() as int, x) is Some,
    ensures
        apply_spec(d.mobius_view(), x) == word_mobius_apply(word.ops_view(), word.ops_view().len() as int, x),
{
    let k = word.base_view().dimension_view();
    let n = word.base_view().points_view().len() as usize;
    let ops = word.ops_view();
    lemma_run_mobius(ops, k, n, ops.len() as int, x);
    crate::laws::law_mobius_normalized_is_same_map(s.mobius, x);
}

} // verus!
