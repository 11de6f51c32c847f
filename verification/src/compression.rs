//! Transmission compression: a normalized descriptor never serializes to more
//! bytes than the transform word it was reduced from.
use vstd::arithmetic::power::{lemma_pow_adds, lemma_pow_positive, pow};
use vstd::prelude::*;

use crate::bytes::leb128;
use crate::descriptor::{
    descriptor_bytes, extend_record, extend_records, grouping_record, header_bytes, initial_state,
    key_position, keys_unique, lemma_key_position, lemma_merge_keeps, merge_spec, mobius_record,
    op_bytes, op_wf, ops_bytes, puncture_records, run_spec, step_spec, twist_record,
    twist_records, twists_admissible, word_bytes, CanonicalDescriptor, OpView, TransformWord,
    WordState, TAG_FOLD, TAG_INTERLEAVE, TAG_PUNCTURE,
};
use crate::mobius::{identity_spec, normalized_spec, MobiusMap};
use crate::domain::distinct;
use crate::field::Field;
use crate::twist::Twist;

verus! {

/// `Σ_{i < m} f(s[i])`.
pub open spec fn seq_sum<A>(s: Seq<A>, f: spec_fn(A) -> nat, m: int) -> nat
    decreases m,
{
    if m <= 0 {
        0
    } else {
        seq_sum(s, f, m - 1) + f(s[m - 1])
    }
}

/// The sum over a prefix reads only that prefix.
proof fn lemma_sum_prefix<A>(a: Seq<A>, b: Seq<A>, f: spec_fn(A) -> nat, m: int)
    requires
        0 <= m <= a.len(),
        m <= b.len(),
        forall|i: int| 0 <= i < m ==> a[i] == b[i],
    ensures
        seq_sum(a, f, m) == seq_sum(b, f, m),
    decreases m,
{
    if m > 0 {
        lemma_sum_prefix(a, b, f, m - 1);
    }
}

proof fn lemma_sum_push<A>(s: Seq<A>, x: A, f: spec_fn(A) -> nat)
    ensures
        seq_sum(s.push(x), f, s.len() + 1int) == seq_sum(s, f, s.len() as int) + f(x),
{
    lemma_sum_prefix(s.push(x), s, f, s.len() as int);
}

/// Removing an element removes its term.
proof fn lemma_sum_remove<A>(s: Seq<A>, p: int, f: spec_fn(A) -> nat, m: int)
    requires
        0 <= p < s.len(),
        p < m <= s.len(),
    ensures
        seq_sum(s.remove(p), f, m - 1) + f(s[p]) == seq_sum(s, f, m),
    decreases m,
{
    if m - 1 > p {
        lemma_sum_remove(s, p, f, m - 1);
        assert(s.remove(p)[m - 2] == s[m - 1]);
    } else {
        lemma_sum_prefix(s.remove(p), s, f, p);
    }
}

/// Replacing an element replaces its term.
proof fn lemma_sum_update<A>(s: Seq<A>, p: int, x: A, f: spec_fn(A) -> nat, m: int)
    requires
        0 <= p < m <= s.len(),
    ensures
        seq_sum(s.update(p, x), f, m) + f(s[p]) == seq_sum(s, f, m) + f(x),
    decreases m,
{
    if m - 1 > p {
        lemma_sum_update(s, p, x, f, m - 1);
    } else {
        lemma_sum_prefix(s.update(p, x), s, f, p);
    }
}

/// Sequences without repeats holding the same elements have the same sum.
proof fn lemma_sum_permutation<A>(a: Seq<A>, b: Seq<A>, f: spec_fn(A) -> nat)
    requires
        distinct(a),
        distinct(b),
        a.len() == b.len(),
        forall|x: A| #[trigger] a.contains(x) == b.contains(x),
    ensures
        seq_sum(a, f, a.len() as int) == seq_sum(b, f, b.len() as int),
    decreases a.len(),
{
    if a.len() > 0 {
        let x = a.last();
        assert(a.contains(x)) by {
            assert(a[a.len() - 1] == x);
        }
        let j = choose|j: int| 0 <= j < b.len() && b[j] == x;
        let a2 = a.drop_last();
        let b2 = b.remove(j);
        assert forall|y: A| #[trigger] a2.contains(y) == b2.contains(y) by {
            if a2.contains(y) {
                let i = choose|i: int| 0 <= i < a2.len() && a2[i] == y;
                assert(a[i] == y);
                assert(y != x) by {
                    assert(a[i] != a[a.len() - 1]);
                }
                assert(a.contains(y));
                assert(b.contains(y));
                let t = choose|t: int| 0 <= t < b.len() && b[t] == y;
                assert(t != j);
                if t < j {
                    assert(b2[t] == y);
                } else {
                    assert(b2[t - 1] == y);
                }
            }
            if b2.contains(y) {
                let t = choose|t: int| 0 <= t < b2.len() && b2[t] == y;
                let u = if t < j { t } else { t + 1 };
                assert(b[u] == y);
                assert(u != j);
                assert(y != x) by {
                    assert(b[u] != b[j]);
                }
                assert(a.contains(y));
                let i = choose|i: int| 0 <= i < a.len() && a[i] == y;
                assert(i != a.len() - 1);
                assert(a2[i] == y);
            }
        }
        assert(distinct(b2)) by {
            assert forall|p: int, q: int| 0 <= p < q < b2.len() implies b2[p] != b2[q] by {
                let pp = if p < j { p } else { p + 1 };
                let qq = if q < j { q } else { q + 1 };
                assert(b2[p] == b[pp] && b2[q] == b[qq]);
            }
        }
        lemma_sum_permutation(a2, b2, f);
        lemma_sum_remove(b, j, f, b.len() as int);
        lemma_sum_prefix(a, a2, f, a2.len() as int);
    }
}

/// `128^exponent`.
pub open spec fn pow128(exponent: nat) -> int {
    pow(128, exponent)
}

/// A value below `128^L` (with `L >= 1`) takes at most `L` LEB128 bytes.
proof fn lemma_leb128_short(value: nat, length: nat)
    requires
        length >= 1,
        value < pow128(length),
    ensures
        leb128(value).len() <= length,
    decreases value,
{
    if value >= 128 {
        assert(length >= 2) by {
            if length == 1 {
                vstd::arithmetic::power::lemma_pow1(128);
            }
        }
        vstd::arithmetic::power::lemma_pow_adds(128, 1, (length - 1) as nat);
        vstd::arithmetic::power::lemma_pow1(128);
        assert(value / 128 < pow128((length - 1) as nat)) by (nonlinear_arith)
            requires
                value < 128 * pow128((length - 1) as nat),
                value >= 0,
        ;
        lemma_leb128_short(value / 128, (length - 1) as nat);
    }
}

/// Every value lies below `128^(its LEB128 length)`.
proof fn lemma_leb128_bound(value: nat)
    ensures
        leb128(value).len() >= 1,
        value < pow128(leb128(value).len()),
    decreases value,
{
    if value < 128 {
        vstd::arithmetic::power::lemma_pow1(128);
    } else {
        lemma_leb128_bound(value / 128);
        let l = leb128(value / 128).len();
        vstd::arithmetic::power::lemma_pow_adds(128, 1, l);
        vstd::arithmetic::power::lemma_pow1(128);
        assert(value < 128 * pow128(l)) by (nonlinear_arith)
            requires
                value / 128 < pow128(l),
                value >= 0,
        ;
    }
}

/// The LEB128 length of a product is at most the sum of the lengths.
proof fn lemma_leb128_product(a: nat, b: nat)
    ensures
        leb128(a * b).len() <= leb128(a).len() + leb128(b).len(),
{
    lemma_leb128_bound(a);
    lemma_leb128_bound(b);
    let (la, lb) = (leb128(a).len(), leb128(b).len());
    lemma_pow_adds(128, la, lb);
    lemma_pow_positive(128, la);
    lemma_pow_positive(128, lb);
    assert(a * b < pow128(la) * pow128(lb)) by (nonlinear_arith)
        requires
            a < pow128(la),
            b < pow128(lb),
            a >= 0,
            b >= 0,
    ;
    lemma_leb128_short(a * b, la + lb);
}

/// The total length of the first `m` twist records.
proof fn lemma_twist_records_len<F: Field>(twists: Seq<Twist<F>>, m: int)
    requires
        0 <= m <= twists.len(),
    ensures
        twist_records(twists, m).len() == seq_sum(twists, |t: Twist<F>| twist_record(t).len(), m),
    decreases m,
{
    if m > 0 {
        lemma_twist_records_len(twists, m - 1);
    }
}

/// The total length of the first `m` puncture records.
proof fn lemma_puncture_records_len(punctures: Seq<usize>, m: int)
    requires
        0 <= m <= punctures.len(),
    ensures
        puncture_records(punctures, m).len() == seq_sum(
            punctures,
            |v: usize| (seq![TAG_PUNCTURE] + leb128(v as nat)).len(),
            m,
        ),
    decreases m,
{
    if m > 0 {
        lemma_puncture_records_len(punctures, m - 1);
    }
}

/// The total length of the first `m` extension records.
proof fn lemma_extend_records_len<F: Field>(extends: Seq<(Seq<F>, F)>, m: int)
    requires
        0 <= m <= extends.len(),
    ensures
        extend_records(extends, m).len() == seq_sum(
            extends,
            |c: (Seq<F>, F)| extend_record(c.0, c.1).len(),
            m,
        ),
    decreases m,
{
    if m > 0 {
        lemma_extend_records_len(extends, m - 1);
    }
}

/// A Möbius record is empty or a tag plus three coefficients.
proof fn lemma_mobius_record_len<F: Field>(m: MobiusMap<F>)
    ensures
        mobius_record(m).len() <= 1 + 3 * F::byte_width(),
{
    let n = normalized_spec(m);
    F::lemma_byte_width(n.a);
    F::lemma_byte_width(n.b);
    F::lemma_byte_width(n.c);
    F::lemma_byte_width(n.d);
}

/// A grouping record for `value * factor` is no longer than the record for
/// `value` plus a record carrying `factor`.
proof fn lemma_grouping_product(tag: u8, value: usize, factor: usize)
    requires
        value * factor <= usize::MAX,
    ensures
        grouping_record(tag, (value * factor) as usize).len() <= grouping_record(tag, value).len()
            + 1 + leb128(factor as nat).len(),
        value > 1 || factor == 1 ==> grouping_record(tag, (value * factor) as usize).len()
            < grouping_record(tag, value).len() + 1 + leb128(factor as nat).len(),
{
    let product = (value * factor) as usize;
    if product > 1 {
        if value <= 1 {
            assert(value == 1) by (nonlinear_arith)
                requires
                    value * factor > 1,
                    value <= 1,
            ;
            assert(product == factor);
        } else {
            lemma_leb128_product(value as nat, factor as nat);
        }
    }
}

/// The bytes a reduced state contributes to its descriptor, header aside.
pub open spec fn state_cost<F: Field>(s: WordState<F>) -> nat {
    twist_records(s.twists, s.twists.len() as int).len() + mobius_record(normalized_spec(s.mobius)).len()
        + puncture_records(s.punctures, s.punctures.len() as int).len() + extend_records(
        s.extends,
        s.extends.len() as int,
    ).len() + grouping_record(TAG_FOLD, s.fold).len() + grouping_record(TAG_INTERLEAVE, s.interleave).len()
}

/// The generator is absorbed by the state's closure laws: a colliding twist
/// pair, any Möbius map (four coefficients net to three), a repeated or
/// extension-annihilating puncture, or a fold or interleave that multiplies
/// an earlier one or is trivial.
pub open spec fn absorbs<F: Field>(s: WordState<F>, op: OpView<F>, n: usize) -> bool {
    match op {
        OpView::Twist(t) => key_position(s.twists, t.offset, t.hook, 0) < s.twists.len(),
        OpView::Mobius(_) => true,
        OpView::Puncture(index) => index >= n || s.punctures.contains(index),
        OpView::Extend(_, _) => false,
        OpView::Fold(m) => s.fold > 1 || m == 1,
        OpView::Interleave(order) => s.interleave > 1 || order == 1,
    }
}

/// Some generator among the first `m` is absorbed by the state before it.
pub open spec fn word_absorbs<F: Field>(ops: Seq<OpView<F>>, k: usize, n: usize, m: int) -> bool
    decreases m,
{
    if m <= 0 {
        false
    } else {
        word_absorbs(ops, k, n, m - 1) || match run_spec(ops, k, n, m - 1) {
            Ok(s) => absorbs(s, ops[m - 1], n),
            Err(_) => false,
        }
    }
}

/// One reduction step grows the state by at most the generator's record,
/// and by strictly less when the step absorbs the generator.
proof fn lemma_step_cost<F: Field>(s: WordState<F>, op: OpView<F>, k: usize, n: usize)
    requires
        k <= n,
        twists_admissible(s.twists, k, n),
        keys_unique(s.twists),
        distinct(s.punctures),
        op_wf(op),
        step_spec(s, op, k, n) is Ok,
    ensures
        twists_admissible(step_spec(s, op, k, n)->Ok_0.twists, k, n),
        keys_unique(step_spec(s, op, k, n)->Ok_0.twists),
        distinct(step_spec(s, op, k, n)->Ok_0.punctures),
        state_cost(step_spec(s, op, k, n)->Ok_0) <= state_cost(s) + op_bytes(op).len(),
        absorbs(s, op, n) ==> state_cost(step_spec(s, op, k, n)->Ok_0) < state_cost(s) + op_bytes(
            op,
        ).len(),
{
    let next = step_spec(s, op, k, n)->Ok_0;
    match op {
        OpView::Twist(t) => {
            lemma_merge_keeps(s.twists, t, k, n);
            let f = |x: Twist<F>| twist_record(x).len();
            lemma_twist_records_len(s.twists, s.twists.len() as int);
            lemma_twist_records_len(next.twists, next.twists.len() as int);
            lemma_key_position(s.twists, t.offset, t.hook, 0);
            let position = key_position(s.twists, t.offset, t.hook, 0);
            if position < s.twists.len() {
                let combined = s.twists[position].coefficient.add_spec(t.coefficient);
                if combined == F::zero_spec() {
                    lemma_sum_remove(s.twists, position, f, s.twists.len() as int);
                } else {
                    let replaced = Twist { offset: t.offset, hook: t.hook, coefficient: combined };
                    lemma_sum_update(s.twists, position, replaced, f, s.twists.len() as int);
                    F::lemma_byte_width(combined);
                    F::lemma_byte_width(s.twists[position].coefficient);
                }
            } else {
                lemma_sum_push(s.twists, t, f);
                assert(next.twists == s.twists.push(t));
            }
        },
        OpView::Mobius(m) => {
            lemma_mobius_record_len(normalized_spec(next.mobius));
            F::lemma_byte_width(m.a);
            F::lemma_byte_width(m.b);
            F::lemma_byte_width(m.c);
            F::lemma_byte_width(m.d);
        },
        OpView::Puncture(index) => {
            if index < n {
                if !s.punctures.contains(index) {
                    let g = |v: usize| (seq![TAG_PUNCTURE] + leb128(v as nat)).len();
                    lemma_puncture_records_len(s.punctures, s.punctures.len() as int);
                    lemma_puncture_records_len(next.punctures, next.punctures.len() as int);
                    lemma_sum_push(s.punctures, index, g);
                    assert forall|i: int, j: int|
                        0 <= i < j < next.punctures.len() implies next.punctures[i]
                        != next.punctures[j] by {
                        if j == s.punctures.len() {
                            assert(s.punctures[i] == next.punctures[i]);
                        }
                    }
                }
            } else {
                let h = |c: (Seq<F>, F)| extend_record(c.0, c.1).len();
                lemma_extend_records_len(s.extends, s.extends.len() as int);
                lemma_extend_records_len(next.extends, next.extends.len() as int);
                lemma_sum_remove(s.extends, index - n, h, s.extends.len() as int);
            }
        },
        OpView::Extend(functional, multiplier) => {
            let h = |c: (Seq<F>, F)| extend_record(c.0, c.1).len();
            lemma_extend_records_len(s.extends, s.extends.len() as int);
            lemma_extend_records_len(next.extends, next.extends.len() as int);
            lemma_sum_push(s.extends, (functional, multiplier), h);
        },
        OpView::Fold(m) => {
            lemma_grouping_product(TAG_FOLD, s.fold, m);
        },
        OpView::Interleave(order) => {
            lemma_grouping_product(TAG_INTERLEAVE, s.interleave, order);
        },
    }
}

/// The reduction of a prefix costs no more than the prefix's records.
pub(crate) proof fn lemma_run_cost<F: Field>(ops: Seq<OpView<F>>, k: usize, n: usize, m: int)
    requires
        F::field_valid(),
        k <= n,
        0 <= m <= ops.len(),
        forall|i: int| 0 <= i < ops.len() ==> op_wf(#[trigger] ops[i]),
        run_spec(ops, k, n, m) is Ok,
    ensures
        twists_admissible(run_spec(ops, k, n, m)->Ok_0.twists, k, n),
        keys_unique(run_spec(ops, k, n, m)->Ok_0.twists),
        distinct(run_spec(ops, k, n, m)->Ok_0.punctures),
        state_cost(run_spec(ops, k, n, m)->Ok_0) <= ops_bytes(ops, m).len(),
        word_absorbs(ops, k, n, m) ==> state_cost(run_spec(ops, k, n, m)->Ok_0) < ops_bytes(ops, m).len(),
    decreases m,
{
    if m <= 0 {
        F::lemma_unit();
        F::lemma_closure(F::one_spec(), F::one_spec());
        let id = identity_spec::<F>();
        assert(normalized_spec(id) == id);
        assert(mobius_record(normalized_spec(id)).len() == 0);
    } else {
        lemma_run_cost(ops, k, n, m - 1);
        lemma_step_cost(run_spec(ops, k, n, m - 1)->Ok_0, ops[m - 1], k, n);
    }
}

/// The descriptor of a reduced word serializes to its header followed by the
/// state's records, and the state costs no more than the word's records
/// (strictly less when the word absorbs a generator).
proof fn lemma_descriptor_cost<F: Field>(word: TransformWord<F>, s: WordState<F>, d: CanonicalDescriptor<F>)
    requires
        word.wf(),
        word.run() == Ok::<WordState<F>, crate::error::Error>(s),
        word.reduces_to(s, d),
    ensures
        descriptor_bytes(d).len() == header_bytes(
            word.base_view().id_view(),
            word.base_view().dimension_view(),
        ).len() + state_cost(s),
        state_cost(s) <= ops_bytes(word.ops_view(), word.ops_view().len() as int).len(),
        word_absorbs(
            word.ops_view(),
            word.base_view().dimension_view(),
            word.base_view().points_view().len() as usize,
            word.ops_view().len() as int,
        ) ==> state_cost(s) < ops_bytes(word.ops_view(), word.ops_view().len() as int).len(),
{
    let k = word.base_view().dimension_view();
    let n = word.base_view().points_view().len() as usize;
    let ops = word.ops_view();
    lemma_run_cost(ops, k, n, ops.len() as int);
    // The descriptor holds the state's twists and punctures in sorted order.
    let f = |x: Twist<F>| twist_record(x).len();
    let g = |v: usize| (seq![TAG_PUNCTURE] + leb128(v as nat)).len();
    let dt = d.twists_view();
    let dp = d.punctures_view();
    assert(distinct(dt)) by {
        assert forall|i: int, j: int| 0 <= i < j < dt.len() implies dt[i] != dt[j] by {
            assert(crate::sorting::key_lt(dt[i], dt[j]));
        }
    }
    assert(distinct(s.twists)) by {
        assert forall|i: int, j: int| 0 <= i < j < s.twists.len() implies s.twists[i]
            != s.twists[j] by {
            assert(!(s.twists[i].offset == s.twists[j].offset && s.twists[i].hook
                == s.twists[j].hook));
        }
    }
    assert(distinct(dp)) by {
        assert forall|i: int, j: int| 0 <= i < j < dp.len() implies dp[i] != dp[j] by {
            assert(dp[i] < dp[j]);
        }
    }
    lemma_sum_permutation(dt, s.twists, f);
    lemma_sum_permutation(dp, s.punctures, g);
    lemma_twist_records_len(dt, dt.len() as int);
    lemma_twist_records_len(s.twists, s.twists.len() as int);
    lemma_puncture_records_len(dp, dp.len() as int);
    lemma_puncture_records_len(s.punctures, s.punctures.len() as int);
}

/// Transmission compression: the canonical descriptor a word reduces to
/// never serializes to more bytes than the word itself.
pub proof fn law_descriptor_never_longer<F: Field>(
    word: TransformWord<F>,
    s: WordState<F>,
    d: CanonicalDescriptor<F>,
)
    requires
        word.wf(),
        word.run() == Ok::<WordState<F>, crate::error::Error>(s),
        word.reduces_to(s, d),
    ensures
        descriptor_bytes(d).len() <= word_bytes(
            word.base_view().id_view(),
            word.base_view().dimension_view(),
            word.ops_view(),
        ).len(),
{
    lemma_descriptor_cost(word, s, d);
}

/// Strict compression: a word one of whose generators a closure law absorbs
/// (colliding twists, any Möbius map, a repeated or extension-annihilating
/// puncture, a compounded or trivial fold or interleave) serializes to
/// strictly more bytes than its canonical descriptor.
pub proof fn law_absorbing_word_strictly_contracts<F: Field>(
    word: TransformWord<F>,
    s: WordState<F>,
    d: CanonicalDescriptor<F>,
)
    requires
        word.wf(),
        word.run() == Ok::<WordState<F>, crate::error::Error>(s),
        word.reduces_to(s, d),
        word_absorbs(
            word.ops_view(),
            word.base_view().dimension_view(),
            word.base_view().points_view().len() as usize,
            word.ops_view().len() as int,
        ),
    ensures
        descriptor_bytes(d).len() < word_bytes(
            word.base_view().id_view(),
            word.base_view().dimension_view(),
            word.ops_view(),
        ).len(),
{
    lemma_descriptor_cost(word, s, d);
}

} // verus!
