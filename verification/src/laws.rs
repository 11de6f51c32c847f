//! Laws that relate several operations of the library: what decoding keeps
//! of what encoding produced, how transforms compose, and the polynomial
//! identities the algorithms rely on.
use vstd::prelude::*;

use crate::code::{
    evaluations, lemma_max_offset, lemma_twists_valid, twist_error, twisted_coefficients, TgrsCode,
};
use crate::decode::{accepted_messages, constraint_sum, grouped, low_part, satisfies_twists_spec, HookTerm};
use crate::field::{Field, FieldAxioms};
use crate::polynomial::{coeff_at, eval_seq, seq_wf, trim};
use crate::twist::Twist;

verus! {

/// Every twist lands strictly above the message (`t >= 1`) and inside the
/// pseudo-dimension, and hooks a message coefficient (`h < k`).
pub open spec fn twists_fit<F: Field>(twists: Seq<Twist<F>>, k: nat, pseudo_dimension: nat) -> bool {
    forall|i: int|
        0 <= i < twists.len() ==> {
            &&& 1 <= (#[trigger] twists[i]).offset
            &&& k - 1 + twists[i].offset < pseudo_dimension
            &&& twists[i].hook < k
        }
}

/// A constraint sum only reads the candidate at the terms' hooks.
proof fn lemma_constraint_sum_reads_hooks<F: Field>(terms: Seq<HookTerm<F>>, a: Seq<F>, b: Seq<F>)
    requires
        forall|i: int| 0 <= i < terms.len() ==> coeff_at(a, (#[trigger] terms[i]).hook as int) == coeff_at(
            b,
            terms[i].hook as int,
        ),
    ensures
        constraint_sum(terms, a) == constraint_sum(terms, b),
    decreases terms.len(),
{
    if terms.len() > 0 {
        let shorter = terms.drop_last();
        assert forall|i: int| 0 <= i < shorter.len() implies coeff_at(a, (#[trigger] shorter[i]).hook as int)
            == coeff_at(b, shorter[i].hook as int) by {
            assert(shorter[i] == terms[i]);
        }
        lemma_constraint_sum_reads_hooks(shorter, a, b);
        assert(terms.last() == terms[terms.len() - 1]);
    }
}

/// Every grouped term comes from a twist, so its hook is below `k`.
proof fn lemma_grouped_hooks<F: Field>(twists: Seq<Twist<F>>, slot: int, m: int, k: nat)
    requires
        0 <= m <= twists.len(),
        forall|i: int| 0 <= i < twists.len() ==> (#[trigger] twists[i]).hook < k,
    ensures
        forall|i: int| 0 <= i < grouped(twists, slot, m).len() ==> (#[trigger] grouped(twists, slot, m)[i]).hook < k,
    decreases m,
{
    if m > 0 {
        lemma_grouped_hooks(twists, slot, m - 1, k);
        let previous = grouped(twists, slot, m - 1);
        assert forall|i: int| 0 <= i < grouped(twists, slot, m).len() implies (#[trigger] grouped(
            twists,
            slot,
            m,
        )[i]).hook < k by {
            if i < previous.len() {
                assert(grouped(twists, slot, m)[i] == previous[i]);
            } else {
                assert(twists[m - 1].hook < k);
            }
        }
    }
}

/// The shape of the twisted coefficients after `m` twists: the message below
/// `k`, and at every twisted degree `k + j` the in-order sum of `η · f_h` over
/// the twists landing there, read off any candidate that agrees with the
/// message below `k`.
proof fn lemma_twisted_shape<F: Field>(
    message: Seq<F>,
    pseudo_dimension: nat,
    twists: Seq<Twist<F>>,
    m: int,
    candidate: Seq<F>,
)
    requires
        0 <= m <= twists.len(),
        message.len() >= 1,
        pseudo_dimension >= message.len(),
        twists_fit(twists, message.len(), pseudo_dimension),
        forall|d: int| 0 <= d < message.len() ==> #[trigger] coeff_at(candidate, d) == message[d],
    ensures
        twisted_coefficients(message, pseudo_dimension, twists, m).len() == pseudo_dimension,
        forall|d: int|
            0 <= d < message.len() ==> #[trigger] twisted_coefficients(message, pseudo_dimension, twists, m)[d]
                == message[d],
        forall|j: int|
            0 <= j < pseudo_dimension - message.len() ==> #[trigger] twisted_coefficients(
                message,
                pseudo_dimension,
                twists,
                m,
            )[message.len() + j] == constraint_sum(grouped(twists, j, m), candidate),
    decreases m,
{
    let k = message.len();
    if m > 0 {
        lemma_twisted_shape(message, pseudo_dimension, twists, m - 1, candidate);
        let previous = twisted_coefficients(message, pseudo_dimension, twists, m - 1);
        let current = twisted_coefficients(message, pseudo_dimension, twists, m);
        let t = twists[m - 1];
        let destination = k - 1 + t.offset;
        assert(1 <= t.offset && destination < pseudo_dimension && t.hook < k);
        assert forall|j: int| 0 <= j < pseudo_dimension - k implies #[trigger] current[k + j] == constraint_sum(
            grouped(twists, j, m),
            candidate,
        ) by {
            let before = grouped(twists, j, m - 1);
            if t.offset - 1 == j {
                let after = grouped(twists, j, m);
                assert(after == before.push(HookTerm { hook: t.hook, coefficient: t.coefficient }));
                assert(after.drop_last() =~= before);
                assert(coeff_at(candidate, t.hook as int) == message[t.hook as int]);
            }
        }
    }
}

/// A validated code's twists fit its dimension and pseudo-dimension.
proof fn lemma_code_twists_fit<F: Field>(code: &TgrsCode<F>)
    requires
        code.wf(),
    ensures
        code.dimension_view() >= 1,
        code.pseudo_dimension_view() >= code.dimension_view(),
        twists_fit(code.twists_view(), code.dimension_view() as nat, code.pseudo_dimension_view() as nat),
{
    let k = code.dimension_view() as nat;
    let n = code.points_view().len();
    let pd = code.pseudo_dimension_view() as nat;
    let twists = code.twists_view();
    let t = twists.len() as int;
    lemma_twists_valid(twists, k as usize, n as usize, 0);
    lemma_max_offset(twists, t);
    assert forall|i: int| 0 <= i < twists.len() implies {
        &&& 1 <= (#[trigger] twists[i]).offset
        &&& k - 1 + twists[i].offset < pd
        &&& twists[i].hook < k
    } by {
        assert(twist_error(twists[i], i as usize, k as usize, n as usize) is None);
    }
}

/// Decoding keeps what encoding produced: the twisted polynomial of a message
/// (the ambient polynomial its codeword evaluates) passes the twist filter,
/// and the filter returns exactly the message, with trailing zeros dropped.
pub proof fn law_tgrs_filter_returns_the_encoded_message<F: Field>(code: &TgrsCode<F>, message: Seq<F>)
    requires
        code.wf(),
        message.len() == code.dimension_view(),
    ensures
        ({
            let k = code.dimension_view() as nat;
            let pd = code.pseudo_dimension_view() as nat;
            let twists = code.twists_view();
            let ambient = twisted_coefficients(message, pd, twists, twists.len() as int);
            &&& code.codeword_spec(message) == evaluations(ambient, code.points_view(), code.multipliers_view())
            &&& satisfies_twists_spec(ambient, k, (pd - k) as nat, twists)
            &&& low_part(ambient, k) == trim(message)
            &&& accepted_messages(seq![ambient], k, (pd - k) as nat, twists, 1) == seq![trim(message)]
        }),
{
    let k = code.dimension_view() as nat;
    let pd = code.pseudo_dimension_view() as nat;
    let twists = code.twists_view();
    let t = twists.len() as int;
    lemma_code_twists_fit(code);
    let ambient = twisted_coefficients(message, pd, twists, t);
    lemma_twisted_shape(message, pd, twists, t, message);
    lemma_twisted_shape(message, pd, twists, t, ambient);
    assert forall|j: int| 0 <= j < pd - k implies #[trigger] coeff_at(ambient, k + j) == constraint_sum(
        grouped(twists, j, twists.len() as int),
        ambient,
    ) by {
        assert(ambient[k + j] == constraint_sum(grouped(twists, j, t), ambient));
    }
    assert(low_part(ambient, k) == trim(message)) by {
        assert(Seq::new(k, |d: int| coeff_at(ambient, d)) =~= message);
    }
    assert(accepted_messages(seq![ambient], k, (pd - k) as nat, twists, 0) == Seq::<Seq<F>>::empty());
    assert(seq![ambient][0] == ambient);
    assert(Seq::<Seq<F>>::empty().push(trim(message)) =~= seq![trim(message)]);
}

/// Soundness of the twist filter: a candidate passes exactly when, at every
/// degree below the pseudo-dimension, it equals the twisted coefficient
/// vector that the encoder builds from the candidate's own low part. So a
/// candidate accepted by the decoder is the ambient polynomial of a TGRS
/// codeword, and every twisted degree is checked.
pub proof fn law_tgrs_filter_accepts_exactly_twisted_polynomials<F: Field>(
    code: &TgrsCode<F>,
    candidate: Seq<F>,
)
    requires
        code.wf(),
    ensures
        ({
            let k = code.dimension_view() as nat;
            let pd = code.pseudo_dimension_view() as nat;
            let twists = code.twists_view();
            let message = Seq::new(k, |d: int| coeff_at(candidate, d));
            let ambient = twisted_coefficients(message, pd, twists, twists.len() as int);
            satisfies_twists_spec(candidate, k, (pd - k) as nat, twists) <==> forall|d: int|
                0 <= d < pd ==> #[trigger] coeff_at(candidate, d) == ambient[d]
        }),
{
    let k = code.dimension_view() as nat;
    let pd = code.pseudo_dimension_view() as nat;
    let twists = code.twists_view();
    let t = twists.len() as int;
    lemma_code_twists_fit(code);
    let message = Seq::new(k, |d: int| coeff_at(candidate, d));
    let ambient = twisted_coefficients(message, pd, twists, t);
    lemma_twisted_shape(message, pd, twists, t, candidate);
    if satisfies_twists_spec(candidate, k, (pd - k) as nat, twists) {
        assert forall|d: int| 0 <= d < pd implies #[trigger] coeff_at(candidate, d) == ambient[d] by {
            if d >= k {
                let j = d - k;
                assert(coeff_at(candidate, k + j) == constraint_sum(grouped(twists, j, t), candidate));
                assert(ambient[k + j] == constraint_sum(grouped(twists, j, t), candidate));
            } else {
                assert(ambient[d] == message[d]);
            }
        }
    }
    if forall|d: int| 0 <= d < pd ==> #[trigger] coeff_at(candidate, d) == ambient[d] {
        assert forall|j: int| 0 <= j < (pd - k) as nat implies #[trigger] coeff_at(candidate, k + j)
            == constraint_sum(grouped(twists, j, twists.len() as int), candidate) by {
            assert(coeff_at(candidate, k + j) == ambient[k + j]);
        }
    }
}

/// Horner evaluation of canonical coefficients at a canonical point is canonical.
pub proof fn lemma_eval_seq_wf<F: Field>(s: Seq<F>, x: F)
    requires
        F::field_valid(),
        seq_wf(s),
        x.wf(),
    ensures
        eval_seq(s, x).wf(),
    decreases s.len(),
{
    F::lemma_closure(x, x);
    if s.len() > 0 {
        lemma_eval_seq_wf(s.drop_first(), x);
        F::lemma_closure(eval_seq(s.drop_first(), x), x);
        F::lemma_closure(eval_seq(s.drop_first(), x).mul_spec(x), s[0]);
    }
}

/// Dividing a scaled value by its nonzero scale gives the value back:
/// `(v · x) · v⁻¹ = x`.
pub proof fn lemma_unscale<F: FieldAxioms>(v: F, x: F)
    requires
        F::is_field(),
        v.wf(),
        x.wf(),
        v != F::zero_spec(),
    ensures
        v.mul_spec(x).mul_spec(v.inverse_spec().unwrap()) == x,
{
    F::lemma_closure(v, x);
    let w = v.inverse_spec().unwrap();
    F::lemma_ring(v, x, w);
    F::lemma_ring(x, v, w);
    F::lemma_inverse(v);
}

/// Normalizing a TGRS codeword by the inverse column multipliers (what the
/// decoder does before the ambient decoder runs) yields the ambient twisted
/// polynomial evaluated at the domain points.
pub proof fn law_tgrs_normalized_codeword_is_ambient<F: FieldAxioms>(code: &TgrsCode<F>, message: Seq<F>)
    requires
        F::is_field(),
        code.wf(),
        seq_wf(message),
        message.len() == code.dimension_view(),
    ensures
        ({
            let twists = code.twists_view();
            let ambient = twisted_coefficients(
                message,
                code.pseudo_dimension_view() as nat,
                twists,
                twists.len() as int,
            );
            forall|i: int|
                0 <= i < code.points_view().len() ==> #[trigger] code.codeword_spec(message)[i].mul_spec(
                    code.multipliers_view()[i].inverse_spec().unwrap(),
                ) == eval_seq(ambient, code.points_view()[i])
        }),
{
    let twists = code.twists_view();
    let pd = code.pseudo_dimension_view() as nat;
    let ambient = twisted_coefficients(message, pd, twists, twists.len() as int);
    lemma_code_twists_fit(code);
    lemma_twisted_wf(message, pd, twists, twists.len() as int);
    assert(crate::validate::base_error(
        code.multipliers_view(),
        code.dimension_view(),
        code.points_view().len() as usize,
    ) is None);
    assert(code.multipliers_view().len() == code.points_view().len());
    crate::validate::lemma_first_zero(code.multipliers_view(), 0);
    assert(crate::validate::first_zero(code.multipliers_view()) == code.multipliers_view().len());
    assert forall|i: int| 0 <= i < code.points_view().len() implies #[trigger] code.codeword_spec(
        message,
    )[i].mul_spec(code.multipliers_view()[i].inverse_spec().unwrap()) == eval_seq(
        ambient,
        code.points_view()[i],
    ) by {
        let v = code.multipliers_view()[i];
        let x = eval_seq(ambient, code.points_view()[i]);
        assert(code.points_view()[i].wf());
        assert(v.wf());
        lemma_eval_seq_wf(ambient, code.points_view()[i]);
        assert(v != F::zero_spec());
        lemma_unscale(v, x);
    }
}

/// The twisted coefficients of a canonical message are canonical.
proof fn lemma_twisted_wf<F: Field>(message: Seq<F>, pseudo_dimension: nat, twists: Seq<Twist<F>>, m: int)
    requires
        F::field_valid(),
        seq_wf(message),
        message.len() >= 1,
        pseudo_dimension >= message.len(),
        crate::code::twists_wf(twists),
        twists_fit(twists, message.len(), pseudo_dimension),
        0 <= m <= twists.len(),
    ensures
        seq_wf(twisted_coefficients(message, pseudo_dimension, twists, m)),
        twisted_coefficients(message, pseudo_dimension, twists, m).len() == pseudo_dimension,
    decreases m,
{
    F::lemma_closure(message[0], message[0]);
    let current = twisted_coefficients(message, pseudo_dimension, twists, m);
    if m == 0 {
        assert forall|i: int| 0 <= i < current.len() implies (#[trigger] current[i]).wf() by {
            if i < message.len() {
                assert(message[i].wf());
            }
        }
    } else {
        lemma_twisted_wf(message, pseudo_dimension, twists, m - 1);
        let previous = twisted_coefficients(message, pseudo_dimension, twists, m - 1);
        let t = twists[m - 1];
        let destination = message.len() - 1 + t.offset;
        assert(t.coefficient.wf());
        assert(message[t.hook as int].wf());
        F::lemma_closure(t.coefficient, message[t.hook as int]);
        F::lemma_closure(previous[destination], t.coefficient.mul_spec(message[t.hook as int]));
        assert forall|i: int| 0 <= i < current.len() implies (#[trigger] current[i]).wf() by {
            if i != destination {
                assert(current[i] == previous[i]);
            }
        }
    }
}

} // verus!

verus! {

/// Dividing each coordinate of `(v_i · f(α_i))_i` by its nonzero multiplier
/// gives back `f(α_i)`.
pub proof fn lemma_normalized_evaluations<F: FieldAxioms>(coefficients: Seq<F>, points: Seq<F>, multipliers: Seq<F>)
    requires
        F::is_field(),
        seq_wf(coefficients),
        seq_wf(points),
        seq_wf(multipliers),
        multipliers.len() == points.len(),
        forall|i: int| 0 <= i < multipliers.len() ==> #[trigger] multipliers[i] != F::zero_spec(),
    ensures
        forall|i: int|
            0 <= i < points.len() ==> #[trigger] evaluations(coefficients, points, multipliers)[i].mul_spec(
                multipliers[i].inverse_spec().unwrap(),
            ) == eval_seq(coefficients, points[i]),
{
    F::lemma_field_valid();
    assert forall|i: int| 0 <= i < points.len() implies #[trigger] evaluations(coefficients, points, multipliers)[i].mul_spec(
        multipliers[i].inverse_spec().unwrap(),
    ) == eval_seq(coefficients, points[i]) by {
        assert(points[i].wf());
        assert(multipliers[i].wf());
        lemma_eval_seq_wf(coefficients, points[i]);
        lemma_unscale(multipliers[i], eval_seq(coefficients, points[i]));
    }
}

/// Normalizing a Möbius-transformed codeword by the inverse column
/// multipliers (the moved-point decoding route) yields the message evaluated
/// at the moved points `φ(α_i)`.
pub proof fn law_mobius_normalized_codeword_is_moved_evaluation<F: FieldAxioms>(
    code: &crate::mobius::MobiusGrsCode<F>,
    message: Seq<F>,
)
    requires
        F::is_field(),
        code.wf(),
        seq_wf(message),
    ensures
        forall|i: int|
            0 <= i < code.points_view().len() ==> #[trigger] code.codeword_spec(message)[i].mul_spec(
                code.multipliers_view()[i].inverse_spec().unwrap(),
            ) == eval_seq(message, code.moved_view()[i]),
{
    assert(crate::validate::base_error(
        code.multipliers_view(),
        code.dimension_view(),
        code.points_view().len() as usize,
    ) is None);
    crate::validate::lemma_first_zero(code.multipliers_view(), 0);
    assert(crate::validate::first_zero(code.multipliers_view()) == code.multipliers_view().len());
    lemma_normalized_evaluations(message, code.moved_view(), code.multipliers_view());
}

/// Normalizing a punctured codeword by the inverse surviving multipliers
/// yields the message evaluated at the surviving points, in order.
pub proof fn law_punctured_normalized_codeword_is_surviving_evaluation<F: FieldAxioms>(
    code: &crate::puncture::PuncturedGrsCode<F>,
    message: Seq<F>,
)
    requires
        F::is_field(),
        code.wf(),
        seq_wf(message),
    ensures
        ({
            let n = code.points_view().len() as int;
            let points = crate::puncture::surviving(code.points_view(), code.punctures_view(), n);
            let multipliers = crate::puncture::surviving(code.multipliers_view(), code.punctures_view(), n);
            &&& code.codeword_spec(message).len() == points.len()
            &&& forall|j: int|
                0 <= j < points.len() ==> #[trigger] code.codeword_spec(message)[j].mul_spec(
                    multipliers[j].inverse_spec().unwrap(),
                ) == eval_seq(message, points[j])
        }),
{
    let n = code.points_view().len() as int;
    crate::validate::lemma_first_zero(code.multipliers_view(), 0);
    assert(crate::validate::first_zero(code.multipliers_view()) == code.multipliers_view().len());
    lemma_surviving_split(message, code.points_view(), code.multipliers_view(), code.punctures_view(), n);
    let points = crate::puncture::surviving(code.points_view(), code.punctures_view(), n);
    let multipliers = crate::puncture::surviving(code.multipliers_view(), code.punctures_view(), n);
    lemma_surviving_keeps(code.points_view(), code.punctures_view(), n);
    lemma_surviving_keeps(code.multipliers_view(), code.punctures_view(), n);
    lemma_normalized_evaluations(message, points, multipliers);
}

/// Surviving evaluations are the evaluations on the surviving points with the
/// surviving multipliers.
proof fn lemma_surviving_split<F: Field>(
    coefficients: Seq<F>,
    points: Seq<F>,
    multipliers: Seq<F>,
    punctures: Seq<usize>,
    m: int,
)
    requires
        0 <= m <= points.len(),
        multipliers.len() == points.len(),
    ensures
        crate::puncture::surviving_evaluations(coefficients, points, multipliers, punctures, m) == evaluations(
            coefficients,
            crate::puncture::surviving(points, punctures, m),
            crate::puncture::surviving(multipliers, punctures, m),
        ),
        crate::puncture::surviving(points, punctures, m).len() == crate::puncture::surviving(
            multipliers,
            punctures,
            m,
        ).len(),
    decreases m,
{
    if m > 0 {
        lemma_surviving_split(coefficients, points, multipliers, punctures, m - 1);
        let p = crate::puncture::surviving(points, punctures, m);
        let v = crate::puncture::surviving(multipliers, punctures, m);
        assert(crate::puncture::surviving_evaluations(coefficients, points, multipliers, punctures, m)
            =~= evaluations(coefficients, p, v));
    }
}

/// Every surviving element is an element of the original sequence, so the
/// survivors of a canonical, nonzero sequence are canonical and nonzero.
proof fn lemma_surviving_keeps<F: Field>(s: Seq<F>, punctures: Seq<usize>, m: int)
    requires
        0 <= m <= s.len(),
    ensures
        forall|j: int|
            0 <= j < crate::puncture::surviving(s, punctures, m).len() ==> exists|i: int|
                0 <= i < m && #[trigger] crate::puncture::surviving(s, punctures, m)[j] == s[i],
        crate::puncture::surviving(s, punctures, m).len() <= m,
        seq_wf(s) ==> seq_wf(crate::puncture::surviving(s, punctures, m)),
        (forall|i: int| 0 <= i < s.len() ==> #[trigger] s[i] != F::zero_spec()) ==> (forall|j: int|
            0 <= j < crate::puncture::surviving(s, punctures, m).len() ==> #[trigger] crate::puncture::surviving(
                s,
                punctures,
                m,
            )[j] != F::zero_spec()),
    decreases m,
{
    if m > 0 {
        lemma_surviving_keeps(s, punctures, m - 1);
        let previous = crate::puncture::surviving(s, punctures, m - 1);
        let current = crate::puncture::surviving(s, punctures, m);
        assert forall|j: int| 0 <= j < current.len() implies exists|i: int|
            0 <= i < m && #[trigger] current[j] == s[i] by {
            if j < previous.len() {
                assert(current[j] == previous[j]);
                let i = choose|i: int| 0 <= i < m - 1 && #[trigger] previous[j] == s[i];
                assert(0 <= i < m && current[j] == s[i]);
            } else {
                assert(current[j] == s[m - 1]);
            }
        }
        if seq_wf(s) {
            assert forall|j: int| 0 <= j < current.len() implies (#[trigger] current[j]).wf() by {
                let i = choose|i: int| 0 <= i < m && #[trigger] current[j] == s[i];
                assert(s[i].wf());
            }
        }
        if forall|i: int| 0 <= i < s.len() ==> #[trigger] s[i] != F::zero_spec() {
            assert forall|j: int| 0 <= j < current.len() implies #[trigger] current[j] != F::zero_spec() by {
                let i = choose|i: int| 0 <= i < m && #[trigger] current[j] == s[i];
                assert(s[i] != F::zero_spec());
            }
        }
    }
}

/// The extended decoder's re-encode check finds no mismatch on the appended
/// coordinates of an encoded message, so it keeps that message whenever the
/// ambient decoder reports it within the radius.
pub proof fn law_extended_filter_keeps_encoded_message<F: Field>(
    code: &crate::extend::ExtendedGrsCode<F>,
    message: Seq<F>,
    distance: usize,
    radius: nat,
)
    requires
        code.wf(),
        message.len() == code.dimension_view(),
        distance <= radius,
    ensures
        ({
            let n = code.points_view().len();
            let functionals = code.functionals_view();
            let extension = code.multipliers_view().subrange(n as int, code.multipliers_view().len() as int);
            let received = code.codeword_spec(message);
            &&& crate::extend::extension_mismatches(
                functionals,
                extension,
                message,
                received,
                n,
                functionals.len() as int,
            ) == 0
            &&& crate::extend::accepted_candidates(
                functionals,
                extension,
                seq![message],
                seq![distance],
                received,
                n,
                radius,
                1,
            ) == seq![message]
        }),
{
    let n = code.points_view().len();
    let functionals = code.functionals_view();
    let k = code.dimension_view() as nat;
    let extension = code.multipliers_view().subrange(n as int, code.multipliers_view().len() as int);
    let received = code.codeword_spec(message);
    crate::extend::lemma_functionals_ok(functionals, k, 0);
    assert(crate::extend::first_bad_functional(functionals, k, 0) == functionals.len());
    lemma_no_mismatches(code, message, functionals.len() as int);
    let candidates = seq![message];
    let distances = seq![distance];
    assert(candidates[0] == message);
    assert(distances[0] == distance);
    assert(crate::extend::extension_mismatches(functionals, extension, candidates[0], received, n, functionals.len() as int) == 0);
    assert(crate::extend::accepted_candidates(functionals, extension, candidates, distances, received, n, radius, 0)
        == Seq::<Seq<F>>::empty());
    assert(Seq::<Seq<F>>::empty().push(message) =~= seq![message]);
}

proof fn lemma_no_mismatches<F: Field>(code: &crate::extend::ExtendedGrsCode<F>, message: Seq<F>, m: int)
    requires
        code.wf(),
        message.len() == code.dimension_view(),
        0 <= m <= code.functionals_view().len(),
        forall|j: int|
            0 <= j < code.functionals_view().len() ==> (#[trigger] code.functionals_view()[j]).len()
                == code.dimension_view(),
    ensures
        crate::extend::extension_mismatches(
            code.functionals_view(),
            code.multipliers_view().subrange(
                code.points_view().len() as int,
                code.multipliers_view().len() as int,
            ),
            message,
            code.codeword_spec(message),
            code.points_view().len(),
            m,
        ) == 0,
    decreases m,
{
    if m > 0 {
        lemma_no_mismatches(code, message, m - 1);
        let n = code.points_view().len();
        let j = m - 1;
        let functional = code.functionals_view()[j];
        assert(Seq::new(functional.len(), |d: int| coeff_at(message, d)) =~= message);
        assert(code.multipliers_view().len() == n + code.functionals_view().len());
        assert(code.codeword_spec(message)[n + j] == crate::extend::extension_values(
            code.functionals_view(),
            code.multipliers_view(),
            n,
            message,
        )[j]);
    }
}

} // verus!

verus! {

/// In a field a product of nonzero elements is nonzero.
pub proof fn lemma_mul_nonzero<F: FieldAxioms>(a: F, b: F)
    requires
        F::is_field(),
        a.wf(),
        b.wf(),
        a != F::zero_spec(),
        b != F::zero_spec(),
    ensures
        a.mul_spec(b) != F::zero_spec(),
{
    F::lemma_field_valid();
    F::lemma_closure(a, b);
    F::lemma_closure(a, a);
    let w = a.inverse_spec().unwrap();
    F::lemma_inverse(a);
    F::lemma_ring(w, a, b);
    F::lemma_ring(a, w, b);
    F::lemma_ring(b, w, a);
    F::lemma_ring(w, b, a);
    if a.mul_spec(b) == F::zero_spec() {
        // b = (w·a)·b = w·(a·b) = w·0 = 0
        assert(w.mul_spec(a) == F::one_spec());
        F::lemma_ring(F::one_spec(), b, b);
        F::lemma_ring(b, F::one_spec(), b);
        assert(false);
    }
}

/// An element times its claimed inverse giving one pins the inverse.
pub proof fn lemma_inverse_unique<F: FieldAxioms>(a: F, b: F)
    requires
        F::is_field(),
        a.wf(),
        b.wf(),
        a.mul_spec(b) == F::one_spec(),
    ensures
        a != F::zero_spec(),
        a.inverse_spec() == Some(b),
{
    F::lemma_field_valid();
    F::lemma_closure(a, b);
    F::lemma_ring(a, b, b);
    F::lemma_ring(b, a, a);
    if a == F::zero_spec() {
        F::lemma_ring(b, F::zero_spec(), b);
        assert(false);
    }
    F::lemma_closure(a, a);
    let w = a.inverse_spec().unwrap();
    F::lemma_inverse(a);
    // w = w·1 = w·(a·b) = (w·a)·b = 1·b = b
    F::lemma_ring(w, a, b);
    F::lemma_ring(a, w, b);
    F::lemma_ring(b, F::one_spec(), b);
    F::lemma_ring(F::one_spec(), b, b);
}

/// `(a·b)⁻¹ = a⁻¹·b⁻¹` for nonzero `a` and `b`.
pub proof fn lemma_inverse_product<F: FieldAxioms>(a: F, b: F)
    requires
        F::is_field(),
        a.wf(),
        b.wf(),
        a != F::zero_spec(),
        b != F::zero_spec(),
    ensures
        a.mul_spec(b).inverse_spec() == Some(a.inverse_spec().unwrap().mul_spec(b.inverse_spec().unwrap())),
{
    F::lemma_field_valid();
    F::lemma_closure(a, b);
    F::lemma_closure(b, a);
    F::lemma_closure(a, a);
    F::lemma_closure(b, b);
    let (u, v) = (a.inverse_spec().unwrap(), b.inverse_spec().unwrap());
    F::lemma_closure(u, v);
    F::lemma_inverse(a);
    F::lemma_inverse(b);
    // (a·b)·(u·v) = a·(b·(u·v)) = a·((b·u)·v) = a·((u·b)·v) = a·(u·(b·v)) = a·u = 1
    F::lemma_ring(a, b, u.mul_spec(v));
    F::lemma_ring(b, u, v);
    F::lemma_ring(u, b, v);
    F::lemma_ring(u, v, v);
    F::lemma_closure(b.mul_spec(u), v);
    F::lemma_closure(u.mul_spec(b), v);
    F::lemma_ring(a, u, u);
    lemma_inverse_unique(a.mul_spec(b), u.mul_spec(v));
}

/// Scaling the numerator and the denominator by the same nonzero `s` keeps
/// the quotient: `(p·s)·(q·s)⁻¹ = p·q⁻¹`.
pub proof fn lemma_fraction_scale<F: FieldAxioms>(p: F, q: F, s: F)
    requires
        F::is_field(),
        p.wf(),
        q.wf(),
        s.wf(),
        q != F::zero_spec(),
        s != F::zero_spec(),
    ensures
        p.mul_spec(s).mul_spec(q.mul_spec(s).inverse_spec().unwrap()) == p.mul_spec(q.inverse_spec().unwrap()),
{
    F::lemma_field_valid();
    lemma_inverse_product(q, s);
    let (u, v) = (q.inverse_spec().unwrap(), s.inverse_spec().unwrap());
    F::lemma_closure(q, q);
    F::lemma_closure(s, s);
    F::lemma_closure(q, s);
    F::lemma_closure(p, s);
    F::lemma_closure(u, v);
    F::lemma_closure(p, u);
    F::lemma_inverse(s);
    // (p·s)·(u·v) = p·(s·(u·v)) = p·((s·u)·v) = p·((u·s)·v) = p·(u·(s·v)) = p·u
    F::lemma_ring(p, s, u.mul_spec(v));
    F::lemma_ring(s, u, v);
    F::lemma_ring(u, s, v);
    F::lemma_closure(s.mul_spec(u), v);
    F::lemma_closure(u.mul_spec(s), v);
    F::lemma_ring(u, v, v);
    F::lemma_ring(p, u, u);
}

/// `(p + q)·x = p·x + q·x`.
pub proof fn lemma_distribute_right<F: FieldAxioms>(p: F, q: F, x: F)
    requires
        p.wf(),
        q.wf(),
        x.wf(),
    ensures
        p.add_spec(q).mul_spec(x) == p.mul_spec(x).add_spec(q.mul_spec(x)),
{
    F::lemma_closure(p, q);
    F::lemma_ring(x, p, q);
    F::lemma_ring(p.add_spec(q), x, x);
    F::lemma_ring(p, x, x);
    F::lemma_ring(q, x, x);
}

/// `(p + q) + (r + s) = (p + r) + (q + s)`.
pub proof fn lemma_add_interchange<F: FieldAxioms>(p: F, q: F, r: F, s: F)
    requires
        p.wf(),
        q.wf(),
        r.wf(),
        s.wf(),
    ensures
        p.add_spec(q).add_spec(r.add_spec(s)) == p.add_spec(r).add_spec(q.add_spec(s)),
{
    F::lemma_closure(p, q);
    F::lemma_closure(r, s);
    F::lemma_closure(q, r);
    F::lemma_closure(r, q);
    F::lemma_closure(q, s);
    F::lemma_closure(p, r);
    F::lemma_closure(q.add_spec(r), s);
    F::lemma_closure(r.add_spec(q), s);
    // (p+q)+(r+s) = p+(q+(r+s)) = p+((q+r)+s) = p+((r+q)+s) = p+(r+(q+s)) = (p+r)+(q+s)
    F::lemma_ring(p, q, r.add_spec(s));
    F::lemma_ring(q, r, s);
    F::lemma_ring(r, q, s);
    F::lemma_ring(p, r, q.add_spec(s));
}

/// The row of a matrix product acting on `(x, 1)`:
/// `(o·a + p·c)·x + (o·b + p·d) = o·(a·x + b) + p·(c·x + d)`.
proof fn lemma_row_times_column<F: FieldAxioms>(o: F, p: F, a: F, b: F, c: F, d: F, x: F)
    requires
        o.wf(),
        p.wf(),
        a.wf(),
        b.wf(),
        c.wf(),
        d.wf(),
        x.wf(),
    ensures
        o.mul_spec(a).add_spec(p.mul_spec(c)).mul_spec(x).add_spec(o.mul_spec(b).add_spec(p.mul_spec(d)))
            == o.mul_spec(a.mul_spec(x).add_spec(b)).add_spec(p.mul_spec(c.mul_spec(x).add_spec(d))),
{
    F::lemma_closure(o, a);
    F::lemma_closure(p, c);
    F::lemma_closure(o, b);
    F::lemma_closure(p, d);
    F::lemma_closure(a, x);
    F::lemma_closure(c, x);
    F::lemma_closure(o.mul_spec(a), x);
    F::lemma_closure(p.mul_spec(c), x);
    F::lemma_closure(o, a.mul_spec(x));
    F::lemma_closure(p, c.mul_spec(x));
    lemma_distribute_right(o.mul_spec(a), p.mul_spec(c), x);
    F::lemma_ring(o, a, x);
    F::lemma_ring(p, c, x);
    lemma_add_interchange(o.mul_spec(a.mul_spec(x)), p.mul_spec(c.mul_spec(x)), o.mul_spec(b), p.mul_spec(d));
    F::lemma_ring(o, a.mul_spec(x), b);
    F::lemma_ring(p, c.mul_spec(x), d);
}

/// `o·(n·w) + p = (o·n + p·(d·... ))`: with `y = n·w` and `d·w = 1`,
/// `o·y + p = (o·n + p·d)·w`.
proof fn lemma_affine_of_fraction<F: FieldAxioms>(o: F, p: F, n: F, d: F, w: F)
    requires
        o.wf(),
        p.wf(),
        n.wf(),
        d.wf(),
        w.wf(),
        d.mul_spec(w) == F::one_spec(),
    ensures
        o.mul_spec(n.mul_spec(w)).add_spec(p) == o.mul_spec(n).add_spec(p.mul_spec(d)).mul_spec(w),
{
    F::lemma_closure(o, n);
    F::lemma_closure(p, d);
    F::lemma_closure(n, w);
    F::lemma_ring(o, n, w);
    F::lemma_ring(p, d, w);
    F::lemma_ring(p, p, p);
    lemma_distribute_right(o.mul_spec(n), p.mul_spec(d), w);
}

/// The group law: wherever the inner map is defined, the composed map sends
/// `x` where the outer map sends the inner image; in particular the composed
/// map has a pole exactly where the outer map's pole is hit.
pub proof fn law_mobius_compose_is_composition<F: FieldAxioms>(
    outer: crate::mobius::MobiusMap<F>,
    inner: crate::mobius::MobiusMap<F>,
    x: F,
)
    requires
        F::is_field(),
        outer.wf(),
        inner.wf(),
        x.wf(),
        crate::mobius::apply_spec(inner, x) is Some,
    ensures
        crate::mobius::apply_spec(crate::mobius::compose_spec(outer, inner), x) == crate::mobius::apply_spec(
            outer,
            crate::mobius::apply_spec(inner, x).unwrap(),
        ),
{
    F::lemma_field_valid();
    let ni = inner.a.mul_spec(x).add_spec(inner.b);
    let di = crate::mobius::denominator_at(inner, x);
    F::lemma_closure(inner.a, x);
    F::lemma_closure(inner.c, x);
    F::lemma_closure(inner.a.mul_spec(x), inner.b);
    F::lemma_closure(inner.c.mul_spec(x), inner.d);
    F::lemma_closure(di, di);
    let w = di.inverse_spec().unwrap();
    F::lemma_inverse(di);
    let y = ni.mul_spec(w);
    F::lemma_closure(ni, w);
    assert(crate::mobius::apply_spec(inner, x) == Some(y));
    let no = outer.a.mul_spec(y).add_spec(outer.b);
    let d_outer = crate::mobius::denominator_at(outer, y);
    F::lemma_closure(outer.a, y);
    F::lemma_closure(outer.c, y);
    F::lemma_closure(outer.a.mul_spec(y), outer.b);
    F::lemma_closure(outer.c.mul_spec(y), outer.d);
    let m = crate::mobius::compose_spec(outer, inner);
    let numerator = m.a.mul_spec(x).add_spec(m.b);
    let denominator = crate::mobius::denominator_at(m, x);
    lemma_row_times_column(outer.a, outer.b, inner.a, inner.b, inner.c, inner.d, x);
    lemma_row_times_column(outer.c, outer.d, inner.a, inner.b, inner.c, inner.d, x);
    lemma_affine_of_fraction(outer.a, outer.b, ni, di, w);
    lemma_affine_of_fraction(outer.c, outer.d, ni, di, w);
    F::lemma_closure(outer.a, ni);
    F::lemma_closure(outer.b, di);
    F::lemma_closure(outer.c, ni);
    F::lemma_closure(outer.d, di);
    F::lemma_closure(outer.a.mul_spec(ni), outer.b.mul_spec(di));
    F::lemma_closure(outer.c.mul_spec(ni), outer.d.mul_spec(di));
    assert(no == numerator.mul_spec(w));
    assert(d_outer == denominator.mul_spec(w));
    assert(w != F::zero_spec()) by {
        if w == F::zero_spec() {
            F::lemma_ring(di, F::zero_spec(), di);
        }
    }
    F::lemma_ring(denominator, w, w);
    if d_outer == F::zero_spec() {
        // the composed denominator is (d_outer)·di = 0 as well
        F::lemma_closure(denominator, w);
        F::lemma_ring(denominator, w, di);
        F::lemma_ring(w, di, di);
        F::lemma_ring(di, w, w);
        F::lemma_ring(denominator, di, di);
        F::lemma_ring(di, F::zero_spec(), F::zero_spec());
        F::lemma_ring(F::zero_spec(), di, di);
        assert(denominator == F::zero_spec());
    } else {
        // w is nonzero, so the composed denominator is nonzero too.
        if denominator == F::zero_spec() {
            F::lemma_ring(w, F::zero_spec(), w);
            assert(false);
        }
        lemma_fraction_scale(numerator, denominator, w);
    }
}

/// `p·(r·v + s·w) + q·(t·v + u·w) = (p·r + q·t)·v + (p·s + q·u)·w`: one entry
/// of a triple matrix product, grouped either way.
proof fn lemma_entry_associative<F: FieldAxioms>(p: F, q: F, r: F, s: F, t: F, u: F, v: F, w: F)
    requires
        p.wf(),
        q.wf(),
        r.wf(),
        s.wf(),
        t.wf(),
        u.wf(),
        v.wf(),
        w.wf(),
    ensures
        p.mul_spec(r.mul_spec(v).add_spec(s.mul_spec(w))).add_spec(
            q.mul_spec(t.mul_spec(v).add_spec(u.mul_spec(w))),
        ) == p.mul_spec(r).add_spec(q.mul_spec(t)).mul_spec(v).add_spec(
            p.mul_spec(s).add_spec(q.mul_spec(u)).mul_spec(w),
        ),
{
    F::lemma_closure(r, v);
    F::lemma_closure(s, w);
    F::lemma_closure(t, v);
    F::lemma_closure(u, w);
    F::lemma_closure(p, r);
    F::lemma_closure(p, s);
    F::lemma_closure(q, t);
    F::lemma_closure(q, u);
    F::lemma_closure(p, r.mul_spec(v));
    F::lemma_closure(p, s.mul_spec(w));
    F::lemma_closure(q, t.mul_spec(v));
    F::lemma_closure(q, u.mul_spec(w));
    // left: p·(r·v) + p·(s·w) + q·(t·v) + q·(u·w)
    F::lemma_ring(p, r.mul_spec(v), s.mul_spec(w));
    F::lemma_ring(q, t.mul_spec(v), u.mul_spec(w));
    F::lemma_ring(p, r, v);
    F::lemma_ring(p, s, w);
    F::lemma_ring(q, t, v);
    F::lemma_ring(q, u, w);
    // right: (p·r)·v + (q·t)·v + (p·s)·w + (q·u)·w
    lemma_distribute_right(p.mul_spec(r), q.mul_spec(t), v);
    lemma_distribute_right(p.mul_spec(s), q.mul_spec(u), w);
    lemma_add_interchange(
        p.mul_spec(r).mul_spec(v),
        p.mul_spec(s).mul_spec(w),
        q.mul_spec(t).mul_spec(v),
        q.mul_spec(u).mul_spec(w),
    );
}

/// Composition of Möbius maps is associative: the matrix product is.
pub proof fn law_mobius_compose_is_associative<F: FieldAxioms>(
    first: crate::mobius::MobiusMap<F>,
    second: crate::mobius::MobiusMap<F>,
    third: crate::mobius::MobiusMap<F>,
)
    requires
        first.wf(),
        second.wf(),
        third.wf(),
    ensures
        crate::mobius::compose_spec(first, crate::mobius::compose_spec(second, third))
            == crate::mobius::compose_spec(crate::mobius::compose_spec(first, second), third),
{
    let (m, n, o) = (first, second, third);
    lemma_entry_associative(m.a, m.b, n.a, n.b, n.c, n.d, o.a, o.c);
    lemma_entry_associative(m.a, m.b, n.a, n.b, n.c, n.d, o.b, o.d);
    lemma_entry_associative(m.c, m.d, n.a, n.b, n.c, n.d, o.a, o.c);
    lemma_entry_associative(m.c, m.d, n.a, n.b, n.c, n.d, o.b, o.d);
}

/// The identity map is neutral for composition on either side.
pub proof fn law_mobius_identity_is_neutral<F: FieldAxioms>(m: crate::mobius::MobiusMap<F>)
    requires
        F::field_valid(),
        m.wf(),
    ensures
        crate::mobius::compose_spec(m, crate::mobius::identity_spec::<F>()) == m,
        crate::mobius::compose_spec(crate::mobius::identity_spec::<F>(), m) == m,
{
    let (z, o) = (F::zero_spec(), F::one_spec());
    F::lemma_closure(z, o);
    F::lemma_ring(m.a, o, z);
    F::lemma_ring(m.b, o, z);
    F::lemma_ring(m.c, o, z);
    F::lemma_ring(m.d, o, z);
    F::lemma_ring(o, m.a, z);
    F::lemma_ring(o, m.b, z);
    F::lemma_ring(o, m.c, z);
    F::lemma_ring(o, m.d, z);
    F::lemma_ring(z, m.a, z);
    F::lemma_ring(z, m.b, z);
    F::lemma_ring(z, m.c, z);
    F::lemma_ring(z, m.d, z);
    F::lemma_ring(z, o, z);
    F::lemma_closure(m.a, o);
    F::lemma_ring(z, m.a, m.a);
    F::lemma_ring(z, m.b, m.b);
    F::lemma_ring(z, m.c, m.c);
    F::lemma_ring(z, m.d, m.d);
}

/// Normalizing a map's coefficients does not change the map.
pub proof fn law_mobius_normalized_is_same_map<F: FieldAxioms>(m: crate::mobius::MobiusMap<F>, x: F)
    requires
        F::is_field(),
        m.wf(),
        x.wf(),
    ensures
        crate::mobius::apply_spec(crate::mobius::normalized_spec(m), x) == crate::mobius::apply_spec(m, x),
{
    F::lemma_field_valid();
    let p = crate::mobius::pivot_spec(m);
    F::lemma_closure(p, p);
    let s = p.inverse_spec().unwrap();
    assert(p != F::zero_spec());
    F::lemma_inverse(p);
    assert(s != F::zero_spec()) by {
        if s == F::zero_spec() {
            F::lemma_ring(p, F::zero_spec(), p);
        }
    }
    let n = crate::mobius::normalized_spec(m);
    scaled_apply(m, n, s, x);
}

/// A map whose coefficients are those of `m` times a nonzero `s` applies as
/// `m` does.
proof fn scaled_apply<F: FieldAxioms>(m: crate::mobius::MobiusMap<F>, n: crate::mobius::MobiusMap<F>, s: F, x: F)
    requires
        F::is_field(),
        m.wf(),
        x.wf(),
        s.wf(),
        s != F::zero_spec(),
        n.a == m.a.mul_spec(s),
        n.b == m.b.mul_spec(s),
        n.c == m.c.mul_spec(s),
        n.d == m.d.mul_spec(s),
    ensures
        crate::mobius::apply_spec(n, x) == crate::mobius::apply_spec(m, x),
{
    F::lemma_field_valid();
    let numerator = m.a.mul_spec(x).add_spec(m.b);
    let denominator = crate::mobius::denominator_at(m, x);
    F::lemma_closure(m.a, x);
    F::lemma_closure(m.c, x);
    F::lemma_closure(m.a.mul_spec(x), m.b);
    F::lemma_closure(m.c.mul_spec(x), m.d);
    // (a·s)·x + b·s = (a·x + b)·s, likewise for the denominator.
    F::lemma_ring(m.a, s, x);
    F::lemma_ring(m.a, x, s);
    F::lemma_ring(s, x, x);
    F::lemma_ring(m.c, s, x);
    F::lemma_ring(m.c, x, s);
    lemma_distribute_right(m.a.mul_spec(x), m.b, s);
    lemma_distribute_right(m.c.mul_spec(x), m.d, s);
    assert(n.a.mul_spec(x) == m.a.mul_spec(x).mul_spec(s));
    assert(n.c.mul_spec(x) == m.c.mul_spec(x).mul_spec(s));
    assert(crate::mobius::denominator_at(n, x) == denominator.mul_spec(s));
    if denominator == F::zero_spec() {
        F::lemma_ring(s, F::zero_spec(), s);
        F::lemma_ring(F::zero_spec(), s, s);
    } else {
        lemma_mul_nonzero(denominator, s);
        lemma_fraction_scale(numerator, denominator, s);
    }
}

/// Scaling every coefficient by a nonzero constant does not change the
/// normalized representative: a projective map has one canonical form.
pub proof fn law_mobius_normalized_ignores_scale<F: FieldAxioms>(m: crate::mobius::MobiusMap<F>, s: F)
    requires
        F::is_field(),
        m.wf(),
        s.wf(),
        s != F::zero_spec(),
    ensures
        crate::mobius::normalized_spec(
            crate::mobius::MobiusMap { a: m.a.mul_spec(s), b: m.b.mul_spec(s), c: m.c.mul_spec(s), d: m.d.mul_spec(s) },
        ) == crate::mobius::normalized_spec(m),
{
    F::lemma_field_valid();
    let scaled = crate::mobius::MobiusMap { a: m.a.mul_spec(s), b: m.b.mul_spec(s), c: m.c.mul_spec(s), d: m.d.mul_spec(s) };
    let z = F::zero_spec();
    F::lemma_closure(s, s);
    // A coefficient is zero exactly when its scaled copy is.
    assert forall|e: F| e.wf() implies (#[trigger] e.mul_spec(s) == z) == (e == z) by {
        F::lemma_ring(e, s, s);
        F::lemma_ring(s, e, e);
        if e != z {
            lemma_mul_nonzero(e, s);
        }
    }
    let p = crate::mobius::pivot_spec(m);
    let q = crate::mobius::pivot_spec(scaled);
    if m.a == z && m.b == z && m.c == z && m.d == z {
        F::lemma_ring(s, s, s);
        F::lemma_ring(F::zero_spec(), s, s);
        assert(scaled.a == z && scaled.b == z && scaled.c == z && scaled.d == z);
    } else {
        assert(q == p.mul_spec(s));
        assert(p.wf() && p != z);
        assert forall|e: F| e.wf() implies #[trigger] e.mul_spec(s).mul_spec(q.inverse_spec().unwrap()) == e.mul_spec(
            p.inverse_spec().unwrap(),
        ) by {
            lemma_fraction_scale(e, p, s);
        }
        assert(scaled.a.mul_spec(q.inverse_spec().unwrap()) == m.a.mul_spec(p.inverse_spec().unwrap()));
        assert(scaled.b.mul_spec(q.inverse_spec().unwrap()) == m.b.mul_spec(p.inverse_spec().unwrap()));
        assert(scaled.c.mul_spec(q.inverse_spec().unwrap()) == m.c.mul_spec(p.inverse_spec().unwrap()));
        assert(scaled.d.mul_spec(q.inverse_spec().unwrap()) == m.d.mul_spec(p.inverse_spec().unwrap()));
    }
}

} // verus!

verus! {

/// The first `m` chunks of `size` symbols, concatenated in order.
pub open spec fn chunks_joined<F>(word: Seq<F>, size: nat, m: int) -> Seq<F>
    decreases m,
{
    if m <= 0 {
        Seq::empty()
    } else {
        chunks_joined(word, size, m - 1) + word.subrange((m - 1) * size, (m - 1) * size + size)
    }
}

/// Blocks (of a folded word) and columns (of an interleaved word) partition
/// the word: its complete chunks, concatenated in order, give the word back.
pub proof fn law_chunks_partition_the_word<F>(word: Seq<F>, size: nat)
    requires
        size > 0,
        word.len() % size == 0,
    ensures
        chunks_joined(word, size, (word.len() / size) as int) == word,
{
    let len = word.len() as int;
    let sz = size as int;
    let count = len / sz;
    vstd::arithmetic::div_mod::lemma_fundamental_div_mod(len, sz);
    assert(count * sz == len) by (nonlinear_arith)
        requires
            len == sz * (len / sz) + len % sz,
            len % sz == 0,
            count == len / sz,
    ;
    lemma_chunks_prefix(word, size, count);
    assert(word.subrange(0, word.len() as int) =~= word);
}

proof fn lemma_chunks_prefix<F>(word: Seq<F>, size: nat, m: int)
    requires
        size > 0,
        0 <= m,
        m * size <= word.len(),
    ensures
        chunks_joined(word, size, m) == word.subrange(0, m * size),
    decreases m,
{
    if m > 0 {
        assert((m - 1) * size + size == m * size) by (nonlinear_arith);
        lemma_chunks_prefix(word, size, m - 1);
        assert(word.subrange(0, (m - 1) * size) + word.subrange((m - 1) * size, (m - 1) * size + size)
            =~= word.subrange(0, m * size));
    } else {
        assert(m * size == 0) by (nonlinear_arith)
            requires
                m == 0,
        ;
        assert(word.subrange(0, 0) =~= Seq::<F>::empty());
    }
}

} // verus!

verus! {

/// Twist merging in characteristic two: merging a twist whose pair is absent
/// from the program, and then merging it again, leaves the program as it was
/// (the collided pair annihilates).
pub proof fn law_twist_pair_annihilates<F: Field>(twists: Seq<Twist<F>>, twist: Twist<F>)
    requires
        forall|i: int|
            0 <= i < twists.len() ==> !((#[trigger] twists[i]).offset == twist.offset && twists[i].hook
                == twist.hook),
        twist.coefficient.add_spec(twist.coefficient) == F::zero_spec(),
    ensures
        crate::descriptor::merge_spec(
            crate::descriptor::merge_spec(twists, twist.offset, twist.hook, twist.coefficient),
            twist.offset,
            twist.hook,
            twist.coefficient,
        ) == twists,
{
    let (o, h, c) = (twist.offset, twist.hook, twist.coefficient);
    crate::descriptor::lemma_key_position(twists, o, h, 0);
    let once = crate::descriptor::merge_spec(twists, o, h, c);
    assert(once == twists.push(Twist { offset: o, hook: h, coefficient: c }));
    crate::descriptor::lemma_key_position(once, o, h, 0);
    assert(crate::descriptor::key_position(once, o, h, 0) == twists.len()) by {
        let p = crate::descriptor::key_position(once, o, h, 0);
        if p < twists.len() {
            assert(once[p] == twists[p]);
        }
        if p > twists.len() {
            let last = twists.len() as int;
            assert(once[last].offset == o && once[last].hook == h);
            assert(!(once[last].offset == o && once[last].hook == h));
        }
    }
    assert(once.remove(twists.len() as int) =~= twists);
}

/// Over GF(2^8) every twist coefficient is its own negative, so merging a new
/// twist twice always annihilates it.
pub proof fn law_gf256_twist_pair_annihilates(twists: Seq<Twist<crate::binary_field::Gf256>>, twist: Twist<crate::binary_field::Gf256>)
    requires
        forall|i: int|
            0 <= i < twists.len() ==> !((#[trigger] twists[i]).offset == twist.offset && twists[i].hook
                == twist.hook),
    ensures
        crate::descriptor::merge_spec(
            crate::descriptor::merge_spec(twists, twist.offset, twist.hook, twist.coefficient),
            twist.offset,
            twist.hook,
            twist.coefficient,
        ) == twists,
{
    crate::binary_field::Gf256::lemma_characteristic_two(twist.coefficient);
    law_twist_pair_annihilates(twists, twist);
}

} // verus!

verus! {

/// The base indices `0, 1, …, n − 1`.
pub open spec fn base_indices(n: nat) -> Seq<usize> {
    Seq::new(n, |i: int| i as usize)
}

/// `surviving` reads only the first `m` elements.
proof fn lemma_surviving_prefix<S>(a: Seq<S>, b: Seq<S>, p: Seq<usize>, m: int)
    requires
        0 <= m <= a.len(),
        m <= b.len(),
        forall|i: int| 0 <= i < m ==> a[i] == b[i],
    ensures
        crate::puncture::surviving(a, p, m) == crate::puncture::surviving(b, p, m),
    decreases m,
{
    if m > 0 {
        lemma_surviving_prefix(a, b, p, m - 1);
    }
}

/// The survivors of the first `m` elements and of the first `m` indices line
/// up, and the surviving indices are increasing and below `m`.
proof fn lemma_surviving_indices<S>(s: Seq<S>, p: Seq<usize>, n: nat, m: int)
    requires
        0 <= m <= n,
        n <= s.len(),
        n <= usize::MAX,
    ensures
        crate::puncture::surviving(s, p, m).len() == crate::puncture::surviving(base_indices(n), p, m).len(),
        forall|j: int|
            0 <= j < crate::puncture::surviving(s, p, m).len() ==> {
                &&& (#[trigger] crate::puncture::surviving(base_indices(n), p, m)[j]) < m
                &&& crate::puncture::surviving(s, p, m)[j] == s[crate::puncture::surviving(
                    base_indices(n),
                    p,
                    m,
                )[j] as int]
            },
    decreases m,
{
    if m > 0 {
        lemma_surviving_indices(s, p, n, m - 1);
        let previous = crate::puncture::surviving(base_indices(n), p, m - 1);
        let current = crate::puncture::surviving(base_indices(n), p, m);
        assert forall|j: int| 0 <= j < crate::puncture::surviving(s, p, m).len() implies {
            &&& (#[trigger] current[j]) < m
            &&& crate::puncture::surviving(s, p, m)[j] == s[current[j] as int]
        } by {
            if j < previous.len() {
                assert(current[j] == previous[j]);
                assert(crate::puncture::surviving(s, p, m)[j] == crate::puncture::surviving(s, p, m - 1)[j]);
            } else {
                assert(!p.contains((m - 1) as usize));
                assert(current[j] == base_indices(n)[m - 1]);
                assert(base_indices(n)[m - 1] == (m - 1) as usize);
                assert(crate::puncture::surviving(s, p, m)[j] == s[m - 1]);
            }
        }
    }
}

/// Puncturing twice is puncturing by the union: puncturing `first`, then
/// puncturing the survivors at the positions whose base index lies in
/// `second`, leaves exactly what puncturing `first + second` leaves.
pub proof fn law_double_puncture_is_union<S>(
    s: Seq<S>,
    first: Seq<usize>,
    second: Seq<usize>,
    relabeled: Seq<usize>,
)
    requires
        s.len() <= usize::MAX,
        forall|j: int|
            0 <= j < crate::puncture::surviving(base_indices(s.len()), first, s.len() as int).len()
                ==> (#[trigger] relabeled.contains(j as usize) <==> second.contains(
                crate::puncture::surviving(base_indices(s.len()), first, s.len() as int)[j],
            )),
    ensures
        crate::puncture::surviving(
            crate::puncture::surviving(s, first, s.len() as int),
            relabeled,
            crate::puncture::surviving(s, first, s.len() as int).len() as int,
        ) == crate::puncture::surviving(s, first + second, s.len() as int),
{
    lemma_union_prefix(s, first, second, relabeled, s.len() as int);
}

proof fn lemma_union_prefix<S>(s: Seq<S>, first: Seq<usize>, second: Seq<usize>, relabeled: Seq<usize>, m: int)
    requires
        s.len() <= usize::MAX,
        0 <= m <= s.len(),
        forall|j: int|
            0 <= j < crate::puncture::surviving(base_indices(s.len()), first, s.len() as int).len()
                ==> (#[trigger] relabeled.contains(j as usize) <==> second.contains(
                crate::puncture::surviving(base_indices(s.len()), first, s.len() as int)[j],
            )),
    ensures
        crate::puncture::surviving(
            crate::puncture::surviving(s, first, m),
            relabeled,
            crate::puncture::surviving(s, first, m).len() as int,
        ) == crate::puncture::surviving(s, first + second, m),
    decreases m,
{
    let n = s.len();
    if m > 0 {
        lemma_union_prefix(s, first, second, relabeled, m - 1);
        let before = crate::puncture::surviving(s, first, m - 1);
        let after = crate::puncture::surviving(s, first, m);
        let index = (m - 1) as usize;
        assert((first + second).contains(index) <==> (first.contains(index) || second.contains(index))) by {
            if first.contains(index) {
                let w = choose|w: int| 0 <= w < first.len() && first[w] == index;
                assert((first + second)[w] == index);
            }
            if second.contains(index) {
                let w = choose|w: int| 0 <= w < second.len() && second[w] == index;
                assert((first + second)[first.len() + w] == index);
            }
            if (first + second).contains(index) {
                let w = choose|w: int| 0 <= w < (first + second).len() && (first + second)[w] == index;
                if w < first.len() {
                    assert(first[w] == index);
                } else {
                    assert(second[w - first.len()] == index);
                }
            }
        }
        if !first.contains(index) {
            // the new survivor sits at position |before| and has base index m − 1
            lemma_surviving_indices(s, first, n, m);
            lemma_surviving_indices(s, first, n, n as int);
            lemma_surviving_grows(base_indices(n), first, m, n as int);
            let all = crate::puncture::surviving(base_indices(n), first, n as int);
            let upto = crate::puncture::surviving(base_indices(n), first, m);
            assert(upto[before.len() as int] == index);
            assert(all[before.len() as int] == index);
            assert(relabeled.contains(before.len() as usize) <==> second.contains(index));
            lemma_surviving_prefix(after, before, relabeled, before.len() as int);
        }
    }
}

/// Later survivors extend earlier ones.
proof fn lemma_surviving_grows<S>(s: Seq<S>, p: Seq<usize>, m: int, m2: int)
    requires
        0 <= m <= m2 <= s.len(),
    ensures
        crate::puncture::surviving(s, p, m).len() <= crate::puncture::surviving(s, p, m2).len(),
        forall|j: int|
            0 <= j < crate::puncture::surviving(s, p, m).len() ==> #[trigger] crate::puncture::surviving(s, p, m2)[j]
                == crate::puncture::surviving(s, p, m)[j],
    decreases m2 - m,
{
    if m < m2 {
        lemma_surviving_grows(s, p, m, m2 - 1);
    }
}

} // verus!

verus! {

/// A Roth–Lempel decoder keeps an encoded message: its exceptional
/// coordinate re-encodes without mismatch, so the message survives whenever
/// the ambient decoder reports it within the radius.
pub proof fn law_roth_lempel_filter_keeps_encoded_message<F: Field>(
    code: &crate::roth_lempel::RothLempelCode<F>,
    message: Seq<F>,
    distance: usize,
    radius: nat,
)
    requires
        code.wf(),
        message.len() == code.inner_view().dimension_view(),
        distance <= radius,
    ensures
        ({
            let inner = code.inner_view();
            let n = inner.points_view().len();
            let functionals = inner.functionals_view();
            let extension = inner.multipliers_view().subrange(n as int, inner.multipliers_view().len() as int);
            let received = inner.codeword_spec(message);
            &&& crate::extend::extension_mismatches(
                functionals,
                extension,
                message,
                received,
                n,
                functionals.len() as int,
            ) == 0
            &&& crate::extend::accepted_candidates(
                functionals,
                extension,
                seq![message],
                seq![distance],
                received,
                n,
                radius,
                1,
            ) == seq![message]
        }),
{
    law_extended_filter_keeps_encoded_message(&code.inner_view(), message, distance, radius);
}

} // verus!
