//! Polynomial long division over a field, with the division identity
//! `dividend = quotient · divisor + remainder` proved coefficient by coefficient.
use vstd::prelude::*;

use crate::field::{Field, FieldAxioms};
use crate::polynomial::{
    add_seq, coeff_at, conv, conv_partial, copy_elements, is_trimmed, lemma_trim, lemma_trim_coeff_eq, max_len,
    mul_seq, seq_wf, trim, trim_vec, Polynomial, PolynomialError,
};

verus! {

/// `0 + a = a`.
proof fn lemma_zero_add<F: FieldAxioms>(a: F)
    requires
        a.wf(),
    ensures
        F::zero_spec().add_spec(a) == a,
        a.add_spec(F::zero_spec()) == a,
{
    F::lemma_closure(a, a);
    F::lemma_ring(a, F::zero_spec(), F::zero_spec());
    F::lemma_ring(F::zero_spec(), a, a);
}

/// `0 · a = 0`.
proof fn lemma_zero_mul<F: FieldAxioms>(a: F)
    requires
        a.wf(),
    ensures
        F::zero_spec().mul_spec(a) == F::zero_spec(),
{
    F::lemma_closure(a, a);
    F::lemma_ring(a, F::zero_spec(), F::zero_spec());
    F::lemma_ring(F::zero_spec(), a, a);
}

/// `(p + e) + x = (p + x) + e`.
proof fn lemma_add_swap<F: FieldAxioms>(p: F, e: F, x: F)
    requires
        p.wf(),
        e.wf(),
        x.wf(),
    ensures
        p.add_spec(e).add_spec(x) == p.add_spec(x).add_spec(e),
{
    F::lemma_ring(p, e, x);
    F::lemma_ring(e, x, p);
    F::lemma_ring(p, x, e);
}

/// `(a + f) · d = a · d + f · d`.
proof fn lemma_distrib_right<F: FieldAxioms>(a: F, f: F, d: F)
    requires
        a.wf(),
        f.wf(),
        d.wf(),
    ensures
        a.add_spec(f).mul_spec(d) == a.mul_spec(d).add_spec(f.mul_spec(d)),
{
    F::lemma_closure(a, f);
    F::lemma_ring(d, a, f);
    F::lemma_ring(a.add_spec(f), d, d);
    F::lemma_ring(a, d, d);
    F::lemma_ring(f, d, d);
}

/// `(c + x) + (r − x) = c + r`.
proof fn lemma_add_sub_cancel<F: FieldAxioms>(c: F, r: F, x: F)
    requires
        c.wf(),
        r.wf(),
        x.wf(),
    ensures
        c.add_spec(x).add_spec(r.sub_spec(x)) == c.add_spec(r),
{
    F::lemma_closure(r, x);
    F::lemma_closure(x, x);
    let nx = x.neg_spec();
    F::lemma_closure(r, nx);
    F::lemma_ring(r, x, x);
    // r - x = r + (-x)
    F::lemma_ring(c, x, r.add_spec(nx));
    // (c + x) + (r + -x) = c + (x + (r + -x))
    F::lemma_ring(x, r.add_spec(nx), r);
    // x + (r + -x) = (r + -x) + x
    F::lemma_ring(r, nx, x);
    // (r + -x) + x = r + (-x + x)
    F::lemma_ring(nx, x, x);
    // -x + x = x + -x
    F::lemma_ring(x, x, x);
    // x + -x = 0
    F::lemma_ring(r, F::zero_spec(), F::zero_spec());
}

/// With `l · inv = 1`: `t − (t · inv) · l = 0`.
proof fn lemma_cancel_top<F: FieldAxioms>(t: F, inv: F, l: F)
    requires
        t.wf(),
        inv.wf(),
        l.wf(),
        l.mul_spec(inv) == F::one_spec(),
    ensures
        t.sub_spec(t.mul_spec(inv).mul_spec(l)) == F::zero_spec(),
{
    F::lemma_ring(t, inv, l);
    F::lemma_ring(inv, l, l);
    F::lemma_ring(t, t, t);
    F::lemma_closure(t, inv);
}

pub proof fn lemma_conv_partial_wf<F: Field>(a: Seq<F>, b: Seq<F>, k: int, n: int)
    requires
        F::field_valid(),
        seq_wf(a),
        seq_wf(b),
        n <= a.len(),
    ensures
        conv_partial(a, b, k, n).wf(),
    decreases n,
{
    F::lemma_closure(F::zero_spec(), F::zero_spec());
    if n > 0 {
        lemma_conv_partial_wf(a, b, k, n - 1);
        let j = k - (n - 1);
        if 0 <= j < b.len() {
            F::lemma_closure(a[n - 1], b[j]);
            F::lemma_closure(conv_partial(a, b, k, n - 1), a[n - 1].mul_spec(b[j]));
        }
    }
}

/// Raising one coefficient of the left factor by `f` raises the partial
/// product coefficient by `f · b[k − s]` (when that term is summed).
proof fn lemma_conv_update<F: FieldAxioms>(q: Seq<F>, d: Seq<F>, k: int, n: int, s: int, f: F)
    requires
        seq_wf(q),
        seq_wf(d),
        f.wf(),
        0 <= s < q.len(),
        0 <= n <= q.len(),
    ensures
        conv_partial(q.update(s, q[s].add_spec(f)), d, k, n) == conv_partial(q, d, k, n).add_spec(
            if s < n && 0 <= k - s < d.len() {
                f.mul_spec(d[k - s])
            } else {
                F::zero_spec()
            },
        ),
    decreases n,
{
    let q2 = q.update(s, q[s].add_spec(f));
    F::lemma_closure(q[s], f);
    F::lemma_closure(F::zero_spec(), F::zero_spec());
    assert(seq_wf(q2));
    if n == 0 {
        lemma_zero_add(F::zero_spec());
    } else {
        lemma_conv_update(q, d, k, n - 1, s, f);
        let p = conv_partial(q, d, k, n - 1);
        lemma_conv_partial_wf(q, d, k, n - 1);
        let j = k - (n - 1);
        let e_prev = if s < n - 1 && 0 <= k - s < d.len() {
            f.mul_spec(d[k - s])
        } else {
            F::zero_spec()
        };
        if 0 <= k - s < d.len() {
            F::lemma_closure(f, d[k - s]);
        }
        if 0 <= j < d.len() {
            F::lemma_closure(q[n - 1], d[j]);
            if n - 1 == s {
                // (p + 0) + (q[s] + f) d[j] = (p + q[s] d[j]) + f d[j]
                lemma_distrib_right(q[s], f, d[j]);
                lemma_zero_add(p);
                F::lemma_closure(f, d[j]);
                F::lemma_ring(p, q[s].mul_spec(d[j]), f.mul_spec(d[j]));
            } else {
                lemma_add_swap(p, e_prev, q[n - 1].mul_spec(d[j]));
            }
        }
    }
}

/// Coefficients of the left factor past `m` that are zero contribute nothing.
proof fn lemma_conv_zero_tail<F: FieldAxioms>(a: Seq<F>, b: Seq<F>, k: int, m: int, n: int)
    requires
        seq_wf(a),
        seq_wf(b),
        0 <= m <= n <= a.len(),
        forall|i: int| m <= i < n ==> a[i] == F::zero_spec(),
    ensures
        conv_partial(a, b, k, n) == conv_partial(a, b, k, m),
    decreases n,
{
    if n > m {
        lemma_conv_zero_tail(a, b, k, m, n - 1);
        let j = k - (n - 1);
        if 0 <= j < b.len() {
            F::lemma_closure(a[n - 1], a[n - 1]);
            lemma_conv_partial_wf(a, b, k, n - 1);
            lemma_zero_mul(b[j]);
            lemma_zero_add(conv_partial(a, b, k, n - 1));
        }
    }
}

/// When every summed index falls past the right factor the coefficient is zero.
pub(crate) proof fn lemma_conv_out_of_range<F: Field>(a: Seq<F>, b: Seq<F>, k: int, n: int)
    requires
        0 <= n,
        k - n + 1 >= b.len(),
    ensures
        conv_partial(a, b, k, n) == F::zero_spec(),
    decreases n,
{
    if n > 0 {
        lemma_conv_out_of_range(a, b, k, n - 1);
    }
}

/// The partial product coefficient depends only on the first `n` coefficients.
proof fn lemma_conv_prefix<F: Field>(a: Seq<F>, a2: Seq<F>, b: Seq<F>, k: int, n: int)
    requires
        0 <= n <= a.len(),
        n <= a2.len(),
        forall|i: int| 0 <= i < n ==> a[i] == a2[i],
    ensures
        conv_partial(a, b, k, n) == conv_partial(a2, b, k, n),
    decreases n,
{
    if n > 0 {
        lemma_conv_prefix(a, a2, b, k, n - 1);
    }
}

/// Trimming changes no coefficient.
pub proof fn lemma_coeff_trim<F: Field>(s: Seq<F>, k: int)
    ensures
        coeff_at(trim(s), k) == coeff_at(s, k),
{
    lemma_trim(s);
    if 0 <= k < s.len() && k >= trim(s).len() {
        assert(s[k] == F::zero_spec());
    }
}

/// Coefficient `k` of the canonical product `trim(q) · d` is the full
/// convolution sum over every coefficient of `q`.
proof fn lemma_mul_seq_coeff<F: FieldAxioms>(q: Seq<F>, d: Seq<F>, k: int)
    requires
        seq_wf(q),
        seq_wf(d),
        d.len() > 0,
        is_trimmed(d),
        0 <= k,
    ensures
        coeff_at(mul_seq(trim(q), d), k) == conv_partial(q, d, k, q.len() as int),
{
    let t = trim(q);
    lemma_trim(q);
    let tl = t.len() as int;
    lemma_conv_zero_tail(q, d, k, tl, q.len() as int);
    lemma_conv_prefix(q, t, d, k, tl);
    if tl > 0 {
        let c = conv(t, d);
        lemma_coeff_trim(c, k);
        if k >= c.len() {
            lemma_conv_out_of_range(t, d, k, tl);
        }
    }
}

impl<F: FieldAxioms> Polynomial<F> {
    /// Long division by a nonzero divisor.
    ///
    /// Returns the quotient and remainder with `self = q · divisor + r` and
    /// `deg r < deg divisor`; a zero divisor is rejected.
    pub fn div_rem(&self, divisor: &Self) -> (r: Result<(Self, Self), PolynomialError>)
        requires
            self.wf(),
            divisor.wf(),
            F::is_field(),
        ensures
            r is Err <==> divisor@.len() == 0,
            divisor@.len() == 0 ==> r == Err::<(Self, Self), PolynomialError>(
                PolynomialError::DivisionByZero,
            ),
            r matches Ok((q, rem)) ==> {
                &&& q.wf()
                &&& rem.wf()
                &&& rem@.len() < divisor@.len()
                &&& self@ == trim(add_seq(mul_seq(q@, divisor@), rem@))
            },
    {
        let ghost p = self@;
        let ghost dv = divisor@;
        let divisor_degree = match divisor.degree() {
            Some(degree) => degree,
            None => {
                return Err(PolynomialError::DivisionByZero);
            },
        };
        let lead = divisor.coefficient(divisor_degree);
        proof {
            F::lemma_closure(lead, lead);
            assert(lead == dv.last());
            assert(lead != F::zero_spec());
        }
        let lead_inverse = match lead.inverse() {
            Some(inverse) => inverse,
            None => {
                return Err(PolynomialError::NonInvertibleLeadingCoefficient);
            },
        };
        proof {
            F::lemma_inverse(lead);
            F::lemma_field_valid();
        }
        let dividend_degree = match self.degree() {
            Some(degree) => degree,
            None => {
                let q = Self::zero();
                let rem = Self::zero();
                proof {
                    assert(add_seq(mul_seq(q@, dv), rem@) =~= Seq::<F>::empty());
                }
                return Ok((q, rem));
            },
        };
        if dividend_degree < divisor_degree {
            let rem = self.clone();
            let q = Self::zero();
            proof {
                assert forall|i: int| 0 <= i < p.len() implies add_seq(mul_seq(q@, dv), rem@)[i]
                    == p[i] by {
                    lemma_zero_add(p[i]);
                }
                assert(add_seq(mul_seq(q@, dv), rem@) =~= p);
                lemma_trim(p);
                assert(rem@ == p);
                assert(rem@.len() < dv.len());
                assert(q.wf());
                assert(rem.wf());
                assert(self@ == trim(add_seq(mul_seq(q@, divisor@), rem@)));
            }
            return Ok((q, rem));
        }
        let quotient_length = dividend_degree - divisor_degree + 1;
        let mut quotient: Vec<F> = Vec::with_capacity(quotient_length);
        let zero = F::zero();
        while quotient.len() < quotient_length
            invariant
                quotient@.len() <= quotient_length,
                zero == F::zero_spec(),
                zero.wf(),
                forall|i: int| 0 <= i < quotient@.len() ==> #[trigger] quotient@[i] == zero,
            decreases quotient_length - quotient@.len(),
        {
            quotient.push(zero);
        }
        let mut remainder: Vec<F> = copy_elements(self.coefficients());
        proof {
            assert forall|k: int| 0 <= k implies #[trigger] coeff_at(p, k) == conv_partial(
                quotient@,
                dv,
                k,
                quotient_length as int,
            ).add_spec(coeff_at(remainder@, k)) by {
                lemma_conv_zero_tail(quotient@, dv, k, 0, quotient_length as int);
                F::lemma_closure(zero, zero);
                if 0 <= k < p.len() {
                    lemma_zero_add(p[k]);
                } else {
                    lemma_zero_add(zero);
                }
            }
        }
        while remainder.len() > divisor_degree
            invariant
                F::is_field(),
                F::field_valid(),
                self.wf(),
                divisor.wf(),
                p == self@,
                dv == divisor@,
                divisor_degree + 1 == dv.len(),
                lead == dv[divisor_degree as int],
                lead.wf(),
                lead_inverse.wf(),
                lead.mul_spec(lead_inverse) == F::one_spec(),
                quotient_length == p.len() - divisor_degree,
                quotient@.len() == quotient_length,
                seq_wf(quotient@),
                seq_wf(remainder@),
                is_trimmed(remainder@),
                remainder@.len() <= p.len(),
                forall|k: int|
                    0 <= k ==> #[trigger] coeff_at(p, k) == conv_partial(
                        quotient@,
                        dv,
                        k,
                        quotient_length as int,
                    ).add_spec(coeff_at(remainder@, k)),
            decreases remainder@.len(),
        {
            let remainder_degree = remainder.len() - 1;
            let shift = remainder_degree - divisor_degree;
            let top = remainder[remainder_degree];
            let factor = top.mul(lead_inverse);
            let ghost q_before = quotient@;
            let ghost rb = remainder@;
            assert(rb.len() <= usize::MAX);
            let bumped = quotient[shift].add(factor);
            quotient.set(shift, bumped);
            let mut index: usize = 0;
            while index <= divisor_degree
                invariant
                    divisor.wf(),
                    dv == divisor@,
                    divisor_degree + 1 == dv.len(),
                    factor.wf(),
                    remainder@.len() == rb.len(),
                    rb.len() == shift + divisor_degree + 1,
                    rb.len() <= usize::MAX,
                    index <= divisor_degree + 1,
                    seq_wf(remainder@),
                    forall|m: int|
                        0 <= m < rb.len() ==> #[trigger] remainder@[m] == (if shift <= m < shift
                            + index {
                            rb[m].sub_spec(factor.mul_spec(dv[m - shift]))
                        } else {
                            rb[m]
                        }),
                decreases divisor_degree + 1 - index,
            {
                let position = shift + index;
                let term = factor.mul(divisor.coefficient(index));
                let updated = remainder[position].sub(term);
                remainder.set(position, updated);
                index += 1;
            }
            proof {
                let r2 = remainder@;
                // the invariant for the updated pair, before trimming
                assert forall|k: int| 0 <= k implies #[trigger] coeff_at(p, k) == conv_partial(
                    quotient@,
                    dv,
                    k,
                    quotient_length as int,
                ).add_spec(coeff_at(r2, k)) by {
                    lemma_conv_update(q_before, dv, k, quotient_length as int, shift as int, factor);
                    assert(quotient@ == q_before.update(
                        shift as int,
                        q_before[shift as int].add_spec(factor),
                    ));
                    let c = conv_partial(q_before, dv, k, quotient_length as int);
                    lemma_conv_partial_wf(q_before, dv, k, quotient_length as int);
                    if 0 <= k < rb.len() {
                        assert(rb[k].wf());
                    }
                    F::lemma_closure(zero, zero);
                    let rk = coeff_at(rb, k);
                    if shift <= k < rb.len() {
                        F::lemma_closure(factor, dv[k - shift]);
                        lemma_add_sub_cancel(c, rk, factor.mul_spec(dv[k - shift]));
                    } else {
                        lemma_zero_add(c);
                    }
                }
                // the leading coefficient cancels
                lemma_cancel_top(top, lead_inverse, lead);
                assert(r2[remainder_degree as int] == F::zero_spec());
                assert forall|k: int| 0 <= k implies #[trigger] coeff_at(p, k) == conv_partial(
                    quotient@,
                    dv,
                    k,
                    quotient_length as int,
                ).add_spec(coeff_at(trim(r2), k)) by {
                    lemma_coeff_trim(r2, k);
                }
                lemma_trim(r2);
                assert(r2.drop_last().len() == r2.len() - 1);
                assert(trim(r2) == trim(r2.drop_last()));
                lemma_trim(r2.drop_last());
            }
            trim_vec(&mut remainder);
        }
        let q = Self::from_coefficients(quotient);
        proof {
            lemma_trim(remainder@);
        }
        let rem = Self::from_coefficients(remainder);
        proof {
            let m = mul_seq(q@, dv);
            let s = add_seq(m, rem@);
            assert forall|i: int| 0 <= i < max_len(p.len(), s.len()) implies coeff_at(p, i)
                == coeff_at(s, i) by {
                lemma_mul_seq_coeff(quotient@, dv, i);
                lemma_coeff_trim(remainder@, i);
                if i >= m.len() && i >= rem@.len() {
                    lemma_zero_add(F::zero_spec());
                    F::lemma_closure(F::zero_spec(), F::zero_spec());
                }
            }
            lemma_trim_coeff_eq(p, s);
            lemma_trim(p);
        }
        Ok((q, rem))
    }
}

} // verus!
