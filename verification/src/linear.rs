//! Dot products of matrix rows with a vector, and how the row operations of
//! Gauss–Jordan elimination act on the right kernel.
use vstd::prelude::*;

use crate::field::{Field, FieldAxioms};
use crate::grs::GrsError;
use crate::polynomial::seq_wf;

verus! {

/// `Σ_{c < m} row[c] · x[c]`, accumulated from zero in increasing `c`.
pub open spec fn row_dot<F: Field>(row: Seq<F>, x: Seq<F>, m: int) -> F
    decreases m,
{
    if m <= 0 {
        F::zero_spec()
    } else {
        row_dot(row, x, m - 1).add_spec(row[m - 1].mul_spec(x[m - 1]))
    }
}

/// Every row has a zero dot product with `x` over the first `columns` entries.
pub open spec fn in_kernel<F: Field>(rows: Seq<Vec<F>>, x: Seq<F>, columns: nat) -> bool {
    forall|r: int| 0 <= r < rows.len() ==> row_dot(#[trigger] rows[r]@, x, columns as int) == F::zero_spec()
}

/// A vector of `columns` canonical entries.
pub open spec fn is_vector<F: Field>(x: Seq<F>, columns: nat) -> bool {
    x.len() == columns && seq_wf(x)
}

/// All rows have `columns` canonical entries.
pub open spec fn matrix_wf<F: Field>(matrix: Seq<Vec<F>>, columns: nat) -> bool {
    forall|r: int|
        0 <= r < matrix.len() ==> (#[trigger] matrix[r])@.len() == columns && seq_wf(matrix[r]@)
}

/// The term `row[c] · x[c]` if `c < m`, else zero.
pub open spec fn term_below<F: Field>(row: Seq<F>, x: Seq<F>, c: int, m: int) -> F {
    if 0 <= c < m {
        row[c].mul_spec(x[c])
    } else {
        F::zero_spec()
    }
}

pub proof fn lemma_row_dot_wf<F: Field>(row: Seq<F>, x: Seq<F>, m: int)
    requires
        F::field_valid(),
        m <= row.len(),
        m <= x.len(),
        seq_wf(row),
        seq_wf(x),
    ensures
        row_dot(row, x, m).wf(),
    decreases m,
{
    F::lemma_closure(F::zero_spec(), F::zero_spec());
    if m > 0 {
        lemma_row_dot_wf(row, x, m - 1);
        F::lemma_closure(row[m - 1], x[m - 1]);
        F::lemma_closure(row_dot(row, x, m - 1), row[m - 1].mul_spec(x[m - 1]));
    }
}

/// `0 + a = a = a + 0`, `0 · a = 0 = a · 0`, `−0 = 0`, `a − 0 = a`.
proof fn lemma_zero<F: FieldAxioms>(a: F)
    requires
        a.wf(),
    ensures
        F::zero_spec().add_spec(a) == a,
        a.add_spec(F::zero_spec()) == a,
        F::zero_spec().mul_spec(a) == F::zero_spec(),
        a.mul_spec(F::zero_spec()) == F::zero_spec(),
        F::zero_spec().neg_spec() == F::zero_spec(),
        a.sub_spec(F::zero_spec()) == a,
{
    F::lemma_closure(a, a);
    let z = F::zero_spec();
    F::lemma_closure(z, z);
    F::lemma_ring(a, z, z);
    F::lemma_ring(z, a, a);
    F::lemma_ring(z, z, z);
    // -0 = 0 + -0 = -0 + 0 ... : 0 + (-0) = 0, and 0 + (-0) = (-0) + 0 = -0
    F::lemma_ring(z.neg_spec(), z, z);
    F::lemma_ring(a, z.neg_spec(), z);
}

/// `u + v = 0` pins `v` as `−u`.
proof fn lemma_neg_unique<F: FieldAxioms>(u: F, v: F)
    requires
        u.wf(),
        v.wf(),
        u.add_spec(v) == F::zero_spec(),
    ensures
        v == u.neg_spec(),
{
    F::lemma_closure(u, v);
    F::lemma_closure(u, u);
    let n = u.neg_spec();
    lemma_zero(v);
    lemma_zero(n);
    // v = v + (u + n) = (v + u) + n = (u + v) + n = 0 + n = n
    F::lemma_ring(u, n, n);
    F::lemma_ring(v, u, n);
    F::lemma_ring(u, v, v);
}

/// `a − f·b = a + (−f)·b`.
proof fn lemma_sub_as_add<F: FieldAxioms>(a: F, f: F, b: F)
    requires
        a.wf(),
        f.wf(),
        b.wf(),
    ensures
        a.sub_spec(f.mul_spec(b)) == a.add_spec(f.neg_spec().mul_spec(b)),
{
    F::lemma_closure(f, b);
    F::lemma_closure(f, f);
    let nf = f.neg_spec();
    F::lemma_closure(nf, b);
    F::lemma_closure(f, nf);
    // f·b + (−f)·b = (f + −f)·b = 0·b = 0
    F::lemma_ring(b, f, nf);
    F::lemma_ring(f, b, b);
    F::lemma_ring(nf, b, b);
    F::lemma_ring(f, f, f);
    F::lemma_ring(f.add_spec(nf), b, b);
    lemma_zero(b);
    lemma_neg_unique(f.mul_spec(b), nf.mul_spec(b));
    F::lemma_ring(a, f.mul_spec(b), f.mul_spec(b));
}

/// If `new[c] = row[c] + g·p[c]` then `new·x = row·x + g·(p·x)`.
proof fn lemma_row_dot_combination<F: FieldAxioms>(
    row: Seq<F>,
    p: Seq<F>,
    new: Seq<F>,
    g: F,
    x: Seq<F>,
    m: int,
)
    requires
        F::field_valid(),
        0 <= m,
        m <= row.len(),
        m <= p.len(),
        m <= new.len(),
        m <= x.len(),
        seq_wf(row),
        seq_wf(p),
        seq_wf(x),
        g.wf(),
        forall|c: int| 0 <= c < m ==> #[trigger] new[c] == row[c].add_spec(g.mul_spec(p[c])),
    ensures
        row_dot(new, x, m) == row_dot(row, x, m).add_spec(g.mul_spec(row_dot(p, x, m))),
    decreases m,
{
    let z = F::zero_spec();
    F::lemma_closure(z, z);
    if m == 0 {
        lemma_zero(g);
        lemma_zero(z);
    } else {
        let k = m - 1;
        lemma_row_dot_combination(row, p, new, g, x, k);
        let (rr, pp) = (row_dot(row, x, k), row_dot(p, x, k));
        lemma_row_dot_wf(row, x, k);
        lemma_row_dot_wf(p, x, k);
        let (r, b, v) = (row[k], p[k], x[k]);
        F::lemma_closure(g, b);
        F::lemma_closure(r, v);
        F::lemma_closure(b, v);
        F::lemma_closure(g, pp);
        F::lemma_closure(g.mul_spec(b), v);
        F::lemma_closure(g, b.mul_spec(v));
        // (r + g·b)·v = r·v + (g·b)·v = r·v + g·(b·v)
        crate::laws::lemma_distribute_right(r, g.mul_spec(b), v);
        F::lemma_ring(g, b, v);
        // (R + g·P) + (r·v + g·(b·v)) = (R + r·v) + (g·P + g·(b·v))
        crate::laws::lemma_add_interchange(rr, g.mul_spec(pp), r.mul_spec(v), g.mul_spec(b.mul_spec(v)));
        // g·P + g·(b·v) = g·(P + b·v)
        F::lemma_ring(g, pp, b.mul_spec(v));
    }
}

/// If `new[c] = row[c]·s` then `new·x = (row·x)·s`.
proof fn lemma_row_dot_scale<F: FieldAxioms>(row: Seq<F>, new: Seq<F>, s: F, x: Seq<F>, m: int)
    requires
        F::field_valid(),
        0 <= m,
        m <= row.len(),
        m <= new.len(),
        m <= x.len(),
        seq_wf(row),
        seq_wf(x),
        s.wf(),
        forall|c: int| 0 <= c < m ==> #[trigger] new[c] == row[c].mul_spec(s),
    ensures
        row_dot(new, x, m) == row_dot(row, x, m).mul_spec(s),
    decreases m,
{
    let z = F::zero_spec();
    F::lemma_closure(z, z);
    if m == 0 {
        lemma_zero(s);
    } else {
        let k = m - 1;
        lemma_row_dot_scale(row, new, s, x, k);
        let rr = row_dot(row, x, k);
        lemma_row_dot_wf(row, x, k);
        let (r, v) = (row[k], x[k]);
        F::lemma_closure(r, v);
        F::lemma_closure(r, s);
        F::lemma_closure(s, v);
        // (r·s)·v = r·(s·v) = r·(v·s) = (r·v)·s
        F::lemma_ring(r, s, v);
        F::lemma_ring(s, v, v);
        F::lemma_ring(r, v, s);
        // (R + r·v)·s = R·s + (r·v)·s
        crate::laws::lemma_distribute_right(rr, r.mul_spec(v), s);
    }
}

/// A dot product whose terms vanish outside the positions `p` and `q`.
pub proof fn lemma_row_dot_support<F: FieldAxioms>(row: Seq<F>, x: Seq<F>, m: int, p: int, q: int)
    requires
        F::field_valid(),
        0 <= m,
        m <= row.len(),
        m <= x.len(),
        seq_wf(row),
        seq_wf(x),
        p != q,
        forall|c: int| 0 <= c < m && c != p && c != q ==> #[trigger] row[c].mul_spec(x[c]) == F::zero_spec(),
    ensures
        row_dot(row, x, m) == term_below(row, x, p, m).add_spec(term_below(row, x, q, m)),
    decreases m,
{
    let z = F::zero_spec();
    F::lemma_closure(z, z);
    lemma_zero(z);
    if m > 0 {
        let k = m - 1;
        lemma_row_dot_support(row, x, k, p, q);
        lemma_row_dot_wf(row, x, k);
        F::lemma_closure(row[k], x[k]);
        let (tp, tq) = (term_below(row, x, p, k), term_below(row, x, q, k));
        if 0 <= p < k {
            F::lemma_closure(row[p], x[p]);
        }
        if 0 <= q < k {
            F::lemma_closure(row[q], x[q]);
        }
        let t = row[k].mul_spec(x[k]);
        if k == p {
            lemma_zero(tq);
            F::lemma_ring(tq, t, t);
        } else if k == q {
            lemma_zero(tp);
        } else {
            lemma_zero(row_dot(row, x, k));
        }
    }
}

/// Swapping two rows keeps the kernel.
pub proof fn lemma_kernel_swap<F: Field>(rows: Seq<Vec<F>>, i: int, j: int, a: Vec<F>, b: Vec<F>, columns: nat)
    requires
        0 <= i < rows.len(),
        0 <= j < rows.len(),
        a@ == rows[i]@,
        b@ == rows[j]@,
    ensures
        forall|x: Seq<F>|
            #[trigger] in_kernel(rows.update(i, b).update(j, a), x, columns) == in_kernel(rows, x, columns),
{
    let swapped = rows.update(i, b).update(j, a);
    assert forall|x: Seq<F>| #[trigger]
        in_kernel(swapped, x, columns) == in_kernel(rows, x, columns) by {
        if in_kernel(swapped, x, columns) {
            assert forall|r: int| 0 <= r < rows.len() implies row_dot(
                #[trigger] rows[r]@,
                x,
                columns as int,
            ) == F::zero_spec() by {
                let s = if r == i {
                    j
                } else if r == j {
                    i
                } else {
                    r
                };
                assert(swapped[s]@ == rows[r]@);
            }
        }
        if in_kernel(rows, x, columns) {
            assert forall|r: int| 0 <= r < swapped.len() implies row_dot(
                #[trigger] swapped[r]@,
                x,
                columns as int,
            ) == F::zero_spec() by {
                let s = if r == j {
                    i
                } else if r == i {
                    j
                } else {
                    r
                };
                assert(swapped[r]@ == rows[s]@);
            }
        }
    }
}

/// Scaling a row by an invertible `s` keeps the kernel.
pub proof fn lemma_kernel_scale<F: FieldAxioms>(
    rows: Seq<Vec<F>>,
    p: int,
    new: Vec<F>,
    s: F,
    t: F,
    columns: nat,
)
    requires
        F::field_valid(),
        matrix_wf(rows, columns),
        0 <= p < rows.len(),
        new@.len() == columns,
        s.wf(),
        t.wf(),
        s.mul_spec(t) == F::one_spec(),
        forall|c: int| 0 <= c < columns ==> #[trigger] new@[c] == rows[p]@[c].mul_spec(s),
    ensures
        forall|x: Seq<F>|
            is_vector(x, columns) ==> #[trigger] in_kernel(rows.update(p, new), x, columns) == in_kernel(
                rows,
                x,
                columns,
            ),
{
    let updated = rows.update(p, new);
    assert forall|x: Seq<F>| is_vector(x, columns) implies #[trigger] in_kernel(updated, x, columns)
        == in_kernel(rows, x, columns) by {
        lemma_row_dot_scale(rows[p]@, new@, s, x, columns as int);
        let d = row_dot(rows[p]@, x, columns as int);
        lemma_row_dot_wf(rows[p]@, x, columns as int);
        lemma_zero(s);
        lemma_zero(t);
        if in_kernel(updated, x, columns) {
            assert(row_dot(updated[p]@, x, columns as int) == F::zero_spec());
            // d = d·(s·t) = (d·s)·t = 0·t = 0
            F::lemma_ring(d, s, t);
            assert forall|r: int| 0 <= r < rows.len() implies row_dot(
                #[trigger] rows[r]@,
                x,
                columns as int,
            ) == F::zero_spec() by {
                if r != p {
                    assert(updated[r]@ == rows[r]@);
                }
            }
        }
        if in_kernel(rows, x, columns) {
            assert(d == F::zero_spec());
            assert forall|r: int| 0 <= r < updated.len() implies row_dot(
                #[trigger] updated[r]@,
                x,
                columns as int,
            ) == F::zero_spec() by {
                if r != p {
                    assert(updated[r]@ == rows[r]@);
                }
            }
        }
    }
}

/// Subtracting a multiple of another row keeps the kernel.
pub proof fn lemma_kernel_eliminate<F: FieldAxioms>(
    rows: Seq<Vec<F>>,
    r: int,
    p: int,
    new: Vec<F>,
    f: F,
    columns: nat,
)
    requires
        F::field_valid(),
        matrix_wf(rows, columns),
        0 <= r < rows.len(),
        0 <= p < rows.len(),
        r != p,
        new@.len() == columns,
        f.wf(),
        forall|c: int| 0 <= c < columns ==> #[trigger] new@[c] == rows[r]@[c].sub_spec(f.mul_spec(rows[p]@[c])),
    ensures
        forall|x: Seq<F>|
            is_vector(x, columns) ==> #[trigger] in_kernel(rows.update(r, new), x, columns) == in_kernel(
                rows,
                x,
                columns,
            ),
{
    let updated = rows.update(r, new);
    let nf = f.neg_spec();
    F::lemma_closure(f, f);
    assert forall|c: int| 0 <= c < columns implies #[trigger] new@[c] == rows[r]@[c].add_spec(
        nf.mul_spec(rows[p]@[c]),
    ) by {
        lemma_sub_as_add(rows[r]@[c], f, rows[p]@[c]);
    }
    assert forall|x: Seq<F>| is_vector(x, columns) implies #[trigger] in_kernel(updated, x, columns)
        == in_kernel(rows, x, columns) by {
        lemma_row_dot_combination(rows[r]@, rows[p]@, new@, nf, x, columns as int);
        let (dr, dp) = (row_dot(rows[r]@, x, columns as int), row_dot(rows[p]@, x, columns as int));
        lemma_row_dot_wf(rows[r]@, x, columns as int);
        lemma_row_dot_wf(rows[p]@, x, columns as int);
        lemma_zero(nf);
        lemma_zero(dr);
        assert(updated[p]@ == rows[p]@);
        if in_kernel(updated, x, columns) {
            assert(dp == F::zero_spec());
            assert forall|i: int| 0 <= i < rows.len() implies row_dot(
                #[trigger] rows[i]@,
                x,
                columns as int,
            ) == F::zero_spec() by {
                if i != r {
                    assert(updated[i]@ == rows[i]@);
                } else {
                    assert(row_dot(updated[r]@, x, columns as int) == F::zero_spec());
                }
            }
        }
        if in_kernel(rows, x, columns) {
            assert(dp == F::zero_spec());
            assert forall|i: int| 0 <= i < updated.len() implies row_dot(
                #[trigger] updated[i]@,
                x,
                columns as int,
            ) == F::zero_spec() by {
                if i != r {
                    assert(updated[i]@ == rows[i]@);
                } else {
                    assert(dr == F::zero_spec());
                }
            }
        }
    }
}

/// Both matrices have the same right kernel over vectors of `columns` entries.
pub open spec fn same_kernel<F: Field>(a: Seq<Vec<F>>, b: Seq<Vec<F>>, columns: nat) -> bool {
    forall|x: Seq<F>| is_vector(x, columns) ==> #[trigger] in_kernel(a, x, columns) == in_kernel(b, x, columns)
}

/// The Gauss–Jordan shape after every column below `column` was processed
/// with the pivot columns `pivots`: pivot row `i` holds one at `pivots[i]`,
/// every other row holds zero there, and the rows below the pivot rows are
/// zero left of `column`.
pub open spec fn reduced_shape<F: Field>(m: Seq<Vec<F>>, pivots: Seq<usize>, column: int) -> bool {
    &&& forall|i: int| 0 <= i < pivots.len() ==> #[trigger] m[i]@[pivots[i] as int] == F::one_spec()
    &&& forall|i: int, r: int|
        #![trigger m[r]@[pivots[i] as int]]
        0 <= i < pivots.len() && 0 <= r < m.len() && r != i ==> m[r]@[pivots[i] as int] == F::zero_spec()
    &&& forall|r: int, c: int|
        #![trigger m[r]@[c]]
        pivots.len() <= r < m.len() && 0 <= c < column ==> m[r]@[c] == F::zero_spec()
}

proof fn lemma_same_kernel_chain<F: Field>(a: Seq<Vec<F>>, b: Seq<Vec<F>>, c: Seq<Vec<F>>, columns: nat)
    requires
        forall|x: Seq<F>| is_vector(x, columns) ==> #[trigger] in_kernel(a, x, columns) == in_kernel(b, x, columns),
        same_kernel(b, c, columns),
    ensures
        same_kernel(a, c, columns),
{
    assert forall|x: Seq<F>| is_vector(x, columns) implies #[trigger] in_kernel(a, x, columns)
        == in_kernel(c, x, columns) by {
        assert(in_kernel(a, x, columns) == in_kernel(b, x, columns));
        assert(in_kernel(b, x, columns) == in_kernel(c, x, columns));
    }
}

/// `f − f·1 = 0`.
proof fn lemma_cancel<F: FieldAxioms>(f: F)
    requires
        f.wf(),
    ensures
        f.sub_spec(f.mul_spec(F::one_spec())) == F::zero_spec(),
{
    F::lemma_ring(f, f, f);
}

/// When every column is a pivot column the kernel is zero.
proof fn lemma_all_pivots<F: FieldAxioms>(m: Seq<Vec<F>>, pc: Seq<usize>, x: Seq<F>, columns: nat, column: int)
    requires
        F::field_valid(),
        columns <= usize::MAX,
        matrix_wf(m, columns),
        reduced_shape(m, pc, column),
        pc.len() <= m.len(),
        forall|c: usize| c < columns ==> #[trigger] pc.contains(c),
        forall|i: int| 0 <= i < pc.len() ==> pc[i] < columns,
        is_vector(x, columns),
        in_kernel(m, x, columns),
    ensures
        forall|c: int| 0 <= c < columns ==> x[c] == F::zero_spec(),
{
    assert forall|c: int| 0 <= c < columns implies x[c] == F::zero_spec() by {
        assert(pc.contains(c as usize));
        let i = choose|i: int| 0 <= i < pc.len() && pc[i] == c as usize;
        assert forall|d: int| 0 <= d < columns && d != c && d != columns implies #[trigger] m[i]@[d].mul_spec(
            x[d],
        ) == F::zero_spec() by {
            assert(pc.contains(d as usize));
            let j = choose|j: int| 0 <= j < pc.len() && pc[j] == d as usize;
            assert(j != i);
            assert(m[i]@[pc[j] as int] == F::zero_spec());
            lemma_zero(x[d]);
        }
        lemma_row_dot_support(m[i]@, x, columns as int, c, columns as int);
        assert(m[i]@[pc[i] as int] == F::one_spec());
        F::lemma_ring(x[c], F::one_spec(), F::one_spec());
        F::lemma_closure(x[c], x[c]);
        lemma_zero(F::one_spec().mul_spec(x[c]));
        assert(row_dot(m[i]@, x, columns as int) == F::zero_spec());
    }
}

/// The solved vector of a reduced matrix lies in its kernel.
proof fn lemma_solution_in_kernel<F: FieldAxioms>(
    m: Seq<Vec<F>>,
    pc: Seq<usize>,
    free: int,
    x: Seq<F>,
    columns: nat,
    column: int,
)
    requires
        F::field_valid(),
        columns <= usize::MAX,
        matrix_wf(m, columns),
        reduced_shape(m, pc, column),
        column == columns || pc.len() == m.len(),
        pc.len() <= m.len(),
        forall|i: int| 0 <= i < pc.len() ==> pc[i] < columns,
        0 <= free < columns,
        !pc.contains(free as usize),
        is_vector(x, columns),
        x[free] == F::one_spec(),
        forall|i: int| 0 <= i < pc.len() ==> #[trigger] x[pc[i] as int] == m[i]@[free].neg_spec(),
        forall|j: int| 0 <= j < columns ==> #[trigger] x[j] == F::zero_spec() || j == free || pc.contains(j as usize),
    ensures
        in_kernel(m, x, columns),
{
    F::lemma_closure(F::one_spec(), F::one_spec());
    assert forall|r: int| 0 <= r < m.len() implies row_dot(#[trigger] m[r]@, x, columns as int)
        == F::zero_spec() by {
        if r < pc.len() {
            let q = pc[r] as int;
            assert(q != free) by {
                assert(pc[r] != free as usize);
            }
            assert forall|d: int| 0 <= d < columns && d != free && d != q implies #[trigger] m[r]@[d].mul_spec(
                x[d],
            ) == F::zero_spec() by {
                lemma_zero(m[r]@[d]);
                lemma_zero(x[d]);
                if pc.contains(d as usize) {
                    let j = choose|j: int| 0 <= j < pc.len() && pc[j] == d as usize;
                    assert(j != r);
                    assert(m[r]@[pc[j] as int] == F::zero_spec());
                } else {
                    assert(x[d] == F::zero_spec());
                }
            }
            lemma_row_dot_support(m[r]@, x, columns as int, free, q);
            let a = m[r]@[free];
            F::lemma_closure(a, a);
            F::lemma_ring(a, F::one_spec(), F::one_spec());
            F::lemma_ring(a.neg_spec(), F::one_spec(), F::one_spec());
            assert(m[r]@[q] == F::one_spec());
            assert(x[q] == a.neg_spec());
            F::lemma_ring(a, a, a);
        } else {
            assert forall|d: int| 0 <= d < columns implies #[trigger] m[r]@[d].mul_spec(x[d]) == F::zero_spec() by {
                assert(m[r]@[d] == F::zero_spec());
                lemma_zero(x[d]);
            }
            lemma_row_dot_support(m[r]@, x, columns as int, columns as int, columns + 1int);
            lemma_zero(F::zero_spec());
        }
    }
}

/// Every column is a pivot: a strictly increasing sequence shorter than `bound`
/// with entries below `bound` misses some value below `bound`.
proof fn lemma_free_column(s: Seq<usize>, bound: usize)
    requires
        s.len() < bound,
        forall|i: int| 0 <= i < s.len() ==> s[i] < bound,
        forall|i: int, j: int| 0 <= i < j < s.len() ==> s[i] < s[j],
    ensures
        exists|c: usize| c < bound && !#[trigger] s.contains(c),
    decreases bound,
{
    let top = (bound - 1) as usize;
    if !s.contains(top) {
        assert(top < bound && !s.contains(top));
    } else {
        let k = choose|k: int| 0 <= k < s.len() && s[k] == top;
        if k < s.len() - 1 {
            assert(s[k] < s[s.len() - 1]);
            assert(false);
        }
        let d = s.drop_last();
        lemma_free_column(d, top);
        let c = choose|c: usize| c < top && !d.contains(c);
        assert(!s.contains(c)) by {
            if s.contains(c) {
                let i = choose|i: int| 0 <= i < s.len() && s[i] == c;
                if i < s.len() - 1 {
                    assert(d[i] == c);
                }
            }
        }
    }
}

fn copy_row<F: Field>(row: &Vec<F>) -> (r: Vec<F>)
    ensures
        r@ == row@,
{
    let mut out: Vec<F> = Vec::with_capacity(row.len());
    let mut i: usize = 0;
    while i < row.len()
        invariant
            i <= row@.len(),
            out@ == row@.subrange(0, i as int),
        decreases row@.len() - i,
    {
        out.push(row[i]);
        i += 1;
    }
    assert(out@ =~= row@);
    out
}

fn contains_column(columns: &Vec<usize>, column: usize) -> (b: bool)
    ensures
        b == columns@.contains(column),
{
    let mut i: usize = 0;
    while i < columns.len()
        invariant
            i <= columns@.len(),
            forall|j: int| 0 <= j < i ==> columns@[j] != column,
        decreases columns@.len() - i,
    {
        if columns[i] == column {
            return true;
        }
        i += 1;
    }
    false
}

/// A nonzero vector of the matrix's right kernel by Gauss–Jordan elimination:
/// the first non-pivot column is set to one and the pivot variables are solved.
///
/// Over a field the result lies in the kernel, and an error means the kernel
/// holds only the zero vector.
#[verifier::spinoff_prover]
#[verifier::rlimit(50)]
pub fn nonzero_null_vector<F: FieldAxioms>(matrix: Vec<Vec<F>>, column_count: usize) -> (r: Result<
    Vec<F>,
    GrsError,
>)
    requires
        F::field_valid(),
        matrix_wf(matrix@, column_count as nat),
    ensures
        matrix@.len() < column_count ==> r is Ok,
        r matches Err(e) ==> e == GrsError::InterpolationHasNoNullspace,
        r matches Ok(solution) ==> solution@.len() == column_count && seq_wf(solution@),
        r matches Ok(solution) ==> exists|free: int|
            0 <= free < column_count && #[trigger] solution@[free] == F::one_spec(),
        r matches Ok(solution) ==> (F::is_field() ==> in_kernel(matrix@, solution@, column_count as nat)),
        r is Err ==> (F::is_field() ==> forall|x: Seq<F>|
            is_vector(x, column_count as nat) && #[trigger] in_kernel(matrix@, x, column_count as nat)
                ==> forall|c: int| 0 <= c < column_count ==> x[c] == F::zero_spec()),
{
    let ghost input = matrix@;
    let ghost field = F::is_field();
    let ghost cc = column_count as nat;
    proof {
        F::lemma_closure(F::one_spec(), F::one_spec());
    }
    let mut matrix = matrix;
    let rows = matrix.len();
    let mut pivot_columns: Vec<usize> = Vec::new();
    let mut pivot_row: usize = 0;
    let mut column: usize = 0;
    while column < column_count && pivot_row < rows
        invariant
            F::field_valid(),
            field == F::is_field(),
            cc == column_count,
            rows == matrix@.len(),
            matrix_wf(matrix@, cc),
            column <= column_count,
            pivot_row <= rows,
            pivot_columns@.len() == pivot_row,
            pivot_row <= column,
            forall|i: int| 0 <= i < pivot_columns@.len() ==> pivot_columns@[i] < column,
            forall|i: int, j: int|
                0 <= i < j < pivot_columns@.len() ==> pivot_columns@[i] < pivot_columns@[j],
            field ==> same_kernel(matrix@, input, cc),
            field ==> reduced_shape(matrix@, pivot_columns@, column as int),
        decreases column_count - column,
    {
        let mut found_row = pivot_row;
        while found_row < rows && matrix[found_row][column].is_zero()
            invariant
                F::field_valid(),
                rows == matrix@.len(),
                matrix_wf(matrix@, cc),
                cc == column_count,
                column < column_count,
                pivot_row <= found_row <= rows,
                forall|r: int| pivot_row <= r < found_row ==> #[trigger] matrix@[r]@[column as int] == F::zero_spec(),
            decreases rows - found_row,
        {
            found_row += 1;
        }
        if found_row < rows {
            let ghost m0 = matrix@;
            let row_a = copy_row(&matrix[pivot_row]);
            let row_b = copy_row(&matrix[found_row]);
            matrix.set(pivot_row, row_b);
            matrix.set(found_row, row_a);
            let ghost m1 = matrix@;
            proof {
                assert(m1 == m0.update(pivot_row as int, row_b).update(found_row as int, row_a));
                lemma_kernel_swap(m0, pivot_row as int, found_row as int, row_a, row_b, cc);
                if field {
                    lemma_same_kernel_chain(m1, m0, input, cc);
                    let pc = pivot_columns@;
                    assert forall|r: int| #![trigger m1[r]] 0 <= r < m1.len() implies exists|s: int|
                        #![trigger m0[s]]
                        0 <= s < m0.len() && m1[r]@ == m0[s]@ && (r < pivot_row ==> s == r) && (r
                            >= pivot_row ==> s >= pivot_row) by {
                        if r == found_row {
                            assert(m1[r]@ == m0[pivot_row as int]@);
                        } else if r == pivot_row {
                            assert(m1[r]@ == m0[found_row as int]@);
                        } else {
                            assert(m1[r]@ == m0[r]@);
                        }
                    }
                    assert forall|i: int, r: int|
                        #![trigger m1[r]@[pc[i] as int]]
                        0 <= i < pc.len() && 0 <= r < m1.len() && r != i implies m1[r]@[pc[i] as int]
                        == F::zero_spec() by {
                        let s = choose|s: int|
                            #![trigger m0[s]]
                            0 <= s < m0.len() && m1[r]@ == m0[s]@ && (r < pivot_row ==> s == r) && (r
                                >= pivot_row ==> s >= pivot_row);
                        assert(m0[s]@[pc[i] as int] == F::zero_spec());
                    }
                    assert forall|r: int, c: int|
                        #![trigger m1[r]@[c]]
                        pc.len() <= r < m1.len() && 0 <= c < column implies m1[r]@[c] == F::zero_spec() by {
                        let s = choose|s: int|
                            #![trigger m0[s]]
                            0 <= s < m0.len() && m1[r]@ == m0[s]@ && (r < pivot_row ==> s == r) && (r
                                >= pivot_row ==> s >= pivot_row);
                        assert(m0[s]@[c] == F::zero_spec());
                    }
                    assert forall|i: int| 0 <= i < pc.len() implies #[trigger] m1[i]@[pc[i] as int]
                        == F::one_spec() by {
                        assert(m1[i]@ == m0[i]@);
                    }
                }
                assert(m1[pivot_row as int]@[column as int] != F::zero_spec());
            }
            let pivot_value = matrix[pivot_row][column];
            let pivot_inverse = match pivot_value.inverse() {
                Some(inverse) => inverse,
                None => {
                    return Err(GrsError::InterpolationHasNoNullspace);
                },
            };
            proof {
                if field {
                    F::lemma_inverse(pivot_value);
                    F::lemma_ring(pivot_value, pivot_inverse, pivot_inverse);
                }
            }
            let mut pivot = copy_row(&matrix[pivot_row]);
            let ghost old_pivot = pivot@;
            let mut c = column;
            while c < column_count
                invariant
                    pivot@.len() == column_count,
                    old_pivot.len() == column_count,
                    seq_wf(pivot@),
                    seq_wf(old_pivot),
                    pivot_inverse.wf(),
                    column <= c <= column_count,
                    forall|j: int|
                        0 <= j < column_count ==> #[trigger] pivot@[j] == if column <= j < c {
                            old_pivot[j].mul_spec(pivot_inverse)
                        } else {
                            old_pivot[j]
                        },
                decreases column_count - c,
            {
                proof {
                    F::lemma_closure(pivot@[c as int], pivot_inverse);
                }
                let scaled = pivot[c].mul(pivot_inverse);
                pivot.set(c, scaled);
                c += 1;
            }
            let pivot_copy = copy_row(&pivot);
            matrix.set(pivot_row, pivot_copy);
            let ghost m2 = matrix@;
            proof {
                assert(m2 == m1.update(pivot_row as int, pivot_copy));
                if field {
                    let pc = pivot_columns@;
                    assert forall|j: int| 0 <= j < column implies #[trigger] pivot@[j] == F::zero_spec() by {
                        assert(m1[pivot_row as int]@[j] == F::zero_spec());
                    }
                    assert forall|j: int| 0 <= j < cc implies #[trigger] pivot_copy@[j]
                        == m1[pivot_row as int]@[j].mul_spec(pivot_inverse) by {
                        if j < column {
                            assert(m1[pivot_row as int]@[j] == F::zero_spec());
                            lemma_zero(pivot_inverse);
                        }
                    }
                    lemma_kernel_scale(m1, pivot_row as int, pivot_copy, pivot_inverse, pivot_value, cc);
                    lemma_same_kernel_chain(m2, m1, input, cc);
                    assert(pivot@[column as int] == F::one_spec());
                    assert forall|i: int, r: int|
                        #![trigger m2[r]@[pc[i] as int]]
                        0 <= i < pc.len() && 0 <= r < m2.len() && r != i implies m2[r]@[pc[i] as int]
                        == F::zero_spec() by {
                        assert(m1[r]@[pc[i] as int] == F::zero_spec());
                    }
                    assert forall|r: int, c: int|
                        #![trigger m2[r]@[c]]
                        pc.len() <= r < m2.len() && 0 <= c < column implies m2[r]@[c] == F::zero_spec() by {
                        assert(m1[r]@[c] == F::zero_spec());
                    }
                    assert forall|i: int| 0 <= i < pc.len() implies #[trigger] m2[i]@[pc[i] as int]
                        == F::one_spec() by {
                        assert(m2[i]@ == m1[i]@);
                    }
                }
            }
            let mut r: usize = 0;
            while r < rows
                invariant
                    F::field_valid(),
                    field == F::is_field(),
                    cc == column_count,
                    rows == matrix@.len(),
                    matrix_wf(matrix@, cc),
                    pivot@.len() == column_count,
                    seq_wf(pivot@),
                    column < column_count,
                    pivot_row < rows,
                    pivot_row <= column,
                    pivot_columns@.len() == pivot_row,
                    forall|i: int| 0 <= i < pivot_columns@.len() ==> pivot_columns@[i] < column,
                    r <= rows,
                    matrix@[pivot_row as int]@ == pivot@,
                    field ==> pivot@[column as int] == F::one_spec(),
                    field ==> forall|j: int| 0 <= j < column ==> #[trigger] pivot@[j] == F::zero_spec(),
                    field ==> same_kernel(matrix@, input, cc),
                    field ==> reduced_shape(matrix@, pivot_columns@, column as int),
                    field ==> forall|q: int|
                        0 <= q < r && q != pivot_row ==> #[trigger] matrix@[q]@[column as int] == F::zero_spec(),
                decreases rows - r,
            {
                if r != pivot_row {
                    let factor = matrix[r][column];
                    if !factor.is_zero() {
                        let mut row = copy_row(&matrix[r]);
                        let ghost old_row = row@;
                        let mut c = column;
                        while c < column_count
                            invariant
                                row@.len() == column_count,
                                old_row.len() == column_count,
                                pivot@.len() == column_count,
                                seq_wf(row@),
                                seq_wf(old_row),
                                seq_wf(pivot@),
                                factor.wf(),
                                column <= c <= column_count,
                                forall|j: int|
                                    0 <= j < column_count ==> #[trigger] row@[j] == if column <= j < c {
                                        old_row[j].sub_spec(factor.mul_spec(pivot@[j]))
                                    } else {
                                        old_row[j]
                                    },
                            decreases column_count - c,
                        {
                            proof {
                                F::lemma_closure(factor, pivot@[c as int]);
                                F::lemma_closure(row@[c as int], factor.mul_spec(pivot@[c as int]));
                            }
                            let updated = row[c].sub(factor.mul(pivot[c]));
                            row.set(c, updated);
                            c += 1;
                        }
                        let ghost m3 = matrix@;
                        matrix.set(r, row);
                        proof {
                            let m4 = matrix@;
                            assert(m4 == m3.update(r as int, row));
                            if field {
                                let pc = pivot_columns@;
                                assert forall|j: int| 0 <= j < cc implies #[trigger] row@[j]
                                    == m3[r as int]@[j].sub_spec(factor.mul_spec(m3[pivot_row as int]@[j])) by {
                                    if j < column {
                                        lemma_zero(factor);
                                        lemma_zero(old_row[j]);
                                    }
                                }
                                lemma_kernel_eliminate(m3, r as int, pivot_row as int, row, factor, cc);
                                lemma_same_kernel_chain(m4, m3, input, cc);
                                lemma_cancel(factor);
                                assert(m4[r as int]@[column as int] == F::zero_spec());
                                assert forall|i: int, q: int|
                                    #![trigger m4[q]@[pc[i] as int]]
                                    0 <= i < pc.len() && 0 <= q < m4.len() && q != i implies m4[q]@[pc[i]
                                        as int] == F::zero_spec() by {
                                    assert(m3[q]@[pc[i] as int] == F::zero_spec());
                                }
                                assert forall|q: int, c: int|
                                    #![trigger m4[q]@[c]]
                                    pc.len() <= q < m4.len() && 0 <= c < column implies m4[q]@[c]
                                        == F::zero_spec() by {
                                    assert(m3[q]@[c] == F::zero_spec());
                                }
                                assert forall|i: int| 0 <= i < pc.len() implies #[trigger] m4[i]@[pc[i]
                                    as int] == F::one_spec() by {
                                    if i != r {
                                        assert(m4[i]@ == m3[i]@);
                                    } else {
                                        assert(m3[i]@[pc[i] as int] == F::one_spec());
                                    }
                                }
                                assert forall|q: int|
                                    0 <= q < r + 1 && q != pivot_row implies #[trigger] m4[q]@[column
                                        as int] == F::zero_spec() by {
                                    if q != r {
                                        assert(m4[q]@ == m3[q]@);
                                    }
                                }
                            }
                        }
                    }
                }
                r += 1;
            }
            proof {
                if field {
                    let m = matrix@;
                    let pc = pivot_columns@;
                    let pc2 = pc.push(column);
                    assert forall|i: int| 0 <= i < pc2.len() implies #[trigger] m[i]@[pc2[i] as int]
                        == F::one_spec() by {
                        if i < pc.len() {
                            assert(pc2[i] == pc[i]);
                        }
                    }
                    assert forall|i: int, q: int|
                        #![trigger m[q]@[pc2[i] as int]]
                        0 <= i < pc2.len() && 0 <= q < m.len() && q != i implies m[q]@[pc2[i] as int]
                        == F::zero_spec() by {
                        if i < pc.len() {
                            assert(pc2[i] == pc[i]);
                        }
                    }
                    assert forall|q: int, c: int|
                        #![trigger m[q]@[c]]
                        pc2.len() <= q < m.len() && 0 <= c < column + 1 implies m[q]@[c] == F::zero_spec() by {
                        if c == column {
                            assert(q != pivot_row);
                        }
                    }
                }
            }
            pivot_columns.push(column);
            pivot_row += 1;
        } else {
            proof {
                if field {
                    let m = matrix@;
                    let pc = pivot_columns@;
                    assert forall|q: int, c: int|
                        #![trigger m[q]@[c]]
                        pc.len() <= q < m.len() && 0 <= c < column + 1 implies m[q]@[c] == F::zero_spec() by {
                        if c == column {
                            assert(m[q]@[column as int] == F::zero_spec());
                        }
                    }
                }
            }
        }
        column += 1;
    }
    let ghost m = matrix@;
    let ghost pc = pivot_columns@;
    let mut free_column: usize = 0;
    while free_column < column_count && contains_column(&pivot_columns, free_column)
        invariant
            free_column <= column_count,
            forall|c: usize| c < free_column ==> #[trigger] pivot_columns@.contains(c),
        decreases column_count - free_column,
    {
        free_column += 1;
    }
    if free_column == column_count {
        proof {
            if rows < column_count {
                lemma_free_column(pivot_columns@, column_count);
                let c = choose|c: usize| c < column_count && !pivot_columns@.contains(c);
                assert(pivot_columns@.contains(c));
            }
            if field {
                assert forall|x: Seq<F>|
                    is_vector(x, cc) && #[trigger] in_kernel(input, x, cc) implies forall|c: int|
                    0 <= c < column_count ==> x[c] == F::zero_spec() by {
                    assert(in_kernel(m, x, cc));
                    lemma_all_pivots(m, pc, x, cc, column as int);
                }
            }
        }
        return Err(GrsError::InterpolationHasNoNullspace);
    }
    let mut solution: Vec<F> = Vec::new();
    let zero = F::zero();
    while solution.len() < column_count
        invariant
            solution@.len() <= column_count,
            zero == F::zero_spec(),
            zero.wf(),
            seq_wf(solution@),
            forall|j: int| 0 <= j < solution@.len() ==> #[trigger] solution@[j] == F::zero_spec(),
        decreases column_count - solution@.len(),
    {
        solution.push(zero);
    }
    solution.set(free_column, F::one());
    let mut index: usize = 0;
    while index < pivot_columns.len()
        invariant
            F::field_valid(),
            m == matrix@,
            pc == pivot_columns@,
            rows == matrix@.len(),
            matrix_wf(matrix@, cc),
            cc == column_count,
            pivot_columns@.len() <= rows,
            forall|i: int| 0 <= i < pivot_columns@.len() ==> pivot_columns@[i] < column_count,
            forall|i: int, j: int|
                0 <= i < j < pivot_columns@.len() ==> pivot_columns@[i] < pivot_columns@[j],
            free_column < column_count,
            !pivot_columns@.contains(free_column),
            solution@.len() == column_count,
            seq_wf(solution@),
            solution@[free_column as int] == F::one_spec(),
            index <= pivot_columns@.len(),
            forall|i: int| 0 <= i < index ==> #[trigger] solution@[pc[i] as int] == m[i]@[free_column as int].neg_spec(),
            forall|j: int|
                0 <= j < column_count ==> #[trigger] solution@[j] == F::zero_spec() || j == free_column
                    || pc.subrange(0, index as int).contains(j as usize),
        decreases pivot_columns@.len() - index,
    {
        let target = pivot_columns[index];
        proof {
            assert(target != free_column) by {
                assert(pivot_columns@[index as int] == target);
            }
            F::lemma_closure(m[index as int]@[free_column as int], m[index as int]@[free_column as int]);
        }
        let ghost before = solution@;
        let value = matrix[index][free_column].neg();
        solution.set(target, value);
        proof {
            assert forall|i: int| 0 <= i < index + 1 implies #[trigger] solution@[pc[i] as int]
                == m[i]@[free_column as int].neg_spec() by {
                if i < index {
                    assert(pc[i] < pc[index as int]);
                }
            }
            assert forall|j: int| 0 <= j < column_count implies #[trigger] solution@[j] == F::zero_spec()
                || j == free_column || pc.subrange(0, index + 1).contains(j as usize) by {
                if j == target {
                    assert(pc.subrange(0, index + 1)[index as int] == target);
                } else if pc.subrange(0, index as int).contains(j as usize) {
                    let t = choose|t: int| 0 <= t < index && pc.subrange(0, index as int)[t] == j as usize;
                    assert(pc.subrange(0, index + 1)[t] == j as usize);
                }
            }
        }
        index += 1;
    }
    proof {
        assert(field ==> in_kernel(input, solution@, cc)) by {
            assert(pc.subrange(0, pc.len() as int) =~= pc);
            if field {
                let x = solution@;
                lemma_solution_in_kernel(m, pc, free_column as int, x, cc, column as int);
                assert(in_kernel(input, x, cc));
            }
        }
        assert(solution@[free_column as int] == F::one_spec());
    }
    let result: Result<Vec<F>, GrsError> = Ok(solution);
    proof {
        let v = result->Ok_0@;
        assert(v[free_column as int] == F::one_spec());
    }
    result
}

} // verus!
