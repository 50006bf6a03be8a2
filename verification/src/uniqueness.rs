//! The Hermite normal form of a lattice is unique.
use crate::lattice::{
    axpy, combination, generates, is_inverse, lemma_column_operation_keeps_lattice,
    lemma_generates_axpy, lemma_generates_column, lemma_same_lattice_reflexive,
    lemma_same_lattice_transitive, product, rectangular, same_lattice, spans, weighted_sum,
};
use crate::shape::{
    hermite_of, is_echelon, is_hermite, is_hermite_form_of, leading, lemma_leading,
    lemma_leading_is,
};
use vstd::prelude::*;

verus! {

/// The first column at or after `i` that leads somewhere and has a
/// non-zero coefficient, or the number of columns.
spec fn first_active(h: Seq<Seq<int>>, c: Seq<int>, d: nat, i: int) -> int
    decreases h.len() - i,
{
    if i >= h.len() {
        h.len() as int
    } else if c[i] != 0 && leading(h[i]) < d {
        i
    } else {
        first_active(h, c, d, i + 1)
    }
}

proof fn lemma_first_active(h: Seq<Seq<int>>, c: Seq<int>, d: nat, i: int)
    requires
        0 <= i <= h.len(),
    ensures
        i <= first_active(h, c, d, i) <= h.len(),
        forall|j: int|
            i <= j < first_active(h, c, d, i) ==> c[j] == 0 || leading(#[trigger] h[j]) >= d,
        first_active(h, c, d, i) < h.len() ==> c[first_active(h, c, d, i)] != 0 && leading(
            h[first_active(h, c, d, i)],
        ) < d,
    decreases h.len() - i,
{
    if i < h.len() && !(c[i] != 0 && leading(h[i]) < d) {
        lemma_first_active(h, c, d, i + 1);
    }
}

/// A sum in which every term but one vanishes.
proof fn lemma_weighted_sum_single(m: Seq<Seq<int>>, c: Seq<int>, i: int, n: nat, j0: int)
    requires
        forall|j: int| 0 <= j < n && j != j0 ==> c[j] * m[j][i] == 0,
    ensures
        weighted_sum(m, c, i, n) == if 0 <= j0 < n {
            c[j0] * m[j0][i]
        } else {
            0
        },
    decreases n,
{
    if n > 0 {
        lemma_weighted_sum_single(m, c, i, (n - 1) as nat, j0);
    }
}

/// A non-zero member of the lattice of an echelon matrix leads where
/// one of the columns leads, and its leading entry is a non-zero
/// multiple of that column's leading entry.
pub proof fn lemma_echelon_member(h: Seq<Seq<int>>, d: nat, x: Seq<int>) -> (j: int)
    requires
        is_echelon(h, d),
        generates(h, x),
        x.len() == d,
        leading(x) < d,
    ensures
        0 <= j < h.len(),
        leading(h[j]) == leading(x),
        x[leading(x)] >= h[j][leading(x)] || x[leading(x)] <= -h[j][leading(x)],
{
    let c = choose|c: Seq<int>| c.len() == h.len() && #[trigger] combination(h, c, x.len()) == x;
    let j0 = first_active(h, c, d, 0);
    lemma_first_active(h, c, d, 0);
    lemma_leading(x);
    assert forall|j: int| 0 <= j < h.len() implies leading(#[trigger] h[j]) <= d by {
        lemma_leading(h[j]);
    }
    if j0 >= h.len() {
        let r = leading(x);
        assert forall|j: int| 0 <= j < h.len() && j != j0 implies c[j] * h[j][r] == 0 by {
            if c[j] != 0 {
                lemma_leading(h[j]);
                assert(h[j][r] == 0);
            }
            assert(c[j] == 0 || h[j][r] == 0);
            assert(c[j] * h[j][r] == 0) by (nonlinear_arith)
                requires
                    c[j] == 0 || h[j][r] == 0,
            ;
        }
        lemma_weighted_sum_single(h, c, r, h.len(), j0);
        assert(combination(h, c, d)[r] == 0);
        assert(false);
    }
    let r0 = leading(h[j0]);
    lemma_leading(h[j0]);
    assert forall|i: int| 0 <= i <= r0 implies x[i] == c[j0] * h[j0][i] by {
        assert forall|j: int| 0 <= j < h.len() && j != j0 implies c[j] * h[j][i] == 0 by {
            if j < j0 {
                assert(leading(h[j]) < leading(h[j0]));
                assert(c[j] == 0);
            } else {
                lemma_leading(h[j]);
                if leading(h[j]) < d {
                    assert(leading(h[j0]) < leading(h[j]));
                }
                assert(h[j][i] == 0);
            }
            assert(c[j] * h[j][i] == 0) by (nonlinear_arith)
                requires
                    c[j] == 0 || h[j][i] == 0,
            ;
        }
        lemma_weighted_sum_single(h, c, i, h.len(), j0);
        assert(combination(h, c, d)[i] == x[i]);
    }
    let p = h[j0][r0];
    let k = c[j0];
    assert(k * p >= p || k * p <= -p) by (nonlinear_arith)
        requires
            k != 0,
            p > 0,
    ;
    assert forall|i: int| 0 <= i < r0 implies x[i] == 0 by {
        assert(h[j0][i] == 0);
        assert(c[j0] * h[j0][i] == 0) by (nonlinear_arith)
            requires
                h[j0][i] == 0,
        ;
    }
    lemma_leading_is(x, r0);
    j0
}

/// Different columns of an echelon matrix lead in different rows.
proof fn lemma_leading_injective(h: Seq<Seq<int>>, d: nat, i: int, j: int)
    requires
        is_echelon(h, d),
        0 <= i < h.len(),
        0 <= j < h.len(),
        leading(h[i]) < d,
        leading(h[i]) == leading(h[j]),
    ensures
        i == j,
{
    if i < j {
        assert(leading(h[i]) < leading(h[j]));
    }
    if j < i {
        assert(leading(h[j]) < leading(h[i]));
    }
}

/// Every row in which a column of `a` leads is one in which a
/// column of `b` leads.
pub open spec fn leads_within(a: Seq<Seq<int>>, b: Seq<Seq<int>>, d: nat) -> bool {
    forall|j: int|
        0 <= j < a.len() && leading(#[trigger] a[j]) < d ==> exists|k: int|
            0 <= k < b.len() && leading(#[trigger] b[k]) == leading(a[j])
}

/// An echelon matrix leads only where an echelon matrix that spans
/// it leads.
pub proof fn lemma_spans_leads_within(a: Seq<Seq<int>>, b: Seq<Seq<int>>, d: nat)
    requires
        is_echelon(a, d),
        is_echelon(b, d),
        spans(b, a),
    ensures
        leads_within(a, b, d),
{
    assert forall|j: int| 0 <= j < a.len() && leading(#[trigger] a[j]) < d implies exists|k: int|
        0 <= k < b.len() && leading(#[trigger] b[k]) == leading(a[j]) by {
        let k = lemma_echelon_member(b, d, a[j]);
    }
}

/// The leading row of column `j` of `a` is the leading row of a
/// column of `b` that stands no further left.
pub proof fn lemma_leading_found(a: Seq<Seq<int>>, b: Seq<Seq<int>>, d: nat, j: int) -> (k: int)
    requires
        is_echelon(a, d),
        is_echelon(b, d),
        leads_within(a, b, d),
        0 <= j < a.len(),
        leading(a[j]) < d,
    ensures
        j <= k < b.len(),
        leading(b[k]) == leading(a[j]),
    decreases j,
{
    let k = choose|k: int| 0 <= k < b.len() && leading(#[trigger] b[k]) == leading(a[j]);
    if j > 0 {
        assert(leading(a[j - 1]) < leading(a[j]));
        let k0 = lemma_leading_found(a, b, d, j - 1);
        if k <= k0 {
            if k < k0 {
                assert(leading(b[k]) < leading(b[k0]));
            }
            assert(false);
        }
    }
    k
}

/// Two echelon matrices with the same lattice and as many columns
/// lead in the same rows.
pub proof fn lemma_same_leading(a: Seq<Seq<int>>, b: Seq<Seq<int>>, d: nat, j: int)
    requires
        is_echelon(a, d),
        is_echelon(b, d),
        a.len() == b.len(),
        same_lattice(a, b),
        0 <= j < a.len(),
    ensures
        leading(a[j]) == leading(b[j]),
{
    lemma_leading(a[j]);
    lemma_leading(b[j]);
    lemma_spans_leads_within(a, b, d);
    lemma_spans_leads_within(b, a, d);
    if leading(a[j]) < d {
        let k = lemma_leading_found(a, b, d, j);
        let l = lemma_leading_found(b, a, d, k);
        lemma_leading_injective(a, d, j, l);
    } else if leading(b[j]) < d {
        let k = lemma_leading_found(b, a, d, j);
        let l = lemma_leading_found(a, b, d, k);
        lemma_leading_injective(b, d, j, l);
    }
}

/// Two echelon matrices with the same lattice and as many columns
/// have the same leading entries.
proof fn lemma_same_pivot(a: Seq<Seq<int>>, b: Seq<Seq<int>>, d: nat, j: int)
    requires
        is_echelon(a, d),
        is_echelon(b, d),
        a.len() == b.len(),
        same_lattice(a, b),
        0 <= j < a.len(),
        leading(a[j]) < d,
    ensures
        a[j][leading(a[j])] == b[j][leading(a[j])],
{
    let r = leading(a[j]);
    lemma_same_leading(a, b, d, j);
    lemma_leading(a[j]);
    lemma_leading(b[j]);
    if a[j][r] != b[j][r] {
        let x = axpy(1, a[j], -1, b[j]);
        let y = axpy(1, b[j], -1, a[j]);
        lemma_generates_column(a, j);
        lemma_generates_column(b, j);
        lemma_generates_axpy(b, 1, a[j], -1, b[j]);
        lemma_generates_axpy(a, 1, b[j], -1, a[j]);
        lemma_leading_is(x, r);
        lemma_leading_is(y, r);
        let kx = lemma_echelon_member(b, d, x);
        let ky = lemma_echelon_member(a, d, y);
        lemma_leading_injective(b, d, j, kx);
        lemma_leading_injective(a, d, j, ky);
        assert(false);
    }
}

/// Two matrices in Hermite normal form with the same lattice and as
/// many columns have the same columns.
proof fn lemma_same_column(a: Seq<Seq<int>>, b: Seq<Seq<int>>, d: nat, j: int)
    requires
        is_hermite(a, d),
        is_hermite(b, d),
        a.len() == b.len(),
        same_lattice(a, b),
        0 <= j < a.len(),
    ensures
        a[j] == b[j],
{
    let r = leading(a[j]);
    lemma_same_leading(a, b, d, j);
    lemma_leading(a[j]);
    lemma_leading(b[j]);
    if r < d {
        lemma_same_pivot(a, b, d, j);
        let x = axpy(1, a[j], -1, b[j]);
        lemma_generates_column(b, j);
        lemma_generates_axpy(b, 1, a[j], -1, b[j]);
        lemma_leading(x);
        let rx = leading(x);
        if rx < d {
            assert(rx > r) by {
                if rx <= r {
                    assert(x[rx] == 1 * a[j][rx] + (-1) * b[j][rx]);
                }
            }
            let k = lemma_echelon_member(b, d, x);
            assert(k > j) by {
                if k < j {
                    assert(leading(b[k]) < leading(b[j]));
                }
            }
            lemma_same_leading(a, b, d, k);
            lemma_same_pivot(a, b, d, k);
            assert(0 <= a[j][rx] < a[k][rx]);
            assert(0 <= b[j][rx] < b[k][rx]);
            assert(x[rx] == 1 * a[j][rx] + (-1) * b[j][rx]);
            assert(false);
        }
        assert forall|i: int| 0 <= i < d implies a[j][i] == b[j][i] by {
            assert(x[i] == 0);
            assert(x[i] == 1 * a[j][i] + (-1) * b[j][i]);
        }
    }
    assert(a[j] =~= b[j]);
}

/// A lattice has one Hermite normal form: two matrices of that shape
/// with as many columns and the same lattice are equal.
pub proof fn lemma_hermite_unique(a: Seq<Seq<int>>, b: Seq<Seq<int>>, d: nat)
    requires
        is_hermite(a, d),
        is_hermite(b, d),
        a.len() == b.len(),
        same_lattice(a, b),
    ensures
        a == b,
{
    assert forall|j: int| 0 <= j < a.len() implies a[j] == b[j] by {
        lemma_same_column(a, b, d, j);
    }
    assert(a =~= b);
}

/// A matrix of the normal shape that has the lattice of `m` and as
/// many columns is the Hermite normal form of `m`.
pub proof fn lemma_hermite_of(m: Seq<Seq<int>>, h: Seq<Seq<int>>, d: nat)
    requires
        rectangular(m, d),
        is_hermite_form_of(h, m, d),
    ensures
        hermite_of(m, d) == h,
{
    let g = hermite_of(m, d);
    lemma_same_lattice_transitive(g, m, h, d);
    lemma_hermite_unique(g, h, d);
}

/// Mappings with as many columns that span the same lattice have the
/// same Hermite normal form.  In particular a column operation with
/// an integer inverse, which keeps the lattice, keeps the normal
/// form and with it the key.
pub proof fn lemma_same_lattice_same_form(
    m1: Seq<Seq<int>>,
    m2: Seq<Seq<int>>,
    h1: Seq<Seq<int>>,
    h2: Seq<Seq<int>>,
    d: nat,
)
    requires
        rectangular(m1, d),
        rectangular(m2, d),
        m1.len() == m2.len(),
        same_lattice(m1, m2),
        is_hermite_form_of(h1, m1, d),
        is_hermite_form_of(h2, m2, d),
    ensures
        h1 == h2,
{
    lemma_same_lattice_transitive(h1, m1, m2, d);
    lemma_same_lattice_transitive(h1, m2, h2, d);
    lemma_hermite_unique(h1, h2, d);
}

/// The Hermite normal form of a Hermite normal form is that form.
pub proof fn lemma_hermite_idempotent(m: Seq<Seq<int>>, h: Seq<Seq<int>>, d: nat)
    requires
        is_hermite_form_of(h, m, d),
    ensures
        is_hermite_form_of(h, h, d),
        hermite_of(h, d) == h,
{
    lemma_same_lattice_reflexive(h);
    lemma_hermite_of(h, h, d);
}

/// Key uniqueness: a column operation with an integer inverse
/// leaves the Hermite normal form as it is, and with it the key.
pub proof fn lemma_column_operation_keeps_form(
    m: Seq<Seq<int>>,
    u: Seq<Seq<int>>,
    v: Seq<Seq<int>>,
    h1: Seq<Seq<int>>,
    h2: Seq<Seq<int>>,
    d: nat,
)
    requires
        rectangular(m, d),
        is_inverse(u, v, m.len()),
        is_hermite_form_of(h1, m, d),
        is_hermite_form_of(h2, product(m, u, d), d),
    ensures
        h1 == h2,
        hermite_of(product(m, u, d), d) == hermite_of(m, d),
{
    lemma_column_operation_keeps_lattice(m, u, v, d);
    lemma_hermite_of(m, h1, d);
    lemma_hermite_of(product(m, u, d), h2, d);
    lemma_same_lattice_same_form(m, product(m, u, d), h1, h2, d);
}

} // verus!
