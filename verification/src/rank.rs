//! How the rank of a mapping grows when a column is added.
use crate::lattice::{
    axpy, combination, generates, lemma_generates_axpy, lemma_generates_column,
    lemma_generates_through, lemma_spans_transitive, lemma_weighted_sum_agree, rectangular,
    same_lattice, spans, weighted_sum,
};
use crate::shape::{
    hermite_of, is_echelon, is_hermite_form_of, leading, lemma_leading, lemma_leading_is,
    lemma_rank_of, rank_of,
};
use crate::uniqueness::{
    leads_within, lemma_echelon_member, lemma_leading_found, lemma_same_lattice_same_form,
    lemma_spans_leads_within,
};
use vstd::prelude::*;

verus! {

/// A member of the lattice of `m` with `v` appended is a member of
/// the lattice of `m` plus a multiple of `v`.
proof fn lemma_split_last(m: Seq<Seq<int>>, v: Seq<int>, x: Seq<int>) -> (r: (Seq<int>, int))
    requires
        generates(m.push(v), x),
        v.len() == x.len(),
    ensures
        generates(m, r.0),
        r.0.len() == x.len(),
        x == axpy(1, r.0, r.1, v),
{
    let m2 = m.push(v);
    let d = x.len();
    let c = choose|c: Seq<int>| c.len() == m2.len() && #[trigger] combination(m2, c, x.len()) == x;
    let c1 = c.drop_last();
    let a = combination(m, c1, d);
    let k = c.last();
    assert forall|i: int| 0 <= i < d implies x[i] == 1 * a[i] + k * v[i] by {
        assert(combination(m2, c, d)[i] == x[i]);
        assert(weighted_sum(m2, c, i, m2.len()) == weighted_sum(m2, c, i, m.len()) + c[m.len() as int]
            * m2[m.len() as int][i]);
        lemma_weighted_sum_agree(m2, c, m, c1, i, m.len());
    }
    assert(x =~= axpy(1, a, k, v));
    (a, k)
}

/// Column `j` of `b` leads in a row in which no column of `a` leads.
spec fn leads_apart(a: Seq<Seq<int>>, b: Seq<Seq<int>>, d: nat, j: int) -> bool {
    &&& 0 <= j < b.len()
    &&& leading(b[j]) < d
    &&& forall|i: int| 0 <= i < a.len() ==> leading(#[trigger] a[i]) != leading(b[j])
}

/// With one column more, at most one column of the echelon form
/// leads in a new row.
proof fn lemma_one_new_row(
    m: Seq<Seq<int>>,
    v: Seq<int>,
    h: Seq<Seq<int>>,
    h2: Seq<Seq<int>>,
    d: nat,
    j1: int,
    j2: int,
)
    requires
        rectangular(m, d),
        v.len() == d,
        is_echelon(h, d),
        same_lattice(m, h),
        is_echelon(h2, d),
        same_lattice(m.push(v), h2),
        leads_apart(h, h2, d, j1),
        leads_apart(h, h2, d, j2),
        j1 <= j2,
    ensures
        j1 == j2,
{
    if j1 == j2 {
        return ;
    }
    let x1 = h2[j1];
    let x2 = h2[j2];
    let (a1, k1) = lemma_split_last(m, v, x1);
    let (a2, k2) = lemma_split_last(m, v, x2);
    lemma_leading(x1);
    lemma_leading(x2);
    let r1 = leading(x1);
    assert(r1 < leading(x2));
    if k1 == 0 {
        assert(x1 =~= a1);
        lemma_generates_through(h, m, x1);
        let i = lemma_echelon_member(h, d, x1);
        assert(false);
    }
    if k2 == 0 {
        assert(x2 =~= a2);
        lemma_generates_through(h, m, x2);
        let i = lemma_echelon_member(h, d, x2);
        assert(false);
    }
    let z = axpy(k2, a1, -k1, a2);
    lemma_generates_axpy(m, k2, a1, -k1, a2);
    lemma_generates_through(h, m, z);
    assert forall|i: int| 0 <= i < d implies z[i] == k2 * x1[i] - k1 * x2[i] by {
        let p = a1[i];
        let q = a2[i];
        let w = v[i];
        assert(x1[i] == 1 * p + k1 * w);
        assert(x2[i] == 1 * q + k2 * w);
        assert(k2 * p + (-k1) * q == k2 * (1 * p + k1 * w) - k1 * (1 * q + k2 * w))
            by (nonlinear_arith);
    }
    assert forall|i: int| 0 <= i < r1 implies z[i] == 0 by {
        assert(x1[i] == 0 && x2[i] == 0);
        assert(k2 * 0 - k1 * 0 == 0);
    }
    assert(z[r1] != 0) by {
        assert(x2[r1] == 0);
        assert(k2 * x1[r1] - k1 * 0 != 0) by (nonlinear_arith)
            requires
                k2 != 0,
                x1[r1] != 0,
        ;
    }
    lemma_leading_is(z, r1);
    let i = lemma_echelon_member(h, d, z);
    assert(false);
}

/// Taking a column out of an echelon matrix leaves an echelon matrix.
proof fn lemma_remove_echelon(h: Seq<Seq<int>>, d: nat, e: int)
    requires
        is_echelon(h, d),
        0 <= e < h.len(),
    ensures
        is_echelon(h.remove(e), d),
{
    let g = h.remove(e);
    assert forall|j: int| 0 <= j < g.len() implies #[trigger] g[j] == h[if j < e {
        j
    } else {
        j + 1
    }] by {}
    assert forall|i: int, j: int|
        0 <= i < j < g.len() && leading(#[trigger] g[j]) < d implies leading(#[trigger] g[i])
        < leading(g[j]) by {
        let i2 = if i < e { i } else { i + 1 };
        let j2 = if j < e { j } else { j + 1 };
        assert(g[i] == h[i2]);
        assert(g[j] == h[j2]);
    }
}

/// A column more does not lower the rank.
proof fn lemma_rank_not_less(
    m: Seq<Seq<int>>,
    v: Seq<int>,
    h: Seq<Seq<int>>,
    h2: Seq<Seq<int>>,
    d: nat,
)
    requires
        rectangular(m, d),
        v.len() == d,
        is_hermite_form_of(h, m, d),
        is_hermite_form_of(h2, m.push(v), d),
    ensures
        rank_of(h, d) <= rank_of(h2, d),
{
    let m2 = m.push(v);
    let k = rank_of(h, d);
    lemma_rank_of(h, d);
    lemma_rank_of(h2, d);
    assert(rectangular(m2, d));
    assert(spans(m2, m)) by {
        assert forall|j: int| 0 <= j < m.len() implies generates(m2, #[trigger] m[j]) by {
            lemma_generates_column(m2, j);
        }
    }
    lemma_spans_transitive(m2, m, h, d);
    lemma_spans_transitive(h2, m2, h, d);
    lemma_spans_leads_within(h, h2, d);
    if k > 0 {
        let g = lemma_leading_found(h, h2, d, k - 1);
    }
}

/// Without the one column that leads in a new row, the echelon form
/// of the larger matrix leads only where that of the smaller leads.
proof fn lemma_without_new_row(
    m: Seq<Seq<int>>,
    v: Seq<int>,
    h: Seq<Seq<int>>,
    h2: Seq<Seq<int>>,
    d: nat,
    e: int,
)
    requires
        rectangular(m, d),
        v.len() == d,
        is_echelon(h, d),
        same_lattice(m, h),
        is_echelon(h2, d),
        same_lattice(m.push(v), h2),
        leads_apart(h, h2, d, e),
    ensures
        leads_within(h2.remove(e), h, d),
{
    let a = h2.remove(e);
    assert forall|j: int| 0 <= j < a.len() && leading(#[trigger] a[j]) < d implies exists|i: int|
        0 <= i < h.len() && leading(#[trigger] h[i]) == leading(a[j]) by {
        let j2 = if j < e {
            j
        } else {
            j + 1
        };
        assert(a[j] == h2[j2]);
        if leads_apart(h, h2, d, j2) {
            if j2 < e {
                lemma_one_new_row(m, v, h, h2, d, j2, e);
            } else {
                lemma_one_new_row(m, v, h, h2, d, e, j2);
            }
        }
    }
}

/// A column more raises the rank by at most one.
proof fn lemma_rank_not_more(
    m: Seq<Seq<int>>,
    v: Seq<int>,
    h: Seq<Seq<int>>,
    h2: Seq<Seq<int>>,
    d: nat,
)
    requires
        rectangular(m, d),
        v.len() == d,
        is_hermite_form_of(h, m, d),
        is_hermite_form_of(h2, m.push(v), d),
    ensures
        rank_of(h2, d) <= rank_of(h, d) + 1,
{
    let k = rank_of(h, d);
    let k2 = rank_of(h2, d);
    lemma_rank_of(h, d);
    lemma_rank_of(h2, d);
    if k2 >= k + 2 {
        if exists|e: int| leads_apart(h, h2, d, e) {
            let e = choose|e: int| leads_apart(h, h2, d, e);
            let a = h2.remove(e);
            lemma_remove_echelon(h2, d, e);
            lemma_without_new_row(m, v, h, h2, d, e);
            let j = k2 - 2;
            let j2 = if j < e {
                j
            } else {
                j + 1
            };
            assert(a[j] == h2[j2]);
            let g = lemma_leading_found(a, h, d, j);
            assert(false);
        } else {
            assert forall|j: int| 0 <= j < h2.len() && leading(#[trigger] h2[j]) < d implies exists|
                i: int,
            |
                0 <= i < h.len() && leading(#[trigger] h[i]) == leading(h2[j]) by {
                assert(!leads_apart(h, h2, d, j));
            }
            let g = lemma_leading_found(h2, h, d, k2 - 1);
            assert(false);
        }
    }
}

/// Rank monotonicity: one more column raises the rank by one or
/// leaves it.  Stated of the Hermite normal forms `h` of `m` and
/// `h2` of `m` with `v` appended.
pub proof fn lemma_rank_monotone(
    m: Seq<Seq<int>>,
    v: Seq<int>,
    h: Seq<Seq<int>>,
    h2: Seq<Seq<int>>,
    d: nat,
)
    requires
        rectangular(m, d),
        v.len() == d,
        is_hermite_form_of(h, m, d),
        is_hermite_form_of(h2, m.push(v), d),
    ensures
        rank_of(h, d) <= rank_of(h2, d) <= rank_of(h, d) + 1,
{
    lemma_rank_not_less(m, v, h, h2, d);
    lemma_rank_not_more(m, v, h, h2, d);
}

/// The lattice has a Hermite normal form with as many columns as
/// the matrix.
pub open spec fn has_form(m: Seq<Seq<int>>, d: nat) -> bool {
    exists|h: Seq<Seq<int>>| is_hermite_form_of(h, m, d)
}

/// Rank monotonicity for the rank of the class: one more column
/// raises it by one or leaves it.
pub proof fn lemma_class_rank_monotone(m: Seq<Seq<int>>, v: Seq<int>, d: nat)
    requires
        rectangular(m, d),
        v.len() == d,
        has_form(m, d),
        has_form(m.push(v), d),
    ensures
        rank_of(hermite_of(m, d), d) <= rank_of(hermite_of(m.push(v), d), d) <= rank_of(
            hermite_of(m, d),
            d,
        ) + 1,
{
    lemma_rank_monotone(m, v, hermite_of(m, d), hermite_of(m.push(v), d), d);
}

/// A column in front of a matrix makes the class that the same
/// column behind it makes.
pub proof fn lemma_front_or_back(m: Seq<Seq<int>>, v: Seq<int>, d: nat)
    requires
        rectangular(m, d),
        v.len() == d,
        has_form(seq![v] + m, d),
        has_form(m.push(v), d),
    ensures
        hermite_of(seq![v] + m, d) == hermite_of(m.push(v), d),
{
    let front = seq![v] + m;
    let back = m.push(v);
    assert(rectangular(front, d)) by {
        assert forall|j: int| 0 <= j < front.len() implies (#[trigger] front[j]).len() == d by {
            if j > 0 {
                assert(front[j] == m[j - 1]);
            }
        }
    }
    assert(rectangular(back, d));
    assert(spans(front, back)) by {
        assert forall|j: int| 0 <= j < back.len() implies generates(front, #[trigger] back[j]) by {
            if j < m.len() {
                lemma_generates_column(front, j + 1);
            } else {
                lemma_generates_column(front, 0);
            }
        }
    }
    assert(spans(back, front)) by {
        assert forall|j: int| 0 <= j < front.len() implies generates(back, #[trigger] front[j]) by {
            if j > 0 {
                lemma_generates_column(back, j - 1);
            } else {
                lemma_generates_column(back, m.len() as int);
            }
        }
    }
    lemma_same_lattice_same_form(
        front,
        back,
        hermite_of(front, d),
        hermite_of(back, d),
        d,
    );
}

} // verus!
