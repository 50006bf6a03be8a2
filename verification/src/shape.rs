//! Column echelon shapes and the Hermite normal form as predicates.
use crate::lattice::{rectangular, same_lattice};
use vstd::prelude::*;

verus! {

/// A column of machine integers as a vector of integers.
pub open spec fn ints(v: Seq<i32>) -> Seq<int> {
    Seq::new(v.len(), |i: int| v[i] as int)
}

/// A list of columns of machine integers as a matrix.
pub open spec fn columns(m: Seq<Vec<i32>>) -> Seq<Seq<int>> {
    Seq::new(m.len(), |j: int| ints(m[j]@))
}

/// Index of the first non-zero entry of `v` at or after `i`,
/// or the length of `v` where there is none.
pub open spec fn leading_from(v: Seq<int>, i: int) -> int
    decreases v.len() - i,
{
    if i >= v.len() {
        v.len() as int
    } else if v[i] != 0 {
        i
    } else {
        leading_from(v, i + 1)
    }
}

/// Index of the first non-zero entry of `v`, or its length for a zero vector.
pub open spec fn leading(v: Seq<int>) -> int {
    leading_from(v, 0)
}

/// Columns whose leading entries are positive and move strictly down
/// from left to right, with the zero columns last.
pub open spec fn is_echelon(h: Seq<Seq<int>>, d: nat) -> bool {
    &&& rectangular(h, d)
    &&& forall|j: int|
        0 <= j < h.len() && leading(#[trigger] h[j]) < d ==> h[j][leading(h[j])] > 0
    &&& forall|i: int, j: int|
        0 <= i < j < h.len() && leading(#[trigger] h[j]) < d ==> leading(#[trigger] h[i])
            < leading(h[j])
}

/// An echelon matrix in which every entry to the left of a leading
/// entry is reduced modulo that entry.
pub open spec fn is_hermite(h: Seq<Seq<int>>, d: nat) -> bool {
    &&& is_echelon(h, d)
    &&& forall|i: int, j: int|
        0 <= i < j < h.len() && leading(#[trigger] h[j]) < d ==> 0 <= (#[trigger] h[i])[leading(
            h[j],
        )] < h[j][leading(h[j])]
}

/// `h` is the Hermite normal form of `m`: it has as many columns,
/// the same lattice, and the normal shape.
pub open spec fn is_hermite_form_of(h: Seq<Seq<int>>, m: Seq<Seq<int>>, d: nat) -> bool {
    &&& h.len() == m.len()
    &&& is_hermite(h, d)
    &&& same_lattice(m, h)
}

/// The Hermite normal form of `m`, where it has one.
pub open spec fn hermite_of(m: Seq<Seq<int>>, d: nat) -> Seq<Seq<int>> {
    choose|h: Seq<Seq<int>>| is_hermite_form_of(h, m, d)
}

/// How many of the first `n` columns are not zero.
pub open spec fn nonzero_columns(h: Seq<Seq<int>>, d: nat, n: nat) -> nat
    decreases n,
{
    if n == 0 {
        0
    } else {
        nonzero_columns(h, d, (n - 1) as nat) + if leading(h[n - 1]) < d {
            1nat
        } else {
            0nat
        }
    }
}

/// The rank of a matrix in echelon shape: the number of its columns
/// that are not zero.
pub open spec fn rank_of(h: Seq<Seq<int>>, d: nat) -> nat {
    nonzero_columns(h, d, h.len())
}

proof fn lemma_leading_from(v: Seq<int>, i: int)
    requires
        0 <= i <= v.len(),
    ensures
        i <= leading_from(v, i) <= v.len(),
        forall|k: int| i <= k < leading_from(v, i) ==> v[k] == 0,
        leading_from(v, i) < v.len() ==> v[leading_from(v, i)] != 0,
    decreases v.len() - i,
{
    if i < v.len() && v[i] == 0 {
        lemma_leading_from(v, i + 1);
    }
}

/// What the leading index is: everything before it is zero, and the
/// entry at it is not.
pub proof fn lemma_leading(v: Seq<int>)
    ensures
        0 <= leading(v) <= v.len(),
        forall|k: int| 0 <= k < leading(v) ==> v[k] == 0,
        leading(v) < v.len() ==> v[leading(v)] != 0,
{
    lemma_leading_from(v, 0);
}

proof fn lemma_leading_from_is(v: Seq<int>, i: int, r: int)
    requires
        0 <= i <= r <= v.len(),
        forall|k: int| i <= k < r ==> v[k] == 0,
        r < v.len() ==> v[r] != 0,
    ensures
        leading_from(v, i) == r,
    decreases r - i,
{
    if i < r {
        lemma_leading_from_is(v, i + 1, r);
    }
}

/// The leading index is the only index with that property.
pub proof fn lemma_leading_is(v: Seq<int>, r: int)
    requires
        0 <= r <= v.len(),
        forall|k: int| 0 <= k < r ==> v[k] == 0,
        r < v.len() ==> v[r] != 0,
    ensures
        leading(v) == r,
{
    lemma_leading_from_is(v, 0, r);
}

/// Two vectors that agree up to and including the leading index of
/// one of them have the same leading index.
pub proof fn lemma_leading_agree(v: Seq<int>, w: Seq<int>)
    requires
        v.len() == w.len(),
        leading(v) < v.len(),
        forall|k: int| 0 <= k <= leading(v) ==> v[k] == w[k],
    ensures
        leading(w) == leading(v),
{
    lemma_leading(v);
    lemma_leading_is(w, leading(v));
}

/// All columns have `d` entries.
pub open spec fn has_rows(m: Seq<Vec<i32>>, d: nat) -> bool {
    forall|j: int| 0 <= j < m.len() ==> (#[trigger] m[j]).len() == d
}

/// The shape of a matrix whose rows above `row` are cleared: the
/// first `settled` columns lead strictly downwards in those rows,
/// and the others are zero there.
pub open spec fn echelon_upto(h: Seq<Seq<int>>, d: nat, settled: int, row: int) -> bool {
    &&& rectangular(h, d)
    &&& 0 <= settled <= h.len()
    &&& 0 <= row <= d
    &&& forall|j: int|
        0 <= j < settled ==> leading(#[trigger] h[j]) < row && h[j][leading(h[j])] > 0
    &&& forall|i: int, j: int|
        0 <= i < j < settled ==> leading(#[trigger] h[i]) < leading(#[trigger] h[j])
    &&& forall|j: int, i: int| settled <= j < h.len() && 0 <= i < row ==> #[trigger] h[j][i] == 0
}

/// With every row cleared the matrix is in echelon shape.
pub proof fn lemma_echelon_complete(h: Seq<Seq<int>>, d: nat, settled: int)
    requires
        echelon_upto(h, d, settled, d as int),
    ensures
        is_echelon(h, d),
        forall|j: int| 0 <= j < h.len() ==> (leading(#[trigger] h[j]) < d <==> j < settled),
{
    assert forall|j: int| settled <= j < h.len() implies leading(#[trigger] h[j]) == d by {
        assert forall|i: int| 0 <= i < d implies h[j][i] == 0 by {}
        lemma_leading_is(h[j], d as int);
    }
}

/// Replacing a column that is not settled by one that is zero above
/// `row` keeps the shape.
pub proof fn lemma_echelon_upto_update(
    h: Seq<Seq<int>>,
    d: nat,
    settled: int,
    row: int,
    k: int,
    v: Seq<int>,
)
    requires
        echelon_upto(h, d, settled, row),
        settled <= k < h.len(),
        v.len() == d,
        forall|i: int| 0 <= i < row ==> v[i] == 0,
    ensures
        echelon_upto(h.update(k, v), d, settled, row),
{
    let g = h.update(k, v);
    assert forall|j: int| 0 <= j < settled implies leading(#[trigger] g[j]) < row && g[j][leading(
        g[j],
    )] > 0 by {
        assert(g[j] == h[j]);
    }
    assert forall|i: int, j: int| 0 <= i < j < settled implies leading(#[trigger] g[i]) < leading(
        #[trigger] g[j],
    ) by {
        assert(g[i] == h[i]);
        assert(g[j] == h[j]);
    }
    assert forall|j: int, i: int| settled <= j < g.len() && 0 <= i < row implies #[trigger] g[j][i]
        == 0 by {
        if j != k {
            assert(h[j][i] == 0);
        }
    }
}

/// The number of rows of a list of columns: the length of the first.
pub open spec fn row_count(m: Seq<Vec<i32>>) -> nat {
    if m.len() == 0 {
        0
    } else {
        m[0]@.len()
    }
}

/// All columns are as long as the first.
pub open spec fn is_matrix(m: Seq<Vec<i32>>) -> bool {
    has_rows(m, row_count(m))
}

/// The columns of a list with `d` rows form a rectangular matrix.
pub proof fn lemma_has_rows(m: Seq<Vec<i32>>, d: nat)
    requires
        has_rows(m, d),
    ensures
        rectangular(columns(m), d),
{
    assert forall|j: int| 0 <= j < columns(m).len() implies (#[trigger] columns(m)[j]).len()
        == d by {
        assert(m[j].len() == d);
    }
}

/// The part of the Hermite condition that concerns the leading
/// entries of the first `n` columns.
pub open spec fn hermite_upto(h: Seq<Seq<int>>, d: nat, n: int) -> bool {
    forall|i: int, j: int|
        0 <= i < j < n && j < h.len() && leading(#[trigger] h[j]) < d ==> 0 <= (#[trigger] h[i])[leading(
            h[j],
        )] < h[j][leading(h[j])]
}

/// Changing an earlier column below the leading row of column `j`
/// keeps the echelon shape and what is reduced so far.
pub proof fn lemma_reduce_step(h: Seq<Seq<int>>, d: nat, j: int, k: int, v: Seq<int>)
    requires
        is_echelon(h, d),
        hermite_upto(h, d, j),
        0 <= k < j < h.len(),
        leading(h[j]) < d,
        v.len() == d,
        forall|i: int| 0 <= i < leading(h[j]) ==> v[i] == h[k][i],
    ensures
        is_echelon(h.update(k, v), d),
        hermite_upto(h.update(k, v), d, j),
        forall|c: int| 0 <= c < h.len() ==> leading(#[trigger] h.update(k, v)[c]) == leading(h[c]),
{
    let g = h.update(k, v);
    let r = leading(h[j]);
    assert(leading(h[k]) < r);
    lemma_leading(h[k]);
    lemma_leading_agree(h[k], v);
    assert forall|c: int| 0 <= c < h.len() implies leading(#[trigger] g[c]) == leading(h[c]) by {
        if c != k {
            assert(g[c] == h[c]);
        }
    }
    assert forall|c: int| 0 <= c < g.len() && leading(#[trigger] g[c]) < d implies g[c][leading(
        g[c],
    )] > 0 by {
        if c != k {
            assert(g[c] == h[c]);
        }
    }
    assert forall|a: int, b: int|
        0 <= a < b < g.len() && leading(#[trigger] g[b]) < d implies leading(#[trigger] g[a])
        < leading(g[b]) by {
        assert(leading(h[a]) < leading(h[b]));
    }
    assert forall|a: int, b: int|
        0 <= a < b < j && b < g.len() && leading(#[trigger] g[b]) < d implies 0 <= (
    #[trigger] g[a])[leading(g[b])] < g[b][leading(g[b])] by {
        let rb = leading(h[b]);
        assert(rb < r);
        assert(0 <= h[a][rb] < h[b][rb]);
        if a != k {
            assert(g[a] == h[a]);
        }
        if b != k {
            assert(g[b] == h[b]);
        }
    }
}

proof fn lemma_nonzero_columns(h: Seq<Seq<int>>, d: nat, n: nat)
    requires
        is_echelon(h, d),
        n <= h.len(),
    ensures
        nonzero_columns(h, d, n) <= n,
        forall|j: int| 0 <= j < n ==> (leading(#[trigger] h[j]) < d <==> j < nonzero_columns(h, d, n)),
    decreases n,
{
    if n > 0 {
        lemma_nonzero_columns(h, d, (n - 1) as nat);
        if leading(h[n - 1]) < d && n > 1 {
            assert(leading(h[n - 2]) < leading(h[n - 1]));
        }
    }
}

/// In an echelon matrix the columns that are not zero are the first
/// `rank_of` columns.
pub proof fn lemma_rank_of(h: Seq<Seq<int>>, d: nat)
    requires
        is_echelon(h, d),
    ensures
        rank_of(h, d) <= h.len(),
        forall|j: int| 0 <= j < h.len() ==> (leading(#[trigger] h[j]) < d <==> j < rank_of(h, d)),
{
    lemma_nonzero_columns(h, d, h.len());
}

/// The columns of an echelon matrix that are not zero lead no
/// higher than they stand.
pub proof fn lemma_leading_at_least(h: Seq<Seq<int>>, d: nat, j: int)
    requires
        is_echelon(h, d),
        0 <= j < h.len(),
        leading(h[j]) < d,
    ensures
        leading(h[j]) >= j,
    decreases j,
{
    lemma_leading(h[j]);
    if j > 0 {
        assert(leading(h[j - 1]) < leading(h[j]));
        lemma_leading_at_least(h, d, j - 1);
    }
}

/// The rank of an echelon matrix is at most its number of rows.
pub proof fn lemma_rank_at_most_rows(h: Seq<Seq<int>>, d: nat)
    requires
        is_echelon(h, d),
    ensures
        rank_of(h, d) <= d,
{
    lemma_rank_of(h, d);
    let r = rank_of(h, d);
    if r > 0 {
        lemma_leading_at_least(h, d, r - 1);
    }
}

} // verus!
