//! The reduction to Hermite normal form, step by step, on integers
//! without bounds: which column operations are made, and whether
//! every column on the way stays in the machine's range.
use crate::lattice::axpy;
use crate::shape::{is_echelon, is_hermite, leading, lemma_leading};
use vstd::prelude::*;

verus! {

/// Every entry is in the machine's range.
pub open spec fn column_fits(v: Seq<int>) -> bool {
    forall|i: int| 0 <= i < v.len() ==> i32::MIN <= #[trigger] v[i] <= i32::MAX
}

/// The column with its sign changed where its entry in `row` is negative.
pub open spec fn nonnegative_column(v: Seq<int>, row: int) -> Seq<int> {
    if v[row] < 0 {
        axpy(-1, v, 0, v)
    } else {
        v
    }
}

/// Every column from `settled` on fits with its entry in `row` made
/// nonnegative.
pub open spec fn signs_fit(h: Seq<Seq<int>>, settled: int, row: int) -> bool {
    forall|k: int| settled <= k < h.len() ==> column_fits(nonnegative_column(#[trigger] h[k], row))
}

/// The matrix with the entries in `row` of the columns from
/// `settled` on made nonnegative.
pub open spec fn made_nonnegative(h: Seq<Seq<int>>, settled: int, row: int) -> Option<
    Seq<Seq<int>>,
> {
    if signs_fit(h, settled, row) {
        Some(
            Seq::new(
                h.len(),
                |k: int|
                    if k >= settled {
                        nonnegative_column(h[k], row)
                    } else {
                        h[k]
                    },
            ),
        )
    } else {
        None
    }
}

/// Column `p` is the leftmost from `settled` on with the smallest
/// positive entry in `row`.
pub open spec fn is_pivot(h: Seq<Seq<int>>, settled: int, row: int, p: int) -> bool {
    &&& settled <= p < h.len()
    &&& h[p][row] > 0
    &&& forall|k: int| settled <= k < h.len() && (#[trigger] h[k])[row] > 0 ==> h[p][row] <= h[k][row]
    &&& forall|k: int| settled <= k < p && (#[trigger] h[k])[row] > 0 ==> h[p][row] < h[k][row]
}

/// The pivot column of `row`, where there is one.
pub open spec fn pivot_of(h: Seq<Seq<int>>, settled: int, row: int) -> int {
    choose|p: int| is_pivot(h, settled, row, p)
}

/// There is only one pivot column.
pub proof fn lemma_pivot_unique(h: Seq<Seq<int>>, settled: int, row: int, p: int)
    requires
        is_pivot(h, settled, row, p),
    ensures
        pivot_of(h, settled, row) == p,
{
    let q = pivot_of(h, settled, row);
    if q < p {
        assert(h[p][row] < h[q][row]);
        assert(h[q][row] <= h[p][row]);
    }
    if p < q {
        assert(h[q][row] < h[p][row]);
        assert(h[p][row] <= h[q][row]);
    }
}

/// The matrix with columns `a` and `b` exchanged.
pub open spec fn exchanged(h: Seq<Seq<int>>, a: int, b: int) -> Seq<Seq<int>> {
    h.update(a, h[b]).update(b, h[a])
}

/// The column less the multiple of `pivot` that brings its entry in
/// `row` below that of `pivot`.
pub open spec fn reduced_column(v: Seq<int>, pivot: Seq<int>, row: int) -> Seq<int> {
    if v[row] != 0 {
        axpy(1, v, -(v[row] / pivot[row]), pivot)
    } else {
        v
    }
}

/// Every column behind `settled` fits when reduced by column
/// `settled`.
pub open spec fn others_fit(h: Seq<Seq<int>>, settled: int, row: int) -> bool {
    forall|k: int|
        settled < k < h.len() ==> column_fits(reduced_column(#[trigger] h[k], h[settled], row))
}

/// The matrix with every column behind `settled` reduced by column
/// `settled`.
pub open spec fn others_reduced(h: Seq<Seq<int>>, settled: int, row: int) -> Option<Seq<Seq<int>>> {
    if others_fit(h, settled, row) {
        Some(
            Seq::new(
                h.len(),
                |k: int|
                    if k > settled {
                        reduced_column(h[k], h[settled], row)
                    } else {
                        h[k]
                    },
            ),
        )
    } else {
        None
    }
}

/// A column behind `settled` has an entry in `row`.
pub open spec fn some_left(h: Seq<Seq<int>>, settled: int, row: int) -> bool {
    exists|k: int| settled < k < h.len() && (#[trigger] h[k])[row] != 0
}

/// Euclid's algorithm on `row`: while a column from `settled` on has
/// a positive entry there, the pivot column goes to the front and
/// reduces the others.  Gives the matrix and the number of settled
/// columns after it.  `limit` lies above every entry of the row and
/// bounds the number of rounds.
pub open spec fn row_cleared(h: Seq<Seq<int>>, settled: int, row: int, limit: nat) -> Option<
    (Seq<Seq<int>>, int),
>
    decreases limit,
{
    if !exists|p: int| is_pivot(h, settled, row, p) {
        Some((h, settled))
    } else {
        let p = pivot_of(h, settled, row);
        let value = h[p][row];
        if value >= limit {
            None
        } else {
            match others_reduced(exchanged(h, settled, p), settled, row) {
                None => None,
                Some(g) => if some_left(g, settled, row) {
                    row_cleared(g, settled, row, value as nat)
                } else {
                    Some((g, settled + 1))
                },
            }
        }
    }
}

/// One row of the echelon form: the entries of the row made
/// nonnegative, then the row cleared.
pub open spec fn row_step(h: Seq<Seq<int>>, settled: int, row: int) -> Option<(Seq<Seq<int>>, int)> {
    match made_nonnegative(h, settled, row) {
        None => None,
        Some(g) => row_cleared(g, settled, row, 0x8000_0000),
    }
}

/// The echelon form of the columns from `settled` on, row by row
/// from `row` down.
pub open spec fn echelon_from(h: Seq<Seq<int>>, settled: int, row: int, d: nat) -> Option<
    Seq<Seq<int>>,
>
    decreases d - row,
{
    if row >= d {
        Some(h)
    } else {
        match row_step(h, settled, row) {
            None => None,
            Some((cleared, next)) => echelon_from(cleared, next, row + 1, d),
        }
    }
}

/// Every column before `j` fits when reduced by column `j` in the
/// row in which that column leads.
pub open spec fn above_fits(h: Seq<Seq<int>>, j: int) -> bool {
    forall|k: int| 0 <= k < j ==> column_fits(reduced_column(#[trigger] h[k], h[j], leading(h[j])))
}

/// The matrix with every column before `j` reduced by column `j`,
/// where that column is not zero.
pub open spec fn reduced_by(h: Seq<Seq<int>>, j: int, d: nat) -> Option<Seq<Seq<int>>> {
    if leading(h[j]) >= d {
        Some(h)
    } else if above_fits(h, j) {
        Some(
            Seq::new(
                h.len(),
                |k: int|
                    if k < j {
                        reduced_column(h[k], h[j], leading(h[j]))
                    } else {
                        h[k]
                    },
            ),
        )
    } else {
        None
    }
}

/// The matrix reduced by each of its columns from `j` on, one after
/// the other.
pub open spec fn reduced_from(h: Seq<Seq<int>>, j: int, d: nat) -> Option<Seq<Seq<int>>>
    decreases h.len() - j,
{
    if j < 0 || j >= h.len() {
        Some(h)
    } else {
        match reduced_by(h, j, d) {
            None => None,
            Some(g) => if g.len() == h.len() {
                reduced_from(g, j + 1, d)
            } else {
                None
            },
        }
    }
}

/// The reduction of a matrix with `d` rows to Hermite normal form:
/// first to echelon form, then each column by those to its right.
/// `None` where a column on the way leaves the machine's range.
pub open spec fn reduction(m: Seq<Seq<int>>, d: nat) -> Option<Seq<Seq<int>>> {
    match echelon_from(m, 0, 0, d) {
        None => None,
        Some(e) => reduced_from(e, 1, d),
    }
}

/// Every column of the matrix is in the machine's range.
pub open spec fn matrix_fits(h: Seq<Seq<int>>) -> bool {
    forall|k: int| 0 <= k < h.len() ==> column_fits(#[trigger] h[k])
}

/// The columns before `settled` are those that lead above `row`.
spec fn settled_above(h: Seq<Seq<int>>, settled: int, row: int) -> bool {
    &&& 0 <= settled <= h.len()
    &&& forall|k: int| 0 <= k < settled ==> leading(#[trigger] h[k]) < row
    &&& forall|k: int| settled <= k < h.len() ==> leading(#[trigger] h[k]) >= row
}

/// A row of an echelon matrix is clear already: the step leaves the
/// matrix as it is, and settles the column that leads in the row.
proof fn lemma_row_step_of_echelon(h: Seq<Seq<int>>, d: nat, settled: int, row: int)
    requires
        is_echelon(h, d),
        matrix_fits(h),
        settled_above(h, settled, row),
        0 <= row < d,
    ensures
        row_step(h, settled, row) matches Some((g, next)) && g == h && settled_above(
            h,
            next,
            row + 1,
        ),
{
    assert forall|k: int| settled <= k < h.len() implies (#[trigger] h[k])[row] >= 0 && (h[k][row]
        > 0 <==> leading(h[k]) == row) by {
        lemma_leading(h[k]);
    }
    assert(signs_fit(h, settled, row));
    let g = made_nonnegative(h, settled, row).unwrap();
    assert(g =~= h);
    if exists|p: int| is_pivot(h, settled, row, p) {
        let p = pivot_of(h, settled, row);
        assert(leading(h[p]) == row);
        if p > settled {
            assert(leading(h[settled]) < leading(h[p]));
        }
        assert(p == settled);
        assert(exchanged(h, settled, p) =~= h);
        assert forall|k: int| settled < k < h.len() implies (#[trigger] h[k])[row] == 0 by {
            if leading(h[k]) < d {
                assert(leading(h[settled]) < leading(h[k]));
            }
            lemma_leading(h[k]);
        }
        assert(others_fit(h, settled, row));
        assert(others_reduced(h, settled, row).unwrap() =~= h);
        assert(!some_left(h, settled, row));
        assert(h[p][row] < 0x8000_0000);
        assert forall|k: int| settled + 1 <= k < h.len() implies leading(#[trigger] h[k]) >= row
            + 1 by {
            lemma_leading(h[k]);
        }
    } else {
        assert forall|k: int| settled <= k < h.len() implies leading(#[trigger] h[k]) >= row
            + 1 by {
            if leading(h[k]) == row {
                // it would be a pivot, or a column before it would
                let first = settled;
                lemma_leading(h[first]);
                if k > settled {
                    assert(leading(h[settled]) < leading(h[k]));
                }
                assert(is_pivot(h, settled, row, settled)) by {
                    assert forall|j: int| settled <= j < h.len() && (#[trigger] h[j])[row]
                        > 0 implies h[settled][row] <= h[j][row] by {
                        if j > settled {
                            assert(leading(h[j]) == row);
                            assert(leading(h[settled]) < leading(h[j]));
                        }
                    }
                }
            }
        }
    }
}

/// The echelon form of an echelon matrix is the matrix itself.
proof fn lemma_echelon_of_echelon(h: Seq<Seq<int>>, d: nat, settled: int, row: int)
    requires
        is_echelon(h, d),
        matrix_fits(h),
        settled_above(h, settled, row),
        0 <= row <= d,
    ensures
        echelon_from(h, settled, row, d) == Some(h),
    decreases d - row,
{
    if row < d {
        lemma_row_step_of_echelon(h, d, settled, row);
        let (g, next) = row_step(h, settled, row).unwrap();
        lemma_echelon_of_echelon(h, d, next, row + 1);
    }
}

/// Reducing a matrix in Hermite normal form changes nothing.
proof fn lemma_reduced_of_hermite(h: Seq<Seq<int>>, d: nat, j: int)
    requires
        is_hermite(h, d),
        matrix_fits(h),
        1 <= j,
    ensures
        reduced_from(h, j, d) == Some(h),
    decreases h.len() - j,
{
    if j < h.len() {
        let r = leading(h[j]);
        if r < d {
            assert forall|k: int| 0 <= k < j implies reduced_column(#[trigger] h[k], h[j], r)
                == h[k] by {
                let v = h[k];
                let top = h[j];
                assert(0 <= v[r] < top[r]);
                if v[r] != 0 {
                    assert(v[r] / top[r] == 0) by (nonlinear_arith)
                        requires
                            0 <= v[r] < top[r],
                    ;
                    assert(axpy(1, v, -(v[r] / top[r]), top) =~= v);
                }
            }
            assert(above_fits(h, j));
            assert(reduced_by(h, j, d).unwrap() =~= h);
        }
        lemma_reduced_of_hermite(h, d, j + 1);
    }
}

/// The reduction of a matrix in Hermite normal form succeeds and
/// gives the matrix back.
pub proof fn lemma_reduction_of_hermite(h: Seq<Seq<int>>, d: nat)
    requires
        is_hermite(h, d),
        matrix_fits(h),
    ensures
        reduction(h, d) == Some(h),
{
    assert forall|k: int| 0 <= k < h.len() implies leading(#[trigger] h[k]) >= 0 by {
        lemma_leading(h[k]);
    }
    lemma_echelon_of_echelon(h, d, 0, 0);
    lemma_reduced_of_hermite(h, d, 1);
}

} // verus!
