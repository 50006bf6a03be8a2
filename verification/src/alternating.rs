//! The determinant changes its sign when two neighbouring columns
//! are exchanged, and is zero for a matrix in which a column stands
//! twice.
use crate::determinant::{det, expansion, minor, sign, without_row};
use crate::lattice::rectangular;
use vstd::prelude::*;

verus! {

/// A matrix of `n` columns with `n` entries each.
pub open spec fn square(m: Seq<Seq<int>>, n: nat) -> bool {
    m.len() == n && rectangular(m, n)
}

/// The matrix without its first two columns and without the rows
/// `i` and `j`.
spec fn double_minor(m: Seq<Seq<int>>, i: int, j: int) -> Seq<Seq<int>> {
    if i < j {
        without_row(without_row(m.skip(2), j), i)
    } else {
        without_row(without_row(m.skip(2), i), j)
    }
}

/// The part of the determinant that row `i` of the first column and
/// row `j` of the second make.
spec fn pair_term(m: Seq<Seq<int>>, i: int, j: int) -> int {
    if i == j {
        0
    } else {
        sign(i) * sign(
            if j > i {
                j - 1
            } else {
                j
            },
        ) * ((m[0][i] * m[1][j]) * det(double_minor(m, i, j)))
    }
}

/// The terms of row `i` of the first column with the first `c` rows
/// of the second.
spec fn row_sum(m: Seq<Seq<int>>, i: int, c: nat) -> int
    decreases c,
{
    if c == 0 {
        0
    } else {
        row_sum(m, i, (c - 1) as nat) + pair_term(m, i, c - 1)
    }
}

/// The terms of row `j` of the second column with the first `r`
/// rows of the first.
spec fn col_sum(m: Seq<Seq<int>>, j: int, r: nat) -> int
    decreases r,
{
    if r == 0 {
        0
    } else {
        col_sum(m, j, (r - 1) as nat) + pair_term(m, r - 1, j)
    }
}

/// The terms of the first `r` rows of the first column with the
/// first `c` rows of the second, row by row.
spec fn rows_total(m: Seq<Seq<int>>, r: nat, c: nat) -> int
    decreases r,
{
    if r == 0 {
        0
    } else {
        rows_total(m, (r - 1) as nat, c) + row_sum(m, r - 1, c)
    }
}

/// The same terms, column by column.
spec fn cols_total(m: Seq<Seq<int>>, c: nat, r: nat) -> int
    decreases c,
{
    if c == 0 {
        0
    } else {
        cols_total(m, (c - 1) as nat, r) + col_sum(m, c - 1, r)
    }
}

proof fn lemma_sign(k: int)
    ensures
        sign(k) == 1 || sign(k) == -1,
        sign(k - 1) == -sign(k),
        sign(k + 1) == -sign(k),
{
}

/// A minor of a square matrix is square.
pub proof fn lemma_minor_square(m: Seq<Seq<int>>, n: nat, i: int)
    requires
        square(m, n),
        n >= 1,
        0 <= i < n,
    ensures
        square(minor(m, i), (n - 1) as nat),
{
    assert forall|j: int| 0 <= j < minor(m, i).len() implies (#[trigger] minor(m, i)[j]).len() == n
        - 1 by {
        assert(m.skip(1)[j] == m[j + 1]);
    }
}

/// The minor of a minor is the double minor.
proof fn lemma_double_minor(m: Seq<Seq<int>>, n: nat, i: int, k: int)
    requires
        square(m, n),
        n >= 2,
        0 <= i < n,
        0 <= k < n - 1,
    ensures
        minor(minor(m, i), k) == double_minor(
            m,
            i,
            if k < i {
                k
            } else {
                k + 1
            },
        ),
        minor(m, i)[0] == m[1].remove(i),
{
    let j = if k < i {
        k
    } else {
        k + 1
    };
    let a = minor(minor(m, i), k);
    let b = double_minor(m, i, j);
    assert(a.len() == b.len());
    assert forall|c: int| 0 <= c < a.len() implies a[c] == b[c] by {
        let v = m[c + 2];
        assert(m.skip(2)[c] == v);
        assert(m.skip(1)[c + 1] == v);
        assert(minor(m, i).skip(1)[c] == minor(m, i)[c + 1]);
        assert(minor(m, i)[c + 1] == v.remove(i));
        assert(a[c] == v.remove(i).remove(k));
        if k < i {
            assert(b[c] == v.remove(i).remove(k));
        } else {
            assert(b[c] == v.remove(k + 1).remove(i));
            assert(v.remove(i).remove(k) =~= v.remove(k + 1).remove(i));
        }
    }
    assert(a =~= b);
    assert(m.skip(1)[0] == m[1]);
}

/// A term of the determinant, expanded along the first column of
/// its minor, is a sum of pair terms.
proof fn lemma_row_sum(m: Seq<Seq<int>>, n: nat, i: int, k: nat)
    requires
        square(m, n),
        n >= 2,
        0 <= i < n,
        k <= n - 1,
    ensures
        sign(i) * (m[0][i] * expansion(minor(m, i), k)) == row_sum(
            m,
            i,
            if k <= i {
                k
            } else {
                k + 1
            },
        ),
    decreases k,
{
    let mi = minor(m, i);
    let a = m[0][i];
    if k == 0 {
        assert(a * 0 == 0);
        assert(sign(i) * 0 == 0);
    } else {
        let p = (k - 1) as nat;
        lemma_row_sum(m, n, i, p);
        lemma_double_minor(m, n, i, p as int);
        let j: int = if p < i {
            p as int
        } else {
            p as int + 1
        };
        let e = expansion(mi, p);
        let b = mi[0][p as int];
        let dd = det(minor(mi, p as int));
        let t = sign(p as int) * (b * dd);
        assert(expansion(mi, k) == e + t);
        assert(b == m[1][j]);
        assert(det(double_minor(m, i, j)) == dd);
        lemma_sign(j);
        assert(sign(if j > i {
            j - 1
        } else {
            j
        }) == sign(p as int));
        let si = sign(i);
        let sp = sign(p as int);
        assert(pair_term(m, i, j) == si * sp * ((a * b) * dd));
        let x = b * dd;
        let y = (a * b) * dd;
        let z = sp * x;
        assert(a * x == y) by (nonlinear_arith)
            requires
                x == b * dd,
                y == (a * b) * dd,
        ;
        assert(a * z == sp * y) by (nonlinear_arith)
            requires
                z == sp * x,
                a * x == y,
        ;
        assert(a * (e + z) == a * e + a * z) by (nonlinear_arith);
        let w = a * e;
        let v = sp * y;
        assert(si * (w + v) == si * w + si * v) by (nonlinear_arith);
        assert(si * v == si * sp * y) by (nonlinear_arith)
            requires
                v == sp * y,
        ;
        // the sums on the right
        if p < i {
            assert(row_sum(m, i, k) == row_sum(m, i, p) + pair_term(m, i, p as int));
        } else if p == i {
            assert(row_sum(m, i, (p + 1) as nat) == row_sum(m, i, p) + pair_term(m, i, p as int));
            assert(pair_term(m, i, p as int) == 0);
            assert(row_sum(m, i, (p + 2) as nat) == row_sum(m, i, (p + 1) as nat) + pair_term(
                m,
                i,
                p as int + 1,
            ));
        } else {
            assert(row_sum(m, i, (p + 2) as nat) == row_sum(m, i, (p + 1) as nat) + pair_term(
                m,
                i,
                p as int + 1,
            ));
        }
    }
}

/// The determinant is the sum of all pair terms.
proof fn lemma_rows_total(m: Seq<Seq<int>>, n: nat, r: nat)
    requires
        square(m, n),
        n >= 2,
        r <= n,
    ensures
        expansion(m, r) == rows_total(m, r, n),
    decreases r,
{
    if r > 0 {
        let i = (r - 1) as int;
        lemma_rows_total(m, n, (r - 1) as nat);
        lemma_row_sum(m, n, i, (n - 1) as nat);
        lemma_minor_square(m, n, i);
        assert(det(minor(m, i)) == expansion(minor(m, i), (n - 1) as nat));
        if n - 1 <= i {
            assert(row_sum(m, i, n) == row_sum(m, i, (n - 1) as nat) + pair_term(m, i, n - 1));
        }
    }
}

/// Summing row by row and column by column gives the same.
proof fn lemma_cols_total_step(m: Seq<Seq<int>>, c: nat, r: nat)
    ensures
        cols_total(m, c, r + 1) == cols_total(m, c, r) + row_sum(m, r as int, c),
    decreases c,
{
    if c > 0 {
        lemma_cols_total_step(m, (c - 1) as nat, r);
        assert(col_sum(m, c - 1, r + 1) == col_sum(m, c - 1, r) + pair_term(m, r as int, c - 1));
    }
}

proof fn lemma_cols_total_zero(m: Seq<Seq<int>>, c: nat)
    ensures
        cols_total(m, c, 0) == 0,
    decreases c,
{
    if c > 0 {
        lemma_cols_total_zero(m, (c - 1) as nat);
    }
}

proof fn lemma_exchange(m: Seq<Seq<int>>, r: nat, c: nat)
    ensures
        rows_total(m, r, c) == cols_total(m, c, r),
    decreases r,
{
    if r == 0 {
        lemma_cols_total_zero(m, c);
    } else {
        lemma_exchange(m, (r - 1) as nat, c);
        lemma_cols_total_step(m, c, (r - 1) as nat);
    }
}

/// The matrix with its first two columns exchanged.
pub open spec fn first_two_exchanged(m: Seq<Seq<int>>) -> Seq<Seq<int>> {
    m.update(0, m[1]).update(1, m[0])
}

/// Exchanging the first two columns turns each pair term into the
/// negative of its mirror image.
proof fn lemma_pair_term_exchanged(m: Seq<Seq<int>>, n: nat, i: int, j: int)
    requires
        square(m, n),
        n >= 2,
    ensures
        pair_term(first_two_exchanged(m), i, j) == -pair_term(m, j, i),
{
    let m2 = first_two_exchanged(m);
    assert(m2.skip(2) =~= m.skip(2));
    if i != j {
        assert(double_minor(m2, i, j) == double_minor(m, j, i));
        let dd = det(double_minor(m, j, i));
        let x = m[1][i];
        let y = m[0][j];
        lemma_sign(i);
        lemma_sign(j);
        let s1 = sign(i) * sign(if j > i {
            j - 1
        } else {
            j
        });
        let s2 = sign(j) * sign(if i > j {
            i - 1
        } else {
            i
        });
        assert(s1 == -s2) by (nonlinear_arith)
            requires
                s1 == sign(i) * sign(if j > i {
                    j - 1
                } else {
                    j
                }),
                s2 == sign(j) * sign(if i > j {
                    i - 1
                } else {
                    i
                }),
                i != j,
                sign(i) == 1 || sign(i) == -1,
                sign(j) == 1 || sign(j) == -1,
                sign(i - 1) == -sign(i),
                sign(j - 1) == -sign(j),
        ;
        assert(s1 * ((x * y) * dd) == -(s2 * ((y * x) * dd))) by (nonlinear_arith)
            requires
                s1 == -s2,
        ;
    }
}

proof fn lemma_row_sum_exchanged(m: Seq<Seq<int>>, n: nat, i: int, c: nat)
    requires
        square(m, n),
        n >= 2,
    ensures
        row_sum(first_two_exchanged(m), i, c) == -col_sum(m, i, c),
    decreases c,
{
    if c > 0 {
        lemma_row_sum_exchanged(m, n, i, (c - 1) as nat);
        lemma_pair_term_exchanged(m, n, i, c - 1);
    }
}

proof fn lemma_rows_total_exchanged(m: Seq<Seq<int>>, n: nat, r: nat, c: nat)
    requires
        square(m, n),
        n >= 2,
    ensures
        rows_total(first_two_exchanged(m), r, c) == -cols_total(m, r, c),
    decreases r,
{
    if r > 0 {
        lemma_rows_total_exchanged(m, n, (r - 1) as nat, c);
        lemma_row_sum_exchanged(m, n, r - 1, c);
    }
}

/// Exchanging the first two columns changes the sign of the
/// determinant.
pub proof fn lemma_exchange_first_two(m: Seq<Seq<int>>, n: nat)
    requires
        square(m, n),
        n >= 2,
    ensures
        det(first_two_exchanged(m)) == -det(m),
{
    let m2 = first_two_exchanged(m);
    assert(square(m2, n));
    lemma_rows_total(m, n, n);
    lemma_rows_total(m2, n, n);
    lemma_rows_total_exchanged(m, n, n, n);
    lemma_exchange(m, n, n);
}

/// The matrix with the columns `k` and `k + 1` exchanged.
pub open spec fn neighbours_exchanged(m: Seq<Seq<int>>, k: int) -> Seq<Seq<int>> {
    m.update(k, m[k + 1]).update(k + 1, m[k])
}

/// Where every minor changes its sign and the first column stays,
/// the expansion changes its sign.
proof fn lemma_expansion_negated(m: Seq<Seq<int>>, m2: Seq<Seq<int>>, r: nat)
    requires
        m.len() == m2.len(),
        m.len() > 0,
        m[0] == m2[0],
        forall|i: int| 0 <= i < r ==> det(#[trigger] minor(m2, i)) == -det(minor(m, i)),
    ensures
        expansion(m2, r) == -expansion(m, r),
    decreases r,
{
    if r > 0 && r <= m.len() {
        lemma_expansion_negated(m, m2, (r - 1) as nat);
        let i = r - 1;
        let a = m[0][i];
        let x = det(minor(m, i));
        let y = det(minor(m2, i));
        let s = sign(i);
        assert(s * (a * y) == -(s * (a * x))) by (nonlinear_arith)
            requires
                y == -x,
        ;
    }
}

/// Exchanging two neighbouring columns changes the sign of the
/// determinant.
pub proof fn lemma_exchange_neighbours(m: Seq<Seq<int>>, n: nat, k: int)
    requires
        square(m, n),
        0 <= k,
        k + 1 < n,
    ensures
        det(neighbours_exchanged(m, k)) == -det(m),
    decreases n,
{
    let m2 = neighbours_exchanged(m, k);
    if k == 0 {
        assert(m2 =~= first_two_exchanged(m));
        lemma_exchange_first_two(m, n);
    } else {
        assert forall|i: int| 0 <= i < n implies det(#[trigger] minor(m2, i)) == -det(
            minor(m, i),
        ) by {
            lemma_minor_square(m, n, i);
            let mi = minor(m, i);
            assert(minor(m2, i) =~= neighbours_exchanged(mi, k - 1)) by {
                assert forall|c: int| 0 <= c < n - 1 implies #[trigger] minor(m2, i)[c]
                    == neighbours_exchanged(mi, k - 1)[c] by {
                    assert(m2.skip(1)[c] == m2[c + 1]);
                    assert(m.skip(1)[c] == m[c + 1]);
                    assert(m.skip(1)[k - 1] == m[k]);
                    assert(m.skip(1)[k] == m[k + 1]);
                }
            }
            lemma_exchange_neighbours(mi, (n - 1) as nat, k - 1);
        }
        lemma_expansion_negated(m, m2, n);
    }
}

/// A matrix whose first column stands once more has the determinant
/// zero.
pub proof fn lemma_repeated_column(m: Seq<Seq<int>>, n: nat, q: int)
    requires
        square(m, n),
        1 <= q < n,
        m[0] == m[q],
    ensures
        det(m) == 0,
    decreases q,
{
    let m2 = neighbours_exchanged(m, q - 1);
    lemma_exchange_neighbours(m, n, q - 1);
    if q == 1 {
        assert(m2 =~= m);
    } else {
        assert(square(m2, n));
        lemma_repeated_column(m2, n, q - 1);
    }
}

} // verus!
