//! Determinants of integer matrices, by expansion along the first
//! column.
use crate::shape::{columns, has_rows, ints};
use vstd::prelude::*;

verus! {

/// The sign of the cofactor of row `i` of the first column.
pub open spec fn sign(i: int) -> int {
    if i % 2 == 0 {
        1
    } else {
        -1
    }
}

/// The matrix without row `i`.
pub open spec fn without_row(m: Seq<Seq<int>>, i: int) -> Seq<Seq<int>> {
    Seq::new(m.len(), |j: int| m[j].remove(i))
}

/// The matrix without its first column and without row `i`.
pub open spec fn minor(m: Seq<Seq<int>>, i: int) -> Seq<Seq<int>> {
    without_row(m.skip(1), i)
}

/// The determinant of a square matrix: the entries of the first
/// column, each times the determinant of its minor, with
/// alternating signs.
pub open spec fn det(m: Seq<Seq<int>>) -> int
    decreases m.len(), m.len() + 1,
{
    if m.len() == 0 {
        1
    } else {
        expansion(m, m.len())
    }
}

/// The part of the expansion along the first column that the first
/// `k` rows make.
pub open spec fn expansion(m: Seq<Seq<int>>, k: nat) -> int
    decreases m.len(), k,
{
    if k == 0 || m.len() == 0 || k > m.len() {
        0
    } else {
        expansion(m, (k - 1) as nat) + sign(k - 1) * (m[0][k - 1] * det(minor(m, k - 1)))
    }
}

/// A copy of the columns from `from` on, without row `i`.
pub fn submatrix(m: &[Vec<i32>], from: usize, i: usize, d: usize) -> (r: Vec<Vec<i32>>)
    requires
        has_rows(m@, d as nat),
        from <= m.len(),
        i < d,
    ensures
        r.len() == m.len() - from,
        has_rows(r@, (d - 1) as nat),
        columns(r@) == without_row(columns(m@).skip(from as int), i as int),
{
    let mut r: Vec<Vec<i32>> = Vec::new();
    let mut j: usize = from;
    while j < m.len()
        invariant
            from <= j <= m.len(),
            i < d,
            has_rows(m@, d as nat),
            r.len() == j - from,
            has_rows(r@, (d - 1) as nat),
            forall|k: int| 0 <= k < r.len() ==> ints((#[trigger] r[k])@) == ints(m[from + k]@).remove(i as int),
        decreases m.len() - j,
    {
        let column = &m[j];
        let mut c: Vec<i32> = Vec::new();
        let mut t: usize = 0;
        while t < d
            invariant
                t <= d,
                i < d,
                column.len() == d,
                c.len() == if t <= i {
                    t as int
                } else {
                    t - 1
                },
                forall|k: int| 0 <= k < c.len() ==> c[k] == if k < i {
                    column[k]
                } else {
                    column[k + 1]
                },
            decreases d - t,
        {
            if t != i {
                c.push(column[t]);
            }
            t += 1;
        }
        proof {
            assert(ints(c@) =~= ints(column@).remove(i as int));
        }
        r.push(c);
        j += 1;
    }
    proof {
        assert(columns(r@) =~= without_row(columns(m@).skip(from as int), i as int));
    }
    r
}

/// The number is in the range of the widest machine integers.
pub open spec fn fits_wide(x: int) -> bool {
    i128::MIN <= x <= i128::MAX
}

/// The determinant as the expansion finds it in machine integers:
/// `None` where a product or a sum on the way leaves their range.
pub open spec fn checked_det(m: Seq<Seq<int>>) -> Option<int>
    decreases m.len(), m.len() + 1,
{
    if m.len() == 0 {
        Some(1)
    } else {
        checked_expansion(m, m.len())
    }
}

/// The first `k` rows of the expansion in machine integers.  A row
/// with the entry zero adds nothing, and its minor is left alone.
pub open spec fn checked_expansion(m: Seq<Seq<int>>, k: nat) -> Option<int>
    decreases m.len(), k,
{
    if k == 0 || m.len() == 0 || k > m.len() {
        Some(0)
    } else {
        match checked_expansion(m, (k - 1) as nat) {
            None => None,
            Some(total) => {
                let entry = m[0][k - 1];
                if entry == 0 {
                    Some(total)
                } else {
                    match checked_det(minor(m, k - 1)) {
                        None => None,
                        Some(d) => {
                            let next = total + sign(k - 1) * (entry * d);
                            if fits_wide(entry * d) && fits_wide(next) {
                                Some(next)
                            } else {
                                None
                            }
                        },
                    }
                }
            },
        }
    }
}

/// What the expansion finds in machine integers is the determinant.
pub proof fn lemma_checked_det(m: Seq<Seq<int>>)
    ensures
        checked_det(m) matches Some(v) ==> v == det(m),
    decreases m.len(), m.len() + 1,
{
    if m.len() > 0 {
        lemma_checked_expansion(m, m.len());
    }
}

proof fn lemma_checked_expansion(m: Seq<Seq<int>>, k: nat)
    ensures
        checked_expansion(m, k) matches Some(v) ==> v == expansion(m, k),
    decreases m.len(), k,
{
    if !(k == 0 || m.len() == 0 || k > m.len()) {
        lemma_checked_expansion(m, (k - 1) as nat);
        let entry = m[0][k - 1];
        if entry != 0 {
            lemma_checked_det(minor(m, k - 1));
        } else {
            assert(0 * det(minor(m, k - 1)) == 0);
            assert(sign(k - 1) * 0 == 0);
        }
    }
}

/// The determinant of a square matrix, by expansion along the first
/// column.  `None` where a product or a sum on the way leaves the
/// range of the widest machine integers.  The cost grows as the
/// factorial of the size.
pub fn determinant(m: &[Vec<i32>]) -> (r: Option<i128>)
    requires
        has_rows(m@, m.len() as nat),
    ensures
        r is Some <==> checked_det(columns(m@)) is Some,
        r matches Some(v) ==> v == det(columns(m@)) && checked_det(columns(m@)) == Some(v as int),
    decreases m.len(),
{
    let n = m.len();
    if n == 0 {
        return Some(1);
    }
    let mut total: i128 = 0;
    let mut i: usize = 0;
    let ghost c = columns(m@);
    proof {
        lemma_checked_det(c);
    }
    while i < n
        invariant
            i <= n,
            n == m.len(),
            n > 0,
            c == columns(m@),
            has_rows(m@, n as nat),
            checked_expansion(c, i as nat) == Some(total as int),
        decreases n - i,
    {
        let entry: i128 = m[0][i] as i128;
        proof {
            assert(c[0][i as int] == entry);
        }
        if entry != 0 {
            let sub = submatrix(m, 1, i, n);
            let d = match determinant(sub.as_slice()) {
                Some(d) => d,
                None => {
                    proof {
                        lemma_checked_none(c, (i + 1) as nat, n as nat);
                    }
                    return None;
                },
            };
            let product = match entry.checked_mul(d) {
                Some(product) => product,
                None => {
                    proof {
                        lemma_checked_none(c, (i + 1) as nat, n as nat);
                    }
                    return None;
                },
            };
            let next = if i % 2 == 0 {
                total.checked_add(product)
            } else {
                total.checked_sub(product)
            };
            proof {
                assert(sign(i as int) * (entry * d) == if i % 2 == 0 {
                    product as int
                } else {
                    -(product as int)
                }) by (nonlinear_arith)
                    requires
                        product == entry * d,
                        sign(i as int) == if i % 2 == 0 {
                            1int
                        } else {
                            -1int
                        },
                ;
            }
            total = match next {
                Some(next) => next,
                None => {
                    proof {
                        lemma_checked_none(c, (i + 1) as nat, n as nat);
                    }
                    return None;
                },
            };
        }
        i += 1;
    }
    Some(total)
}

/// An expansion that has left the range stays out of it.
proof fn lemma_checked_none(m: Seq<Seq<int>>, k: nat, n: nat)
    requires
        k <= n,
        n <= m.len(),
        checked_expansion(m, k) is None,
    ensures
        checked_expansion(m, n) is None,
    decreases n,
{
    if k < n {
        lemma_checked_none(m, k, (n - 1) as nat);
    }
}

} // verus!
