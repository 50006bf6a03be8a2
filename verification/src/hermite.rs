//! The Hermite normal form of a mapping, by column operations.
use crate::lattice::{
    axpy, lemma_column_operation, lemma_column_swap, lemma_same_lattice_reflexive,
    lemma_same_lattice_transitive, rectangular, same_lattice,
};
use crate::reduction::{
    above_fits, column_fits, echelon_from, exchanged, is_pivot, lemma_pivot_unique,
    lemma_reduction_of_hermite, made_nonnegative, matrix_fits, nonnegative_column, others_fit,
    others_reduced, pivot_of, reduced_by, reduced_column, reduced_from, reduction, row_cleared,
    row_step, signs_fit, some_left,
};
use crate::shape::{
    columns, echelon_upto, has_rows, hermite_of, hermite_upto, ints, is_echelon, is_hermite,
    is_hermite_form_of, is_matrix, leading, lemma_echelon_complete, lemma_echelon_upto_update,
    lemma_has_rows, lemma_leading, lemma_leading_is, lemma_reduce_step, row_count,
};
use crate::uniqueness::lemma_hermite_of;
use crate::{ETMap, Mapping};
use vstd::prelude::*;

verus! {

/// Floored division by a positive divisor, from `num_integer::div_floor`.
/// For a positive divisor the quotient rounds towards minus infinity,
/// which is the quotient of integers in contracts.
#[verifier::external_body]
fn div_floor(s: i32, n: i32) -> (q: i32)
    requires
        n > 0,
    ensures
        q == s as int / n as int,
{
    num_integer::div_floor(s, n)
}

/// A copy of a column.
pub fn copy_column(v: &Vec<i32>) -> (r: Vec<i32>)
    ensures
        r@ == v@,
{
    let mut r: Vec<i32> = Vec::with_capacity(v.len());
    let mut i: usize = 0;
    while i < v.len()
        invariant
            i <= v.len(),
            r@ == v@.take(i as int),
        decreases v.len() - i,
    {
        r.push(v[i]);
        assert(v@.take(i as int + 1) =~= v@.take(i as int).push(v@[i as int]));
        i += 1;
    }
    assert(v@.take(v.len() as int) =~= v@);
    r
}

/// The column with every sign changed, or `None` where an entry has
/// no negative in the machine's range.
fn negated(v: &Vec<i32>) -> (r: Option<Vec<i32>>)
    ensures
        r is Some <==> column_fits(axpy(-1, ints(v@), 0, ints(v@))),
        r matches Some(w) ==> w.len() == v.len() && ints(w@) == axpy(-1, ints(v@), 0, ints(v@)),
{
    let mut w: Vec<i32> = Vec::with_capacity(v.len());
    let mut i: usize = 0;
    let ghost negative = axpy(-1, ints(v@), 0, ints(v@));
    while i < v.len()
        invariant
            i <= v.len(),
            w.len() == i,
            negative == axpy(-1, ints(v@), 0, ints(v@)),
            forall|k: int| 0 <= k < i ==> v[k] != i32::MIN && w[k] == -v[k],
        decreases v.len() - i,
    {
        let x: i32 = v[i];
        if x == i32::MIN {
            proof {
                assert(negative[i as int] == -1 * (v[i as int] as int) + 0 * (v[i as int] as int));
            }
            return None;
        }
        w.push(-x);
        i += 1;
    }
    assert(ints(w@) =~= negative);
    assert(column_fits(negative)) by {
        assert forall|k: int| 0 <= k < negative.len() implies i32::MIN <= #[trigger] negative[k]
            <= i32::MAX by {
            assert(negative[k] == ints(w@)[k]);
        }
    }
    Some(w)
}

/// `v - q·p`, or `None` where an entry leaves the machine's range.
fn minus_multiple(v: &Vec<i32>, q: i32, p: &Vec<i32>) -> (r: Option<Vec<i32>>)
    requires
        v.len() == p.len(),
    ensures
        r is Some <==> column_fits(axpy(1, ints(v@), -(q as int), ints(p@))),
        r matches Some(w) ==> w.len() == v.len() && ints(w@) == axpy(
            1,
            ints(v@),
            -(q as int),
            ints(p@),
        ),
{
    let mut w: Vec<i32> = Vec::with_capacity(v.len());
    let mut i: usize = 0;
    let ghost target = axpy(1, ints(v@), -(q as int), ints(p@));
    while i < v.len()
        invariant
            i <= v.len(),
            v.len() == p.len(),
            w.len() == i,
            target == axpy(1, ints(v@), -(q as int), ints(p@)),
            forall|k: int|
                0 <= k < i ==> i32::MIN <= (#[trigger] v[k]) - q * p[k] <= i32::MAX && w[k] == v[k]
                    - q * p[k],
        decreases v.len() - i,
    {
        let x: i64 = v[i] as i64;
        let y: i64 = p[i] as i64;
        assert(-0x4000_0000_0000_0000 <= (q as int) * (y as int) <= 0x4000_0000_0000_0000)
            by (nonlinear_arith)
            requires
                -0x8000_0000 <= q <= 0x7fff_ffff,
                -0x8000_0000 <= y <= 0x7fff_ffff,
        ;
        let z: i64 = x - (q as i64) * y;
        if z < i32::MIN as i64 || z > i32::MAX as i64 {
            proof {
                assert((-(q as int)) * (y as int) == -((q as int) * (y as int)))
                    by (nonlinear_arith);
                assert(target[i as int] == 1 * (x as int) + (-(q as int)) * (y as int));
            }
            return None;
        }
        w.push(z as i32);
        i += 1;
    }
    assert(ints(w@) =~= target) by {
        assert forall|k: int| 0 <= k < v.len() implies w[k] as int == 1 * (v[k] as int) + (-(
        q as int)) * (p[k] as int) by {
            assert((-(q as int)) * (p[k] as int) == -((q as int) * (p[k] as int)))
                by (nonlinear_arith);
        }
    }
    assert(column_fits(target)) by {
        assert forall|k: int| 0 <= k < target.len() implies i32::MIN <= #[trigger] target[k]
            <= i32::MAX by {
            assert(target[k] == ints(w@)[k]);
        }
    }
    Some(w)
}

/// Puts `v` in place of column `k`.
fn set_column(m: &mut Mapping, k: usize, v: Vec<i32>)
    requires
        k < old(m).len(),
    ensures
        final(m)@ == old(m)@.update(k as int, v),
        columns(final(m)@) == columns(old(m)@).update(k as int, ints(v@)),
        forall|d: nat| has_rows(old(m)@, d) && v.len() == d ==> has_rows(final(m)@, d),
{
    m.set(k, v);
    assert(columns(m@) =~= columns(old(m)@).update(k as int, ints(v@)));
}

/// Exchanges columns `j` and `k`.
fn swap_columns(m: &mut Mapping, j: usize, k: usize)
    requires
        j < old(m).len(),
        k < old(m).len(),
    ensures
        final(m).len() == old(m).len(),
        columns(final(m)@) == columns(old(m)@).update(j as int, columns(old(m)@)[k as int]).update(
            k as int,
            columns(old(m)@)[j as int],
        ),
        same_lattice(columns(old(m)@), columns(final(m)@)),
        forall|d: nat| has_rows(old(m)@, d) ==> has_rows(final(m)@, d),
{
    let a = copy_column(&m[j]);
    let b = copy_column(&m[k]);
    proof {
        lemma_column_swap(columns(m@), j as int, k as int);
    }
    set_column(m, j, b);
    set_column(m, k, a);
}

/// Machine integers are in the machine's range.
proof fn lemma_ints_fit(v: Seq<i32>)
    ensures
        column_fits(ints(v)),
{
    assert forall|i: int| 0 <= i < ints(v).len() implies i32::MIN <= #[trigger] ints(v)[i]
        <= i32::MAX by {
        assert(ints(v)[i] == v[i]);
    }
}

/// Changes the sign of every column from `settled` on whose entry in
/// `row` is negative.
fn make_nonnegative(m: Mapping, settled: usize, row: usize, d: usize) -> (r: Option<Mapping>)
    requires
        has_rows(m@, d as nat),
        echelon_upto(columns(m@), d as nat, settled as int, row as int),
        row < d,
    ensures
        match made_nonnegative(columns(m@), settled as int, row as int) {
            Some(g) => r matches Some(w) && columns(w@) == g,
            None => r is None,
        },
        r matches Some(w) ==> {
            &&& w.len() == m.len()
            &&& has_rows(w@, d as nat)
            &&& echelon_upto(columns(w@), d as nat, settled as int, row as int)
            &&& same_lattice(columns(m@), columns(w@))
            &&& forall|k: int| settled <= k < w.len() ==> (#[trigger] w[k])[row as int] >= 0
        },
{
    let ghost orig = columns(m@);
    let mut w = m;
    let n = w.len();
    let mut k: usize = settled;
    proof {
        lemma_same_lattice_reflexive(orig);
    }
    while k < n
        invariant
            settled <= k <= n,
            n == w.len(),
            n == orig.len(),
            orig == columns(m@),
            row < d,
            has_rows(w@, d as nat),
            rectangular(orig, d as nat),
            echelon_upto(columns(w@), d as nat, settled as int, row as int),
            same_lattice(orig, columns(w@)),
            forall|i: int| settled <= i < k ==> (#[trigger] w[i])[row as int] >= 0,
            forall|j: int| 0 <= j < n && (j < settled || j >= k) ==> #[trigger] columns(w@)[j] == orig[j],
            forall|j: int|
                settled <= j < k ==> column_fits(nonnegative_column(#[trigger] orig[j], row as int))
                    && columns(w@)[j] == nonnegative_column(orig[j], row as int),
        decreases n - k,
    {
        let ghost before = columns(w@);
        let ghost wb = w@;
        proof {
            assert(before[k as int] == orig[k as int]);
            assert(before[k as int][row as int] == w[k as int][row as int]);
            lemma_ints_fit(w[k as int]@);
        }
        if w[k][row] < 0 {
            let v = match negated(&w[k]) {
                Some(v) => v,
                None => {
                    proof {
                        assert(!column_fits(nonnegative_column(orig[k as int], row as int)));
                        assert(!signs_fit(orig, settled as int, row as int));
                    }
                    return None;
                },
            };
            proof {
                lemma_column_operation(before, d as nat, k as int, -1, 0, k as int);
            }
            set_column(&mut w, k, v);
            proof {
                let after = columns(w@);
                lemma_same_lattice_transitive(orig, before, after, d as nat);
                assert forall|i: int| 0 <= i < row implies ints(v@)[i] == 0 by {
                    assert(before[k as int][i] == 0);
                }
                lemma_echelon_upto_update(
                    before,
                    d as nat,
                    settled as int,
                    row as int,
                    k as int,
                    ints(v@),
                );
                assert forall|i: int| settled <= i < k + 1 implies (#[trigger] w[i])[row as int]
                    >= 0 by {
                    if i < k {
                        assert(w[i] == wb[i]);
                    } else {
                        assert(after[k as int][row as int] == -1 * before[k as int][row as int] + 0
                            * before[k as int][row as int]);
                        assert(after[k as int][row as int] == w[k as int][row as int]);
                    }
                }
                assert forall|j: int| 0 <= j < n && (j < settled || j >= k + 1) implies #[trigger] after[j]
                    == orig[j] by {
                    assert(before[j] == orig[j]);
                }
                assert forall|j: int| settled <= j < k + 1 implies column_fits(
                    nonnegative_column(#[trigger] orig[j], row as int),
                ) && after[j] == nonnegative_column(orig[j], row as int) by {
                    if j < k {
                        assert(after[j] == before[j]);
                    }
                }
            }
        }
        k += 1;
    }
    proof {
        assert(signs_fit(orig, settled as int, row as int));
        assert(columns(w@) =~= made_nonnegative(orig, settled as int, row as int).unwrap());
    }
    Some(w)
}

/// The leftmost column from `settled` on with the smallest positive
/// entry in `row`, where there is one.
fn find_pivot(m: &Mapping, settled: usize, row: usize, d: usize) -> (r: Option<usize>)
    requires
        has_rows(m@, d as nat),
        row < d,
        settled <= m.len(),
    ensures
        r is None ==> forall|k: int| settled <= k < m.len() ==> (#[trigger] m[k])[row as int] <= 0,
        r is None ==> !exists|p: int| is_pivot(columns(m@), settled as int, row as int, p),
        r matches Some(p) ==> {
            &&& settled <= p < m.len()
            &&& m[p as int][row as int] > 0
            &&& is_pivot(columns(m@), settled as int, row as int, p as int)
            &&& pivot_of(columns(m@), settled as int, row as int) == p
            &&& forall|k: int|
                settled <= k < m.len() && (#[trigger] m[k])[row as int] > 0 ==> m[p as int][row as int]
                    <= m[k][row as int]
        },
{
    let mut best: Option<usize> = None;
    let mut k: usize = settled;
    while k < m.len()
        invariant
            settled <= k <= m.len(),
            has_rows(m@, d as nat),
            row < d,
            best is None ==> forall|i: int|
                settled <= i < k ==> (#[trigger] m[i])[row as int] <= 0,
            best matches Some(p) ==> {
                &&& settled <= p < k
                &&& m[p as int][row as int] > 0
                &&& forall|i: int|
                    settled <= i < k && (#[trigger] m[i])[row as int] > 0 ==> m[p as int][row as int]
                        <= m[i][row as int]
                &&& forall|i: int|
                    settled <= i < p && (#[trigger] m[i])[row as int] > 0 ==> m[p as int][row as int]
                        < m[i][row as int]
            },
        decreases m.len() - k,
    {
        let x: i32 = m[k][row];
        if x > 0 {
            match best {
                None => {
                    best = Some(k);
                },
                Some(p) => {
                    if x < m[p][row] {
                        best = Some(k);
                    }
                },
            }
        }
        k += 1;
    }
    proof {
        let h = columns(m@);
        assert forall|i: int| 0 <= i < h.len() implies (#[trigger] h[i])[row as int]
            == m[i][row as int] by {}
        match best {
            None => {
                assert forall|p: int| !is_pivot(h, settled as int, row as int, p) by {
                    if settled <= p < h.len() {
                        assert(h[p][row as int] == m[p][row as int]);
                        assert(m[p][row as int] <= 0);
                    }
                }
            },
            Some(p) => {
                assert(h[p as int][row as int] == m[p as int][row as int]);
                assert forall|i: int|
                    settled <= i < h.len() && (#[trigger] h[i])[row as int] > 0 implies h[p as int][row as int]
                    <= h[i][row as int] by {
                    assert(m[i][row as int] > 0);
                }
                assert forall|i: int|
                    settled <= i < p && (#[trigger] h[i])[row as int] > 0 implies h[p as int][row as int]
                    < h[i][row as int] by {
                    assert(m[i][row as int] > 0);
                }
                lemma_pivot_unique(h, settled as int, row as int, p as int);
            },
        }
    }
    best
}

/// Reduces every column after `settled` modulo column `settled` in
/// `row`, and says whether a non-zero entry is left there.
fn reduce_others(m: Mapping, settled: usize, row: usize, d: usize) -> (r: Option<(Mapping, bool)>)
    requires
        has_rows(m@, d as nat),
        echelon_upto(columns(m@), d as nat, settled as int, row as int),
        row < d,
        settled < m.len(),
        m[settled as int][row as int] > 0,
        forall|k: int| settled <= k < m.len() ==> (#[trigger] m[k])[row as int] >= 0,
    ensures
        match others_reduced(columns(m@), settled as int, row as int) {
            Some(g) => r matches Some((w, any)) && columns(w@) == g && any == some_left(
                g,
                settled as int,
                row as int,
            ),
            None => r is None,
        },
        r matches Some((w, any)) ==> {
            &&& w.len() == m.len()
            &&& has_rows(w@, d as nat)
            &&& echelon_upto(columns(w@), d as nat, settled as int, row as int)
            &&& same_lattice(columns(m@), columns(w@))
            &&& w[settled as int]@ == m[settled as int]@
            &&& forall|k: int|
                settled < k < w.len() ==> 0 <= (#[trigger] w[k])[row as int]
                    < m[settled as int][row as int]
            &&& any <==> exists|k: int| settled < k < w.len() && (#[trigger] w[k])[row as int] != 0
        },
{
    let ghost orig = columns(m@);
    let ghost pivot = m[settled as int]@;
    let mut w = m;
    let n = w.len();
    let pv: i32 = w[settled][row];
    let mut any = false;
    let mut k: usize = settled + 1;
    proof {
        lemma_same_lattice_reflexive(orig);
        assert(orig[settled as int] == ints(pivot));
    }
    while k < n
        invariant
            settled < k <= n,
            n == w.len(),
            n == orig.len(),
            orig == columns(m@),
            row < d,
            pv > 0,
            has_rows(w@, d as nat),
            rectangular(orig, d as nat),
            echelon_upto(columns(w@), d as nat, settled as int, row as int),
            same_lattice(orig, columns(w@)),
            w[settled as int]@ == pivot,
            orig[settled as int] == ints(pivot),
            pivot.len() == d,
            pivot[row as int] == pv,
            forall|i: int| settled < i < k ==> 0 <= (#[trigger] w[i])[row as int] < pv,
            forall|i: int| k <= i < n ==> (#[trigger] w[i])[row as int] >= 0,
            any <==> exists|i: int| settled < i < k && (#[trigger] w[i])[row as int] != 0,
            forall|j: int| 0 <= j < n && (j <= settled || j >= k) ==> #[trigger] columns(w@)[j] == orig[j],
            forall|j: int|
                settled < j < k ==> column_fits(
                    reduced_column(#[trigger] orig[j], orig[settled as int], row as int),
                ) && columns(w@)[j] == reduced_column(orig[j], orig[settled as int], row as int),
        decreases n - k,
    {
        let s: i32 = w[k][row];
        let ghost wb = w@;
        let ghost before = columns(w@);
        proof {
            assert(before[k as int] == orig[k as int]);
            assert(before[settled as int] == orig[settled as int]);
            assert(before[k as int][row as int] == s);
            assert(before[settled as int][row as int] == pv);
            lemma_ints_fit(w[k as int]@);
        }
        if s != 0 {
            let q: i32 = s / pv;
            let v = match minus_multiple(&w[k], q, &w[settled]) {
                Some(v) => v,
                None => {
                    proof {
                        assert(!column_fits(
                            reduced_column(orig[k as int], orig[settled as int], row as int),
                        ));
                        assert(!others_fit(orig, settled as int, row as int));
                    }
                    return None;
                },
            };
            proof {
                lemma_column_operation(before, d as nat, k as int, 1, -(q as int), settled as int);
                assert forall|i: int| 0 <= i < row implies ints(v@)[i] == 0 by {
                    assert(before[k as int][i] == 0);
                    assert(before[settled as int][i] == 0);
                    assert(ints(v@)[i] == 1 * before[k as int][i] + (-(q as int))
                        * before[settled as int][i]);
                }
                lemma_echelon_upto_update(
                    before,
                    d as nat,
                    settled as int,
                    row as int,
                    k as int,
                    ints(v@),
                );
                assert(ints(v@)[row as int] == 1 * before[k as int][row as int] + (-(q as int))
                    * before[settled as int][row as int]);
                assert(0 <= 1 * (s as int) + (-(q as int)) * (pv as int) < pv) by (nonlinear_arith)
                    requires
                        s > 0,
                        pv > 0,
                        q == (s as int) / (pv as int),
                ;
            }
            let rest: i32 = v[row];
            set_column(&mut w, k, v);
            proof {
                lemma_same_lattice_transitive(orig, before, columns(w@), d as nat);
            }
            if rest != 0 {
                any = true;
            }
        }
        proof {
            let after = columns(w@);
            assert forall|i: int| settled < i < k + 1 implies 0 <= (#[trigger] w[i])[row as int]
                < pv by {
                if i < k {
                    assert(w[i] == wb[i]);
                }
            }
            assert forall|i: int| k + 1 <= i < n implies (#[trigger] w[i])[row as int] >= 0 by {
                assert(w[i] == wb[i]);
            }
            if any {
                if w[k as int][row as int] != 0 {
                } else {
                    let i = choose|i: int| settled < i < k && (#[trigger] wb[i])[row as int] != 0;
                    assert(w[i] == wb[i]);
                }
            } else {
                assert forall|i: int| settled < i < k + 1 implies (#[trigger] w[i])[row as int]
                    == 0 by {
                    if i < k {
                        assert(w[i] == wb[i]);
                    }
                }
            }
            assert forall|j: int| 0 <= j < n && (j <= settled || j >= k + 1) implies #[trigger] after[j]
                == orig[j] by {
                assert(before[j] == orig[j]);
            }
            assert forall|j: int| settled < j < k + 1 implies column_fits(
                reduced_column(#[trigger] orig[j], orig[settled as int], row as int),
            ) && after[j] == reduced_column(orig[j], orig[settled as int], row as int) by {
                if j < k {
                    assert(after[j] == before[j]);
                }
            }
        }
        k += 1;
    }
    proof {
        let g = columns(w@);
        assert(others_fit(orig, settled as int, row as int));
        assert(g =~= others_reduced(orig, settled as int, row as int).unwrap());
        assert forall|i: int| 0 <= i < n implies (#[trigger] g[i])[row as int] == w[i][row as int] by {}
        if any {
            let i = choose|i: int| settled < i < n && (#[trigger] w[i])[row as int] != 0;
            assert(g[i][row as int] != 0);
        } else {
            assert forall|i: int| settled < i < g.len() implies (#[trigger] g[i])[row as int]
                == 0 by {
                assert(w[i][row as int] == 0);
            }
        }
    }
    Some((w, any))
}

/// Clears `row` by Euclid's algorithm on the columns from `settled`
/// on: the column with the smallest positive entry there reduces the
/// others, until at most one entry is left.  Returns the matrix and
/// the number of settled columns after it.
fn clear_row(m: Mapping, settled: usize, row: usize, d: usize) -> (r: Option<(Mapping, usize)>)
    requires
        has_rows(m@, d as nat),
        echelon_upto(columns(m@), d as nat, settled as int, row as int),
        row < d,
    ensures
        match row_step(columns(m@), settled as int, row as int) {
            Some((cleared, after)) => r matches Some((w, next)) && columns(w@) == cleared && next
                == after,
            None => r is None,
        },
        r matches Some((w, next)) ==> {
            &&& w.len() == m.len()
            &&& has_rows(w@, d as nat)
            &&& echelon_upto(columns(w@), d as nat, next as int, row + 1)
            &&& same_lattice(columns(m@), columns(w@))
        },
{
    let ghost orig = columns(m@);
    let n = m.len();
    let mut w = make_nonnegative(m, settled, row, d)?;
    let ghost start = columns(w@);
    let ghost goal = row_cleared(start, settled as int, row as int, 0x8000_0000);
    let mut limit: i64 = 0x8000_0000;
    let mut next: usize = settled;
    let mut done = false;
    proof {
        assert(row_step(orig, settled as int, row as int) == goal);
    }
    while !done
        invariant
            n == w.len(),
            row < d,
            has_rows(w@, d as nat),
            rectangular(orig, d as nat),
            same_lattice(orig, columns(w@)),
            0 <= limit <= 0x8000_0000,
            row_step(columns(m@), settled as int, row as int) == goal,
            !done ==> {
                &&& next == settled
                &&& echelon_upto(columns(w@), d as nat, settled as int, row as int)
                &&& forall|k: int| settled <= k < n ==> (#[trigger] w[k])[row as int] >= 0
                &&& limit == 0x8000_0000 || exists|k: int|
                    settled <= k < n && 0 < (#[trigger] w[k])[row as int] < limit
                &&& goal == row_cleared(columns(w@), settled as int, row as int, limit as nat)
            },
            done ==> echelon_upto(columns(w@), d as nat, next as int, row + 1),
            done ==> goal == Some((columns(w@), next as int)),
        decreases if done { 0 } else { limit + 1 },
    {
        let ghost current = columns(w@);
        match find_pivot(&w, settled, row, d) {
            None => {
                proof {
                    let h = columns(w@);
                    assert forall|j: int, i: int|
                        settled <= j < h.len() && 0 <= i < row + 1 implies #[trigger] h[j][i]
                        == 0 by {
                        if i == row {
                            assert(w[j][row as int] <= 0);
                            assert(w[j][row as int] >= 0);
                        }
                    }
                }
                done = true;
            },
            Some(p) => {
                let pv: i32 = w[p][row];
                let ghost before = columns(w@);
                let ghost wb = w@;
                proof {
                    assert(before[p as int][row as int] == pv);
                    if limit != 0x8000_0000 {
                        let k0 = choose|k: int|
                            settled <= k < n && 0 < (#[trigger] wb[k])[row as int] < limit;
                        assert(pv <= wb[k0][row as int]);
                    }
                    assert(pv < limit);
                }
                swap_columns(&mut w, settled, p);
                proof {
                    let mid = columns(w@);
                    assert(mid == exchanged(before, settled as int, p as int));
                    lemma_same_lattice_transitive(orig, before, mid, d as nat);
                    assert forall|k: int| settled <= k < n implies (#[trigger] w[k])[row as int]
                        >= 0 by {
                        assert(mid[k][row as int] == w[k][row as int]);
                        if k == settled {
                            assert(before[p as int][row as int] == wb[p as int][row as int]);
                        } else if k == p {
                            assert(before[settled as int][row as int] == wb[settled as int][row as int]);
                        } else {
                            assert(before[k][row as int] == wb[k][row as int]);
                        }
                    }
                    assert(mid[settled as int][row as int] == w[settled as int][row as int]);
                    assert(before[p as int][row as int] == wb[p as int][row as int]);
                    lemma_echelon_upto_update(
                        before,
                        d as nat,
                        settled as int,
                        row as int,
                        settled as int,
                        before[p as int],
                    );
                    lemma_echelon_upto_update(
                        before.update(settled as int, before[p as int]),
                        d as nat,
                        settled as int,
                        row as int,
                        p as int,
                        before[settled as int],
                    );
                }
                let ghost mid = columns(w@);
                let (w2, any) = reduce_others(w, settled, row, d)?;
                w = w2;
                proof {
                    lemma_same_lattice_transitive(orig, mid, columns(w@), d as nat);
                }
                if any {
                    proof {
                        let k = choose|k: int|
                            settled < k < w.len() && (#[trigger] w[k])[row as int] != 0;
                        assert(0 < w[k][row as int] < pv);
                    }
                    limit = pv as i64;
                } else {
                    proof {
                        let h = columns(w@);
                        let piv = h[settled as int];
                        assert(piv[row as int] == w[settled as int][row as int]);
                        assert forall|i: int| 0 <= i < row implies piv[i] == 0 by {
                            assert(h[settled as int][i] == 0);
                        }
                        lemma_leading_is(piv, row as int);
                        assert forall|j: int, i: int|
                            settled + 1 <= j < h.len() && 0 <= i < row + 1 implies #[trigger] h[j][i]
                            == 0 by {
                            if i == row {
                                assert(w[j][row as int] == 0);
                            }
                        }
                        assert forall|i: int, j: int| 0 <= i < j < settled + 1 implies leading(
                            #[trigger] h[i],
                        ) < leading(#[trigger] h[j]) by {}
                    }
                    next = settled + 1;
                    done = true;
                }
            },
        }
    }
    Some((w, next))
}

/// Brings the columns from `settled` on into echelon shape, row by
/// row from `row` down.  The columns before `settled` lead above
/// `row` and stay as they are.
fn echelon_rec(working: Mapping, settled: usize, row: usize, d: usize) -> (r: Option<Mapping>)
    requires
        has_rows(working@, d as nat),
        echelon_upto(columns(working@), d as nat, settled as int, row as int),
    ensures
        match echelon_from(columns(working@), settled as int, row as int, d as nat) {
            Some(e) => r matches Some(w) && columns(w@) == e,
            None => r is None,
        },
        r matches Some(w) ==> {
            &&& w.len() == working.len()
            &&& has_rows(w@, d as nat)
            &&& is_echelon(columns(w@), d as nat)
            &&& same_lattice(columns(working@), columns(w@))
        },
    decreases d - row,
{
    if row == d {
        proof {
            lemma_echelon_complete(columns(working@), d as nat, settled as int);
            lemma_same_lattice_reflexive(columns(working@));
        }
        return Some(working);
    }
    let ghost orig = columns(working@);
    let (w, next) = clear_row(working, settled, row, d)?;
    let ghost mid = columns(w@);
    let e = echelon_rec(w, next, row + 1, d)?;
    proof {
        lemma_same_lattice_transitive(orig, mid, columns(e@), d as nat);
    }
    Some(e)
}

/// The index of the first non-zero entry, or the length.
pub fn first_nonzero(v: &Vec<i32>) -> (r: usize)
    ensures
        r == leading(ints(v@)),
{
    let mut i: usize = 0;
    while i < v.len() && v[i] == 0
        invariant
            i <= v.len(),
            forall|k: int| 0 <= k < i ==> v[k] == 0,
        decreases v.len() - i,
    {
        i += 1;
    }
    proof {
        lemma_leading_is(ints(v@), i as int);
    }
    i
}

/// Reduces the entries of the columns before `j` in the row in
/// which column `j` leads modulo its leading entry.
fn reduce_by(m: Mapping, j: usize, d: usize) -> (r: Option<Mapping>)
    requires
        has_rows(m@, d as nat),
        is_echelon(columns(m@), d as nat),
        hermite_upto(columns(m@), d as nat, j as int),
        1 <= j < m.len(),
    ensures
        match reduced_by(columns(m@), j as int, d as nat) {
            Some(g) => r matches Some(w) && columns(w@) == g,
            None => r is None,
        },
        r matches Some(w) ==> {
            &&& w.len() == m.len()
            &&& has_rows(w@, d as nat)
            &&& is_echelon(columns(w@), d as nat)
            &&& hermite_upto(columns(w@), d as nat, j + 1)
            &&& same_lattice(columns(m@), columns(w@))
        },
{
    let ghost orig = columns(m@);
    let n = m.len();
    let mut w = m;
    proof {
        lemma_same_lattice_reflexive(orig);
    }
    let row = first_nonzero(&w[j]);
    if row < d {
        let pv: i32 = w[j][row];
        let ghost top = columns(w@)[j as int];
        let mut k: usize = 0;
        proof {
            assert(top[row as int] == pv);
        }
        while k < j
            invariant
                k <= j < n,
                n == w.len(),
                n == orig.len(),
                orig == columns(m@),
                row < d,
                pv > 0,
                has_rows(w@, d as nat),
                rectangular(orig, d as nat),
                is_echelon(columns(w@), d as nat),
                hermite_upto(columns(w@), d as nat, j as int),
                same_lattice(orig, columns(w@)),
                columns(w@)[j as int] == top,
                orig[j as int] == top,
                leading(top) == row,
                top[row as int] == pv,
                forall|i: int| 0 <= i < k ==> 0 <= (#[trigger] columns(w@)[i])[row as int] < pv,
                forall|i: int| k <= i < n ==> #[trigger] columns(w@)[i] == orig[i],
                forall|i: int|
                    0 <= i < k ==> column_fits(reduced_column(#[trigger] orig[i], top, row as int))
                        && columns(w@)[i] == reduced_column(orig[i], top, row as int),
            decreases j - k,
        {
            let s: i32 = w[k][row];
            let ghost before = columns(w@);
            proof {
                assert(before[k as int] == orig[k as int]);
                assert(before[k as int][row as int] == s);
                lemma_ints_fit(w[k as int]@);
                assert(hermite_upto(before, d as nat, j as int));
            }
            if s != 0 {
                let q: i32 = div_floor(s, pv);
                let v = match minus_multiple(&w[k], q, &w[j]) {
                    Some(v) => v,
                    None => {
                        proof {
                            assert(!column_fits(reduced_column(orig[k as int], top, row as int)));
                            assert(!above_fits(orig, j as int));
                        }
                        return None;
                    },
                };
                proof {
                    lemma_column_operation(before, d as nat, k as int, 1, -(q as int), j as int);
                    lemma_leading(top);
                    assert forall|i: int| 0 <= i < row implies ints(v@)[i]
                        == before[k as int][i] by {
                        assert(top[i] == 0);
                        assert(ints(v@)[i] == 1 * before[k as int][i] + (-(q as int)) * top[i]);
                    }
                    lemma_reduce_step(before, d as nat, j as int, k as int, ints(v@));
                    assert(ints(v@)[row as int] == 1 * before[k as int][row as int] + (-(
                    q as int)) * top[row as int]);
                    assert(0 <= 1 * (s as int) + (-(q as int)) * (pv as int) < pv)
                        by (nonlinear_arith)
                        requires
                            pv > 0,
                            q == (s as int) / (pv as int),
                    ;
                }
                set_column(&mut w, k, v);
                proof {
                    lemma_same_lattice_transitive(orig, before, columns(w@), d as nat);
                }
            } else {
                proof {
                    assert(0 <= before[k as int][row as int] < pv);
                }
            }
            proof {
                let after = columns(w@);
                assert forall|i: int| 0 <= i < k + 1 implies 0 <= (#[trigger] after[i])[row as int]
                    < pv by {
                    if i < k {
                        assert(after[i] == before[i]);
                    }
                }
                assert forall|i: int| k + 1 <= i < n implies #[trigger] after[i] == orig[i] by {
                    assert(before[i] == orig[i]);
                }
                assert forall|i: int| 0 <= i < k + 1 implies column_fits(
                    reduced_column(#[trigger] orig[i], top, row as int),
                ) && after[i] == reduced_column(orig[i], top, row as int) by {
                    if i < k {
                        assert(after[i] == before[i]);
                    }
                }
            }
            k += 1;
        }
        proof {
            assert(above_fits(orig, j as int));
            assert(columns(w@) =~= reduced_by(orig, j as int, d as nat).unwrap());
        }
    }
    proof {
        let h = columns(w@);
        assert forall|a: int, b: int|
            0 <= a < b < j + 1 && b < h.len() && leading(#[trigger] h[b]) < d implies 0 <= (
        #[trigger] h[a])[leading(h[b])] < h[b][leading(h[b])] by {
            if b < j {
            } else {
                assert(row < d);
            }
        }
    }
    Some(w)
}

/// Reduces, for each column, the entries to its left in its leading
/// row modulo its leading entry.
fn reduce_above(m: Mapping, d: usize) -> (r: Option<Mapping>)
    requires
        has_rows(m@, d as nat),
        is_echelon(columns(m@), d as nat),
    ensures
        match reduced_from(columns(m@), 1, d as nat) {
            Some(g) => r matches Some(w) && columns(w@) == g,
            None => r is None,
        },
        r matches Some(w) ==> {
            &&& w.len() == m.len()
            &&& has_rows(w@, d as nat)
            &&& is_hermite(columns(w@), d as nat)
            &&& same_lattice(columns(m@), columns(w@))
        },
{
    let ghost orig = columns(m@);
    let n = m.len();
    let mut w = m;
    let mut j: usize = 1;
    proof {
        lemma_same_lattice_reflexive(orig);
    }
    while j < n
        invariant
            1 <= j,
            n == w.len(),
            orig == columns(m@),
            has_rows(w@, d as nat),
            rectangular(orig, d as nat),
            is_echelon(columns(w@), d as nat),
            hermite_upto(columns(w@), d as nat, j as int),
            same_lattice(orig, columns(w@)),
            reduced_from(orig, 1, d as nat) == reduced_from(columns(w@), j as int, d as nat),
        decreases n - j,
    {
        let ghost before = columns(w@);
        w = reduce_by(w, j, d)?;
        proof {
            lemma_same_lattice_transitive(orig, before, columns(w@), d as nat);
        }
        j += 1;
    }
    Some(w)
}

/// The column echelon form of a mapping: the columns lead strictly
/// downwards with positive leading entries, zero columns last, and
/// span the lattice that the mapping spans.  `None` where a column
/// on the way leaves the machine's range.
pub fn echelon_form(ets: &[ETMap]) -> (r: Option<Mapping>)
    requires
        is_matrix(ets@),
    ensures
        match echelon_from(columns(ets@), 0, 0, row_count(ets@)) {
            Some(e) => r matches Some(w) && columns(w@) == e,
            None => r is None,
        },
        r matches Some(w) ==> {
            &&& w.len() == ets.len()
            &&& has_rows(w@, row_count(ets@))
            &&& is_echelon(columns(w@), row_count(ets@))
            &&& same_lattice(columns(ets@), columns(w@))
        },
{
    if ets.len() == 0 {
        proof {
            lemma_same_lattice_reflexive(columns(ets@));
            assert(columns(ets@) =~= columns(Seq::<Vec<i32>>::empty()));
        }
        return Some(Vec::new());
    }
    let d = ets[0].len();
    let mut working: Mapping = Vec::with_capacity(ets.len());
    let mut j: usize = 0;
    while j < ets.len()
        invariant
            j <= ets.len(),
            working.len() == j,
            has_rows(ets@, d as nat),
            forall|k: int| 0 <= k < j ==> (#[trigger] working[k])@ == ets[k]@,
        decreases ets.len() - j,
    {
        working.push(copy_column(&ets[j]));
        j += 1;
    }
    proof {
        assert(columns(working@) =~= columns(ets@));
        lemma_has_rows(working@, d as nat);
    }
    echelon_rec(working, 0, 0, d)
}

/// The Hermite normal form of a mapping: the one matrix of that
/// shape with as many columns and the same lattice.  It is found by
/// the reduction that `reduction` describes step by step, and is
/// `None` where a column on the way leaves the machine's range.
pub fn hermite_normal_form(ets: &[ETMap]) -> (r: Option<Mapping>)
    requires
        is_matrix(ets@),
    ensures
        r is Some <==> reduction(columns(ets@), row_count(ets@)) is Some,
        r matches Some(h) ==> {
            &&& h.len() == ets.len()
            &&& has_rows(h@, row_count(ets@))
            &&& is_hermite_form_of(columns(h@), columns(ets@), row_count(ets@))
            &&& columns(h@) == hermite_of(columns(ets@), row_count(ets@))
            &&& Some(columns(h@)) == reduction(columns(ets@), row_count(ets@))
        },
        is_hermite(columns(ets@), row_count(ets@)) ==> (r matches Some(h) && columns(h@)
            == columns(ets@)),
{
    let ghost d = row_count(ets@);
    proof {
        if is_hermite(columns(ets@), d) {
            assert(matrix_fits(columns(ets@))) by {
                assert forall|k: int| 0 <= k < columns(ets@).len() implies column_fits(
                    #[trigger] columns(ets@)[k],
                ) by {
                    lemma_ints_fit(ets@[k]@);
                }
            }
            lemma_reduction_of_hermite(columns(ets@), d);
        }
    }
    let echelon = echelon_form(ets)?;
    let ghost mid = columns(echelon@);
    let dim: usize = if ets.len() == 0 {
        0
    } else {
        ets[0].len()
    };
    let h = reduce_above(echelon, dim)?;
    proof {
        lemma_has_rows(ets@, d);
        lemma_has_rows(h@, d);
        lemma_same_lattice_transitive(columns(ets@), mid, columns(h@), d);
        lemma_hermite_of(columns(ets@), columns(h@), d);
    }
    Some(h)
}

} // verus!
