//! The determinants of all the square parts of a matrix at once, of
//! which each is found from smaller ones.
use crate::determinant::{checked_det, checked_expansion, fits_wide, minor, sign, without_row};
use crate::shape::{columns, has_rows, ints};
use vstd::prelude::*;

verus! {

/// Row `i` is in the set that the bits of `mask` stand for.
pub open spec fn has_row(mask: u64, i: int) -> bool {
    0 <= i < 64 && (mask >> (i as u64)) & 1 == 1
}

/// The rows below `t` that are in the set, in ascending order.
pub open spec fn rows_below(mask: u64, t: nat) -> Seq<int>
    decreases t,
{
    if t == 0 {
        Seq::empty()
    } else {
        let before = rows_below(mask, (t - 1) as nat);
        if has_row(mask, t - 1) {
            before.push(t - 1)
        } else {
            before
        }
    }
}

/// The part of the matrix in the columns from `k` on and in the
/// given rows.
pub open spec fn part(m: Seq<Seq<int>>, k: int, rows: Seq<int>) -> Seq<Seq<int>> {
    Seq::new((m.len() - k) as nat, |c: int| Seq::new(rows.len(), |t: int| m[k + c][rows[t]]))
}

/// The determinant of the square part of the matrix in the rows of
/// the set and in as many of the last columns, as the expansion
/// finds it in machine integers.
pub open spec fn part_det(m: Seq<Seq<int>>, d: nat, mask: u64) -> Option<int> {
    let rows = rows_below(mask, d);
    checked_det(part(m, m.len() - rows.len(), rows))
}

proof fn lemma_rows_below(mask: u64, t: nat)
    ensures
        rows_below(mask, t).len() <= t,
        forall|k: int| 0 <= k < rows_below(mask, t).len() ==> 0 <= #[trigger] rows_below(mask, t)[k] < t,
    decreases t,
{
    if t > 0 {
        lemma_rows_below(mask, (t - 1) as nat);
    }
}

/// Taking a row out of the set takes it out of the rows.
pub proof fn lemma_row_taken(mask: u64, i: u64, t: nat)
    requires
        i < 64,
        t <= 64,
        has_row(mask, i as int),
    ensures
        rows_below((mask & !(1u64 << i)), t) == if t <= i {
            rows_below(mask, t)
        } else {
            rows_below(mask, t).remove(rows_below(mask, i as nat).len() as int)
        },
        t > i ==> rows_below(mask, i as nat).len() < rows_below(mask, t).len() && rows_below(
            mask,
            t,
        )[rows_below(mask, i as nat).len() as int] == i,
        t >= i ==> rows_below(mask, t).take(rows_below(mask, i as nat).len() as int) == rows_below(
            mask,
            i as nat,
        ),
    decreases t,
{
    let taken = mask & !(1u64 << i);
    if t > 0 {
        let j = (t - 1) as u64;
        lemma_row_taken(mask, i, (t - 1) as nat);
        assert(((mask & !(1u64 << i)) >> j) & 1 == if j == i {
            0u64
        } else {
            (mask >> j) & 1
        }) by (bit_vector)
            requires
                i < 64,
                j < 64,
        ;
        let at = rows_below(mask, i as nat).len() as int;
        let before = rows_below(mask, (t - 1) as nat);
        lemma_rows_below(mask, (t - 1) as nat);
        if t - 1 < i {
        } else if t - 1 == i {
            assert(before.push(i as int).remove(at) =~= before);
            assert(before.push(i as int).take(at) =~= before);
        } else {
            if has_row(mask, t - 1) {
                assert(before.push(t - 1).remove(at) =~= before.remove(at).push(t - 1));
                assert(before.push(t - 1).take(at) =~= before.take(at));
            }
        }
    } else {
        assert(rows_below(mask, 0).take(0) =~= rows_below(mask, 0));
    }
}

/// The set of the first `d` rows holds each of them.
pub proof fn lemma_all_rows(d: u64, t: nat)
    requires
        d <= 63,
        t <= d,
    ensures
        rows_below(((1u64 << d) - 1) as u64, t) == Seq::new(t, |k: int| k),
    decreases t,
{
    if t > 0 {
        lemma_all_rows(d, (t - 1) as nat);
        let j = (t - 1) as u64;
        assert(((((1u64 << d) - 1) as u64) >> j) & 1 == 1) by (bit_vector)
            requires
                j < d,
                d <= 63,
        ;
        assert(Seq::new((t - 1) as nat, |k: int| k).push(t - 1) =~= Seq::new(t, |k: int| k));
    }
}

/// The minor of a part is the part without the row.
proof fn lemma_minor_of_part(m: Seq<Seq<int>>, k: int, rows: Seq<int>, pos: int)
    requires
        0 <= k < m.len(),
        0 <= pos < rows.len(),
    ensures
        minor(part(m, k, rows), pos) == part(m, k + 1, rows.remove(pos)),
{
    let p = part(m, k, rows);
    let a = minor(p, pos);
    let b = part(m, k + 1, rows.remove(pos));
    assert(a.len() == b.len());
    assert forall|c: int| 0 <= c < a.len() implies a[c] == b[c] by {
        assert(p.skip(1)[c] == p[c + 1]);
        assert(a[c] == p[c + 1].remove(pos));
        assert(a[c] =~= b[c]);
    }
    assert(a =~= b);
}

/// What is found in machine integers is what the expansion finds.
pub open spec fn found(x: Option<i128>, y: Option<int>) -> bool {
    match x {
        Some(v) => y == Some(v as int),
        None => y is None,
    }
}

/// The table holds the determinant of the part of every set of rows
/// below `bound` that has no more rows than the matrix has columns.
pub open spec fn holds_parts(table: Seq<Option<i128>>, m: Seq<Seq<int>>, d: nat, bound: int) -> bool {
    forall|mask: u64|
        0 <= mask < bound && rows_below(mask, d).len() <= m.len() ==> found(
            #[trigger] table[mask as int],
            part_det(m, d, mask),
        )
}

/// The number of rows in the set.
fn count_rows(mask: u64, d: usize) -> (t: usize)
    requires
        d <= 64,
    ensures
        t == rows_below(mask, d as nat).len(),
        t <= d,
{
    let mut t: usize = 0;
    let mut j: usize = 0;
    while j < d
        invariant
            j <= d <= 64,
            t == rows_below(mask, j as nat).len(),
            t <= j,
        decreases d - j,
    {
        if (mask >> (j as u64)) & 1 == 1 {
            t += 1;
        }
        j += 1;
    }
    t
}

/// The determinant of the part of the set `mask`, from the
/// determinants of the parts of the smaller sets.
fn part_determinant(m: &[Vec<i32>], d: usize, mask: u64, table: &Vec<Option<i128>>) -> (r: Option<
    i128,
>)
    requires
        has_rows(m@, d as nat),
        d <= 20,
        mask == table.len(),
        mask < (1u64 << (d as u64)),
        rows_below(mask, d as nat).len() <= m.len(),
        holds_parts(table@, columns(m@), d as nat, mask as int),
    ensures
        found(r, part_det(columns(m@), d as nat, mask)),
{
    let n = m.len();
    let t = count_rows(mask, d);
    let ghost c = columns(m@);
    let ghost rows = rows_below(mask, d as nat);
    let ghost p = part(c, n - t, rows);
    if t == 0 {
        return Some(1);
    }
    let k = n - t;
    let mut acc: Option<i128> = Some(0);
    let mut pos: usize = 0;
    let mut j: usize = 0;
    proof {
        lemma_rows_below(mask, d as nat);
        assert(p.len() == t);
    }
    while j < d
        invariant
            j <= d <= 20,
            n == m.len(),
            t == rows.len(),
            0 < t <= n,
            k == n - t,
            c == columns(m@),
            rows == rows_below(mask, d as nat),
            p == part(c, k as int, rows),
            p.len() == t,
            has_rows(m@, d as nat),
            mask == table.len(),
            holds_parts(table@, c, d as nat, mask as int),
            pos == rows_below(mask, j as nat).len(),
            pos <= t,
            found(acc, checked_expansion(p, pos as nat)),
        decreases d - j,
    {
        if (mask >> (j as u64)) & 1 == 1 {
            let ghost smaller = mask & !(1u64 << (j as u64));
            proof {
                lemma_row_taken(mask, j as u64, d as nat);
                lemma_rows_below(mask, d as nat);
                assert(rows[pos as int] == j);
                assert(pos < t);
                assert(rows_below(smaller, d as nat) == rows.remove(pos as int));
                lemma_minor_of_part(c, k as int, rows, pos as int);
                assert(part_det(c, d as nat, smaller) == checked_det(minor(p, pos as int)));
                assert(p[0][pos as int] == c[k as int][j as int]);
                assert(c[k as int][j as int] == m[k as int][j as int]);
                assert(smaller < mask) by (bit_vector)
                    requires
                        smaller == mask & !(1u64 << (j as u64)),
                        (mask >> (j as u64)) & 1 == 1,
                        j < 64,
                ;
            }
            match acc {
                Some(total) => {
                    let entry: i128 = m[k][j] as i128;
                    if entry != 0 {
                        let sub_mask: u64 = mask & !(1u64 << (j as u64));
                        let below = table[sub_mask as usize];
                        acc = match below {
                            None => None,
                            Some(dv) => {
                                match entry.checked_mul(dv) {
                                    None => None,
                                    Some(product) => {
                                        proof {
                                            assert(sign(pos as int) * (entry * dv) == if pos % 2 == 0 {
                                                product as int
                                            } else {
                                                -(product as int)
                                            }) by (nonlinear_arith)
                                                requires
                                                    product == entry * dv,
                                                    sign(pos as int) == if pos % 2 == 0 {
                                                        1int
                                                    } else {
                                                        -1int
                                                    },
                                            ;
                                        }
                                        if pos % 2 == 0 {
                                            total.checked_add(product)
                                        } else {
                                            total.checked_sub(product)
                                        }
                                    },
                                }
                            },
                        };
                    }
                },
                None => {},
            }
            pos += 1;
        }
        j += 1;
    }
    acc
}

/// The determinants of the square parts of a matrix with `d` rows,
/// for every set of rows: entry `mask` of the table is the
/// determinant of the part in the rows whose bits are set in `mask`
/// and in as many of the last columns.
pub fn part_determinants(m: &[Vec<i32>], d: usize) -> (table: Vec<Option<i128>>)
    requires
        has_rows(m@, d as nat),
        d <= 20,
    ensures
        table.len() == (1u64 << (d as u64)),
        holds_parts(table@, columns(m@), d as nat, table.len() as int),
{
    let size: u64 = 1u64 << (d as u64);
    proof {
        assert(size <= 0x10_0000) by (bit_vector)
            requires
                size == 1u64 << (d as u64),
                d <= 20,
        ;
    }
    let mut table: Vec<Option<i128>> = Vec::new();
    let mut mask: u64 = 0;
    while mask < size
        invariant
            mask <= size,
            size == (1u64 << (d as u64)),
            size <= 0x10_0000,
            d <= 20,
            has_rows(m@, d as nat),
            table.len() == mask,
            holds_parts(table@, columns(m@), d as nat, mask as int),
        decreases size - mask,
    {
        let t = count_rows(mask, d);
        let value = if t <= m.len() {
            part_determinant(m, d, mask, &table)
        } else {
            None
        };
        let ghost before = table@;
        table.push(value);
        proof {
            assert forall|other: u64|
                0 <= other < mask + 1 && rows_below(other, d as nat).len() <= m.len() implies found(
                #[trigger] table@[other as int],
                part_det(columns(m@), d as nat, other),
            ) by {
                if other < mask {
                    assert(table@[other as int] == before[other as int]);
                }
            }
        }
        mask += 1;
    }
    table
}

/// The part of a matrix in all its columns and in all rows but one
/// is the matrix without that row; its determinant stands in the
/// table at the set of the other rows.
pub proof fn lemma_part_without_row(m: Seq<Seq<int>>, d: u64, i: u64)
    requires
        d <= 20,
        i < d,
        m.len() + 1 == d,
        forall|c: int| 0 <= c < m.len() ==> (#[trigger] m[c]).len() == d,
    ensures
        rows_below((((1u64 << d) - 1) as u64) & !(1u64 << i), d as nat).len() == m.len(),
        part_det(m, d as nat, (((1u64 << d) - 1) as u64) & !(1u64 << i)) == checked_det(
            without_row(m, i as int),
        ),
        (((1u64 << d) - 1) as u64) & !(1u64 << i) < (1u64 << d),
{
    let full = ((1u64 << d) - 1) as u64;
    let mask = full & !(1u64 << i);
    lemma_all_rows(d, d as nat);
    lemma_all_rows(d, i as nat);
    assert((full >> i) & 1 == 1) by (bit_vector)
        requires
            full == ((1u64 << d) - 1) as u64,
            i < d,
            d <= 20,
    ;
    lemma_row_taken(full, i, d as nat);
    let all = Seq::new(d as nat, |k: int| k);
    let rows = all.remove(i as int);
    assert(rows_below(mask, d as nat) == rows);
    assert(part(m, 0, rows) =~= without_row(m, i as int)) by {
        assert forall|c: int| 0 <= c < m.len() implies #[trigger] part(m, 0, rows)[c]
            =~= without_row(m, i as int)[c] by {
            assert forall|t: int| 0 <= t < rows.len() implies part(m, 0, rows)[c][t] == m[c].remove(
                i as int,
            )[t] by {
                assert(rows[t] == if t < i {
                    t
                } else {
                    t + 1
                });
            }
        }
    }
    assert(mask < (1u64 << d)) by (bit_vector)
        requires
            mask == (((1u64 << d) - 1) as u64) & !(1u64 << i),
            d <= 20,
    ;
}

} // verus!
