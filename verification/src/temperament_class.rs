//! Temperament classes: what a mapping is up to a change of
//! generators, told by its Hermite normal form.
use crate::fokker::{fokker_block_steps, periodic_step};
use crate::hermite::{copy_column, first_nonzero, hermite_normal_form};
use crate::limit::PrimeLimit;
use crate::names::{name_of_class, recorded_name};
use crate::reduction::{lemma_reduction_of_hermite, reduction};
use crate::shape::{
    columns, has_rows, hermite_of, ints, is_hermite, is_hermite_form_of, is_matrix, leading, lemma_has_rows,
    lemma_leading, lemma_leading_at_least, lemma_rank_at_most_rows, nonzero_columns, rank_of,
    row_count,
};
use crate::uv::{dot, dotprod};
use crate::{ETMap, Exponent, Mapping};
use vstd::prelude::*;

verus! {

/// The key of the first `n` columns of a matrix: each column from
/// its own index on, the last column first.
pub open spec fn key_of(h: Seq<Seq<int>>, n: nat) -> Seq<int>
    decreases n,
{
    if n == 0 {
        Seq::empty()
    } else {
        h[n - 1].skip(n - 1) + key_of(h, (n - 1) as nat)
    }
}

/// The reduction of the mapping to Hermite normal form stays in the
/// machine's range.
pub open spec fn reduces(mapping: Seq<Vec<i32>>) -> bool {
    reduction(columns(mapping), row_count(mapping)) is Some
}

/// Whether all columns are as long as the first.
pub fn is_rectangular(mapping: &[ETMap]) -> (b: bool)
    ensures
        b == is_matrix(mapping@),
{
    if mapping.len() == 0 {
        return true;
    }
    let d = mapping[0].len();
    let mut j: usize = 1;
    while j < mapping.len()
        invariant
            1 <= j <= mapping.len(),
            d == mapping[0].len(),
            forall|k: int| 0 <= k < j ==> (#[trigger] mapping[k]).len() == d,
        decreases mapping.len() - j,
    {
        if mapping[j].len() != d {
            return false;
        }
        j += 1;
    }
    true
}

/// The number of rows of a mapping.
fn dimension(mapping: &[ETMap]) -> (d: usize)
    ensures
        d == row_count(mapping@),
{
    if mapping.len() == 0 {
        0
    } else {
        mapping[0].len()
    }
}

/// Unique identifier of the class of a mapping: its Hermite normal
/// form flattened, without the entries that are always zero.
/// `None` where the normal form leaves the machine's range.
pub fn key(mapping: &[ETMap]) -> (k: Option<ETMap>)
    requires
        is_matrix(mapping@),
        mapping.len() <= row_count(mapping@) + 1,
    ensures
        k is Some <==> reduces(mapping@),
        k matches Some(v) ==> ints(v@) == key_of(
            hermite_of(columns(mapping@), row_count(mapping@)),
            mapping.len() as nat,
        ) && v.len() == key_length(row_count(mapping@), mapping.len() as nat),
{
    let h = hermite_normal_form(mapping)?;
    let d = dimension(mapping);
    proof {
        lemma_has_rows(h@, d as nat);
        lemma_key_of_length(columns(h@), d as nat, h.len() as nat);
    }
    let mut result: ETMap = Vec::new();
    let mut i: usize = h.len();
    let ghost hc = columns(h@);
    while i > 0
        invariant
            i <= h.len(),
            h.len() <= d + 1,
            has_rows(h@, d as nat),
            hc == columns(h@),
            ints(result@) + key_of(hc, i as nat) == key_of(hc, h.len() as nat),
        decreases i,
    {
        let ghost before = ints(result@);
        i -= 1;
        let mut r: usize = i;
        while r < d
            invariant
                i <= r <= d,
                i < h.len(),
                has_rows(h@, d as nat),
                hc == columns(h@),
                ints(result@) == before + hc[i as int].subrange(i as int, r as int),
            decreases d - r,
        {
            let ghost prev = result@;
            result.push(h[i][r]);
            proof {
                assert(hc[i as int][r as int] == h[i as int][r as int]);
                assert(result@ == prev.push(h[i as int][r as int]));
                assert(ints(result@) =~= ints(prev).push(hc[i as int][r as int]));
                assert(hc[i as int].subrange(i as int, r as int + 1) =~= hc[i as int].subrange(
                    i as int,
                    r as int,
                ).push(hc[i as int][r as int]));
                assert(ints(result@) =~= before + hc[i as int].subrange(i as int, r as int + 1));
            }
            r += 1;
        }
        proof {
            assert(hc[i as int].len() == d);
            assert(hc[i as int].subrange(i as int, d as int) =~= hc[i as int].skip(i as int));
            assert(before + (hc[i as int].skip(i as int) + key_of(hc, i as nat)) =~= (before
                + hc[i as int].skip(i as int)) + key_of(hc, i as nat));
        }
    }
    proof {
        assert(ints(result@) + key_of(hc, 0) =~= ints(result@));
    }
    Some(result)
}

/// The Hermite normal form of a mapping.
pub fn reduced_mapping(mapping: &[ETMap]) -> (r: Option<Mapping>)
    requires
        is_matrix(mapping@),
    ensures
        r is Some <==> reduces(mapping@),
        r matches Some(h) ==> {
            &&& h.len() == mapping.len()
            &&& has_rows(h@, row_count(mapping@))
            &&& columns(h@) == hermite_of(columns(mapping@), row_count(mapping@))
        },
{
    hermite_normal_form(mapping)
}

/// The rank of the class of a matrix with `d` rows: the number of
/// non-zero columns of its Hermite normal form.
pub open spec fn class_rank(m: Seq<Seq<int>>, d: nat) -> nat {
    rank_of(hermite_of(m, d), d)
}

/// Actual rank of the mapping matrix.  `None` where the normal
/// form leaves the machine's range.
pub fn rank(mapping: &[ETMap]) -> (r: Option<usize>)
    requires
        is_matrix(mapping@),
    ensures
        r is Some <==> reduces(mapping@),
        r matches Some(n) ==> {
            &&& n == class_rank(columns(mapping@), row_count(mapping@))
            &&& n <= mapping.len()
            &&& n <= row_count(mapping@)
        },
{
    let h = hermite_normal_form(mapping)?;
    let d = dimension(mapping);
    proof {
        lemma_rank_at_most_rows(columns(h@), d as nat);
    }
    let mut result: usize = 0;
    let mut j: usize = 0;
    while j < h.len()
        invariant
            j <= h.len(),
            has_rows(h@, d as nat),
            result == nonzero_columns(columns(h@), d as nat, j as nat),
            result <= j,
        decreases h.len() - j,
    {
        if first_nonzero(&h[j]) < d {
            result += 1;
        }
        j += 1;
    }
    Some(result)
}

/// The equal temperament belongs to the class of the matrix `m`
/// of `rows` rows: the matrix has the same rank with it.
pub open spec fn belongs(m: Seq<Seq<int>>, rows: nat, et: Seq<int>) -> bool {
    class_rank(m, rows) == class_rank(seq![et] + m, et.len())
}

/// Whether an equal temperament belongs to the class of a mapping:
/// whether the mapping with it has the rank of the mapping without.
/// `None` where a normal form leaves the machine's range.
pub fn et_belongs(mapping: &[ETMap], et: &[Exponent]) -> (b: Option<bool>)
    requires
        is_matrix(mapping@),
        mapping.len() == 0 || et.len() == row_count(mapping@),
    ensures
        b is Some <==> reduces(mapping@) && reduction(
            seq![ints(et@)] + columns(mapping@),
            et.len() as nat,
        ) is Some,
        b matches Some(v) ==> (v <==> belongs(
            columns(mapping@),
            row_count(mapping@),
            ints(et@),
        )),
{
    let mut melody: Mapping = Vec::new();
    let mut first: ETMap = Vec::with_capacity(et.len());
    let mut i: usize = 0;
    while i < et.len()
        invariant
            i <= et.len(),
            first@ == et@.take(i as int),
        decreases et.len() - i,
    {
        first.push(et[i]);
        proof {
            assert(et@.take(i as int + 1) =~= et@.take(i as int).push(et@[i as int]));
        }
        i += 1;
    }
    proof {
        assert(et@.take(et.len() as int) =~= et@);
    }
    melody.push(first);
    let mut j: usize = 0;
    while j < mapping.len()
        invariant
            j <= mapping.len(),
            melody.len() == j + 1,
            melody[0]@ == et@,
            forall|k: int| 0 <= k < j ==> (#[trigger] melody[k + 1])@ == mapping[k]@,
        decreases mapping.len() - j,
    {
        melody.push(copy_column(&mapping[j]));
        j += 1;
    }
    proof {
        assert(columns(melody@) =~= seq![ints(et@)] + columns(mapping@)) by {
            assert forall|k: int| 0 <= k < melody.len() implies columns(melody@)[k] == (seq![
                ints(et@),
            ] + columns(mapping@))[k] by {
                if k > 0 {
                    assert(melody[(k - 1) + 1]@ == mapping[k - 1]@);
                }
            }
        }
        assert(is_matrix(melody@)) by {
            assert forall|k: int| 0 <= k < melody.len() implies (#[trigger] melody@[k]).len()
                == et.len() by {
                if k > 0 {
                    assert(melody[(k - 1) + 1]@ == mapping[k - 1]@);
                }
            }
        }
    }
    let without = rank(mapping)?;
    let with = rank(melody.as_slice())?;
    Some(without == with)
}

/// The length of the key of `r` columns with `n` rows:
/// `r·n − r·(r−1)/2`.
pub open spec fn key_length(n: nat, r: nat) -> nat
    decreases r,
{
    if r == 0 {
        0
    } else {
        (key_length(n, (r - 1) as nat) + n - (r - 1)) as nat
    }
}

proof fn lemma_key_length_grows(n: nat, a: nat, b: nat)
    requires
        a <= b <= n,
    ensures
        key_length(n, a) <= key_length(n, b),
        a < b ==> key_length(n, a) < key_length(n, b),
    decreases b,
{
    if a < b {
        lemma_key_length_grows(n, a, (b - 1) as nat);
    }
}

/// Column `j` of the mapping that a key of `n` rows stands for:
/// `j` zeros and then its part of the key, which holds the last
/// column first.
pub open spec fn key_column(n: nat, key: Seq<int>, j: nat) -> Seq<int> {
    Seq::new(
        n,
        |i: int|
            if i < j {
                0
            } else {
                key[key.len() - key_length(n, j + 1) + (i - j)]
            },
    )
}

/// The number of columns of the mapping that a key of the given
/// length stands for.
pub open spec fn columns_of_key(n: nat, length: nat) -> nat {
    choose|k: nat| k <= n && length == key_length(n, k)
}

/// The mapping that a key stands for, where it has the length of a
/// key of at most `n` columns.
pub open spec fn class_of_key(n: nat, key: Seq<int>) -> Option<Seq<Seq<int>>> {
    if exists|k: nat| k <= n && key.len() == key_length(n, k) {
        Some(Seq::new(columns_of_key(n, key.len()), |j: int| key_column(n, key, j as nat)))
    } else {
        None
    }
}

/// A key length belongs to one number of columns.
pub proof fn lemma_columns_of_key(n: nat, k: nat)
    requires
        k <= n,
    ensures
        columns_of_key(n, key_length(n, k)) == k,
{
    let c = columns_of_key(n, key_length(n, k));
    if c < k {
        lemma_key_length_grows(n, c, k);
    } else if k < c {
        lemma_key_length_grows(n, k, c);
    }
}

/// Reverse engineers a key to get the mapping in normal form that
/// it stands for: column `j` is `j` zeros and then its part of the
/// key.  `None` where the key has not the length of a key of at
/// most `n_primes` columns.
pub fn key_to_mapping(n_primes: usize, key: &[Exponent]) -> (r: Option<Mapping>)
    ensures
        r.is_some() <==> exists|k: nat| k <= n_primes && key.len() == key_length(n_primes as nat, k),
        r is Some <==> class_of_key(n_primes as nat, ints(key@)) is Some,
        r matches Some(m) ==> {
            &&& Some(columns(m@)) == class_of_key(n_primes as nat, ints(key@))
            &&& m.len() <= n_primes
            &&& key.len() == key_length(n_primes as nat, m.len() as nat)
            &&& has_rows(m@, n_primes as nat)
            &&& forall|j: int, i: int| 0 <= i < j < m.len() ==> #[trigger] m[j][i] == 0
            &&& key_of(columns(m@), m.len() as nat) == ints(key@)
        },
{
    let mut result: Mapping = Vec::new();
    let mut end: usize = key.len();
    while end > 0
        invariant
            end <= key.len(),
            result.len() <= n_primes,
            key.len() - end == key_length(n_primes as nat, result.len() as nat),
            has_rows(result@, n_primes as nat),
            forall|j: int, i: int| 0 <= i < j < result.len() ==> #[trigger] result[j][i] == 0,
            key_of(columns(result@), result.len() as nat) == ints(key@).skip(end as int),
            forall|j: int|
                0 <= j < result.len() ==> #[trigger] columns(result@)[j] == key_column(
                    n_primes as nat,
                    ints(key@),
                    j as nat,
                ),
        decreases end,
    {
        let j = result.len();
        if j >= n_primes {
            proof {
                assert forall|k: nat| k <= n_primes implies key.len() != key_length(
                    n_primes as nat,
                    k,
                ) by {
                    lemma_key_length_grows(n_primes as nat, k, n_primes as nat);
                }
            }
            return None;
        }
        let take = n_primes - j;
        if take > end {
            proof {
                assert forall|k: nat| k <= n_primes implies key.len() != key_length(
                    n_primes as nat,
                    k,
                ) by {
                    if k <= j {
                        lemma_key_length_grows(n_primes as nat, k, j as nat);
                    } else {
                        lemma_key_length_grows(n_primes as nat, (j + 1) as nat, k);
                    }
                }
            }
            return None;
        }
        let start = end - take;
        let mut column: ETMap = Vec::with_capacity(n_primes);
        let mut i: usize = 0;
        while i < j
            invariant
                i <= j,
                column.len() == i,
                forall|k: int| 0 <= k < i ==> column[k] == 0,
            decreases j - i,
        {
            column.push(0);
            i += 1;
        }
        let mut t: usize = start;
        while t < end
            invariant
                start <= t <= end <= key.len(),
                column.len() == j + (t - start),
                forall|k: int| 0 <= k < j ==> column[k] == 0,
                forall|k: int| j <= k < column.len() ==> #[trigger] column[k] == key[start + (k - j)],
            decreases end - t,
        {
            column.push(key[t]);
            t += 1;
        }
        let ghost before = columns(result@);
        let ghost col = ints(column@);
        result.push(column);
        proof {
            let after = columns(result@);
            assert(after =~= before.push(col));
            assert(col.skip(j as int) =~= ints(key@).subrange(start as int, end as int));
            assert(key_of(after, (j + 1) as nat) == after[j as int].skip(j as int) + key_of(
                after,
                j as nat,
            ));
            lemma_key_of_prefix(after, before, j as nat);
            assert(ints(key@).subrange(start as int, end as int) + ints(key@).skip(end as int)
                =~= ints(key@).skip(start as int));
            assert(key_length(n_primes as nat, (j + 1) as nat) == key_length(
                n_primes as nat,
                j as nat,
            ) + n_primes - j);
            assert(col =~= key_column(n_primes as nat, ints(key@), j as nat));
            assert forall|t: int| 0 <= t < after.len() implies #[trigger] after[t] == key_column(
                n_primes as nat,
                ints(key@),
                t as nat,
            ) by {
                if t < j {
                    assert(after[t] == before[t]);
                }
            }
        }
        end = start;
    }
    proof {
        assert(ints(key@).skip(0) =~= ints(key@));
        lemma_columns_of_key(n_primes as nat, result.len() as nat);
        assert(columns(result@) =~= class_of_key(n_primes as nat, ints(key@)).unwrap());
    }
    Some(result)
}

/// The key of the first `n` columns depends on those columns only.
proof fn lemma_key_of_prefix(a: Seq<Seq<int>>, b: Seq<Seq<int>>, n: nat)
    requires
        n <= a.len(),
        n <= b.len(),
        forall|j: int| 0 <= j < n ==> a[j] == b[j],
    ensures
        key_of(a, n) == key_of(b, n),
    decreases n,
{
    if n > 0 {
        lemma_key_of_prefix(a, b, (n - 1) as nat);
    }
}

/// The name on record for the class of the mapping in the limit.
/// `None` for a class without a name, and where the normal form
/// leaves the machine's range.
pub fn name(mapping: &[ETMap], limit: &PrimeLimit) -> (n: Option<&'static str>)
    requires
        is_matrix(mapping@),
        mapping.len() <= row_count(mapping@) + 1,
    ensures
        n is Some <==> reduces(mapping@) && recorded_name(
            limit.heading_texts(),
            key_of(
                hermite_of(columns(mapping@), row_count(mapping@)),
                mapping.len() as nat,
            ),
        ) is Some,
        n matches Some(s) ==> recorded_name(
            limit.heading_texts(),
            key_of(
                hermite_of(columns(mapping@), row_count(mapping@)),
                mapping.len() as nat,
            ),
        ) == Some(s@),
{
    let k = key(mapping)?;
    proof {
        assert(limit.heading_texts() =~= Seq::new(
            limit.headings.len() as nat,
            |k: int| limit.headings[k]@,
        ));
    }
    name_of_class(&limit.headings, k.as_slice())
}

/// The steps of each generator to an interval given by the
/// exponents of its primes.  `None` where a number of steps leaves
/// the machine's range.
pub fn generators_from_primes(mapping: &[ETMap], interval: &[Exponent]) -> (r: Option<ETMap>)
    ensures
        r is Some <==> forall|j: int|
            0 <= j < mapping.len() ==> i32::MIN <= dot(
                ints((#[trigger] mapping[j])@),
                ints(interval@),
            ) <= i32::MAX,
        r matches Some(steps) ==> {
            &&& steps.len() == mapping.len()
            &&& forall|j: int|
                0 <= j < mapping.len() ==> #[trigger] steps[j] == dot(
                    ints(mapping[j]@),
                    ints(interval@),
                )
        },
{
    let mut steps: ETMap = Vec::new();
    let mut j: usize = 0;
    while j < mapping.len()
        invariant
            j <= mapping.len(),
            steps.len() == j,
            forall|k: int|
                0 <= k < j ==> i32::MIN <= dot(ints((#[trigger] mapping[k])@), ints(interval@))
                    <= i32::MAX,
            forall|k: int|
                0 <= k < j ==> #[trigger] steps[k] == dot(ints(mapping[k]@), ints(interval@)),
        decreases mapping.len() - j,
    {
        let total = dotprod(mapping[j].as_slice(), interval);
        if total < i32::MIN as i128 || total > i32::MAX as i128 {
            return None;
        }
        steps.push(total as i32);
        j += 1;
    }
    Some(steps)
}

/// The length of a key is the sum of the lengths of its parts:
/// `r·n − r·(r−1)/2` for `r` columns of `n` rows.
pub proof fn lemma_key_length(n: nat, r: nat)
    requires
        r <= n + 1,
    ensures
        2 * key_length(n, r) == 2 * r * n - r * (r - 1),
    decreases r,
{
    if r == 0 {
        assert(2 * r * n - r * (r - 1) == 0) by (nonlinear_arith)
            requires
                r == 0,
        ;
    } else {
        let p = (r - 1) as nat;
        lemma_key_length(n, p);
        let before = key_length(n, p);
        assert(key_length(n, r) == before + n - p);
        assert(2 * (before + n - p) == 2 * r * n - r * (r - 1)) by (nonlinear_arith)
            requires
                2 * before == 2 * p * n - p * (p - 1),
                r == p + 1,
        ;
    }
}

/// The key of the first `r` columns has the length of a key.
pub proof fn lemma_key_of_length(h: Seq<Seq<int>>, n: nat, r: nat)
    requires
        r <= h.len(),
        r <= n + 1,
        forall|j: int| 0 <= j < h.len() ==> (#[trigger] h[j]).len() == n,
    ensures
        key_of(h, r).len() == key_length(n, r),
    decreases r,
{
    if r > 0 {
        lemma_key_of_length(h, n, (r - 1) as nat);
    }
}

/// Matrices with the same key have the same columns, each from its
/// own index on.
proof fn lemma_key_of_parts(a: Seq<Seq<int>>, b: Seq<Seq<int>>, n: nat, r: nat, j: int)
    requires
        r <= a.len(),
        r <= b.len(),
        r <= n,
        forall|c: int| 0 <= c < a.len() ==> (#[trigger] a[c]).len() == n,
        forall|c: int| 0 <= c < b.len() ==> (#[trigger] b[c]).len() == n,
        key_of(a, r) == key_of(b, r),
        0 <= j < r,
    ensures
        a[j].skip(j) == b[j].skip(j),
    decreases r,
{
    let x = a[r - 1].skip(r - 1);
    let y = b[r - 1].skip(r - 1);
    let ka = key_of(a, (r - 1) as nat);
    let kb = key_of(b, (r - 1) as nat);
    lemma_key_of_length(a, n, (r - 1) as nat);
    lemma_key_of_length(b, n, (r - 1) as nat);
    assert(x.len() == y.len());
    assert(key_of(a, r) == x + ka);
    assert(key_of(b, r) == y + kb);
    assert(x =~= y) by {
        assert forall|t: int| 0 <= t < x.len() implies x[t] == y[t] by {
            assert((x + ka)[t] == x[t]);
            assert((y + kb)[t] == y[t]);
        }
    }
    assert(ka =~= kb) by {
        assert forall|t: int| 0 <= t < ka.len() implies ka[t] == kb[t] by {
            assert((x + ka)[x.len() + t] == ka[t]);
            assert((y + kb)[y.len() + t] == kb[t]);
        }
    }
    if j < r - 1 {
        lemma_key_of_parts(a, b, n, (r - 1) as nat, j);
    }
}

/// A key stands for its mapping: the mapping that `key_to_mapping`
/// makes of the key of a matrix in Hermite normal form with no more
/// columns than rows is that matrix.
pub proof fn lemma_key_gives_form(h: Seq<Seq<int>>, m: Seq<Seq<int>>, n: nat)
    requires
        is_hermite(h, n),
        h.len() <= n,
        m.len() <= n,
        forall|c: int| 0 <= c < m.len() ==> (#[trigger] m[c]).len() == n,
        forall|j: int, i: int| 0 <= i < j < m.len() ==> #[trigger] m[j][i] == 0,
        key_of(m, m.len()) == key_of(h, h.len()),
    ensures
        m == h,
{
    lemma_key_of_length(h, n, h.len());
    lemma_key_of_length(m, n, m.len());
    if m.len() < h.len() {
        lemma_key_length_grows(n, m.len(), h.len());
    }
    if h.len() < m.len() {
        lemma_key_length_grows(n, h.len(), m.len());
    }
    assert forall|j: int| 0 <= j < h.len() implies m[j] == h[j] by {
        lemma_key_of_parts(m, h, n, h.len(), j);
        lemma_leading(h[j]);
        if leading(h[j]) < n {
            lemma_leading_at_least(h, n, j);
        }
        assert forall|i: int| 0 <= i < n implies m[j][i] == h[j][i] by {
            if i < j {
                assert(h[j][i] == 0);
            } else {
                assert(m[j].skip(j)[i - j] == m[j][i]);
                assert(h[j].skip(j)[i - j] == h[j][i]);
            }
        }
        assert(m[j] =~= h[j]);
    }
    assert(m =~= h);
}

/// Whether the mapping has no more than one column more than rows,
/// as a key asks.
fn has_key_shape(mapping: &[ETMap]) -> (b: bool)
    requires
        is_matrix(mapping@),
    ensures
        b == (mapping.len() <= row_count(mapping@) + 1),
{
    mapping.len() == 0 || mapping.len() - 1 <= mapping[0].len()
}

/// Whether every equal temperament of the mapping has a positive
/// number of steps to the first partial.
fn has_positive_octaves(mapping: &[ETMap]) -> (b: bool)
    ensures
        b == forall|j: int|
            0 <= j < mapping.len() ==> (#[trigger] mapping[j]).len() > 0 && mapping[j][0] > 0,
{
    let mut j: usize = 0;
    while j < mapping.len()
        invariant
            j <= mapping.len(),
            forall|k: int| 0 <= k < j ==> (#[trigger] mapping[k]).len() > 0 && mapping[k][0] > 0,
        decreases mapping.len() - j,
    {
        if mapping[j].len() == 0 || mapping[j][0] <= 0 {
            return false;
        }
        j += 1;
    }
    true
}

/// Something that has a mapping, and with it the class of that
/// mapping.  The methods ask the functions of this module about the
/// mapping, and give `None` for a mapping that is not of the shape
/// which the function asks for.
pub trait TemperamentClass {
    /// The equal temperaments that make the mapping, for contracts:
    /// what `mapping` gives.
    open spec fn melody(&self) -> Seq<Vec<i32>> {
        arbitrary()
    }

    /// The equal temperaments that make the mapping.
    fn mapping(&self) -> (mapping: &Mapping)
        ensures
            mapping@ == self.melody(),
    ;

    /// Unique identifier for the mapping (Hermite normal form
    /// flattened and with always-zero entries removed).
    fn key(&self) -> (k: Option<ETMap>)
        ensures
            k is Some <==> is_matrix(self.melody()) && self.melody().len() <= row_count(
                self.melody(),
            ) + 1 && reduces(self.melody()),
            k matches Some(v) ==> ints(v@) == key_of(
                hermite_of(columns(self.melody()), row_count(self.melody())),
                self.melody().len(),
            ),
    {
        let mapping = self.mapping();
        if is_rectangular(mapping.as_slice()) && has_key_shape(mapping.as_slice()) {
            key(mapping.as_slice())
        } else {
            None
        }
    }

    /// The Hermite normal form of the mapping.
    fn reduced_mapping(&self) -> (r: Option<Mapping>)
        ensures
            r is Some <==> is_matrix(self.melody()) && reduces(self.melody()),
            r matches Some(h) ==> {
                &&& h.len() == self.melody().len()
                &&& has_rows(h@, row_count(self.melody()))
                &&& columns(h@) == hermite_of(columns(self.melody()), row_count(self.melody()))
            },
    {
        let mapping = self.mapping();
        if is_rectangular(mapping.as_slice()) {
            reduced_mapping(mapping.as_slice())
        } else {
            None
        }
    }

    /// Actual rank of the mapping matrix.
    fn rank(&self) -> (r: Option<usize>)
        ensures
            r is Some <==> is_matrix(self.melody()) && reduces(self.melody()),
            r matches Some(n) ==> n == class_rank(
                columns(self.melody()),
                row_count(self.melody()),
            ),
    {
        let mapping = self.mapping();
        if is_rectangular(mapping.as_slice()) {
            rank(mapping.as_slice())
        } else {
            None
        }
    }

    /// The name on record for the class in the limit.
    fn name(&self, limit: &PrimeLimit) -> (n: Option<&'static str>)
        ensures
            n matches Some(s) ==> recorded_name(
                limit.heading_texts(),
                key_of(
                    hermite_of(columns(self.melody()), row_count(self.melody())),
                    self.melody().len(),
                ),
            ) == Some(s@),
            n is Some <==> is_matrix(self.melody()) && self.melody().len() <= row_count(
                self.melody(),
            ) + 1 && reduces(self.melody()) && recorded_name(
                limit.heading_texts(),
                key_of(
                    hermite_of(columns(self.melody()), row_count(self.melody())),
                    self.melody().len(),
                ),
            ) is Some,
    {
        let mapping = self.mapping();
        if is_rectangular(mapping.as_slice()) && has_key_shape(mapping.as_slice()) {
            name(mapping.as_slice(), limit)
        } else {
            None
        }
    }

    /// Whether the equal temperament belongs to the class.
    fn et_belongs(&self, et: &[Exponent]) -> (b: Option<bool>)
        ensures
            b is Some <==> is_matrix(self.melody()) && (self.melody().len() == 0 || et.len()
                == row_count(self.melody())) && reduces(self.melody()) && reduction(
                seq![ints(et@)] + columns(self.melody()),
                et.len() as nat,
            ) is Some,
            b matches Some(v) ==> (v <==> class_rank(
                columns(self.melody()),
                row_count(self.melody()),
            ) == class_rank(seq![ints(et@)] + columns(self.melody()), et.len() as nat)),
    {
        let mapping = self.mapping();
        if is_rectangular(mapping.as_slice()) && (mapping.len() == 0 || et.len()
            == mapping[0].len()) {
            et_belongs(mapping.as_slice(), et)
        } else {
            None
        }
    }

    /// The steps of each generator to an interval of primes.
    fn generators_from_primes(&self, interval: &[Exponent]) -> (r: Option<ETMap>)
        ensures
            r is Some <==> forall|j: int|
                0 <= j < self.melody().len() ==> i32::MIN <= dot(
                    ints((#[trigger] self.melody()[j])@),
                    ints(interval@),
                ) <= i32::MAX,
            r matches Some(steps) ==> {
                &&& steps.len() == self.melody().len()
                &&& forall|j: int|
                    0 <= j < self.melody().len() ==> #[trigger] steps[j] == dot(
                        ints(self.melody()[j]@),
                        ints(interval@),
                    )
            },
    {
        generators_from_primes(self.mapping().as_slice(), interval)
    }

    /// The Fokker block as steps of each generator, for a number of
    /// pitches that is not negative and a mapping with positive
    /// numbers of steps to the first partial.
    fn fokker_block_steps(&self, n_pitches: Exponent) -> (r: Option<Mapping>)
        ensures
            r is Some <==> n_pitches >= 0 && forall|j: int|
                0 <= j < self.melody().len() ==> (#[trigger] self.melody()[j]).len() > 0
                    && self.melody()[j][0] > 0,
            r matches Some(block) ==> {
                &&& block.len() == n_pitches
                &&& forall|i: int|
                    0 <= i < n_pitches ==> {
                        &&& (#[trigger] block[i]).len() == self.melody().len()
                        &&& forall|j: int|
                            0 <= j < self.melody().len() ==> #[trigger] block[i][j]
                                == periodic_step(n_pitches as int, self.melody()[j][0] as int, i)
                    }
            },
    {
        let mapping = self.mapping();
        if n_pitches >= 0 && has_positive_octaves(mapping.as_slice()) {
            Some(fokker_block_steps(mapping.as_slice(), n_pitches))
        } else {
            None
        }
    }
}

/// A class given by nothing but a mapping.
pub struct StubTemperamentClass {
    pub melody: Mapping,
}

impl TemperamentClass for StubTemperamentClass {
    open spec fn melody(&self) -> Seq<Vec<i32>> {
        self.melody@
    }

    fn mapping(&self) -> (mapping: &Mapping) {
        &self.melody
    }
}

/// The matrix without columns is its own normal form, of rank
/// zero, whatever the number of rows.
pub proof fn lemma_empty_class(d: nat)
    ensures
        class_rank(Seq::empty(), d) == 0,
        reduction(Seq::empty(), d) == Some(Seq::<Seq<int>>::empty()),
{
    let empty = Seq::<Seq<int>>::empty();
    assert(is_hermite_form_of(empty, empty, d));
    assert(hermite_of(empty, d).len() == 0);
    lemma_reduction_of_hermite(empty, d);
}

/// The rank of a mapping of `dimension` rows, which may have no
/// columns.
pub(crate) fn rank_in(mapping: &Mapping, dimension: usize) -> (r: Option<usize>)
    requires
        has_rows(mapping@, dimension as nat),
    ensures
        r is Some <==> reduction(columns(mapping@), dimension as nat) is Some,
        r matches Some(n) ==> n == class_rank(columns(mapping@), dimension as nat),
{
    proof {
        if mapping.len() == 0 {
            assert(columns(mapping@) =~= Seq::empty());
            lemma_empty_class(0);
            lemma_empty_class(dimension as nat);
        }
    }
    rank(mapping.as_slice())
}

/// Whether the equal temperament belongs to the class of a mapping
/// of `dimension` rows, which may have no columns.
pub(crate) fn belongs_in(mapping: &Mapping, et: &ETMap, dimension: usize) -> (b: Option<bool>)
    requires
        has_rows(mapping@, dimension as nat),
        et.len() == dimension,
    ensures
        b is Some <==> reduction(columns(mapping@), dimension as nat) is Some && reduction(
            seq![ints(et@)] + columns(mapping@),
            dimension as nat,
        ) is Some,
        b matches Some(v) ==> (v <==> belongs(columns(mapping@), dimension as nat, ints(et@))),
{
    proof {
        if mapping.len() == 0 {
            assert(columns(mapping@) =~= Seq::empty());
            lemma_empty_class(0);
            lemma_empty_class(dimension as nat);
        }
    }
    et_belongs(mapping.as_slice(), et.as_slice())
}

} // verus!
