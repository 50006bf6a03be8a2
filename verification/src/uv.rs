//! Unison vectors: the intervals that a mapping tempers out.
use crate::alternating::{lemma_repeated_column, square};
use crate::determinant::{
    checked_det, det, determinant, expansion, lemma_checked_det, minor, sign, submatrix,
    without_row,
};
use crate::lattice::rectangular;
use crate::minors::{found, holds_parts, lemma_part_without_row, part_det, part_determinants};
use crate::shape::{columns, has_rows, ints, is_matrix, lemma_has_rows, row_count};
use crate::{ETMap, Exponent};
use vstd::prelude::*;

verus! {

/// The sum of the products of the first `n` entries of `a` and `b`.
pub open spec fn dot_upto(a: Seq<int>, b: Seq<int>, n: nat) -> int
    decreases n,
{
    if n == 0 {
        0
    } else {
        dot_upto(a, b, (n - 1) as nat) + a[n - 1] * b[n - 1]
    }
}

/// The dot product of two vectors, over the length of the shorter.
pub open spec fn dot(a: Seq<int>, b: Seq<int>) -> int {
    dot_upto(
        a,
        b,
        if a.len() <= b.len() {
            a.len()
        } else {
            b.len()
        },
    )
}

/// Every column of the mapping sends the interval to zero steps.
pub open spec fn tempered_out(mapping: Seq<Vec<i32>>, interval: Seq<i32>) -> bool {
    forall|j: int| 0 <= j < mapping.len() ==> dot(ints((#[trigger] mapping[j])@), ints(interval)) == 0
}

/// The dot product of two vectors, in integers wide enough for any
/// two vectors in memory.
pub fn dotprod(a: &[Exponent], b: &[Exponent]) -> (total: i128)
    ensures
        total == dot(ints(a@), ints(b@)),
{
    let n: usize = if a.len() <= b.len() {
        a.len()
    } else {
        b.len()
    };
    let mut total: i128 = 0;
    let mut i: usize = 0;
    while i < n
        invariant
            i <= n,
            n <= a.len(),
            n <= b.len(),
            total == dot_upto(ints(a@), ints(b@), i as nat),
            -(i as int) * 0x4000_0000_0000_0000 <= total <= i as int * 0x4000_0000_0000_0000,
        decreases n - i,
    {
        let x: i128 = a[i] as i128;
        let y: i128 = b[i] as i128;
        proof {
            assert(-0x4000_0000_0000_0000 <= x * y <= 0x4000_0000_0000_0000) by (nonlinear_arith)
                requires
                    -0x8000_0000 <= x <= 0x7fff_ffff,
                    -0x8000_0000 <= y <= 0x7fff_ffff,
            ;
            assert((i as int) * 0x4000_0000_0000_0000 <= 0xffff_ffff_ffff_ffff
                * 0x4000_0000_0000_0000) by (nonlinear_arith)
                requires
                    i <= 0xffff_ffff_ffff_ffff,
            ;
            assert((i as int + 1) * 0x4000_0000_0000_0000 == i as int * 0x4000_0000_0000_0000
                + 0x4000_0000_0000_0000) by (nonlinear_arith);
            assert(-(i as int + 1) * 0x4000_0000_0000_0000 == -(i as int) * 0x4000_0000_0000_0000
                - 0x4000_0000_0000_0000) by (nonlinear_arith);
        }
        total = total + x * y;
        i += 1;
    }
    total
}

/// Whether the mapping tempers the interval out: whether each of
/// its equal temperaments sends it to zero steps.
pub fn tempers_out(mapping: &[ETMap], interval: &[Exponent]) -> (b: bool)
    ensures
        b == tempered_out(mapping@, interval@),
{
    let mut j: usize = 0;
    while j < mapping.len()
        invariant
            j <= mapping.len(),
            forall|k: int|
                0 <= k < j ==> dot(ints((#[trigger] mapping[k])@), ints(interval@)) == 0,
        decreases mapping.len() - j,
    {
        if dotprod(mapping[j].as_slice(), interval) != 0 {
            return false;
        }
        j += 1;
    }
    true
}

/// Entry `i` of the vector of the largest minors of a matrix with
/// one column less than rows: the determinant of the matrix
/// without row `i`, with alternating sign.  It is entry `i` of the
/// first row of the adjoint of the square matrix that has a unit
/// vector before the columns.
pub open spec fn minor_entry(m: Seq<Seq<int>>, i: int) -> int {
    sign(i) * det(without_row(m, i))
}

/// The interval with every exponent negated: the same interval
/// downwards.  `None` where an exponent has no negative in the
/// machine's range.
pub fn inverted(interval: &[Exponent]) -> (r: Option<ETMap>)
    ensures
        r is Some <==> forall|i: int| 0 <= i < interval.len() ==> #[trigger] interval[i] != i32::MIN,
        r matches Some(v) ==> v.len() == interval.len() && forall|i: int|
            0 <= i < v.len() ==> #[trigger] v[i] == -interval[i],
{
    let mut v: ETMap = Vec::new();
    let mut i: usize = 0;
    while i < interval.len()
        invariant
            i <= interval.len(),
            v.len() == i,
            forall|k: int| 0 <= k < i ==> #[trigger] interval[k] != i32::MIN,
            forall|k: int| 0 <= k < i ==> #[trigger] v[k] == -interval[k],
        decreases interval.len() - i,
    {
        if interval[i] == i32::MIN {
            return None;
        }
        v.push(-interval[i]);
        i += 1;
    }
    Some(v)
}

/// The expansion of the determinant of a matrix with the column
/// `a` before it is the dot product of `a` with the minors.
proof fn lemma_expansion_is_dot(m: Seq<Seq<int>>, a: Seq<int>, b: Seq<int>, k: nat)
    requires
        k <= m.len() + 1,
        forall|i: int| 0 <= i < k ==> #[trigger] b[i] == minor_entry(m, i),
    ensures
        expansion(seq![a] + m, k) == dot_upto(a, b, k),
    decreases k,
{
    let s = seq![a] + m;
    if k > 0 {
        lemma_expansion_is_dot(m, a, b, (k - 1) as nat);
        let i = k - 1;
        assert(s.skip(1) =~= m);
        assert(minor(s, i) == without_row(m, i));
        assert(s[0] == a);
        let x = a[i];
        let d = det(without_row(m, i));
        let g = sign(i);
        assert(b[i] == g * d);
        assert(g * (x * d) == x * (g * d)) by (nonlinear_arith);
    }
}

/// Every column of a matrix with one column less than rows sends
/// the vector of its largest minors to zero.
pub proof fn lemma_minors_tempered_out(m: Seq<Seq<int>>, d: nat, b: Seq<int>, j: int)
    requires
        m.len() + 1 == d,
        rectangular(m, d),
        0 <= j < m.len(),
        b.len() == d,
        forall|i: int| 0 <= i < d ==> #[trigger] b[i] == minor_entry(m, i),
    ensures
        dot(m[j], b) == 0,
{
    let s = seq![m[j]] + m;
    assert(square(s, d)) by {
        assert forall|c: int| 0 <= c < s.len() implies (#[trigger] s[c]).len() == d by {
            if c > 0 {
                assert(s[c] == m[c - 1]);
            }
        }
    }
    assert(s[0] == s[j + 1]);
    lemma_repeated_column(s, d, j + 1);
    lemma_expansion_is_dot(m, m[j], b, d);
}

/// The largest minors of the matrix are found in the widest machine
/// integers, and are in the range of an exponent.
pub open spec fn minors_fit(m: Seq<Seq<int>>, d: nat) -> bool {
    forall|i: int|
        0 <= i < d ==> checked_det(#[trigger] without_row(m, i)) is Some && i32::MIN
            <= minor_entry(m, i) <= i32::MAX
}

/// One of the largest minors is not zero.
pub open spec fn some_minor(m: Seq<Seq<int>>, d: nat) -> bool {
    exists|i: int| 0 <= i < d && #[trigger] minor_entry(m, i) != 0
}

/// The commatic unison vector of a mapping with only one column
/// less than it has rows: the vector of its largest minors, which
/// every column of the mapping sends to zero.  `None` for a mapping
/// of another shape and for one of lower rank, whose minors are all
/// zero; also where a minor leaves the machine's range.  Up to
/// twenty rows the minors come from one table of the determinants
/// of all square parts; beyond that each is expanded by itself.
pub fn only_unison_vector(mapping: &[ETMap]) -> (r: Option<ETMap>)
    requires
        is_matrix(mapping@),
    ensures
        r is Some <==> {
            &&& mapping.len() >= 1
            &&& mapping.len() + 1 == row_count(mapping@)
            &&& minors_fit(columns(mapping@), row_count(mapping@))
            &&& some_minor(columns(mapping@), row_count(mapping@))
        },
        r matches Some(uv) ==> {
            &&& uv.len() == row_count(mapping@)
            &&& forall|i: int|
                0 <= i < uv.len() ==> #[trigger] uv[i] == minor_entry(columns(mapping@), i)
            &&& tempered_out(mapping@, uv@)
        },
{
    let rank = mapping.len();
    if rank == 0 {
        return None;
    }
    let dimension = mapping[0].len();
    if dimension == 0 || rank != dimension - 1 {
        return None;
    }
    let ghost m = columns(mapping@);
    let ghost d = dimension as nat;
    // all the minors at once, where there is room for their table
    let table: Vec<Option<i128>> = if dimension <= 20 {
        part_determinants(mapping, dimension)
    } else {
        Vec::new()
    };
    let mut uv: ETMap = Vec::new();
    let mut nonzero = false;
    let mut i: usize = 0;
    while i < dimension
        invariant
            i <= dimension,
            rank == mapping.len(),
            rank + 1 == dimension,
            d == dimension,
            d == row_count(mapping@),
            m == columns(mapping@),
            has_rows(mapping@, dimension as nat),
            dimension <= 20 ==> table.len() == (1u64 << (dimension as u64)) && holds_parts(
                table@,
                m,
                d,
                table.len() as int,
            ),
            uv.len() == i,
            forall|k: int| 0 <= k < i ==> #[trigger] uv[k] == minor_entry(m, k),
            forall|k: int|
                0 <= k < i ==> checked_det(#[trigger] without_row(m, k)) is Some && i32::MIN
                    <= minor_entry(m, k) <= i32::MAX,
            nonzero <==> exists|k: int| 0 <= k < i && #[trigger] minor_entry(m, k) != 0,
        decreases dimension - i,
    {
        let found_minor: Option<i128> = if dimension <= 20 {
            let width: u64 = dimension as u64;
            proof {
                assert((1u64 << width) >= 1) by (bit_vector)
                    requires
                        width <= 20,
                ;
            }
            let mask: u64 = (((1u64 << width) - 1) as u64) & !(1u64 << (i as u64));
            proof {
                lemma_has_rows(mapping@, d);
                lemma_part_without_row(m, dimension as u64, i as u64);
                assert(found(table@[mask as int], part_det(m, d, mask)));
            }
            table[mask as usize]
        } else {
            let sub = submatrix(mapping, 0, i, dimension);
            proof {
                assert(m.skip(0) =~= m);
            }
            determinant(sub.as_slice())
        };
        let minor_det = match found_minor {
            Some(minor_det) => minor_det,
            None => {
                proof {
                    assert(checked_det(without_row(m, i as int)) is None);
                }
                return None;
            },
        };
        let ghost wanted = minor_entry(m, i as int);
        proof {
            lemma_checked_det(without_row(m, i as int));
            assert(minor_det == det(without_row(m, i as int)));
            assert(wanted == sign(i as int) * det(without_row(m, i as int)));
            if i % 2 == 0 {
                assert(sign(i as int) == 1);
                assert(wanted == minor_det as int);
            } else {
                assert(sign(i as int) == -1);
                assert(wanted == -(minor_det as int));
            }
        }
        let entry: i128 = if i % 2 == 0 {
            minor_det
        } else {
            if minor_det == i128::MIN {
                proof {
                    assert(wanted > i32::MAX);
                }
                return None;
            }
            -minor_det
        };
        proof {
            assert(entry == wanted);
        }
        if entry < i32::MIN as i128 || entry > i32::MAX as i128 {
            proof {
                assert(!(i32::MIN <= minor_entry(m, i as int) <= i32::MAX));
            }
            return None;
        }
        uv.push(entry as i32);
        if entry != 0 {
            nonzero = true;
        }
        i += 1;
    }
    if !nonzero {
        return None;
    }
    proof {
        lemma_has_rows(mapping@, d);
        assert forall|j: int| 0 <= j < mapping.len() implies dot(
            ints((#[trigger] mapping[j])@),
            ints(uv@),
        ) == 0 by {
            assert(m[j] == ints(mapping[j]@));
            assert forall|k: int| 0 <= k < d implies #[trigger] ints(uv@)[k] == minor_entry(
                m,
                k,
            ) by {
                assert(ints(uv@)[k] == uv[k]);
            }
            lemma_minors_tempered_out(m, d, ints(uv@), j);
        }
    }
    Some(uv)
}

} // verus!
