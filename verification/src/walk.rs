//! The walk over the lattice of mappings: entry by entry, each
//! within the range that the entries before it leave.
use crate::{ETMap, Exponent, Mapping};
use vstd::prelude::*;

verus! {

/// `range` can answer `r` under the bound `bmax` for a mapping so
/// far with the given entries.
pub open spec fn answers<F: Fn(u64, &ETMap) -> Option<(Exponent, Exponent)>>(
    range: F,
    bmax: u64,
    prefix: Seq<i32>,
    r: Option<(Exponent, Exponent)>,
) -> bool {
    exists|p: ETMap| p@ == prefix && call_ensures(range, (bmax, &p), r)
}

/// `range` has one answer for each mapping so far, whatever vector
/// holds it.
pub open spec fn single_valued<F: Fn(u64, &ETMap) -> Option<(Exponent, Exponent)>>(range: F) -> bool {
    forall|bmax: u64, p: Seq<i32>, r1: Option<(Exponent, Exponent)>, r2: Option<(Exponent, Exponent)>|
        answers(range, bmax, p, r1) && answers(range, bmax, p, r2) ==> r1 == r2
}

/// The answer of `range` for a mapping so far.
pub open spec fn range_of<F: Fn(u64, &ETMap) -> Option<(Exponent, Exponent)>>(
    range: F,
    bmax: u64,
    prefix: Seq<i32>,
) -> Option<(Exponent, Exponent)> {
    choose|r: Option<(Exponent, Exponent)>| answers(range, bmax, prefix, r)
}

/// The vectors that a list of mappings holds.
pub open spec fn vectors(m: Seq<Vec<i32>>) -> Seq<Seq<i32>> {
    Seq::new(m.len(), |k: int| m[k]@)
}

/// The mappings of `d` entries that begin with `prefix` and in
/// which every further entry lies in the range that `range` gives
/// for the entries before it, in the order of the entries.  Where
/// `range` gives no range, there are none.
pub open spec fn walked<F: Fn(u64, &ETMap) -> Option<(Exponent, Exponent)>>(
    range: F,
    bmax: u64,
    prefix: Seq<i32>,
    d: nat,
) -> Seq<Seq<i32>>
    decreases d - prefix.len(), 0x2_0000_0000nat,
{
    if prefix.len() >= d {
        seq![prefix]
    } else {
        match range_of(range, bmax, prefix) {
            None => Seq::empty(),
            Some((lo, hi)) => ranged(range, bmax, prefix, d, lo as int, hi as int),
        }
    }
}

/// The mappings of `d` entries that begin with `prefix` and then
/// an entry from `lo` to `hi`.
pub open spec fn ranged<F: Fn(u64, &ETMap) -> Option<(Exponent, Exponent)>>(
    range: F,
    bmax: u64,
    prefix: Seq<i32>,
    d: nat,
    lo: int,
    hi: int,
) -> Seq<Seq<i32>>
    decreases d - prefix.len(),
        (if hi >= lo && hi - lo < 0x1_0000_0000 {
            hi - lo + 1
        } else {
            0
        }) as nat,
{
    if hi < lo || hi - lo >= 0x1_0000_0000 || prefix.len() >= d {
        Seq::empty()
    } else {
        ranged(range, bmax, prefix, d, lo, hi - 1) + walked(range, bmax, prefix.push(hi as i32), d)
    }
}

/// Every entry of `v` from place `from` on lies in the range that
/// `range` gives for the entries before it.
pub open spec fn within_ranges<F: Fn(u64, &ETMap) -> Option<(Exponent, Exponent)>>(
    range: F,
    bmax: u64,
    v: Seq<i32>,
    from: nat,
) -> bool {
    forall|i: int|
        from <= i < v.len() ==> match range_of(range, bmax, #[trigger] v.take(i)) {
            Some((lo, hi)) => lo <= v[i] <= hi,
            None => false,
        }
}

/// What the walk finds for a range of entries, it finds for one
/// entry of the range.
proof fn lemma_ranged_member<F: Fn(u64, &ETMap) -> Option<(Exponent, Exponent)>>(
    range: F,
    bmax: u64,
    prefix: Seq<i32>,
    d: nat,
    lo: int,
    hi: int,
    v: Seq<i32>,
) -> (g: int)
    requires
        ranged(range, bmax, prefix, d, lo, hi).contains(v),
        i32::MIN <= lo,
        hi <= i32::MAX,
    ensures
        lo <= g <= hi,
        prefix.len() < d,
        walked(range, bmax, prefix.push(g as i32), d).contains(v),
    decreases
            (if hi >= lo {
                hi - lo + 1
            } else {
                0
            }) as nat,
{
    let before = ranged(range, bmax, prefix, d, lo, hi - 1);
    let last = walked(range, bmax, prefix.push(hi as i32), d);
    let k = choose|k: int| 0 <= k < (before + last).len() && (before + last)[k] == v;
    if k < before.len() {
        assert(before[k] == v);
        lemma_ranged_member(range, bmax, prefix, d, lo, hi - 1, v)
    } else {
        assert(last[k - before.len()] == v);
        hi
    }
}

/// What the walk finds for an entry of a range, it finds for the
/// range.
proof fn lemma_member_ranged<F: Fn(u64, &ETMap) -> Option<(Exponent, Exponent)>>(
    range: F,
    bmax: u64,
    prefix: Seq<i32>,
    d: nat,
    lo: int,
    hi: int,
    g: int,
    v: Seq<i32>,
)
    requires
        i32::MIN <= lo <= g <= hi <= i32::MAX,
        prefix.len() < d,
        walked(range, bmax, prefix.push(g as i32), d).contains(v),
    ensures
        ranged(range, bmax, prefix, d, lo, hi).contains(v),
    decreases hi - g,
{
    let before = ranged(range, bmax, prefix, d, lo, hi - 1);
    let last = walked(range, bmax, prefix.push(hi as i32), d);
    if g < hi {
        lemma_member_ranged(range, bmax, prefix, d, lo, hi - 1, g, v);
        let k = choose|k: int| 0 <= k < before.len() && before[k] == v;
        assert((before + last)[k] == v);
    } else {
        let k = choose|k: int| 0 <= k < last.len() && last[k] == v;
        assert((before + last)[before.len() + k] == v);
    }
}

/// What the walk finds begins with the mapping so far, has `d`
/// entries, and has every further entry within its range.
pub proof fn lemma_walked_is_within<F: Fn(u64, &ETMap) -> Option<(Exponent, Exponent)>>(
    range: F,
    bmax: u64,
    prefix: Seq<i32>,
    d: nat,
    v: Seq<i32>,
)
    requires
        prefix.len() <= d,
        walked(range, bmax, prefix, d).contains(v),
    ensures
        v.len() == d,
        v.take(prefix.len() as int) == prefix,
        within_ranges(range, bmax, v, prefix.len()),
    decreases d - prefix.len(),
{
    if prefix.len() >= d {
        assert(walked(range, bmax, prefix, d)[0] == prefix);
        assert(v == prefix);
        assert(v.take(prefix.len() as int) =~= prefix);
    } else {
        match range_of(range, bmax, prefix) {
            None => {
                assert(false);
            },
            Some((lo, hi)) => {
                let g = lemma_ranged_member(range, bmax, prefix, d, lo as int, hi as int, v);
                let longer = prefix.push(g as i32);
                lemma_walked_is_within(range, bmax, longer, d, v);
                let n = prefix.len() as int;
                assert(v.take(n) =~= prefix) by {
                    assert(v.take(n + 1) == longer);
                    assert forall|t: int| 0 <= t < n implies v.take(n)[t] == prefix[t] by {
                        assert(v.take(n + 1)[t] == longer[t]);
                    }
                }
                assert(v[n] == g) by {
                    assert(v.take(n + 1)[n] == longer[n]);
                }
            },
        }
    }
}

/// The walk finds every mapping of `d` entries that begins with the
/// mapping so far and has every further entry within its range.
pub proof fn lemma_within_is_walked<F: Fn(u64, &ETMap) -> Option<(Exponent, Exponent)>>(
    range: F,
    bmax: u64,
    prefix: Seq<i32>,
    d: nat,
    v: Seq<i32>,
)
    requires
        prefix.len() <= d,
        v.len() == d,
        v.take(prefix.len() as int) == prefix,
        within_ranges(range, bmax, v, prefix.len()),
    ensures
        walked(range, bmax, prefix, d).contains(v),
    decreases d - prefix.len(),
{
    let n = prefix.len() as int;
    if prefix.len() >= d {
        assert(v.take(n) =~= v);
        assert(walked(range, bmax, prefix, d)[0] == v);
    } else {
        assert(v.take(n) == prefix);
        match range_of(range, bmax, prefix) {
            None => {
                assert(false);
            },
            Some((lo, hi)) => {
                let g = v[n];
                let longer = prefix.push(g);
                assert(v.take(n + 1) =~= longer);
                lemma_within_is_walked(range, bmax, longer, d, v);
                lemma_member_ranged(range, bmax, prefix, d, lo as int, hi as int, g as int, v);
            },
        }
    }
}

/// `a` comes before `b` in the order of the entries: at the first
/// place at which they differ, `a` has the smaller entry.
pub open spec fn comes_before(a: Seq<i32>, b: Seq<i32>) -> bool {
    exists|k: int|
        0 <= k < a.len() && k < b.len() && a.take(k) == b.take(k) && #[trigger] a[k] < b[k]
}

/// What the walk finds for a range of entries begins with the
/// mapping so far and an entry of the range.
proof fn lemma_ranged_entry<F: Fn(u64, &ETMap) -> Option<(Exponent, Exponent)>>(
    range: F,
    bmax: u64,
    prefix: Seq<i32>,
    d: nat,
    lo: int,
    hi: int,
    t: int,
)
    requires
        0 <= t < ranged(range, bmax, prefix, d, lo, hi).len(),
        i32::MIN <= lo,
        hi <= i32::MAX,
    ensures
        prefix.len() < d,
        ranged(range, bmax, prefix, d, lo, hi)[t].len() == d,
        ranged(range, bmax, prefix, d, lo, hi)[t].take(prefix.len() as int) == prefix,
        lo <= ranged(range, bmax, prefix, d, lo, hi)[t][prefix.len() as int] <= hi,
{
    let v = ranged(range, bmax, prefix, d, lo, hi)[t];
    let g = lemma_ranged_member(range, bmax, prefix, d, lo, hi, v);
    let longer = prefix.push(g as i32);
    lemma_walked_is_within(range, bmax, longer, d, v);
    let n = prefix.len() as int;
    assert(v.take(n + 1) == longer);
    assert(v.take(n) =~= prefix) by {
        assert forall|k: int| 0 <= k < n implies v.take(n)[k] == prefix[k] by {
            assert(v.take(n + 1)[k] == longer[k]);
        }
    }
    assert(v[n] == g) by {
        assert(v.take(n + 1)[n] == longer[n]);
    }
}

/// The walk finds the mappings in the order of their entries.
pub proof fn lemma_walked_in_order<F: Fn(u64, &ETMap) -> Option<(Exponent, Exponent)>>(
    range: F,
    bmax: u64,
    prefix: Seq<i32>,
    d: nat,
    s: int,
    t: int,
)
    requires
        prefix.len() <= d,
        0 <= s < t < walked(range, bmax, prefix, d).len(),
    ensures
        comes_before(walked(range, bmax, prefix, d)[s], walked(range, bmax, prefix, d)[t]),
    decreases d - prefix.len(), 0x2_0000_0000nat,
{
    if prefix.len() < d {
        match range_of(range, bmax, prefix) {
            None => {},
            Some((lo, hi)) => {
                lemma_ranged_in_order(range, bmax, prefix, d, lo as int, hi as int, s, t);
            },
        }
    }
}

proof fn lemma_ranged_in_order<F: Fn(u64, &ETMap) -> Option<(Exponent, Exponent)>>(
    range: F,
    bmax: u64,
    prefix: Seq<i32>,
    d: nat,
    lo: int,
    hi: int,
    s: int,
    t: int,
)
    requires
        prefix.len() <= d,
        i32::MIN <= lo,
        hi <= i32::MAX,
        0 <= s < t < ranged(range, bmax, prefix, d, lo, hi).len(),
    ensures
        comes_before(ranged(range, bmax, prefix, d, lo, hi)[s], ranged(range, bmax, prefix, d, lo, hi)[t]),
    decreases d - prefix.len(),
        (if hi >= lo {
            hi - lo + 1
        } else {
            0
        }) as nat,
{
    let before = ranged(range, bmax, prefix, d, lo, hi - 1);
    let last = walked(range, bmax, prefix.push(hi as i32), d);
    let all = ranged(range, bmax, prefix, d, lo, hi);
    assert(all == before + last);
    let n = prefix.len() as int;
    if t < before.len() {
        lemma_ranged_in_order(range, bmax, prefix, d, lo, hi - 1, s, t);
    } else if s >= before.len() {
        lemma_walked_in_order(range, bmax, prefix.push(hi as i32), d, s - before.len(), t - before.len());
    } else {
        let a = all[s];
        let b = all[t];
        assert(a == before[s]);
        assert(b == last[t - before.len()]);
        lemma_ranged_entry(range, bmax, prefix, d, lo, hi - 1, s);
        lemma_walked_is_within(range, bmax, prefix.push(hi as i32), d, b);
        assert(b.take(n + 1) == prefix.push(hi as i32));
        assert(b[n] == hi) by {
            assert(b.take(n + 1)[n] == prefix.push(hi as i32)[n]);
        }
        assert(b.take(n) =~= prefix) by {
            assert forall|k: int| 0 <= k < n implies b.take(n)[k] == prefix[k] by {
                assert(b.take(n + 1)[k] == prefix.push(hi as i32)[k]);
            }
        }
        assert(a.take(n) == b.take(n) && a[n] < b[n]);
    }
}

/// Walks on from the mapping so far and adds what it finds to the
/// results.
fn walk<F: Fn(u64, &ETMap) -> Option<(Exponent, Exponent)>>(
    mapping: &mut ETMap,
    d: usize,
    range: &F,
    bmax: u64,
    results: &mut Mapping,
)
    requires
        old(mapping).len() <= d,
        forall|p: ETMap| 1 <= p.len() < d ==> call_requires(*range, (bmax, &p)),
        old(mapping).len() >= 1,
        single_valued(*range),
    ensures
        final(mapping)@ == old(mapping)@,
        vectors(final(results)@) == vectors(old(results)@) + walked(
            *range, bmax,
            old(mapping)@,
            d as nat,
        ),
    decreases d - old(mapping).len(),
{
    let ghost start = mapping@;
    let ghost found = vectors(results@);
    if mapping.len() == d {
        // The walk stops here: a copy of the mapping is a result
        let mut copy: ETMap = Vec::new();
        let mut i: usize = 0;
        while i < mapping.len()
            invariant
                i <= mapping.len(),
                copy@ == mapping@.take(i as int),
            decreases mapping.len() - i,
        {
            copy.push(mapping[i]);
            proof {
                assert(mapping@.take(i as int + 1) =~= mapping@.take(i as int).push(mapping@[i as int]));
            }
            i += 1;
        }
        proof {
            assert(mapping@.take(mapping.len() as int) =~= mapping@);
        }
        results.push(copy);
        proof {
            assert(vectors(results@) =~= found + seq![start]);
        }
        return ;
    }
    let answer = range(bmax, mapping);
    proof {
        assert(answers(*range, bmax, start, answer));
        assert(range_of(*range, bmax, start) == answer);
    }
    match answer {
        None => {
            proof {
                assert(found + Seq::<Seq<i32>>::empty() =~= found);
            }
        },
        Some((lo, hi)) => {
            let mut guess: i64 = lo as i64;
            proof {
                assert(found + ranged(*range, bmax, start, d as nat, lo as int, lo - 1) =~= found);
            }
            while guess <= hi as i64
                invariant
                    lo <= guess <= hi + 1 || (hi < lo && guess == lo),
                    mapping@ == start,
                    start == old(mapping)@,
                    start.len() < d,
                    start.len() >= 1,
                    forall|p: ETMap| 1 <= p.len() < d ==> call_requires(*range, (bmax, &p)),
                    single_valued(*range),
                    vectors(results@) == found + ranged(
                        *range, bmax,
                        start,
                        d as nat,
                        lo as int,
                        guess - 1,
                    ),
                decreases hi - guess + 1,
            {
                let ghost before = vectors(results@);
                mapping.push(guess as i32);
                walk(mapping, d, range, bmax, results);
                mapping.pop();
                proof {
                    assert(mapping@ =~= start);
                    let done = ranged(*range, bmax, start, d as nat, lo as int, guess - 1);
                    let more = walked(*range, bmax, start.push(guess as i32), d as nat);
                    assert(ranged(*range, bmax, start, d as nat, lo as int, guess as int) == done + more);
                    assert(found + done + more =~= found + (done + more));
                }
                guess += 1;
            }
        },
    }
}

/// The walk from the mapping that holds `n_notes` alone.
fn mappings_under<F: Fn(u64, &ETMap) -> Option<(Exponent, Exponent)>>(
    n_notes: Exponent,
    dimension: usize,
    bmax: u64,
    range: &F,
) -> (results: Mapping)
    requires
        dimension >= 1,
        forall|p: ETMap| 1 <= p.len() < dimension ==> call_requires(*range, (bmax, &p)),
        single_valued(*range),
    ensures
        vectors(results@) == walked(*range, bmax, seq![n_notes], dimension as nat),
{
    let mut mapping: ETMap = Vec::new();
    mapping.push(n_notes);
    let mut results: Mapping = Vec::new();
    proof {
        assert(mapping@ =~= seq![n_notes]);
    }
    walk(&mut mapping, dimension, range, bmax, &mut results);
    proof {
        assert(Seq::<Seq<i32>>::empty() + walked(*range, bmax, seq![n_notes], dimension as nat)
            =~= walked(*range, bmax, seq![n_notes], dimension as nat));
        assert(vectors(Seq::<Vec<i32>>::empty()) =~= Seq::<Seq<i32>>::empty());
    }
    results
}

/// All mappings of `dimension` entries that begin with `n_notes`
/// and in which every further entry lies in the range that `range`
/// gives for the entries before it under the bound `bmax`, each
/// range from its lower to its upper end.  Where `range` gives no
/// range for a mapping so far, the walk turns back.  The bound is
/// the score of a badness: a whole number that grows with it.
pub fn limited_mappings<F: Fn(u64, &ETMap) -> Option<(Exponent, Exponent)>>(
    n_notes: Exponent,
    dimension: usize,
    bmax: u64,
    range: F,
) -> (results: Mapping)
    requires
        dimension >= 1,
        forall|p: ETMap| 1 <= p.len() < dimension ==> call_requires(range, (bmax, &p)),
        single_valued(range),
    ensures
        vectors(results@) == walked(range, bmax, seq![n_notes], dimension as nat),
{
    mappings_under(n_notes, dimension, bmax, &range)
}

/// What the walk finds under the first of the bounds from place
/// `from` on under which it finds anything; nothing where it finds
/// nothing under any.
pub open spec fn first_found<F: Fn(u64, &ETMap) -> Option<(Exponent, Exponent)>>(
    range: F,
    size: Exponent,
    d: nat,
    bounds: Seq<u64>,
    from: nat,
) -> Seq<Seq<i32>>
    decreases bounds.len() - from,
{
    if from >= bounds.len() {
        Seq::empty()
    } else {
        let found = walked(range, bounds[from as int], seq![size], d);
        if found.len() > 0 {
            found
        } else {
            first_found(range, size, d, bounds, from + 1)
        }
    }
}

/// Equal temperaments with `size` steps to the first entry: the
/// limited mappings under the first of the bounds that gives any,
/// the bounds tried in their order.  Empty where none gives any.
pub fn ets_of_size<F: Fn(u64, &ETMap) -> Option<(Exponent, Exponent)>>(
    size: Exponent,
    dimension: usize,
    bounds: &[u64],
    range: F,
) -> (ets: Mapping)
    requires
        dimension >= 1,
        forall|bmax: u64, p: ETMap| 1 <= p.len() < dimension ==> call_requires(range, (bmax, &p)),
        single_valued(range),
    ensures
        vectors(ets@) == first_found(range, size, dimension as nat, bounds@, 0),
{
    let mut attempt: usize = 0;
    while attempt < bounds.len()
        invariant
            attempt <= bounds.len(),
            dimension >= 1,
            forall|bmax: u64, p: ETMap|
                1 <= p.len() < dimension ==> call_requires(range, (bmax, &p)),
            single_valued(range),
            first_found(range, size, dimension as nat, bounds@, attempt as nat) == first_found(
                range,
                size,
                dimension as nat,
                bounds@,
                0,
            ),
        decreases bounds.len() - attempt,
    {
        let ets = mappings_under(size, dimension, bounds[attempt], &range);
        if ets.len() > 0 {
            return ets;
        }
        attempt += 1;
    }
    proof {
        assert(vectors(Seq::<Vec<i32>>::empty()) =~= Seq::<Seq<i32>>::empty());
    }
    Vec::new()
}

} // verus!
