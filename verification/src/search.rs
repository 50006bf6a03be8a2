//! The search for temperament classes of one rank more: each
//! mapping of the current rank with each equal temperament, the
//! best ones kept, each class once.
use crate::hermite::copy_column;
use crate::queue::{
    all_items, ascending, cap_of, distinct_items, lemma_cap_falls, lemma_cap_relabelled,
    lemma_pushed_all, lemma_pushed_distinct, lemma_pushed_relabelled, pushed, relabelled,
    PriorityQueue,
};
use crate::reduction::reduction;
use crate::shape::{columns, has_rows, hermite_of, ints, row_count};
use crate::temperament_class::{class_rank, key, key_of, rank};
use crate::{ETMap, Mapping};
use vstd::prelude::*;

verus! {

/// What a search has found so far: the candidates that are kept,
/// each with its score, and the keys of the classes that were seen.
pub struct Found {
    pub kept: Seq<(u64, Seq<Seq<int>>)>,
    pub keys: Seq<Seq<int>>,
}

/// The key of the class of a matrix with `d` rows.
pub open spec fn class_key(m: Seq<Seq<int>>, d: nat) -> Seq<int> {
    key_of(hermite_of(m, d), m.len())
}

/// What is found after the mapping `rt` with the equal temperament
/// `et` is considered: where the two together have one rank more
/// than `rt` has columns, score better than the cap, and are of a
/// class not yet seen, they are pushed and their class is seen.
pub open spec fn considered(
    found: Found,
    size: nat,
    rt: Seq<Seq<int>>,
    et: Seq<int>,
    score: u64,
    d: nat,
) -> Found {
    let new_rt = rt.push(et);
    if class_rank(new_rt, d) == rt.len() + 1 && score < cap_of(found.kept, size)
        && !found.keys.contains(class_key(new_rt, d)) {
        Found {
            kept: pushed(found.kept, size, score, new_rt),
            keys: found.keys.push(class_key(new_rt, d)),
        }
    } else {
        found
    }
}

/// What is found after the first `i` mappings are considered with
/// every equal temperament, and mapping `i` with the first `j`.
pub open spec fn searched(
    ets: Seq<Seq<int>>,
    rts: Seq<Seq<Seq<int>>>,
    scores: Seq<Seq<u64>>,
    size: nat,
    d: nat,
    i: nat,
    j: nat,
) -> Found
    decreases i, j,
{
    if j > 0 {
        considered(
            searched(ets, rts, scores, size, d, i, (j - 1) as nat),
            size,
            rts[i as int],
            ets[j - 1],
            scores[i as int][j - 1],
            d,
        )
    } else if i > 0 {
        searched(ets, rts, scores, size, d, (i - 1) as nat, ets.len())
    } else {
        Found { kept: Seq::empty(), keys: Seq::empty() }
    }
}

/// Every mapping with every equal temperament reduces to its
/// Hermite normal form within the machine's range.
pub open spec fn pairs_reduce(ets: Seq<Seq<int>>, rts: Seq<Seq<Seq<int>>>, d: nat) -> bool {
    forall|i: int, j: int|
        0 <= i < rts.len() && 0 <= j < ets.len() ==> reduction(
            (#[trigger] rts[i]).push(#[trigger] ets[j]),
            d,
        ) is Some
}

/// The matrices of a list of mappings.
pub open spec fn matrices(rts: Seq<Mapping>) -> Seq<Seq<Seq<int>>> {
    Seq::new(rts.len(), |i: int| columns(rts[i]@))
}

/// The scores as sequences.
pub open spec fn score_table(scores: Seq<Vec<u64>>) -> Seq<Seq<u64>> {
    Seq::new(scores.len(), |i: int| scores[i]@)
}

/// The entries of a queue of mappings as matrices.
pub open spec fn kept_matrices(entries: Seq<(u64, Mapping)>) -> Seq<(u64, Seq<Seq<int>>)> {
    relabelled(entries, |rt: Mapping| columns(rt@))
}

/// The mapping with one equal temperament more.
pub(crate) fn with_column(rt: &Mapping, et: &ETMap) -> (new_rt: Mapping)
    ensures
        new_rt.len() == rt.len() + 1,
        columns(new_rt@) == columns(rt@).push(ints(et@)),
        forall|d: nat| has_rows(rt@, d) && et.len() == d ==> has_rows(new_rt@, d),
{
    let mut new_rt: Mapping = Vec::new();
    let mut j: usize = 0;
    while j < rt.len()
        invariant
            j <= rt.len(),
            new_rt.len() == j,
            forall|k: int| 0 <= k < j ==> (#[trigger] new_rt[k])@ == rt[k]@,
        decreases rt.len() - j,
    {
        new_rt.push(copy_column(&rt[j]));
        j += 1;
    }
    new_rt.push(copy_column(et));
    proof {
        assert(columns(new_rt@) =~= columns(rt@).push(ints(et@)));
    }
    new_rt
}

/// Whether the key is among the keys.
fn seen(cache: &Vec<ETMap>, class_key: &ETMap) -> (b: bool)
    ensures
        b == Seq::new(cache.len() as nat, |k: int| ints(cache[k]@)).contains(ints(class_key@)),
{
    let ghost keys = Seq::new(cache.len() as nat, |k: int| ints(cache[k]@));
    let mut i: usize = 0;
    while i < cache.len()
        invariant
            i <= cache.len(),
            keys == Seq::new(cache.len() as nat, |k: int| ints(cache[k]@)),
            forall|k: int| 0 <= k < i ==> keys[k] != ints(class_key@),
        decreases cache.len() - i,
    {
        let other = &cache[i];
        let mut same = other.len() == class_key.len();
        if same {
            let mut t: usize = 0;
            while t < other.len()
                invariant
                    t <= other.len(),
                    other.len() == class_key.len(),
                    same <==> forall|k: int| 0 <= k < t ==> other[k] == class_key[k],
                decreases other.len() - t,
            {
                if other[t] != class_key[t] {
                    same = false;
                }
                t += 1;
            }
        }
        if same {
            proof {
                assert(ints(other@) =~= ints(class_key@));
                assert(keys[i as int] == ints(class_key@));
            }
            return true;
        }
        proof {
            if other.len() == class_key.len() {
                let k = choose|k: int| 0 <= k < other.len() && other[k] != class_key[k];
                assert(ints(other@)[k] != ints(class_key@)[k]);
            } else {
                assert(ints(other@).len() != ints(class_key@).len());
            }
        }
        i += 1;
    }
    false
}

/// Combines each mapping of `rts` with each equal temperament of
/// `ets` and returns the best `n_results` of those that have one
/// rank more, each class once, best first.  `scores[i][j]` is the
/// score of the badness of `rts[i]` with `ets[j]`: a whole number
/// that grows with the badness.  `None` where a normal form leaves
/// the machine's range.
pub fn higher_rank_search(
    ets: &[ETMap],
    rts: &[Mapping],
    scores: &[Vec<u64>],
    dimension: usize,
    n_results: usize,
) -> (r: Option<Vec<Mapping>>)
    requires
        has_rows(ets@, dimension as nat),
        forall|i: int| 0 <= i < rts.len() ==> has_rows((#[trigger] rts[i])@, dimension as nat),
        scores.len() == rts.len(),
        forall|i: int| 0 <= i < scores.len() ==> (#[trigger] scores[i]).len() == ets.len(),
    ensures
        r is Some <==> pairs_reduce(columns(ets@), matrices(rts@), dimension as nat),
        r matches Some(results) ==> results.len() <= n_results,
        r matches Some(results) ==> forall|i: int|
            0 <= i < results.len() ==> has_rows((#[trigger] results[i])@, dimension as nat),
        r matches Some(results) ==> matrices(results@) == searched(
            columns(ets@),
            matrices(rts@),
            score_table(scores@),
            n_results as nat,
            dimension as nat,
            rts.len() as nat,
            0,
        ).kept.map_values(|entry: (u64, Seq<Seq<int>>)| entry.1),
{
    let mut results: PriorityQueue<Mapping> = PriorityQueue::new(n_results);
    let mut cache: Vec<ETMap> = Vec::new();
    let ghost e = columns(ets@);
    let ghost m = matrices(rts@);
    let ghost s = score_table(scores@);
    let ghost d = dimension as nat;
    let ghost size = n_results as nat;
    let mut i: usize = 0;
    proof {
        assert(kept_matrices(results.entries()) =~= Seq::empty());
        assert(Seq::new(cache.len() as nat, |k: int| ints(cache[k]@)) =~= Seq::<
            Seq<int>,
        >::empty());
    }
    while i < rts.len()
        invariant
            i <= rts.len(),
            e == columns(ets@),
            m == matrices(rts@),
            s == score_table(scores@),
            d == dimension as nat,
            size == n_results as nat,
            has_rows(ets@, d),
            forall|k: int| 0 <= k < rts.len() ==> has_rows((#[trigger] rts[k])@, d),
            scores.len() == rts.len(),
            forall|k: int| 0 <= k < scores.len() ==> (#[trigger] scores[k]).len() == ets.len(),
            results.well_formed(),
            results.size() == size,
            all_items(results.entries(), |rt: Mapping| has_rows(rt@, d)),
            forall|a: int, b: int|
                0 <= a < i && 0 <= b < e.len() ==> reduction(
                    (#[trigger] m[a]).push(#[trigger] e[b]),
                    d,
                ) is Some,
            kept_matrices(results.entries()) == searched(e, m, s, size, d, i as nat, 0).kept,
            Seq::new(cache.len() as nat, |k: int| ints(cache[k]@)) == searched(
                e,
                m,
                s,
                size,
                d,
                i as nat,
                0,
            ).keys,
        decreases rts.len() - i,
    {
        let rt = &rts[i];
        let mut j: usize = 0;
        while j < ets.len()
            invariant
                i < rts.len(),
                j <= ets.len(),
                rt == rts[i as int],
                e == columns(ets@),
                m == matrices(rts@),
                s == score_table(scores@),
                d == dimension as nat,
                size == n_results as nat,
                has_rows(ets@, d),
                has_rows(rt@, d),
                scores.len() == rts.len(),
                scores[i as int].len() == ets.len(),
                results.well_formed(),
                results.size() == size,
                all_items(results.entries(), |rt: Mapping| has_rows(rt@, d)),
                forall|a: int, b: int|
                    0 <= a < i && 0 <= b < e.len() ==> reduction(
                        (#[trigger] m[a]).push(#[trigger] e[b]),
                        d,
                    ) is Some,
                forall|b: int|
                    0 <= b < j ==> reduction(m[i as int].push(#[trigger] e[b]), d) is Some,
                kept_matrices(results.entries()) == searched(e, m, s, size, d, i as nat, j as nat).kept,
                Seq::new(cache.len() as nat, |k: int| ints(cache[k]@)) == searched(
                    e,
                    m,
                    s,
                    size,
                    d,
                    i as nat,
                    j as nat,
                ).keys,
            decreases ets.len() - j,
        {
            let et = &ets[j];
            let new_rt = with_column(rt, et);
            let score: u64 = scores[i][j];
            let ghost before = searched(e, m, s, size, d, i as nat, j as nat);
            let ghost entries = results.entries();
            let ghost keys = Seq::new(cache.len() as nat, |k: int| ints(cache[k]@));
            proof {
                assert(m[i as int] == columns(rt@));
                assert(e[j as int] == ints(et@));
                assert(s[i as int][j as int] == score);
                assert(has_rows(new_rt@, d));
                assert(new_rt@[0].len() == d);
                assert(row_count(new_rt@) == d);
                lemma_pushed_relabelled(entries, size, score, new_rt, |rt: Mapping| columns(rt@));
                lemma_cap_relabelled(entries, size, |rt: Mapping| columns(rt@));
                lemma_pushed_all(entries, size, score, new_rt, |rt: Mapping| has_rows(rt@, d));
            }
            let new_rank = match rank(new_rt.as_slice()) {
                Some(new_rank) => new_rank,
                None => {
                    proof {
                        assert(reduction(m[i as int].push(e[j as int]), d) is None);
                    }
                    return None;
                },
            };
            if new_rank == new_rt.len() {
                if score < results.cap() {
                    let class_key = match key(new_rt.as_slice()) {
                        Some(class_key) => class_key,
                        None => {
                            return None;
                        },
                    };
                    if !seen(&cache, &class_key) {
                        let ghost k = ints(class_key@);
                        cache.push(class_key);
                        results.push(score, new_rt);
                        proof {
                            assert(Seq::new(cache.len() as nat, |t: int| ints(cache[t]@))
                                =~= keys.push(k));
                        }
                    }
                }
            }
            j += 1;
        }
        i += 1;
    }
    let ghost entries = results.entries();
    let found = results.extract();
    proof {
        assert(found.len() == entries.len());
        assert forall|i: int| 0 <= i < found.len() implies has_rows(
            (#[trigger] found[i])@,
            dimension as nat,
        ) by {
            assert(found[i] == entries[i].1);
        }
        assert(matrices(found@) =~= kept_matrices(entries).map_values(
            |entry: (u64, Seq<Seq<int>>)| entry.1,
        ));
    }
    Some(found)
}

/// Every candidate that a search keeps is one of its mappings with
/// one of its equal temperaments: what holds of each of those holds
/// of each that is kept.
pub proof fn lemma_searched_all(
    ets: Seq<Seq<int>>,
    rts: Seq<Seq<Seq<int>>>,
    scores: Seq<Seq<u64>>,
    size: nat,
    d: nat,
    i: nat,
    j: nat,
    p: spec_fn(Seq<Seq<int>>) -> bool,
)
    requires
        i < rts.len() && j <= ets.len() || i == rts.len() && j == 0,
        forall|a: int, b: int|
            0 <= a < rts.len() && 0 <= b < ets.len() ==> p((#[trigger] rts[a]).push(#[trigger] ets[b])),
    ensures
        all_items(searched(ets, rts, scores, size, d, i, j).kept, p),
    decreases i, j,
{
    if j > 0 {
        let before = searched(ets, rts, scores, size, d, i, (j - 1) as nat);
        lemma_searched_all(ets, rts, scores, size, d, i, (j - 1) as nat, p);
        let rt = rts[i as int];
        let et = ets[j - 1];
        assert(p(rt.push(et)));
        lemma_pushed_all(before.kept, size, scores[i as int][j - 1], rt.push(et), p);
    } else if i > 0 {
        lemma_searched_all(ets, rts, scores, size, d, (i - 1) as nat, ets.len(), p);
    }
}

/// A search keeps no more than it is asked for, and the better
/// before the worse.
pub proof fn lemma_searched_in_order(
    ets: Seq<Seq<int>>,
    rts: Seq<Seq<Seq<int>>>,
    scores: Seq<Seq<u64>>,
    size: nat,
    d: nat,
    i: nat,
    j: nat,
)
    ensures
        searched(ets, rts, scores, size, d, i, j).kept.len() <= size,
        ascending(searched(ets, rts, scores, size, d, i, j).kept),
    decreases i, j,
{
    if j > 0 {
        let before = searched(ets, rts, scores, size, d, i, (j - 1) as nat);
        lemma_searched_in_order(ets, rts, scores, size, d, i, (j - 1) as nat);
        lemma_cap_falls(
            before.kept,
            size,
            scores[i as int][j - 1],
            rts[i as int].push(ets[j - 1]),
        );
    } else if i > 0 {
        lemma_searched_in_order(ets, rts, scores, size, d, (i - 1) as nat, ets.len());
    }
}

/// A search keeps each class once: no two of the candidates that
/// it keeps have the same key.
pub proof fn lemma_searched_once(
    ets: Seq<Seq<int>>,
    rts: Seq<Seq<Seq<int>>>,
    scores: Seq<Seq<u64>>,
    size: nat,
    d: nat,
    i: nat,
    j: nat,
)
    ensures
        distinct_items(
            searched(ets, rts, scores, size, d, i, j).kept,
            |m: Seq<Seq<int>>| class_key(m, d),
        ),
        forall|a: int|
            0 <= a < searched(ets, rts, scores, size, d, i, j).kept.len() ==> searched(
                ets,
                rts,
                scores,
                size,
                d,
                i,
                j,
            ).keys.contains(
                class_key((#[trigger] searched(ets, rts, scores, size, d, i, j).kept[a]).1, d),
            ),
    decreases i, j,
{
    let f = |m: Seq<Seq<int>>| class_key(m, d);
    if j > 0 {
        let before = searched(ets, rts, scores, size, d, i, (j - 1) as nat);
        let after = searched(ets, rts, scores, size, d, i, j);
        lemma_searched_once(ets, rts, scores, size, d, i, (j - 1) as nat);
        let new_rt = rts[i as int].push(ets[j - 1]);
        let score = scores[i as int][j - 1];
        if after != before {
            let k = class_key(new_rt, d);
            assert(!before.keys.contains(k));
            assert(after.kept == pushed(before.kept, size, score, new_rt));
            assert(after.keys == before.keys.push(k));
            assert forall|a: int| 0 <= a < before.kept.len() implies f(
                (#[trigger] before.kept[a]).1,
            ) != f(new_rt) by {
                assert(before.keys.contains(class_key(before.kept[a].1, d)));
            }
            lemma_pushed_distinct(before.kept, size, score, new_rt, f);
            let p = |m: Seq<Seq<int>>| after.keys.contains(class_key(m, d));
            assert(all_items(before.kept, p)) by {
                assert forall|a: int| 0 <= a < before.kept.len() implies p(
                    #[trigger] before.kept[a].1,
                ) by {
                    let known = class_key(before.kept[a].1, d);
                    assert(before.keys.contains(known));
                    let at = choose|at: int| 0 <= at < before.keys.len() && before.keys[at] == known;
                    assert(after.keys[at] == known);
                }
            }
            assert(p(new_rt)) by {
                assert(after.keys[before.keys.len() as int] == k);
            }
            lemma_pushed_all(before.kept, size, score, new_rt, p);
            assert forall|a: int| 0 <= a < after.kept.len() implies after.keys.contains(
                class_key((#[trigger] after.kept[a]).1, d),
            ) by {
                assert(p(after.kept[a].1));
            }
        }
    } else if i > 0 {
        lemma_searched_once(ets, rts, scores, size, d, (i - 1) as nat, ets.len());
    }
}

} // verus!
