//! The search for the unison vectors of a class: the class is
//! raised rank by rank with equal temperaments from outside it
//! until one column is missing, and each mapping that is found
//! gives the vector of its largest minors.
use crate::hermite::copy_column;
use crate::reduction::reduction;
use crate::search::{
    higher_rank_search, lemma_searched_all, matrices, pairs_reduce, score_table, searched,
    with_column,
};
use crate::shape::{columns, has_rows, ints};
use crate::temperament_class::{belongs, belongs_in};
use crate::uv::{minor_entry, minors_fit, only_unison_vector, some_minor, tempered_out};
use crate::{ETMap, Mapping};
use vstd::prelude::*;

verus! {

/// `score` can give `s` for a mapping with the given columns.
pub open spec fn gives<F: Fn(&Mapping) -> u64>(score: F, m: Seq<Seq<int>>, s: u64) -> bool {
    exists|rt: Mapping| columns(rt@) == m && call_ensures(score, (&rt,), s)
}

/// `score` gives one score for each matrix, whatever vectors hold it.
pub open spec fn single_scored<F: Fn(&Mapping) -> u64>(score: F) -> bool {
    forall|m: Seq<Seq<int>>, s1: u64, s2: u64|
        gives(score, m, s1) && gives(score, m, s2) ==> s1 == s2
}

/// The score that `score` gives for a matrix.
pub open spec fn score_of<F: Fn(&Mapping) -> u64>(score: F, m: Seq<Seq<int>>) -> u64 {
    choose|s: u64| gives(score, m, s)
}

/// The scores of each mapping with each equal temperament.
pub open spec fn table<F: Fn(&Mapping) -> u64>(
    score: F,
    ets: Seq<Seq<int>>,
    rts: Seq<Seq<Seq<int>>>,
) -> Seq<Seq<u64>> {
    Seq::new(
        rts.len(),
        |i: int| Seq::new(ets.len(), |j: int| score_of(score, rts[i].push(ets[j]))),
    )
}

/// The best `size` classes of one rank more than the mappings
/// `rts`, each made of one of them and an equal temperament, best
/// first.
pub open spec fn raised<F: Fn(&Mapping) -> u64>(
    score: F,
    ets: Seq<Seq<int>>,
    rts: Seq<Seq<Seq<int>>>,
    size: nat,
    d: nat,
) -> Seq<Seq<Seq<int>>> {
    searched(ets, rts, table(score, ets, rts), size, d, rts.len(), 0).kept.map_values(
        |entry: (u64, Seq<Seq<int>>)| entry.1,
    )
}

/// How many classes of a rank are kept: as many as are asked for
/// where one column is missing, and half as many more before.
pub open spec fn stage_size(rank: nat, d: nat, n_results: nat) -> nat {
    if rank + 1 == d {
        n_results
    } else {
        n_results + n_results / 2
    }
}

/// The mappings with one column less than rows that are reached
/// from mappings of `rank` columns, one more column at a time.
/// `None` where a normal form on the way leaves the machine's range.
pub open spec fn climbed<F: Fn(&Mapping) -> u64>(
    score: F,
    ets: Seq<Seq<int>>,
    rts: Seq<Seq<Seq<int>>>,
    d: nat,
    n_results: nat,
    rank: nat,
) -> Option<Seq<Seq<Seq<int>>>>
    decreases d - rank,
{
    if rank + 1 >= d {
        Some(rts)
    } else if !pairs_reduce(ets, rts, d) {
        None
    } else {
        climbed(
            score,
            ets,
            raised(score, ets, rts, stage_size(rank + 1, d, n_results), d),
            d,
            n_results,
            rank + 1,
        )
    }
}

/// Those of the first `n` equal temperaments that do not belong to
/// the class, in their order.
pub open spec fn outsiders(m: Seq<Seq<int>>, rows: nat, ets: Seq<Seq<int>>, n: nat) -> Seq<Seq<int>>
    decreases n,
{
    if n == 0 {
        Seq::empty()
    } else {
        let before = outsiders(m, rows, ets, (n - 1) as nat);
        if belongs(m, rows, ets[n - 1]) {
            before
        } else {
            before.push(ets[n - 1])
        }
    }
}

/// The mapping reduces to its normal form within the machine's
/// range, alone and with each of the equal temperaments.
pub open spec fn seeds_reduce(m: Seq<Seq<int>>, d: nat, ets: Seq<Seq<int>>) -> bool {
    forall|j: int|
        0 <= j < ets.len() ==> reduction(m, d) is Some && reduction(
            seq![#[trigger] ets[j]] + m,
            ets[j].len(),
        ) is Some
}

/// The mapping has one column less than rows, and its largest
/// minors are in range and not all zero.
pub open spec fn has_unison_vector(m: Seq<Seq<int>>, d: nat) -> bool {
    &&& m.len() >= 1
    &&& m.len() + 1 == d
    &&& minors_fit(m, d)
    &&& some_minor(m, d)
}

/// The vector of the largest minors.
pub open spec fn unison_vector_of(m: Seq<Seq<int>>, d: nat) -> Seq<int> {
    Seq::new(d, |i: int| minor_entry(m, i))
}

/// The unison vectors of those of the first `n` mappings that have
/// one, in their order.
pub open spec fn unison_vectors_of(rts: Seq<Seq<Seq<int>>>, d: nat, n: nat) -> Seq<Seq<int>>
    decreases n,
{
    if n == 0 {
        Seq::empty()
    } else {
        let before = unison_vectors_of(rts, d, (n - 1) as nat);
        if has_unison_vector(rts[n - 1], d) {
            before.push(unison_vector_of(rts[n - 1], d))
        } else {
            before
        }
    }
}

/// The matrix begins with the columns of `m`.
pub open spec fn begins_with(rt: Seq<Seq<int>>, m: Seq<Seq<int>>) -> bool {
    m.len() <= rt.len() && rt.take(m.len() as int) == m
}

/// The equal temperaments that do not belong to the class.
fn outside(melody: &Mapping, seed_ets: &[ETMap], dimension: usize) -> (r: Option<Mapping>)
    requires
        has_rows(melody@, dimension as nat),
        has_rows(seed_ets@, dimension as nat),
    ensures
        r is Some <==> seeds_reduce(columns(melody@), dimension as nat, columns(seed_ets@)),
        r matches Some(ets) ==> {
            &&& has_rows(ets@, dimension as nat)
            &&& columns(ets@) == outsiders(
                columns(melody@),
                dimension as nat,
                columns(seed_ets@),
                seed_ets.len() as nat,
            )
        },
{
    let mut ets: Mapping = Vec::new();
    let ghost m = columns(melody@);
    let ghost rows = dimension as nat;
    let ghost seeds = columns(seed_ets@);
    let mut j: usize = 0;
    proof {
        assert(columns(ets@) =~= outsiders(m, rows, seeds, 0));
    }
    while j < seed_ets.len()
        invariant
            j <= seed_ets.len(),
            m == columns(melody@),
            rows == dimension as nat,
            seeds == columns(seed_ets@),
            has_rows(melody@, dimension as nat),
            has_rows(seed_ets@, dimension as nat),
            has_rows(ets@, dimension as nat),
            columns(ets@) == outsiders(m, rows, seeds, j as nat),
            forall|k: int|
                0 <= k < j ==> reduction(m, rows) is Some && reduction(
                    seq![#[trigger] seeds[k]] + m,
                    seeds[k].len(),
                ) is Some,
        decreases seed_ets.len() - j,
    {
        let et = &seed_ets[j];
        let ghost before = columns(ets@);
        proof {
            assert(seeds[j as int] == ints(et@));
        }
        match belongs_in(melody, et, dimension) {
            None => {
                return None;
            },
            Some(inside) => {
                if !inside {
                    ets.push(copy_column(et));
                    proof {
                        assert(columns(ets@) =~= before.push(ints(et@)));
                    }
                }
            },
        }
        j += 1;
    }
    Some(ets)
}

/// The score of each mapping with each equal temperament.
fn score_table_of<F: Fn(&Mapping) -> u64>(
    ets: &Mapping,
    rts: &Vec<Mapping>,
    dimension: usize,
    score: &F,
) -> (scores: Vec<Vec<u64>>)
    requires
        has_rows(ets@, dimension as nat),
        forall|i: int| 0 <= i < rts.len() ==> has_rows((#[trigger] rts[i])@, dimension as nat),
        single_scored(*score),
        forall|rt: Mapping|
            has_rows(rt@, dimension as nat) && rt.len() >= 1 ==> call_requires(*score, (&rt,)),
    ensures
        scores.len() == rts.len(),
        forall|i: int| 0 <= i < scores.len() ==> (#[trigger] scores[i]).len() == ets.len(),
        score_table(scores@) == table(*score, columns(ets@), matrices(rts@)),
{
    let mut scores: Vec<Vec<u64>> = Vec::new();
    let ghost e = columns(ets@);
    let ghost m = matrices(rts@);
    let mut i: usize = 0;
    while i < rts.len()
        invariant
            i <= rts.len(),
            e == columns(ets@),
            m == matrices(rts@),
            has_rows(ets@, dimension as nat),
            forall|k: int| 0 <= k < rts.len() ==> has_rows((#[trigger] rts[k])@, dimension as nat),
            single_scored(*score),
            forall|rt: Mapping|
                has_rows(rt@, dimension as nat) && rt.len() >= 1 ==> call_requires(
                    *score,
                    (&rt,),
                ),
            scores.len() == i,
            forall|k: int| 0 <= k < i ==> (#[trigger] scores[k]).len() == ets.len(),
            forall|k: int, t: int|
                0 <= k < i && 0 <= t < ets.len() ==> (#[trigger] scores[k])[t] == score_of(
                    *score,
                    m[k].push(#[trigger] e[t]),
                ),
        decreases rts.len() - i,
    {
        let rt = &rts[i];
        let mut row: Vec<u64> = Vec::new();
        let mut j: usize = 0;
        while j < ets.len()
            invariant
                i < rts.len(),
                j <= ets.len(),
                rt == rts[i as int],
                e == columns(ets@),
                m == matrices(rts@),
                has_rows(ets@, dimension as nat),
                has_rows(rt@, dimension as nat),
                single_scored(*score),
                forall|rt: Mapping|
                    has_rows(rt@, dimension as nat) && rt.len() >= 1 ==> call_requires(
                        *score,
                        (&rt,),
                    ),
                row.len() == j,
                forall|t: int|
                    0 <= t < j ==> row[t] == score_of(*score, m[i as int].push(#[trigger] e[t])),
            decreases ets.len() - j,
        {
            let new_rt = with_column(rt, &ets[j]);
            let s = score(&new_rt);
            proof {
                assert(m[i as int] == columns(rt@));
                assert(e[j as int] == ints(ets[j as int]@));
                assert(gives(*score, columns(new_rt@), s));
            }
            row.push(s);
            j += 1;
        }
        scores.push(row);
        i += 1;
    }
    proof {
        let t = table(*score, e, m);
        assert(score_table(scores@) =~= t) by {
            assert forall|k: int| 0 <= k < scores.len() implies score_table(scores@)[k] == t[k] by {
                assert(scores[k]@ =~= t[k]);
            }
        }
    }
    scores
}

/// The unison vectors of the mappings that have one.
fn vectors_of(rts: &Vec<Mapping>, melody: &Mapping, dimension: usize) -> (uvs: Mapping)
    requires
        forall|i: int| 0 <= i < rts.len() ==> has_rows((#[trigger] rts[i])@, dimension as nat),
        forall|i: int|
            0 <= i < rts.len() ==> begins_with(columns((#[trigger] rts[i])@), columns(melody@)),
    ensures
        columns(uvs@) == unison_vectors_of(matrices(rts@), dimension as nat, rts.len() as nat),
        uvs.len() <= rts.len(),
        forall|i: int| 0 <= i < uvs.len() ==> tempered_out(melody@, (#[trigger] uvs[i])@),
{
    let mut uvs: Mapping = Vec::new();
    let ghost m = matrices(rts@);
    let ghost d = dimension as nat;
    let mut i: usize = 0;
    proof {
        assert(columns(uvs@) =~= unison_vectors_of(m, d, 0));
    }
    while i < rts.len()
        invariant
            i <= rts.len(),
            m == matrices(rts@),
            d == dimension as nat,
            forall|k: int| 0 <= k < rts.len() ==> has_rows((#[trigger] rts[k])@, d),
            forall|k: int|
                0 <= k < rts.len() ==> begins_with(
                    columns((#[trigger] rts[k])@),
                    columns(melody@),
                ),
            columns(uvs@) == unison_vectors_of(m, d, i as nat),
            uvs.len() <= i,
            forall|k: int| 0 <= k < uvs.len() ==> tempered_out(melody@, (#[trigger] uvs[k])@),
        decreases rts.len() - i,
    {
        let rt = &rts[i];
        let ghost before = columns(uvs@);
        proof {
            assert(m[i as int] == columns(rt@));
            assert(rt.len() > 0 ==> rt@[0].len() == d);
        }
        match only_unison_vector(rt.as_slice()) {
            Some(uv) => {
                proof {
                    assert(ints(uv@) =~= unison_vector_of(m[i as int], d));
                    assert(tempered_out(melody@, uv@)) by {
                        assert forall|j: int| 0 <= j < melody.len() implies crate::uv::dot(
                            ints((#[trigger] melody@[j])@),
                            ints(uv@),
                        ) == 0 by {
                            assert(columns(rt@).take(melody.len() as int)[j] == columns(
                                melody@,
                            )[j]);
                            assert(ints(rt@[j]@) == ints(melody@[j]@));
                        }
                    }
                }
                uvs.push(uv);
                proof {
                    assert(columns(uvs@) =~= before.push(unison_vector_of(m[i as int], d)));
                }
            },
            None => {},
        }
        i += 1;
    }
    uvs
}

/// Find unison vectors that the class of `melody` tempers out, at
/// most `n_results` of them where the class lacks more than one
/// column.  Of the equal temperaments `seed_ets`, those outside the
/// class are added to it one at a time until a single column is
/// missing; at each rank the best classes by `score` are kept, as
/// many as are asked for at the last rank and half as many more
/// before.  Each mapping that is reached gives the vector of its
/// largest minors, where they are not all zero.  `score` gives the
/// badness of a mapping as a whole number that grows with it.
/// `None` where a normal form leaves the machine's range.
pub fn unison_vectors<F: Fn(&Mapping) -> u64>(
    melody: &Mapping,
    seed_ets: &[ETMap],
    dimension: usize,
    n_results: usize,
    score: F,
) -> (r: Option<Mapping>)
    requires
        has_rows(melody@, dimension as nat),
        has_rows(seed_ets@, dimension as nat),
        n_results + n_results / 2 <= usize::MAX,
        single_scored(score),
        forall|rt: Mapping|
            has_rows(rt@, dimension as nat) && rt.len() >= 1 ==> call_requires(score, (&rt,)),
    ensures
        r is Some <==> seeds_reduce(columns(melody@), dimension as nat, columns(seed_ets@))
            && climbed(
            score,
            outsiders(
                columns(melody@),
                dimension as nat,
                columns(seed_ets@),
                seed_ets.len() as nat,
            ),
            seq![columns(melody@)],
            dimension as nat,
            n_results as nat,
            melody.len() as nat,
        ) is Some,
        r matches Some(uvs) ==> {
            let reached = climbed(
                score,
                outsiders(
                    columns(melody@),
                    dimension as nat,
                    columns(seed_ets@),
                    seed_ets.len() as nat,
                ),
                seq![columns(melody@)],
                dimension as nat,
                n_results as nat,
                melody.len() as nat,
            ).unwrap();
            &&& columns(uvs@) == unison_vectors_of(reached, dimension as nat, reached.len())
            &&& melody.len() + 1 < dimension ==> uvs.len() <= n_results
            &&& forall|i: int| 0 <= i < uvs.len() ==> tempered_out(melody@, (#[trigger] uvs[i])@)
        },
{
    let ets = match outside(melody, seed_ets, dimension) {
        Some(ets) => ets,
        None => {
            return None;
        },
    };
    let ghost e = columns(ets@);
    let ghost d = dimension as nat;
    let ghost start = columns(melody@);
    let mut first: Mapping = Vec::new();
    let mut t: usize = 0;
    while t < melody.len()
        invariant
            t <= melody.len(),
            first.len() == t,
            forall|k: int| 0 <= k < t ==> (#[trigger] first[k])@ == melody[k]@,
        decreases melody.len() - t,
    {
        first.push(copy_column(&melody[t]));
        t += 1;
    }
    let mut rts: Vec<Mapping> = Vec::new();
    rts.push(first);
    let mut rank: usize = melody.len();
    proof {
        assert(columns(rts[0]@) =~= start);
        assert(matrices(rts@) =~= seq![start]);
        assert(start.take(start.len() as int) =~= start);
    }
    while rank < dimension && rank + 1 < dimension
        invariant
            e == columns(ets@),
            e == outsiders(start, d, columns(seed_ets@), seed_ets.len() as nat),
            d == dimension as nat,
            start == columns(melody@),
            has_rows(ets@, d),
            n_results + n_results / 2 <= usize::MAX,
            single_scored(score),
            forall|rt: Mapping| has_rows(rt@, d) && rt.len() >= 1 ==> call_requires(score, (&rt,)),
            melody.len() <= rank,
            forall|i: int| 0 <= i < rts.len() ==> has_rows((#[trigger] rts[i])@, d),
            forall|i: int| 0 <= i < rts.len() ==> begins_with(columns((#[trigger] rts[i])@), start),
            rank > melody.len() ==> rts.len() <= n_results + n_results / 2,
            rank > melody.len() && rank + 1 >= dimension ==> rts.len() <= n_results,
            climbed(score, e, matrices(rts@), d, n_results as nat, rank as nat) == climbed(
                score,
                e,
                seq![start],
                d,
                n_results as nat,
                melody.len() as nat,
            ),
        decreases dimension - rank,
    {
        let size = if rank + 2 == dimension {
            n_results
        } else {
            n_results + n_results / 2
        };
        let scores = score_table_of(&ets, &rts, dimension, &score);
        let ghost m = matrices(rts@);
        let found = higher_rank_search(
            ets.as_slice(),
            rts.as_slice(),
            scores.as_slice(),
            dimension,
            size,
        );
        proof {
            assert(size == stage_size((rank + 1) as nat, d, n_results as nat));
        }
        match found {
            None => {
                proof {
                    assert(!pairs_reduce(e, m, d));
                    assert(climbed(score, e, m, d, n_results as nat, rank as nat) is None);
                }
                return None;
            },
            Some(next) => {
                proof {
                    let p = |rt: Seq<Seq<int>>| begins_with(rt, start);
                    let s = score_table(scores@);
                    assert forall|a: int, b: int| 0 <= a < m.len() && 0 <= b < e.len() implies p(
                        (#[trigger] m[a]).push(#[trigger] e[b]),
                    ) by {
                        assert(m[a] == columns(rts[a]@));
                        assert(m[a].push(e[b]).take(start.len() as int) =~= m[a].take(
                            start.len() as int,
                        ));
                    }
                    lemma_searched_all(e, m, s, size as nat, d, m.len(), 0, p);
                    let kept = searched(e, m, s, size as nat, d, m.len(), 0).kept;
                    let items = kept.map_values(|entry: (u64, Seq<Seq<int>>)| entry.1);
                    assert(matrices(next@) == items);
                    assert(items.len() == kept.len());
                    assert forall|i: int| 0 <= i < next.len() implies begins_with(
                        columns((#[trigger] next[i])@),
                        start,
                    ) by {
                        assert(items[i] == kept[i].1);
                        assert(p(kept[i].1));
                    }
                    assert(matrices(next@) == raised(score, e, m, size as nat, d));
                }
                rts = next;
            },
        }
        rank += 1;
    }
    let uvs = vectors_of(&rts, melody, dimension);
    Some(uvs)
}

} // verus!
