//! The search for the best equal temperaments: one number of steps
//! after the other, the best mappings kept, the cap tightened as
//! better ones arrive.
use crate::queue::{
    cap_of, lemma_cap_relabelled, lemma_pushed_relabelled, pushed, relabelled, PriorityQueue,
};
use crate::{ETMap, Exponent, Mapping};
use vstd::prelude::*;

verus! {

/// The mappings with their scores, as vectors.
pub open spec fn scored(emitted: Seq<(u64, ETMap)>) -> Seq<(u64, Seq<i32>)> {
    relabelled(emitted, |m: ETMap| m@)
}

/// `emit` can give these mappings for `n_notes` steps under the cap.
pub open spec fn emits<E: Fn(Exponent, u64) -> Vec<(u64, ETMap)>>(
    emit: E,
    n_notes: Exponent,
    cap: u64,
    found: Seq<(u64, Seq<i32>)>,
) -> bool {
    exists|r: Vec<(u64, ETMap)>| call_ensures(emit, (n_notes, cap), r) && scored(r@) == found
}

/// What `emit` gives for `n_notes` steps under the cap.
pub open spec fn emitted<E: Fn(Exponent, u64) -> Vec<(u64, ETMap)>>(
    emit: E,
    n_notes: Exponent,
    cap: u64,
) -> Seq<(u64, Seq<i32>)> {
    choose|found: Seq<(u64, Seq<i32>)>| emits(emit, n_notes, cap, found)
}

/// Whether the search goes on with `n_notes` steps under the cap.
pub open spec fn goes_on<C: Fn(Exponent, u64) -> bool>(go_on: C, n_notes: Exponent, cap: u64) -> bool {
    choose|b: bool| call_ensures(go_on, (n_notes, cap), b)
}

/// Both give one answer for each number of steps and cap.
pub open spec fn single_valued<E: Fn(Exponent, u64) -> Vec<(u64, ETMap)>, C: Fn(Exponent, u64) -> bool>(
    emit: E,
    go_on: C,
) -> bool {
    &&& forall|n: Exponent, cap: u64, a: Seq<(u64, Seq<i32>)>, b: Seq<(u64, Seq<i32>)>|
        emits(emit, n, cap, a) && emits(emit, n, cap, b) ==> a == b
    &&& forall|n: Exponent, cap: u64, a: bool, b: bool|
        call_ensures(go_on, (n, cap), a) && call_ensures(go_on, (n, cap), b) ==> a == b
}

/// The entries of a queue of the given size after the first `k` of
/// the mappings are pushed, one after the other.
pub open spec fn all_pushed(
    entries: Seq<(u64, Seq<i32>)>,
    size: nat,
    more: Seq<(u64, Seq<i32>)>,
    k: nat,
) -> Seq<(u64, Seq<i32>)>
    decreases k,
{
    if k == 0 {
        entries
    } else {
        pushed(all_pushed(entries, size, more, (k - 1) as nat), size, more[k - 1].0, more[k - 1].1)
    }
}

/// What the search keeps from `n_notes` steps on, with the given
/// entries and cap: while it goes on, everything that `emit` gives
/// for the number of steps is pushed, the cap becomes the cap of the
/// queue where that is lower, and the next number of steps follows.
/// The largest number of steps of all ends the search.
pub open spec fn searched_from<E: Fn(Exponent, u64) -> Vec<(u64, ETMap)>, C: Fn(Exponent, u64) -> bool>(
    emit: E,
    go_on: C,
    size: nat,
    entries: Seq<(u64, Seq<i32>)>,
    cap: u64,
    n_notes: Exponent,
) -> Seq<(u64, Seq<i32>)>
    decreases i32::MAX - n_notes,
{
    if n_notes >= i32::MAX || !goes_on(go_on, n_notes, cap) {
        entries
    } else {
        let more = emitted(emit, n_notes, cap);
        let after = all_pushed(entries, size, more, more.len());
        let queue_cap = cap_of(after, size);
        searched_from(
            emit,
            go_on,
            size,
            after,
            if queue_cap < cap {
                queue_cap
            } else {
                cap
            },
            (n_notes + 1) as Exponent,
        )
    }
}

/// A copy of a mapping.
fn copy_mapping(v: &ETMap) -> (r: ETMap)
    ensures
        r@ == v@,
{
    let mut r: ETMap = Vec::new();
    let mut i: usize = 0;
    while i < v.len()
        invariant
            i <= v.len(),
            r@ == v@.take(i as int),
        decreases v.len() - i,
    {
        r.push(v[i]);
        proof {
            assert(v@.take(i as int + 1) =~= v@.take(i as int).push(v@[i as int]));
        }
        i += 1;
    }
    proof {
        assert(v@.take(v.len() as int) =~= v@);
    }
    r
}

/// Get the best equal temperament mappings: `n_results` of them,
/// best first.  The search begins with one step and the cap `bmax`;
/// `emit` gives the mappings of a number of steps under a cap, each
/// with the score of its badness, and `go_on` says whether the
/// search goes on with a number of steps under a cap.  Scores are
/// whole numbers that grow with the badness.
pub fn get_equal_temperaments<E: Fn(Exponent, u64) -> Vec<(u64, ETMap)>, C: Fn(Exponent, u64) -> bool>(
    n_results: usize,
    bmax: u64,
    emit: E,
    go_on: C,
) -> (found: Mapping)
    requires
        forall|n: Exponent, cap: u64| call_requires(emit, (n, cap)),
        forall|n: Exponent, cap: u64| call_requires(go_on, (n, cap)),
        single_valued(emit, go_on),
    ensures
        found.len() <= n_results,
        Seq::new(found.len() as nat, |k: int| found[k]@) == searched_from(
            emit,
            go_on,
            n_results as nat,
            Seq::empty(),
            bmax,
            1,
        ).map_values(|entry: (u64, Seq<i32>)| entry.1),
{
    let mut results: PriorityQueue<ETMap> = PriorityQueue::new(n_results);
    let mut n_notes: Exponent = 1;
    let mut cap: u64 = bmax;
    let ghost size = n_results as nat;
    let ghost goal = searched_from(emit, go_on, size, Seq::empty(), bmax, 1);
    let ghost view = |m: ETMap| m@;
    proof {
        assert(relabelled(results.entries(), view) =~= Seq::<(u64, Seq<i32>)>::empty());
    }
    let mut more_to_do = n_notes < i32::MAX && go_on(n_notes, cap);
    while more_to_do
        invariant
            1 <= n_notes <= i32::MAX,
            size == n_results as nat,
            view == |m: ETMap| m@,
            forall|n: Exponent, c: u64| call_requires(emit, (n, c)),
            forall|n: Exponent, c: u64| call_requires(go_on, (n, c)),
            single_valued(emit, go_on),
            results.well_formed(),
            results.size() == size,
            more_to_do == (n_notes < i32::MAX && goes_on(go_on, n_notes, cap)),
            goal == searched_from(
                emit,
                go_on,
                size,
                relabelled(results.entries(), view),
                cap,
                n_notes,
            ),
        decreases i32::MAX - n_notes,
    {
        let ghost start = relabelled(results.entries(), view);
        let emitted_now = emit(n_notes, cap);
        let ghost more = scored(emitted_now@);
        proof {
            assert(emits(emit, n_notes, cap, more));
            assert(emitted(emit, n_notes, cap) == more);
        }
        let mut i: usize = 0;
        while i < emitted_now.len()
            invariant
                i <= emitted_now.len(),
                size == n_results as nat,
                view == |m: ETMap| m@,
                more == scored(emitted_now@),
                results.well_formed(),
                results.size() == size,
                relabelled(results.entries(), view) == all_pushed(start, size, more, i as nat),
            decreases emitted_now.len() - i,
        {
            let bad: u64 = emitted_now[i].0;
            let mapping = copy_mapping(&emitted_now[i].1);
            proof {
                lemma_pushed_relabelled(results.entries(), size, bad, mapping, view);
                assert(more[i as int] == (bad, mapping@));
            }
            results.push(bad, mapping);
            i += 1;
        }
        n_notes += 1;
        let queue_cap = results.cap();
        proof {
            lemma_cap_relabelled(results.entries(), size, view);
        }
        if queue_cap < cap {
            cap = queue_cap;
        }
        more_to_do = n_notes < i32::MAX && go_on(n_notes, cap);
    }
    let ghost entries = results.entries();
    let found = results.extract();
    proof {
        assert(found.len() == entries.len());
        assert(Seq::new(found.len() as nat, |k: int| found[k]@) =~= relabelled(
            entries,
            view,
        ).map_values(|entry: (u64, Seq<i32>)| entry.1));
    }
    found
}

/// The entries of a queue of the given size after the first `n` of
/// the scores are pushed, each with its place in the list.
pub open spec fn offered(scores: Seq<u64>, size: nat, n: nat) -> Seq<(u64, usize)>
    decreases n,
{
    if n == 0 {
        Seq::empty()
    } else {
        pushed(offered(scores, size, (n - 1) as nat), size, scores[n - 1], (n - 1) as usize)
    }
}

/// A cap to begin a search for `n_results` with: the cap of a queue
/// of that size to which the scores are offered, which is the worst
/// of the best `n_results` of them, and no bound at all where they
/// are fewer.
pub fn preliminary_cap(scores: &[u64], n_results: usize) -> (cap: u64)
    ensures
        cap == cap_of(offered(scores@, n_results as nat, scores.len() as nat), n_results as nat),
{
    let mut results: PriorityQueue<usize> = PriorityQueue::new(n_results);
    let mut i: usize = 0;
    while i < scores.len()
        invariant
            i <= scores.len(),
            results.well_formed(),
            results.size() == n_results,
            results.entries() == offered(scores@, n_results as nat, i as nat),
        decreases scores.len() - i,
    {
        results.push(scores[i], i);
        i += 1;
    }
    results.cap()
}

} // verus!
