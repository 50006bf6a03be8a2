//! A bounded queue that keeps the best results of a search.
use vstd::prelude::*;

verus! {

/// The score that stands for "no bound yet": every score that is
/// offered lies below it.
pub const INFINITE: u64 = u64::MAX;

/// Container to keep results ordered by badness and throw away the
/// bad ones.  Prioritized by badness: low values are preferred.
/// The badness is given as a score, a whole number that grows with
/// it.
pub struct PriorityQueue<T> {
    cap: u64,
    size: usize,
    items: Vec<(u64, T)>,
}

/// The scores do not fall from front to back.
pub open spec fn ascending<T>(entries: Seq<(u64, T)>) -> bool {
    forall|i: int, j: int| 0 <= i <= j < entries.len() ==> entries[i].0 <= entries[j].0
}

/// The place of a new entry with the given score: behind the
/// entries from `i` on that are no worse.
pub open spec fn place_from<T>(entries: Seq<(u64, T)>, score: u64, i: int) -> int
    decreases entries.len() - i,
{
    if 0 <= i < entries.len() && entries[i].0 <= score {
        place_from(entries, score, i + 1)
    } else {
        i
    }
}

/// The entries with a new one in its place.
pub open spec fn inserted<T>(entries: Seq<(u64, T)>, score: u64, item: T) -> Seq<(u64, T)> {
    entries.insert(place_from(entries, score, 0), (score, item))
}

/// The cap of a queue of the given size with the given entries:
/// the worst score in it once it is full, and no bound before.
pub open spec fn cap_of<T>(entries: Seq<(u64, T)>, size: nat) -> u64 {
    if size > 0 && entries.len() == size {
        entries.last().0
    } else {
        INFINITE
    }
}

/// What a queue of the given size holds after an entry is pushed:
/// while there is room the entries with the new one; in a full
/// queue the same without the worst, where the new one is better
/// than the cap, and else the entries as they were.
pub open spec fn pushed<T>(entries: Seq<(u64, T)>, size: nat, score: u64, item: T) -> Seq<(u64, T)> {
    if entries.len() == size {
        if score < cap_of(entries, size) {
            inserted(entries, score, item).drop_last()
        } else {
            entries
        }
    } else {
        inserted(entries, score, item)
    }
}

proof fn lemma_place_from<T>(entries: Seq<(u64, T)>, score: u64, i: int)
    requires
        0 <= i <= entries.len(),
        ascending(entries),
    ensures
        i <= place_from(entries, score, i) <= entries.len(),
        forall|k: int| i <= k < place_from(entries, score, i) ==> entries[k].0 <= score,
        forall|k: int| place_from(entries, score, i) <= k < entries.len() ==> entries[k].0 > score,
    decreases entries.len() - i,
{
    if i < entries.len() && entries[i].0 <= score {
        lemma_place_from(entries, score, i + 1);
    } else if i < entries.len() {
        assert forall|k: int| i <= k < entries.len() implies entries[k].0 > score by {
            assert(entries[i].0 <= entries[k].0);
        }
    }
}

/// An entry put in its place keeps the order.
pub proof fn lemma_inserted_ascending<T>(entries: Seq<(u64, T)>, score: u64, item: T)
    requires
        ascending(entries),
    ensures
        ascending(inserted(entries, score, item)),
        inserted(entries, score, item).len() == entries.len() + 1,
{
    lemma_place_from(entries, score, 0);
    let at = place_from(entries, score, 0);
    let after = inserted(entries, score, item);
    assert forall|i: int, j: int| 0 <= i <= j < after.len() implies after[i].0 <= after[j].0 by {
        let a = if i < at {
            entries[i].0
        } else if i == at {
            score
        } else {
            entries[i - 1].0
        };
        let b = if j < at {
            entries[j].0
        } else if j == at {
            score
        } else {
            entries[j - 1].0
        };
        assert(after[i].0 == a);
        assert(after[j].0 == b);
        if i < at && j > at {
            assert(entries[i].0 <= score);
            assert(entries[j - 1].0 > score);
        }
    }
}

/// The cap never rises: a push leaves it or lowers it.
pub proof fn lemma_cap_falls<T>(entries: Seq<(u64, T)>, size: nat, score: u64, item: T)
    requires
        ascending(entries),
        entries.len() <= size,
    ensures
        cap_of(pushed(entries, size, score, item), size) <= cap_of(entries, size),
        pushed(entries, size, score, item).len() <= size,
        ascending(pushed(entries, size, score, item)),
{
    lemma_inserted_ascending(entries, score, item);
    lemma_place_from(entries, score, 0);
    let after = inserted(entries, score, item);
    let at = place_from(entries, score, 0);
    if entries.len() == size && size > 0 && score < cap_of(entries, size) {
        let kept = after.drop_last();
        assert(at < entries.len()) by {
            if at == entries.len() {
                assert(entries[entries.len() - 1].0 <= score);
            }
        }
        assert(kept.last() == after[size - 1]);
        assert(after[size as int] == entries[size - 1]);
        assert(after[size - 1].0 <= after[size as int].0);
    }
    let result = pushed(entries, size, score, item);
    assert forall|i: int, j: int| 0 <= i <= j < result.len() implies result[i].0
        <= result[j].0 by {
        if entries.len() == size {
            if score < cap_of(entries, size) {
                assert(result[i] == after[i]);
                assert(result[j] == after[j]);
            }
        }
    }
}

/// The entries with each item replaced by what `f` makes of it.
pub open spec fn relabelled<T, U>(entries: Seq<(u64, T)>, f: spec_fn(T) -> U) -> Seq<(u64, U)> {
    Seq::new(entries.len(), |k: int| (entries[k].0, f(entries[k].1)))
}

proof fn lemma_place_relabelled<T, U>(
    entries: Seq<(u64, T)>,
    f: spec_fn(T) -> U,
    score: u64,
    i: int,
)
    requires
        0 <= i <= entries.len(),
    ensures
        place_from(relabelled(entries, f), score, i) == place_from(entries, score, i),
        i <= place_from(entries, score, i) <= entries.len(),
    decreases entries.len() - i,
{
    if i < entries.len() && entries[i].0 <= score {
        lemma_place_relabelled(entries, f, score, i + 1);
    }
}

/// The cap depends on the scores alone.
pub proof fn lemma_cap_relabelled<T, U>(entries: Seq<(u64, T)>, size: nat, f: spec_fn(T) -> U)
    ensures
        cap_of(relabelled(entries, f), size) == cap_of(entries, size),
{
}

/// Where an entry goes depends on the scores alone: pushing an item
/// and replacing the items by what `f` makes of them can be done
/// in either order.
pub proof fn lemma_pushed_relabelled<T, U>(
    entries: Seq<(u64, T)>,
    size: nat,
    score: u64,
    item: T,
    f: spec_fn(T) -> U,
)
    ensures
        relabelled(pushed(entries, size, score, item), f) == pushed(
            relabelled(entries, f),
            size,
            score,
            f(item),
        ),
        cap_of(relabelled(entries, f), size) == cap_of(entries, size),
{
    lemma_place_relabelled(entries, f, score, 0);
    assert(relabelled(inserted(entries, score, item), f) =~= inserted(
        relabelled(entries, f),
        score,
        f(item),
    ));
    assert(relabelled(inserted(entries, score, item).drop_last(), f) =~= inserted(
        relabelled(entries, f),
        score,
        f(item),
    ).drop_last());
}

/// Every item of the entries has the property `p`.
pub open spec fn all_items<T>(entries: Seq<(u64, T)>, p: spec_fn(T) -> bool) -> bool {
    forall|k: int| 0 <= k < entries.len() ==> p(#[trigger] entries[k].1)
}

proof fn lemma_place_within<T>(entries: Seq<(u64, T)>, score: u64, i: int)
    requires
        0 <= i <= entries.len(),
    ensures
        i <= place_from(entries, score, i) <= entries.len(),
    decreases entries.len() - i,
{
    if i < entries.len() && entries[i].0 <= score {
        lemma_place_within(entries, score, i + 1);
    }
}

/// Nothing comes into a queue but what is pushed: what holds of
/// every item in it and of the new one holds of every item after.
pub proof fn lemma_pushed_all<T>(
    entries: Seq<(u64, T)>,
    size: nat,
    score: u64,
    item: T,
    p: spec_fn(T) -> bool,
)
    requires
        all_items(entries, p),
        p(item),
    ensures
        all_items(pushed(entries, size, score, item), p),
{
    lemma_place_within(entries, score, 0);
    let place = place_from(entries, score, 0);
    let more = inserted(entries, score, item);
    assert(all_items(more, p)) by {
        assert forall|k: int| 0 <= k < more.len() implies p(#[trigger] more[k].1) by {
            if k < place {
                assert(more[k] == entries[k]);
            } else if k > place {
                assert(more[k] == entries[k - 1]);
            }
        }
    }
    assert(all_items(more.drop_last(), p)) by {
        assert forall|k: int| 0 <= k < more.drop_last().len() implies p(
            #[trigger] more.drop_last()[k].1,
        ) by {
            assert(more.drop_last()[k] == more[k]);
        }
    }
}

/// No two items of the entries have the same label under `f`.
pub open spec fn distinct_items<T, K>(entries: Seq<(u64, T)>, f: spec_fn(T) -> K) -> bool {
    forall|a: int, b: int|
        0 <= a < b < entries.len() ==> f((#[trigger] entries[a]).1) != f((#[trigger] entries[b]).1)
}

/// Where no two items have the same label and the new one has a
/// label of its own, no two have the same label after the push.
pub proof fn lemma_pushed_distinct<T, K>(
    entries: Seq<(u64, T)>,
    size: nat,
    score: u64,
    item: T,
    f: spec_fn(T) -> K,
)
    requires
        distinct_items(entries, f),
        forall|a: int| 0 <= a < entries.len() ==> f((#[trigger] entries[a]).1) != f(item),
    ensures
        distinct_items(pushed(entries, size, score, item), f),
{
    lemma_place_within(entries, score, 0);
    let place = place_from(entries, score, 0);
    let more = inserted(entries, score, item);
    assert(distinct_items(more, f)) by {
        assert forall|a: int, b: int| 0 <= a < b < more.len() implies f((#[trigger] more[a]).1)
            != f((#[trigger] more[b]).1) by {
            let from_a = if a < place {
                a
            } else {
                a - 1
            };
            let from_b = if b < place {
                b
            } else {
                b - 1
            };
            if a != place {
                assert(more[a] == entries[from_a]);
            }
            if b != place {
                assert(more[b] == entries[from_b]);
            }
        }
    }
    assert(distinct_items(more.drop_last(), f)) by {
        assert forall|a: int, b: int| 0 <= a < b < more.drop_last().len() implies f(
            (#[trigger] more.drop_last()[a]).1,
        ) != f((#[trigger] more.drop_last()[b]).1) by {
            assert(more.drop_last()[a] == more[a]);
            assert(more.drop_last()[b] == more[b]);
        }
    }
}

impl<T> PriorityQueue<T> {
    /// The entries, best first.
    pub closed spec fn entries(&self) -> Seq<(u64, T)> {
        self.items@
    }

    /// How many entries the queue keeps.
    pub closed spec fn size(&self) -> nat {
        self.size as nat
    }

    /// The cap as it is stored.
    pub closed spec fn stored_cap(&self) -> u64 {
        self.cap
    }

    /// The queue is in order: at most `size` entries, the scores
    /// ascending, and the cap the one that belongs to them.
    pub open spec fn well_formed(&self) -> bool {
        &&& self.entries().len() <= self.size()
        &&& ascending(self.entries())
        &&& self.stored_cap() == cap_of(self.entries(), self.size())
    }

    /// An empty queue that keeps `size` entries.
    pub fn new(size: usize) -> (queue: PriorityQueue<T>)
        ensures
            queue.well_formed(),
            queue.size() == size,
            queue.entries() == Seq::<(u64, T)>::empty(),
    {
        PriorityQueue { cap: INFINITE, size, items: Vec::new() }
    }

    /// The worst score that is kept, once the queue is full; before
    /// that, `INFINITE`.
    pub fn cap(&self) -> (cap: u64)
        requires
            self.well_formed(),
        ensures
            cap == cap_of(self.entries(), self.size()),
    {
        self.cap
    }

    /// The number of entries.
    pub fn len(&self) -> (n: usize)
        ensures
            n == self.entries().len(),
    {
        self.items.len()
    }

    /// Offers an entry to the queue.
    pub fn push(&mut self, badness: u64, item: T)
        requires
            old(self).well_formed(),
        ensures
            final(self).well_formed(),
            final(self).size() == old(self).size(),
            final(self).entries() == pushed(old(self).entries(), old(self).size(), badness, item),
    {
        let ghost before = self.items@;
        proof {
            lemma_inserted_ascending(before, badness, item);
        }
        if self.items.len() == self.size {
            if badness < self.cap {
                self.insert(badness, item);
                self.items.pop();
                proof {
                    assert(self.items@ =~= inserted(before, badness, item).drop_last());
                }
                self.set_cap();
            }
        } else {
            self.insert(badness, item);
            if self.items.len() == self.size {
                self.set_cap();
            }
        }
    }

    /// Puts an entry in its place.
    fn insert(&mut self, badness: u64, item: T)
        requires
            ascending(old(self).items@),
        ensures
            final(self).items@ == inserted(old(self).items@, badness, item),
            final(self).size == old(self).size,
            final(self).cap == old(self).cap,
    {
        let mut at: usize = 0;
        while at < self.items.len() && self.items[at].0 <= badness
            invariant
                at <= self.items.len(),
                place_from(self.items@, badness, 0) == place_from(self.items@, badness, at as int),
            decreases self.items.len() - at,
        {
            at += 1;
        }
        self.items.insert(at, (badness, item));
    }

    /// Takes the worst score in the queue for the cap.
    fn set_cap(&mut self)
        ensures
            final(self).items@ == old(self).items@,
            final(self).size == old(self).size,
            final(self).cap == if old(self).items.len() > 0 {
                old(self).items@.last().0
            } else {
                old(self).cap
            },
    {
        let n = self.items.len();
        if n > 0 {
            self.cap = self.items[n - 1].0;
        }
    }

    /// The items of the queue, best first.
    pub fn extract(self) -> (items: Vec<T>)
        ensures
            items@ == self.entries().map_values(|entry: (u64, T)| entry.1),
    {
        let ghost entries = self.items@;
        let mut rest = self.items;
        let mut backwards: Vec<T> = Vec::new();
        while rest.len() > 0
            invariant
                rest@ == entries.take(rest.len() as int),
                backwards.len() + rest.len() == entries.len(),
                forall|k: int|
                    0 <= k < backwards.len() ==> backwards[k] == entries[entries.len() - 1 - k].1,
            decreases rest.len(),
        {
            let ghost n = rest.len();
            match rest.pop() {
                Some((_, item)) => {
                    backwards.push(item);
                    proof {
                        assert(rest@ =~= entries.take(n - 1));
                    }
                },
                None => {},
            }
        }
        let mut items: Vec<T> = Vec::new();
        let ghost total = backwards@;
        while backwards.len() > 0
            invariant
                backwards@ == total.take(backwards.len() as int),
                total.len() == entries.len(),
                items.len() + backwards.len() == total.len(),
                forall|k: int| 0 <= k < total.len() ==> total[k] == entries[entries.len() - 1 - k].1,
                forall|k: int| 0 <= k < items.len() ==> items[k] == entries[k].1,
            decreases backwards.len(),
        {
            let ghost n = backwards.len();
            match backwards.pop() {
                Some(item) => {
                    items.push(item);
                    proof {
                        assert(backwards@ =~= total.take(n - 1));
                    }
                },
                None => {},
            }
        }
        proof {
            assert(items@ =~= entries.map_values(|entry: (u64, T)| entry.1));
        }
        items
    }
}

} // verus!
