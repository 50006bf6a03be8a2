//! A class made again from its key: of the equal temperaments that
//! are offered, those that belong to the class and add to what is
//! gathered so far.
use crate::hermite::copy_column;
use crate::reduction::reduction;
use crate::shape::{columns, has_rows, ints};
use crate::temperament_class::{
    belongs, belongs_in, class_of_key, class_rank, key_to_mapping, rank_in,
};
use crate::{ETMap, Exponent, Mapping};
use vstd::prelude::*;

verus! {

/// What is gathered from the first `n` candidates: each that
/// belongs to the class and not to the class of those gathered
/// before it, in their order.
pub open spec fn gathered(
    class: Seq<Seq<int>>,
    d: nat,
    candidates: Seq<Seq<int>>,
    n: nat,
) -> Seq<Seq<int>>
    decreases n,
{
    if n == 0 {
        Seq::empty()
    } else {
        let before = gathered(class, d, candidates, (n - 1) as nat);
        let et = candidates[n - 1];
        if belongs(class, d, et) && !belongs(before, d, et) {
            before.push(et)
        } else {
            before
        }
    }
}

/// Every normal form that candidate `k` asks for is in the machine's
/// range: that of the class alone and with the candidate, and for a
/// candidate of the class, that of what is gathered before it,
/// alone and with it.
pub open spec fn gathers_at(class: Seq<Seq<int>>, d: nat, candidates: Seq<Seq<int>>, k: int) -> bool {
    &&& reduction(class, d) is Some
    &&& reduction(seq![candidates[k]] + class, d) is Some
    &&& belongs(class, d, candidates[k]) ==> {
        &&& reduction(gathered(class, d, candidates, k as nat), d) is Some
        &&& reduction(seq![candidates[k]] + gathered(class, d, candidates, k as nat), d) is Some
    }
}

/// Every normal form that the gathering of the first `n` candidates
/// asks for is in the machine's range.
pub open spec fn gathers(class: Seq<Seq<int>>, d: nat, candidates: Seq<Seq<int>>, n: nat) -> bool {
    forall|k: int| 0 <= k < n ==> #[trigger] gathers_at(class, d, candidates, k)
}

/// The candidates give the class again: everything reduces, and
/// what is gathered has the rank of the class.
pub open spec fn rebuilds(class: Seq<Seq<int>>, d: nat, candidates: Seq<Seq<int>>) -> bool {
    let melody = gathered(class, d, candidates, candidates.len());
    &&& gathers(class, d, candidates, candidates.len())
    &&& reduction(melody, d) is Some
    &&& reduction(class, d) is Some
    &&& class_rank(melody, d) == class_rank(class, d)
}

/// A mapping of the class with the given key, made of the
/// candidates: each candidate that belongs to the class and not yet
/// to what is gathered becomes a column.  `None` where the key is
/// not a key in `n_primes` rows, where the candidates do not reach
/// the rank of the class, and where a normal form leaves the
/// machine's range.
pub fn from_ets_and_key(n_primes: usize, candidates: &[ETMap], key: &[Exponent]) -> (r: Option<
    Mapping,
>)
    requires
        has_rows(candidates@, n_primes as nat),
    ensures
        r is Some <==> (class_of_key(n_primes as nat, ints(key@)) matches Some(class) && rebuilds(
            class,
            n_primes as nat,
            columns(candidates@),
        )),
        r matches Some(melody) ==> {
            &&& has_rows(melody@, n_primes as nat)
            &&& columns(melody@) == gathered(
                class_of_key(n_primes as nat, ints(key@)).unwrap(),
                n_primes as nat,
                columns(candidates@),
                candidates.len() as nat,
            )
        },
{
    let class = key_to_mapping(n_primes, key)?;
    let mut melody: Mapping = Vec::new();
    let ghost c = columns(class@);
    let ghost d = n_primes as nat;
    let ghost offered = columns(candidates@);
    let mut i: usize = 0;
    proof {
        assert(columns(melody@) =~= gathered(c, d, offered, 0));
    }
    while i < candidates.len()
        invariant
            i <= candidates.len(),
            c == columns(class@),
            Some(c) == class_of_key(n_primes as nat, ints(key@)),
            d == n_primes as nat,
            offered == columns(candidates@),
            has_rows(class@, d),
            has_rows(candidates@, d),
            has_rows(melody@, d),
            columns(melody@) == gathered(c, d, offered, i as nat),
            gathers(c, d, offered, i as nat),
        decreases candidates.len() - i,
    {
        let et = &candidates[i];
        let ghost before = columns(melody@);
        proof {
            assert(offered[i as int] == ints(et@));
        }
        let ghost step = i as int;
        let inside = match belongs_in(&class, et, n_primes) {
            Some(inside) => inside,
            None => {
                proof {
                    assert(!gathers_at(c, d, offered, step));
                }
                return None;
            },
        };
        proof {
            assert(inside == belongs(c, d, offered[step]));
        }
        if inside {
            let known = match belongs_in(&melody, et, n_primes) {
                Some(known) => known,
                None => {
                    proof {
                        assert(!gathers_at(c, d, offered, step));
                    }
                    return None;
                },
            };
            proof {
                assert(known == belongs(before, d, offered[step]));
            }
            if !known {
                melody.push(copy_column(et));
                proof {
                    assert(columns(melody@) =~= before.push(ints(et@)));
                }
            }
        }
        proof {
            assert(columns(melody@) == gathered(c, d, offered, (step + 1) as nat));
            assert(gathers_at(c, d, offered, step));
        }
        i += 1;
    }
    let found = rank_in(&melody, n_primes)?;
    let wanted = rank_in(&class, n_primes)?;
    if found == wanted {
        Some(melody)
    } else {
        None
    }
}

} // verus!
