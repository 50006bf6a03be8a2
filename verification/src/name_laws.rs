//! Reading a name gives back the mapping that was named.
use crate::et_name::{
    count_of, name_body, name_is_well_formed, name_octave, name_steps, name_text, name_warts,
    repeated, shorter, signed_digits, wart_count, wart_text, warted_steps, without_warts,
};
use crate::limit::index_from;
use crate::text::{all_digits, decimal_digits, is_digit, lemma_decimal_round_trip, unsigned_value};
use crate::warts::{lemma_spare_wart, prime_wart_from, prime_wart_table, warts_of};
use vstd::prelude::*;

verus! {

/// A character that a wart can be: a letter or a later character,
/// but not `p`.
pub open spec fn is_wart_like(c: char) -> bool {
    c as u32 >= 97 && c != 'p'
}

proof fn lemma_prime_wart_from(heading: Seq<char>, k: int)
    requires
        0 <= k,
    ensures
        prime_wart_from(heading, k) matches Some(c) ==> 97 <= c as u32 <= 111,
    decreases prime_wart_table().len() - k,
{
    let table = prime_wart_table();
    if k < table.len() {
        if decimal_digits(table[k].0 as nat) == heading {
        } else {
            lemma_prime_wart_from(heading, k + 1);
        }
    }
}

/// Warts are letters or later characters, and never `p`.
pub proof fn lemma_warts_like(headings: Seq<Seq<char>>)
    ensures
        forall|k: int| 0 <= k < headings.len() ==> is_wart_like(#[trigger] warts_of(headings)[k]),
{
    assert forall|k: int| 0 <= k < headings.len() implies is_wart_like(
        #[trigger] warts_of(headings)[k],
    ) by {
        lemma_prime_wart_from(headings[k], 0);
        lemma_spare_wart(headings, k as nat);
    }
}

/// Every character of `s` is one of `warts`.
spec fn all_warts(s: Seq<char>, warts: Seq<char>) -> bool {
    forall|i: int| 0 <= i < s.len() ==> warts.contains(#[trigger] s[i])
}

proof fn lemma_count_of_sum(a: Seq<char>, b: Seq<char>, c: char)
    ensures
        count_of(a + b, c) == count_of(a, c) + count_of(b, c),
    decreases b.len(),
{
    if b.len() == 0 {
        assert(a + b =~= a);
    } else {
        lemma_count_of_sum(a, b.drop_last(), c);
        assert((a + b).drop_last() =~= a + b.drop_last());
        assert((a + b).last() == b.last());
    }
}

proof fn lemma_count_of_repeated(x: char, n: nat, c: char)
    ensures
        count_of(repeated(x, n), c) == if x == c {
            n
        } else {
            0
        },
    decreases n,
{
    if n > 0 {
        lemma_count_of_repeated(x, (n - 1) as nat, c);
        assert(repeated(x, n).drop_last() =~= repeated(x, (n - 1) as nat));
    }
}

/// The warts of the first `n` partials hold the wart of partial `i`
/// as often as that partial asks, where no wart stands for two
/// partials; and they hold nothing but warts.
proof fn lemma_wart_text(
    warts: Seq<char>,
    et: Seq<i32>,
    nearest: Seq<i32>,
    sharp: Seq<bool>,
    n: nat,
    i: int,
)
    requires
        n <= warts.len(),
        0 <= i < warts.len(),
        warts.no_duplicates(),
    ensures
        count_of(wart_text(warts, et, nearest, sharp, n), warts[i]) == if i < n {
            wart_count(et[i] as int, nearest[i] as int, sharp[i])
        } else {
            0
        },
        all_warts(wart_text(warts, et, nearest, sharp, n), warts),
    decreases n,
{
    if n > 0 {
        let k = n - 1;
        lemma_wart_text(warts, et, nearest, sharp, k as nat, i);
        let before = wart_text(warts, et, nearest, sharp, k as nat);
        let count = wart_count(et[k] as int, nearest[k] as int, sharp[k]);
        let added = repeated(warts[k], count);
        lemma_count_of_sum(before, added, warts[i]);
        lemma_count_of_repeated(warts[k], count, warts[i]);
        assert forall|t: int| 0 <= t < (before + added).len() implies warts.contains(
            #[trigger] (before + added)[t],
        ) by {
            if t < before.len() {
                assert((before + added)[t] == before[t]);
            } else {
                assert((before + added)[t] == warts[k]);
            }
        }
    }
}

/// The warts at the end of a text are taken away as far as the
/// digits before them.
proof fn lemma_without_warts(digits: Seq<char>, tail: Seq<char>, warts: Seq<char>)
    requires
        digits.len() > 0,
        !warts.contains(digits.last()),
        all_warts(tail, warts),
    ensures
        without_warts(digits + tail, warts) == digits,
    decreases tail.len(),
{
    if tail.len() == 0 {
        assert(digits + tail =~= digits);
    } else {
        let s = digits + tail;
        assert(s.last() == tail[tail.len() - 1]);
        assert(s.drop_last() =~= digits + tail.drop_last());
        assert forall|i: int| 0 <= i < tail.drop_last().len() implies warts.contains(
            #[trigger] tail.drop_last()[i],
        ) by {
            assert(tail.drop_last()[i] == tail[i]);
        }
        lemma_without_warts(digits, tail.drop_last(), warts);
    }
}

/// As many warts as tell a number of steps from the nearest one
/// bring the nearest one back to it.
pub proof fn lemma_warted_steps(et: int, nearest: int, sharp: bool)
    ensures
        warted_steps(nearest, sharp, wart_count(et, nearest, sharp)) == et,
{
}

proof fn lemma_index_of_first(warts: Seq<char>)
    requires
        warts.len() > 0,
    ensures
        index_from(warts, warts[0], 0) == 0,
{
}

/// Round-trip naming: the name of a mapping, read again, gives the
/// number of steps to the first partial and, for every partial, the
/// number of steps of the mapping.  It holds for a mapping with a
/// number of steps for each partial of the limit and a first one
/// that is not negative, in a limit in which no wart stands for two
/// partials.  A name with a wart in front divides the first partial;
/// one without is taken to divide an octave of 1200 cents.
pub proof fn lemma_name_round_trip(
    headings: Seq<Seq<char>>,
    et: Seq<i32>,
    nearest: Seq<i32>,
    sharp: Seq<bool>,
)
    requires
        headings.len() > 0,
        et.len() == headings.len(),
        nearest.len() == headings.len(),
        sharp.len() == headings.len(),
        et[0] >= 0,
        warts_of(headings).no_duplicates(),
    ensures
        ({
            let warts = warts_of(headings);
            let name = name_text(headings, et, nearest, sharp);
            &&& name_is_well_formed(warts, name)
            &&& name_steps(warts, name) == et[0]
            &&& name_octave(warts, name) == if headings[0] == seq!['2'] {
                None::<int>
            } else {
                Some(0int)
            }
            &&& forall|i: int|
                0 <= i < et.len() ==> warted_steps(
                    nearest[i] as int,
                    sharp[i],
                    count_of(name_warts(warts, name), #[trigger] warts[i]),
                ) == et[i]
        }),
{
    let warts = warts_of(headings);
    let name = name_text(headings, et, nearest, sharp);
    let prefixed = headings[0] != seq!['2'];
    let prefix = if prefixed {
        seq![warts[0]]
    } else {
        Seq::<char>::empty()
    };
    let number = decimal_digits(et[0] as nat);
    let n = shorter(et.len(), nearest.len());
    let tail = if nearest == et {
        seq!['p']
    } else {
        wart_text(warts, et, nearest, sharp, n)
    };
    assert(signed_digits(et[0] as int) == number);
    assert(name == prefix + number + tail);
    lemma_warts_like(headings);
    lemma_decimal_round_trip(et[0] as nat);
    // no digit is a wart
    assert forall|t: int| 0 <= t < number.len() implies !warts.contains(#[trigger] number[t]) by {
        assert(is_digit(number[t]));
        if warts.contains(number[t]) {
            let k = choose|k: int| 0 <= k < warts.len() && warts[k] == number[t];
            assert(is_wart_like(warts[k]));
        }
    }
    assert(!warts.contains('p')) by {
        if warts.contains('p') {
            let k = choose|k: int| 0 <= k < warts.len() && warts[k] == 'p';
            assert(is_wart_like(warts[k]));
        }
    }
    // what stands behind the wart in front
    let rest = number + tail;
    if prefixed {
        assert(name[0] == warts[0]);
        assert(warts.contains(name[0]));
        assert(name.skip(1) =~= rest);
        lemma_index_of_first(warts);
    } else {
        assert(name =~= rest);
        assert(name[0] == number[0]);
        assert(!warts.contains(name[0]));
    }
    let body = name_body(warts, name);
    if nearest == et {
        assert(rest.last() == 'p');
        assert(rest.drop_last() =~= number);
        assert(body == number);
        assert(without_warts(number, warts) == number);
        assert(name_warts(warts, name) =~= Seq::<char>::empty());
        assert forall|i: int| 0 <= i < et.len() implies warted_steps(
            nearest[i] as int,
            sharp[i],
            count_of(name_warts(warts, name), #[trigger] warts[i]),
        ) == et[i] by {}
    } else {
        // some partial is mapped otherwise, and has its warts
        if forall|i: int| 0 <= i < et.len() ==> et[i] == nearest[i] {
            assert(nearest =~= et);
        }
        let i0 = choose|i: int| 0 <= i < et.len() && et[i] != nearest[i];
        lemma_wart_text(warts, et, nearest, sharp, n, i0);
        assert(wart_count(et[i0] as int, nearest[i0] as int, sharp[i0]) > 0);
        assert(tail.len() > 0) by {
            if tail.len() == 0 {
                assert(count_of(tail, warts[i0]) == 0);
            }
        }
        assert(warts.contains(tail[tail.len() - 1]));
        assert(rest.last() == tail[tail.len() - 1]);
        assert(rest.last() != 'p');
        assert(body == rest);
        lemma_without_warts(number, tail, warts);
        assert(rest.skip(number.len() as int) =~= tail);
        assert forall|i: int| 0 <= i < et.len() implies warted_steps(
            nearest[i] as int,
            sharp[i],
            count_of(name_warts(warts, name), #[trigger] warts[i]),
        ) == et[i] by {
            lemma_wart_text(warts, et, nearest, sharp, n, i);
            lemma_warted_steps(et[i] as int, nearest[i] as int, sharp[i]);
        }
    }
    // the digits are read as the number of steps
    assert(unsigned_value(number, usize::MAX as nat) == Some(et[0] as nat));
    // a name without a wart in front is no plain number
    if !prefixed {
        assert(!all_digits(name)) by {
            let last = name.len() - 1;
            assert(name[last] == tail[tail.len() - 1]);
            if nearest == et {
                assert(name[last] == 'p');
            } else {
                assert(warts.contains(name[last]));
                let k = choose|k: int| 0 <= k < warts.len() && warts[k] == name[last];
                assert(is_wart_like(warts[k]));
            }
            assert(!is_digit(name[last]));
        }
        assert(name[0] != '+');
    }
}

} // verus!
