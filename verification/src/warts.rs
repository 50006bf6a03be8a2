//! Warts: the letters that tell an equal temperament mapping from
//! the best mapping of its size, one for each partial of a limit.
use crate::limit::{texts, PrimeLimit};
use crate::text::{decimal, decimal_digits};
use crate::Harmonic;
use vstd::prelude::*;

verus! {

/// `char::from_u32` gives the character of a code point, and `None`
/// for a number that is no code point of a character.
pub assume_specification[ char::from_u32 ](i: u32) -> (r: Option<char>)
    ensures
        r == if i <= 0xD7FF || (0xE000 <= i <= 0x10FFFF) {
            Some(i as char)
        } else {
            None::<char>
        },
;

/// The character after `c` in the sequence used for warts of
/// partials that are no small primes: the letters up to `z`, then
/// the Chinese numerals from zero to nine, then the characters in
/// the order of their code points.
pub open spec fn next_wart(c: char) -> char {
    if c == 'z' {
        '〇'
    } else if c == '〇' {
        '一'
    } else if c == '一' {
        '二'
    } else if c == '二' {
        '三'
    } else if c == '三' {
        '四'
    } else if c == '四' {
        '五'
    } else if c == '五' {
        '六'
    } else if c == '六' {
        '七'
    } else if c == '七' {
        '八'
    } else if c == '八' {
        '九'
    } else if c as u32 + 1 <= 0xD7FF || (0xE000 <= c as u32 + 1 <= 0x10FFFF) {
        (c as u32 + 1) as char
    } else {
        c
    }
}

/// Next character in the sequence used for warts.  The letter `p`
/// stands for the best mapping and is never a wart.
pub fn next_char(current: char) -> (next: char)
    requires
        current != 'p',
    ensures
        next == next_wart(current),
{
    if current == 'z' {
        '〇'
    } else if current == '〇' {
        '一'
    } else if current == '一' {
        '二'
    } else if current == '二' {
        '三'
    } else if current == '三' {
        '四'
    } else if current == '四' {
        '五'
    } else if current == '五' {
        '六'
    } else if current == '六' {
        '七'
    } else if current == '七' {
        '八'
    } else if current == '八' {
        '九'
    } else {
        match char::from_u32(current as u32 + 1) {
            Some(next) => next,
            None => current,
        }
    }
}

/// The primes below 48, each with its wart: the letters from `a`.
pub open spec fn prime_wart_table() -> Seq<(Harmonic, char)> {
    seq![
        (2u16, 'a'),
        (3u16, 'b'),
        (5u16, 'c'),
        (7u16, 'd'),
        (11u16, 'e'),
        (13u16, 'f'),
        (17u16, 'g'),
        (19u16, 'h'),
        (23u16, 'i'),
        (29u16, 'j'),
        (31u16, 'k'),
        (37u16, 'l'),
        (41u16, 'm'),
        (43u16, 'n'),
        (47u16, 'o'),
    ]
}

/// The warts of the small primes.
pub fn prime_warts() -> (table: Vec<(Harmonic, char)>)
    ensures
        table@ == prime_wart_table(),
{
    let primes: [Harmonic; 15] = [2, 3, 5, 7, 11, 13, 17, 19, 23, 29, 31, 37, 41, 43, 47];
    let mut table: Vec<(Harmonic, char)> = Vec::new();
    let mut next_wart: char = 'a';
    let mut i: usize = 0;
    while i < 15
        invariant
            i <= 15,
            primes@ == seq![
                2u16,
                3u16,
                5u16,
                7u16,
                11u16,
                13u16,
                17u16,
                19u16,
                23u16,
                29u16,
                31u16,
                37u16,
                41u16,
                43u16,
                47u16,
            ],
            next_wart as u32 == 97 + i,
            table@ == prime_wart_table().take(i as int),
        decreases 15 - i,
    {
        table.push((primes[i], next_wart));
        proof {
            assert(prime_wart_table().take(i as int + 1) =~= prime_wart_table().take(i as int).push(
                prime_wart_table()[i as int],
            ));
        }
        next_wart = next_char(next_wart);
        i += 1;
    }
    proof {
        assert(prime_wart_table().take(15) =~= prime_wart_table());
    }
    table
}

/// The wart of the small prime that a heading names, looked up from
/// entry `k` of the table on.
pub open spec fn prime_wart_from(heading: Seq<char>, k: int) -> Option<char>
    decreases prime_wart_table().len() - k,
{
    let table = prime_wart_table();
    if k < 0 || k >= table.len() {
        None
    } else if decimal_digits(table[k].0 as nat) == heading {
        Some(table[k].1)
    } else {
        prime_wart_from(heading, k + 1)
    }
}

/// The wart of the small prime that a heading names, where it
/// names one.
pub open spec fn prime_wart(heading: Seq<char>) -> Option<char> {
    prime_wart_from(heading, 0)
}

/// The wart that the next partial which is no small prime gets,
/// after the first `k` headings.
pub open spec fn spare_wart(headings: Seq<Seq<char>>, k: nat) -> char
    decreases k,
{
    if k == 0 {
        'q'
    } else if prime_wart(headings[k - 1]) is Some {
        spare_wart(headings, (k - 1) as nat)
    } else {
        next_wart(spare_wart(headings, (k - 1) as nat))
    }
}

/// The wart of heading `k`.
pub open spec fn wart_at(headings: Seq<Seq<char>>, k: int) -> char {
    match prime_wart(headings[k]) {
        Some(c) => c,
        None => spare_wart(headings, k as nat),
    }
}

/// The warts of the headings.
pub open spec fn warts_of(headings: Seq<Seq<char>>) -> Seq<char> {
    Seq::new(headings.len(), |k: int| wart_at(headings, k))
}

/// The spare warts never reach back to `p`.
pub proof fn lemma_spare_wart(headings: Seq<Seq<char>>, k: nat)
    ensures
        spare_wart(headings, k) as u32 >= 113,
    decreases k,
{
    if k > 0 {
        lemma_spare_wart(headings, (k - 1) as nat);
    }
}

/// Looks a heading up among the small primes.
fn find_prime_wart(table: &Vec<(Harmonic, char)>, heading: &String) -> (r: Option<char>)
    requires
        table@ == prime_wart_table(),
    ensures
        r == prime_wart(heading@),
{
    let mut k: usize = 0;
    while k < table.len()
        invariant
            k <= table.len(),
            table@ == prime_wart_table(),
            prime_wart(heading@) == prime_wart_from(heading@, k as int),
        decreases table.len() - k,
    {
        let (p, c) = table[k];
        let name = decimal(p as u128);
        if name == *heading {
            return Some(c);
        }
        k += 1;
    }
    None
}

impl PrimeLimit {
    /// The characters used to specify names of ambiguous equal
    /// temperaments: for a small prime its letter, for every other
    /// partial the next of the spare ones from `q` on.
    pub fn warts(&self) -> (warts: Vec<char>)
        ensures
            warts@ == warts_of(self.heading_texts()),
    {
        let table = prime_warts();
        let mut next_inharmonic_wart: char = 'q';
        let mut warts: Vec<char> = Vec::new();
        let ghost headings = self.heading_texts();
        let mut k: usize = 0;
        while k < self.headings.len()
            invariant
                k <= self.headings.len(),
                table@ == prime_wart_table(),
                headings == texts(self.headings@),
                next_inharmonic_wart == spare_wart(headings, k as nat),
                warts@ == warts_of(headings).take(k as int),
            decreases self.headings.len() - k,
        {
            proof {
                lemma_spare_wart(headings, k as nat);
                assert(warts_of(headings).take(k as int + 1) =~= warts_of(headings).take(
                    k as int,
                ).push(wart_at(headings, k as int)));
                assert(headings[k as int] == self.headings[k as int]@);
            }
            match find_prime_wart(&table, &self.headings[k]) {
                Some(c) => {
                    warts.push(c);
                },
                None => {
                    warts.push(next_inharmonic_wart);
                    next_inharmonic_wart = next_char(next_inharmonic_wart);
                },
            }
            k += 1;
        }
        proof {
            assert(warts_of(headings).take(headings.len() as int) =~= warts_of(headings));
        }
        warts
    }
}

} // verus!
