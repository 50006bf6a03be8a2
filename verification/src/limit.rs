//! Prime limits: the partials that a temperament maps, each under a
//! heading, and the limit under a label.
use crate::primes::{lists_primes_below, sieve};
use crate::text::{decimal, decimal_digits, parse_unsigned_chars, unsigned_value, chars_of};
use crate::Harmonic;
use vstd::prelude::*;
use vstd::string::StringExecFns;

verus! {

/// A list of partials by name.
pub struct PrimeLimit {
    /// Something used for printing.
    pub label: String,
    /// The name of each partial, used for tables and for warts.
    pub headings: Vec<String>,
}

/// A text that is no prime limit.
#[derive(Debug)]
pub struct ParseLimitError {}

impl ParseLimitError {
    /// What went wrong, for people.
    pub fn message(&self) -> (s: &'static str)
        ensures
            s@ == "Unrecognized prime limit"@,
    {
        "Unrecognized prime limit"
    }
}

/// The texts of a list of strings.
pub open spec fn texts(items: Seq<String>) -> Seq<Seq<char>> {
    Seq::new(items.len(), |k: int| items[k]@)
}

/// The items with the joiner between each two of them.
pub open spec fn joined(items: Seq<Seq<char>>, joiner: Seq<char>) -> Seq<char>
    decreases items.len(),
{
    if items.len() == 0 {
        Seq::empty()
    } else if items.len() == 1 {
        items[0]
    } else {
        joined(items.drop_last(), joiner) + joiner + items.last()
    }
}

/// Joins the items with the joiner between each two of them.
pub fn join(joiner: &str, items: &Vec<String>) -> (s: String)
    ensures
        s@ == joined(texts(items@), joiner@),
{
    let mut s = String::new();
    let mut i: usize = 0;
    let ghost all = texts(items@);
    while i < items.len()
        invariant
            i <= items.len(),
            all == texts(items@),
            s@ == joined(all.take(i as int), joiner@),
        decreases items.len() - i,
    {
        if i > 0 {
            s.append(joiner);
        }
        s.append(items[i].as_str());
        proof {
            let next = all.take(i as int + 1);
            assert(next.drop_last() =~= all.take(i as int));
            assert(next.last() == items[i as int]@);
            if i == 0 {
                assert(Seq::<char>::empty() + items[i as int]@ =~= items[i as int]@);
            }
        }
        i += 1;
    }
    proof {
        assert(all.take(items.len() as int) =~= all);
    }
    s
}

/// The heading of a partial: the number, or numerator and
/// denominator with a slash between them.
pub open spec fn partial_name(partial: (Harmonic, Harmonic)) -> Seq<char> {
    if partial.1 == 1 {
        decimal_digits(partial.0 as nat)
    } else {
        decimal_digits(partial.0 as nat).push('/') + decimal_digits(partial.1 as nat)
    }
}

/// The headings of a list of partials.
pub open spec fn partial_names(partials: Seq<(Harmonic, Harmonic)>) -> Seq<Seq<char>> {
    Seq::new(partials.len(), |k: int| partial_name(partials[k]))
}

/// The whole numbers as partials.
pub open spec fn whole(numbers: Seq<Harmonic>) -> Seq<(Harmonic, Harmonic)> {
    Seq::new(numbers.len(), |k: int| (numbers[k], 1u16))
}

impl PrimeLimit {
    /// The headings as texts.
    pub open spec fn heading_texts(self) -> Seq<Seq<char>> {
        texts(self.headings@)
    }

    /// The limit of the given partials: each under its own name,
    /// the label their names with dots between them.
    pub open spec fn names(self, partials: Seq<(Harmonic, Harmonic)>) -> bool {
        &&& self.heading_texts() == partial_names(partials)
        &&& self.label@ == joined(partial_names(partials), seq!['.'])
    }

    /// Constructor for consecutive prime limits given the highest
    /// prime (or a slightly higher composite): the primes up to `n`,
    /// under the label `n`.
    pub fn new(n: Harmonic) -> (limit: Self)
        requires
            n >= 1,
        ensures
            limit.label@ == decimal_digits(n as nat),
            exists|primes: Seq<Harmonic>|
                lists_primes_below(primes, n + 1) && limit.heading_texts() == partial_names(
                    whole(primes),
                ),
    {
        let primes = sieve(n as u32 + 1);
        let mut result = PrimeLimit::explicit(primes);
        result.label = decimal(n as u128);
        result
    }

    /// The limit of the given numbers, for limits that are not of
    /// consecutive primes (with no check for numbers being prime).
    pub fn explicit(prime_numbers: Vec<Harmonic>) -> (limit: Self)
        ensures
            limit.names(whole(prime_numbers@)),
    {
        let mut partials: Vec<(Harmonic, Harmonic)> = Vec::new();
        let mut i: usize = 0;
        while i < prime_numbers.len()
            invariant
                i <= prime_numbers.len(),
                partials@ == whole(prime_numbers@.take(i as int)),
            decreases prime_numbers.len() - i,
        {
            partials.push((prime_numbers[i], 1));
            proof {
                assert(whole(prime_numbers@.take(i as int + 1)) =~= whole(
                    prime_numbers@.take(i as int),
                ).push((prime_numbers[i as int], 1u16)));
            }
            i += 1;
        }
        proof {
            assert(prime_numbers@.take(prime_numbers.len() as int) =~= prime_numbers@);
        }
        PrimeLimit::of_ratios(partials)
    }

    /// A limit of partials that are ratios of whole numbers, given
    /// as numerator and denominator.
    pub fn of_ratios(partials: Vec<(Harmonic, Harmonic)>) -> (limit: Self)
        ensures
            limit.names(partials@),
    {
        let mut headings: Vec<String> = Vec::new();
        let mut i: usize = 0;
        while i < partials.len()
            invariant
                i <= partials.len(),
                texts(headings@) == partial_names(partials@.take(i as int)),
            decreases partials.len() - i,
        {
            let (n, d) = partials[i];
            let mut heading = decimal(n as u128);
            if d != 1 {
                heading.push('/');
                let tail = decimal(d as u128);
                heading.append(tail.as_str());
            }
            let ghost before = texts(headings@);
            headings.push(heading);
            proof {
                assert(texts(headings@) =~= before.push(partial_name(partials[i as int])));
                assert(partial_names(partials@.take(i as int + 1)) =~= partial_names(
                    partials@.take(i as int),
                ).push(partial_name(partials[i as int])));
            }
            i += 1;
        }
        proof {
            assert(partials@.take(partials.len() as int) =~= partials@);
            reveal_strlit(".");
            assert("."@ =~= seq!['.']);
        }
        let label = join(".", &headings);
        PrimeLimit { label, headings }
    }
}

/// The texts of a list of lists of characters.
pub open spec fn pieces_of(items: Seq<Vec<char>>) -> Seq<Seq<char>> {
    Seq::new(items.len(), |k: int| items[k]@)
}

/// The pieces of `s` between the occurrences of `sep`: one more
/// than there are occurrences.
pub open spec fn split(s: Seq<char>, sep: char) -> Seq<Seq<char>>
    decreases s.len(),
{
    if s.len() == 0 {
        seq![Seq::empty()]
    } else {
        let before = split(s.drop_last(), sep);
        if s.last() == sep {
            before.push(Seq::empty())
        } else {
            before.drop_last().push(before.last().push(s.last()))
        }
    }
}

/// Splits the characters at each occurrence of `sep`.
pub fn split_chars(chars: &Vec<char>, sep: char) -> (pieces: Vec<Vec<char>>)
    ensures
        pieces_of(pieces@) == split(chars@, sep),
{
    let mut pieces: Vec<Vec<char>> = Vec::new();
    let mut current: Vec<char> = Vec::new();
    let mut i: usize = 0;
    proof {
        assert(chars@.take(0) =~= Seq::<char>::empty());
        assert(pieces_of(pieces@).push(current@) =~= seq![Seq::<char>::empty()]);
    }
    while i < chars.len()
        invariant
            i <= chars.len(),
            pieces_of(pieces@).push(current@) == split(chars@.take(i as int), sep),
        decreases chars.len() - i,
    {
        let c = chars[i];
        let ghost done = pieces_of(pieces@);
        let ghost open = current@;
        proof {
            let next = chars@.take(i as int + 1);
            assert(next.drop_last() =~= chars@.take(i as int));
            assert(next.last() == c);
            assert(done.push(open).drop_last() =~= done);
        }
        if c == sep {
            pieces.push(current);
            current = Vec::new();
            proof {
                assert(pieces_of(pieces@) =~= done.push(open));
            }
        } else {
            current.push(c);
        }
        i += 1;
    }
    proof {
        assert(chars@.take(chars.len() as int) =~= chars@);
    }
    let ghost done = pieces_of(pieces@);
    let ghost open = current@;
    pieces.push(current);
    proof {
        assert(pieces_of(pieces@) =~= done.push(open));
    }
    pieces
}

/// The first index at or after `i` at which `c` stands in `s`, or
/// the length of `s`.
pub open spec fn index_from(s: Seq<char>, c: char, i: int) -> int
    decreases s.len() - i,
{
    if i >= s.len() {
        s.len() as int
    } else if s[i] == c {
        i
    } else {
        index_from(s, c, i + 1)
    }
}

/// The partial that a piece of a limit names: a whole number, or
/// two of them with a slash between, the second not zero.
pub open spec fn partial_of(token: Seq<char>) -> Option<(Harmonic, Harmonic)> {
    match unsigned_value(token, 0xffff) {
        Some(n) => Some((n as Harmonic, 1u16)),
        None => {
            let at = index_from(token, '/', 0);
            if at < token.len() {
                match (
                    unsigned_value(token.take(at), 0xffff),
                    unsigned_value(token.skip(at + 1), 0xffff),
                ) {
                    (Some(n), Some(d)) => if d >= 1 {
                        Some((n as Harmonic, d as Harmonic))
                    } else {
                        None
                    },
                    _ => None,
                }
            } else {
                None
            }
        },
    }
}

/// The partials that a dotted list names, where each piece names one.
pub open spec fn partials_of(text: Seq<char>) -> Option<Seq<(Harmonic, Harmonic)>> {
    let tokens = split(text, '.');
    if forall|k: int| 0 <= k < tokens.len() ==> partial_of(#[trigger] tokens[k]) is Some {
        Some(Seq::new(tokens.len(), |k: int| partial_of(tokens[k]).unwrap()))
    } else {
        None
    }
}

/// Reads one piece of a dotted list.
fn parse_partial(token: &Vec<char>) -> (r: Option<(Harmonic, Harmonic)>)
    ensures
        r == partial_of(token@),
{
    match parse_unsigned_chars(token, 0xffff) {
        Some(n) => Some((n as Harmonic, 1)),
        None => {
            let mut at: usize = 0;
            while at < token.len() && token[at] != '/'
                invariant
                    at <= token.len(),
                    index_from(token@, '/', 0) == index_from(token@, '/', at as int),
                decreases token.len() - at,
            {
                at += 1;
            }
            if at >= token.len() {
                return None;
            }
            let mut head: Vec<char> = Vec::new();
            let mut tail: Vec<char> = Vec::new();
            let mut i: usize = 0;
            while i < at
                invariant
                    i <= at < token.len(),
                    head@ == token@.take(i as int),
                decreases at - i,
            {
                head.push(token[i]);
                proof {
                    assert(token@.take(i as int + 1) =~= token@.take(i as int).push(token@[i as int]));
                }
                i += 1;
            }
            i = at + 1;
            proof {
                assert(token@.skip(at as int + 1).take(0) =~= Seq::<char>::empty());
            }
            while i < token.len()
                invariant
                    at < i <= token.len(),
                    tail@ == token@.skip(at as int + 1).take(i - at - 1),
                decreases token.len() - i,
            {
                tail.push(token[i]);
                proof {
                    let rest = token@.skip(at as int + 1);
                    assert(rest.take(i - at) =~= rest.take(i - at - 1).push(token@[i as int]));
                }
                i += 1;
            }
            proof {
                let rest = token@.skip(at as int + 1);
                assert(rest.take(rest.len() as int) =~= rest);
            }
            match (parse_unsigned_chars(&head, 0xffff), parse_unsigned_chars(&tail, 0xffff)) {
                (Some(n), Some(d)) => {
                    if d >= 1 {
                        Some((n as Harmonic, d as Harmonic))
                    } else {
                        None
                    }
                },
                _ => None,
            }
        },
    }
}

/// `r` is what the text reads as: a number from 1 to 65535 stands
/// for the limit of the primes up to it, with the number as its
/// label; zero is an error; anything else is a list with dots
/// between, and where each piece is a whole number or a ratio of
/// two, the limit names those partials; else it is an error.
pub open spec fn is_limit_of(text: Seq<char>, r: Result<PrimeLimit, ParseLimitError>) -> bool {
    match unsigned_value(text, 0xffff) {
        Some(n) => if n == 0 {
            r is Err
        } else {
            r matches Ok(limit) && limit.label@ == decimal_digits(n) && exists|
                primes: Seq<Harmonic>,
            |
                lists_primes_below(primes, n as int + 1) && limit.heading_texts() == partial_names(
                    whole(primes),
                )
        },
        None => match partials_of(text) {
            Some(partials) => r matches Ok(limit) && limit.names(partials),
            None => r is Err,
        },
    }
}

/// Reads a prime limit: a number stands for the primes up to it, a
/// list with dots between for the partials it names, each a whole
/// number or a ratio of two.
pub fn parse_prime_limit(text: &str) -> (r: Result<PrimeLimit, ParseLimitError>)
    ensures
        is_limit_of(text@, r),
{
    let chars = chars_of(text);
    match parse_unsigned_chars(&chars, 0xffff) {
        Some(n) => {
            if n == 0 {
                Err(ParseLimitError {  })
            } else {
                Ok(PrimeLimit::new(n as Harmonic))
            }
        },
        None => {
            let tokens = split_chars(&chars, '.');
            let mut partials: Vec<(Harmonic, Harmonic)> = Vec::new();
            let mut k: usize = 0;
            let ghost pieces = split(text@, '.');
            while k < tokens.len()
                invariant
                    k <= tokens.len(),
                    pieces == pieces_of(tokens@),
                    pieces == split(text@, '.'),
                    unsigned_value(text@, 0xffff) is None,
                    partials.len() == k,
                    forall|j: int|
                        0 <= j < k ==> partial_of(#[trigger] pieces[j]) == Some(partials[j]),
                decreases tokens.len() - k,
            {
                match parse_partial(&tokens[k]) {
                    Some(partial) => {
                        partials.push(partial);
                    },
                    None => {
                        proof {
                            assert(partial_of(pieces[k as int]) is None);
                        }
                        return Err(ParseLimitError {  });
                    },
                }
                k += 1;
            }
            proof {
                assert(partials_of(text@) == Some(partials@)) by {
                    assert(Seq::new(pieces.len(), |j: int| partial_of(pieces[j]).unwrap())
                        =~= partials@);
                }
            }
            Ok(PrimeLimit::of_ratios(partials))
        },
    }
}

impl std::str::FromStr for PrimeLimit {
    type Err = ParseLimitError;

    /// Reads a prime limit as `parse_prime_limit` does.
    fn from_str(src: &str) -> (r: Result<PrimeLimit, ParseLimitError>)
        ensures
            is_limit_of(src@, r),
    {
        parse_prime_limit(src)
    }
}

} // verus!
