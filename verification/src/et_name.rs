//! Names of equal temperament mappings: the number of steps to the
//! first partial, and a wart for each partial that is not mapped
//! to its nearest number of steps.
//!
//! Which number of steps is nearest to a partial, and on which side
//! of it, depends on the sizes of the partials.  The functions here
//! take both as given, for each partial of the limit.
use crate::limit::{index_from, PrimeLimit};
use crate::text::{chars_of, decimal, decimal_digits, parse_unsigned_chars, unsigned_value};
use crate::warts::warts_of;
use crate::{ETMap, Exponent};
use vstd::prelude::*;
use vstd::string::StringExecFns;

verus! {

/// The decimal digits of a number with a minus sign where it is
/// negative.
pub open spec fn signed_digits(x: int) -> Seq<char> {
    if x < 0 {
        seq!['-'] + decimal_digits((-x) as nat)
    } else {
        decimal_digits(x as nat)
    }
}

/// How many warts tell `et` from the nearest mapping `nearest` of a
/// partial: two for each step between them, less one where `et`
/// lies on the side of the partial on which the next-best mapping
/// lies.
pub open spec fn wart_count(et: int, nearest: int, nearest_sharp: bool) -> nat {
    if et == nearest {
        0
    } else {
        let distance = if et > nearest {
            et - nearest
        } else {
            nearest - et
        };
        if (et > nearest) != nearest_sharp {
            (2 * distance - 1) as nat
        } else {
            (2 * distance) as nat
        }
    }
}

/// `n` times the character `c`.
pub open spec fn repeated(c: char, n: nat) -> Seq<char> {
    Seq::new(n, |i: int| c)
}

/// The warts of the first `n` partials, one after the other.
pub open spec fn wart_text(
    warts: Seq<char>,
    et: Seq<i32>,
    nearest: Seq<i32>,
    nearest_sharp: Seq<bool>,
    n: nat,
) -> Seq<char>
    decreases n,
{
    if n == 0 {
        Seq::empty()
    } else {
        wart_text(warts, et, nearest, nearest_sharp, (n - 1) as nat) + repeated(
            warts[n - 1],
            wart_count(et[n - 1] as int, nearest[n - 1] as int, nearest_sharp[n - 1]),
        )
    }
}

/// The smaller of two lengths.
pub open spec fn shorter(a: nat, b: nat) -> nat {
    if a <= b {
        a
    } else {
        b
    }
}

/// The name of an equal temperament mapping in a limit with the
/// given headings.
pub open spec fn name_text(
    headings: Seq<Seq<char>>,
    et: Seq<i32>,
    nearest: Seq<i32>,
    nearest_sharp: Seq<bool>,
) -> Seq<char> {
    let warts = warts_of(headings);
    let prefix = if headings[0] == seq!['2'] {
        Seq::<char>::empty()
    } else {
        seq![warts[0]]
    };
    let number = signed_digits(et[0] as int);
    if nearest == et {
        prefix + number + seq!['p']
    } else {
        prefix + number + wart_text(
            warts,
            et,
            nearest,
            nearest_sharp,
            shorter(et.len(), nearest.len()),
        )
    }
}

/// The digits of a number, with its sign.
pub fn signed_decimal(x: i32) -> (s: String)
    ensures
        s@ == signed_digits(x as int),
{
    if x < 0 {
        let mut s = String::new();
        s.push('-');
        let digits = decimal((-(x as i64)) as u128);
        s.append(digits.as_str());
        proof {
            assert(Seq::<char>::empty().push('-') =~= seq!['-']);
        }
        s
    } else {
        decimal(x as u128)
    }
}

/// Whether two mappings are the same.
fn same_mapping(a: &[Exponent], b: &[Exponent]) -> (same: bool)
    ensures
        same == (a@ == b@),
{
    if a.len() != b.len() {
        return false;
    }
    let mut i: usize = 0;
    while i < a.len()
        invariant
            i <= a.len(),
            a.len() == b.len(),
            forall|k: int| 0 <= k < i ==> a[k] == b[k],
        decreases a.len() - i,
    {
        if a[i] != b[i] {
            return false;
        }
        i += 1;
    }
    proof {
        assert(a@ =~= b@);
    }
    true
}

/// Standard name, based on Herman Miller's suggestion.  The basic
/// name is the number of steps to the first partial, after the wart
/// of that partial where it is not the octave.  For the mapping with
/// the nearest number of steps to every partial a `p` is appended.
/// Otherwise the wart of each partial that is mapped otherwise is
/// appended, as often as `wart_count` says.
///
/// `prime_et` holds the nearest number of steps to each partial for
/// `et[0]` steps to the first, and `nearest_sharp` whether that
/// number lies above the partial.
pub fn warted_et_name(
    plimit: &PrimeLimit,
    et: &[Exponent],
    prime_et: &[Exponent],
    nearest_sharp: &[bool],
) -> (name: String)
    requires
        et.len() > 0,
        plimit.headings.len() > 0,
        prime_et.len() == plimit.headings.len(),
        nearest_sharp.len() == plimit.headings.len(),
    ensures
        name@ == name_text(plimit.heading_texts(), et@, prime_et@, nearest_sharp@),
{
    let warts = plimit.warts();
    let mut name = String::new();
    proof {
        reveal_strlit("2");
        assert("2"@ =~= seq!['2']);
        assert(plimit.heading_texts()[0] == plimit.headings[0]@);
    }
    let two = String::from_str("2");
    if plimit.headings[0] != two {
        name.push(warts[0]);
    }
    let number = signed_decimal(et[0]);
    name.append(number.as_str());
    let ghost stem = name@;
    proof {
        let prefix = if plimit.heading_texts()[0] == seq!['2'] {
            Seq::<char>::empty()
        } else {
            seq![warts@[0]]
        };
        assert(stem =~= prefix + signed_digits(et[0] as int));
    }
    if same_mapping(prime_et, et) {
        name.push('p');
        proof {
            assert(name@ =~= stem + seq!['p']);
        }
        return name;
    }
    let n: usize = if et.len() <= prime_et.len() {
        et.len()
    } else {
        prime_et.len()
    };
    let mut i: usize = 0;
    proof {
        assert(stem + Seq::<char>::empty() =~= stem);
    }
    while i < n
        invariant
            i <= n,
            n <= et.len(),
            n <= prime_et.len(),
            prime_et.len() == warts.len(),
            prime_et.len() == nearest_sharp.len(),
            name@ == stem + wart_text(warts@, et@, prime_et@, nearest_sharp@, i as nat),
        decreases n - i,
    {
        let et_i: i32 = et[i];
        let pet_i: i32 = prime_et[i];
        let wart = warts[i];
        let ghost done = wart_text(warts@, et@, prime_et@, nearest_sharp@, i as nat);
        let ghost count = wart_count(et_i as int, pet_i as int, nearest_sharp[i as int]);
        let mut n_warts: u64 = 0;
        if et_i != pet_i {
            let sharp_of_prime = et_i > pet_i;
            let distance: i64 = if sharp_of_prime {
                et_i as i64 - pet_i as i64
            } else {
                pet_i as i64 - et_i as i64
            };
            n_warts = 2 * (distance as u64);
            if sharp_of_prime != nearest_sharp[i] {
                // This is on the next-best-approximation side
                n_warts -= 1;
            }
        }
        let mut k: u64 = 0;
        proof {
            assert(repeated(wart, 0) =~= Seq::<char>::empty());
            assert(stem + done + Seq::<char>::empty() =~= stem + done);
        }
        while k < n_warts
            invariant
                k <= n_warts,
                name@ == stem + done + repeated(wart, k as nat),
            decreases n_warts - k,
        {
            name.push(wart);
            proof {
                assert(repeated(wart, (k + 1) as nat) =~= repeated(wart, k as nat).push(wart));
                assert((stem + done + repeated(wart, k as nat)).push(wart) =~= stem + done
                    + repeated(wart, (k + 1) as nat));
            }
            k += 1;
        }
        proof {
            assert(stem + done + repeated(wart, count) =~= stem + (done + repeated(wart, count)));
        }
        i += 1;
    }
    name
}

/// What the name of an equal temperament mapping says.
pub struct ParsedName {
    /// The partial that the steps divide, by its place in the
    /// limit; `None` for an octave of 1200 cents.
    pub octave: Option<usize>,
    /// The number of steps.
    pub n_notes: usize,
    /// How often the wart of each partial stands in the name.
    pub wart_counts: Vec<usize>,
}

/// `s` without the warts at its end.
pub open spec fn without_warts(s: Seq<char>, warts: Seq<char>) -> Seq<char>
    decreases s.len(),
{
    if s.len() > 0 && warts.contains(s.last()) {
        without_warts(s.drop_last(), warts)
    } else {
        s
    }
}

/// How often `c` stands in `s`.
pub open spec fn count_of(s: Seq<char>, c: char) -> nat
    decreases s.len(),
{
    if s.len() == 0 {
        0
    } else {
        count_of(s.drop_last(), c) + if s.last() == c {
            1nat
        } else {
            0nat
        }
    }
}

/// The name without the wart of the first partial at its front and
/// without the `p` at its end.
pub open spec fn name_body(warts: Seq<char>, name: Seq<char>) -> Seq<char> {
    let rest = if warts.contains(name[0]) {
        name.skip(1)
    } else {
        name
    };
    if rest.len() > 0 && rest.last() == 'p' {
        rest.drop_last()
    } else {
        rest
    }
}

/// The partial that the steps of a name divide: the one whose wart
/// stands in front; the first one for a plain number; and for any
/// other name `None`, which stands for an octave of 1200 cents.
pub open spec fn name_octave(warts: Seq<char>, name: Seq<char>) -> Option<int> {
    if warts.contains(name[0]) {
        Some(index_from(warts, name[0], 0))
    } else if unsigned_value(name, usize::MAX as nat) is Some {
        Some(0)
    } else {
        None
    }
}

/// A name is well formed where it is not empty, where a plain
/// number has a first partial to divide, and where a number of
/// steps stands before the warts.
pub open spec fn name_is_well_formed(warts: Seq<char>, name: Seq<char>) -> bool {
    &&& name.len() > 0
    &&& (name_octave(warts, name) == Some(0int) ==> warts.len() > 0)
    &&& unsigned_value(without_warts(name_body(warts, name), warts), usize::MAX as nat) is Some
}

/// The number of steps that a well formed name gives.
pub open spec fn name_steps(warts: Seq<char>, name: Seq<char>) -> nat {
    unsigned_value(without_warts(name_body(warts, name), warts), usize::MAX as nat).unwrap()
}

/// The warts at the end of a name.
pub open spec fn name_warts(warts: Seq<char>, name: Seq<char>) -> Seq<char> {
    let body = name_body(warts, name);
    body.skip(without_warts(body, warts).len() as int)
}

/// The place of `c` among the characters, where it stands there.
fn position(chars: &Vec<char>, c: char) -> (r: Option<usize>)
    ensures
        r is Some <==> chars@.contains(c),
        r matches Some(i) ==> i == index_from(chars@, c, 0) && i < chars.len(),
{
    let mut i: usize = 0;
    while i < chars.len()
        invariant
            i <= chars.len(),
            forall|k: int| 0 <= k < i ==> chars[k] != c,
            index_from(chars@, c, 0) == index_from(chars@, c, i as int),
        decreases chars.len() - i,
    {
        if chars[i] == c {
            return Some(i);
        }
        i += 1;
    }
    None
}

/// Reads the name of an equal temperament mapping in a limit: the
/// partial that the steps divide, the number of steps, and how
/// often the wart of each partial stands at the end.
pub fn parse_et_name(plimit: &PrimeLimit, name: &str) -> (r: Option<ParsedName>)
    ensures
        r is Some <==> name_is_well_formed(warts_of(plimit.heading_texts()), name@),
        r matches Some(parsed) ==> {
            let warts = warts_of(plimit.heading_texts());
            &&& match parsed.octave {
                Some(i) => name_octave(warts, name@) == Some(i as int) && i < warts.len(),
                None => name_octave(warts, name@) is None,
            }
            &&& parsed.n_notes == name_steps(warts, name@)
            &&& parsed.wart_counts.len() == warts.len()
            &&& forall|i: int|
                0 <= i < warts.len() ==> #[trigger] parsed.wart_counts[i] == count_of(
                    name_warts(warts, name@),
                    warts[i],
                )
        },
{
    let chars = chars_of(name);
    let warts = plimit.warts();
    if chars.len() == 0 {
        return None;
    }
    let prefix = position(&warts, chars[0]);
    let start: usize = if prefix.is_some() {
        1
    } else {
        0
    };
    let octave: Option<usize> = match prefix {
        Some(i) => Some(i),
        None => {
            match parse_unsigned_chars(&chars, usize::MAX as u128) {
                Some(_) => {
                    if warts.len() == 0 {
                        return None;
                    }
                    Some(0)
                },
                None => None,
            }
        },
    };
    let mut end: usize = chars.len();
    if end > start && chars[end - 1] == 'p' {
        end -= 1;
    }
    let ghost body = name_body(warts@, name@);
    proof {
        assert(body =~= chars@.subrange(start as int, end as int));
        assert(body.take(end - start) =~= body);
    }
    let mut boundary: usize = end;
    while boundary > start && position(&warts, chars[boundary - 1]).is_some()
        invariant
            start <= boundary <= end <= chars.len(),
            body == chars@.subrange(start as int, end as int),
            without_warts(body, warts@) == without_warts(body.take(boundary - start), warts@),
        decreases boundary,
    {
        proof {
            let cut = body.take(boundary - start);
            assert(cut.last() == chars[boundary - 1]);
            assert(cut.drop_last() =~= body.take(boundary - start - 1));
        }
        boundary -= 1;
    }
    proof {
        let cut = body.take(boundary - start);
        if boundary > start {
            assert(cut.last() == chars[boundary - 1]);
        }
        assert(without_warts(body, warts@) == cut);
    }
    let mut digits: Vec<char> = Vec::new();
    let mut i: usize = start;
    while i < boundary
        invariant
            start <= i <= boundary <= end <= chars.len(),
            body == chars@.subrange(start as int, end as int),
            digits@ == body.take(i - start),
        decreases boundary - i,
    {
        digits.push(chars[i]);
        proof {
            assert(body.take(i - start + 1) =~= body.take(i - start).push(chars[i as int]));
        }
        i += 1;
    }
    let n_notes: usize = match parse_unsigned_chars(&digits, usize::MAX as u128) {
        Some(n) => n as usize,
        None => {
            return None;
        },
    };
    let ghost suffix = name_warts(warts@, name@);
    proof {
        assert(suffix =~= chars@.subrange(boundary as int, end as int));
    }
    let mut wart_counts: Vec<usize> = Vec::new();
    let mut w: usize = 0;
    while w < warts.len()
        invariant
            w <= warts.len(),
            boundary <= end <= chars.len(),
            suffix == chars@.subrange(boundary as int, end as int),
            wart_counts.len() == w,
            forall|k: int| 0 <= k < w ==> #[trigger] wart_counts[k] == count_of(suffix, warts[k]),
        decreases warts.len() - w,
    {
        let wart = warts[w];
        let mut count: usize = 0;
        let mut t: usize = boundary;
        while t < end
            invariant
                boundary <= t <= end <= chars.len(),
                suffix == chars@.subrange(boundary as int, end as int),
                count == count_of(suffix.take(t - boundary), wart),
                count <= t - boundary,
            decreases end - t,
        {
            proof {
                let next = suffix.take(t - boundary + 1);
                assert(next.drop_last() =~= suffix.take(t - boundary));
                assert(next.last() == chars[t as int]);
            }
            if chars[t] == wart {
                count += 1;
            }
            t += 1;
        }
        proof {
            assert(suffix.take(end - boundary) =~= suffix);
        }
        wart_counts.push(count);
        w += 1;
    }
    Some(ParsedName { octave, n_notes, wart_counts })
}

/// The number of steps to a partial that a number of warts makes
/// of the nearest one: an even number of warts moves it by half as
/// many steps to the side on which the nearest number lies, an odd
/// one by half of one more to the other side.
pub open spec fn warted_steps(nearest: int, nearest_sharp: bool, count: nat) -> int {
    if count == 0 {
        nearest
    } else {
        let approx_sharp = if count % 2 == 0 {
            nearest_sharp
        } else {
            !nearest_sharp
        };
        let correction = if count % 2 == 0 {
            count / 2
        } else {
            (count + 1) / 2
        };
        if approx_sharp {
            nearest + correction
        } else {
            nearest - correction
        }
    }
}

/// The mapping that a name stands for.  `nearest` holds the nearest
/// number of steps to each partial for the steps and the octave of
/// the name, as `parse_et_name` reads them, and `nearest_sharp`
/// whether that number lies above the partial.  `None` for a name
/// that is not well formed, and where a number of steps leaves the
/// machine's range.
pub fn et_from_name(
    plimit: &PrimeLimit,
    name: &str,
    nearest: &[Exponent],
    nearest_sharp: &[bool],
) -> (r: Option<ETMap>)
    requires
        nearest.len() == plimit.headings.len(),
        nearest_sharp.len() == plimit.headings.len(),
    ensures
        r is Some <==> {
            let warts = warts_of(plimit.heading_texts());
            &&& name_is_well_formed(warts, name@)
            &&& forall|i: int|
                0 <= i < warts.len() ==> i32::MIN <= warted_steps(
                    nearest[i] as int,
                    nearest_sharp[i],
                    count_of(name_warts(warts, name@), #[trigger] warts[i]),
                ) <= i32::MAX
        },
        r matches Some(et) ==> {
            let warts = warts_of(plimit.heading_texts());
            &&& et.len() == warts.len()
            &&& forall|i: int|
                0 <= i < warts.len() ==> #[trigger] et[i] == warted_steps(
                    nearest[i] as int,
                    nearest_sharp[i],
                    count_of(name_warts(warts, name@), warts[i]),
                )
        },
{
    let parsed = parse_et_name(plimit, name)?;
    let ghost warts = warts_of(plimit.heading_texts());
    let ghost suffix = name_warts(warts, name@);
    let mut et: ETMap = Vec::new();
    let mut i: usize = 0;
    while i < nearest.len()
        invariant
            i <= nearest.len(),
            nearest.len() == nearest_sharp.len(),
            nearest.len() == warts.len(),
            warts == warts_of(plimit.heading_texts()),
            suffix == name_warts(warts, name@),
            name_is_well_formed(warts, name@),
            parsed.wart_counts.len() == warts.len(),
            forall|k: int|
                0 <= k < i ==> i32::MIN <= warted_steps(
                    nearest[k] as int,
                    nearest_sharp[k],
                    count_of(suffix, #[trigger] warts[k]),
                ) <= i32::MAX,
            forall|k: int|
                0 <= k < warts.len() ==> #[trigger] parsed.wart_counts[k] == count_of(
                    suffix,
                    warts[k],
                ),
            et.len() == i,
            forall|k: int|
                0 <= k < i ==> #[trigger] et[k] == warted_steps(
                    nearest[k] as int,
                    nearest_sharp[k],
                    count_of(suffix, warts[k]),
                ),
        decreases nearest.len() - i,
    {
        let count: usize = parsed.wart_counts[i];
        let near: i64 = nearest[i] as i64;
        let steps: i64 = if count == 0 {
            near
        } else {
            let even = count % 2 == 0;
            let approx_sharp = if even {
                nearest_sharp[i]
            } else {
                !nearest_sharp[i]
            };
            let half: u64 = if even {
                (count / 2) as u64
            } else {
                ((count - 1) / 2) as u64 + 1
            };
            if half > 0x1_0000_0000 {
                proof {
                    assert(!(i32::MIN <= warted_steps(
                        nearest[i as int] as int,
                        nearest_sharp[i as int],
                        count_of(suffix, warts[i as int]),
                    ) <= i32::MAX));
                }
                return None;
            }
            if approx_sharp {
                near + half as i64
            } else {
                near - half as i64
            }
        };
        if steps < i32::MIN as i64 || steps > i32::MAX as i64 {
            proof {
                assert(steps == warted_steps(
                    nearest[i as int] as int,
                    nearest_sharp[i as int],
                    count_of(suffix, warts[i as int]),
                ));
            }
            return None;
        }
        et.push(steps as i32);
        i += 1;
    }
    Some(et)
}

/// A character that stands between the names of a mapping: a
/// space, an ampersand or a plus sign.
pub open spec fn is_joiner(c: char) -> bool {
    c == ' ' || c == '&' || c == '+'
}

/// The name that is begun at the end of `s`: the characters behind
/// the last joiner.
pub open spec fn open_name(s: Seq<char>) -> Seq<char>
    decreases s.len(),
{
    if s.len() == 0 || is_joiner(s.last()) {
        Seq::empty()
    } else {
        open_name(s.drop_last()).push(s.last())
    }
}

/// The names in `s` that a joiner ends.
pub open spec fn closed_names(s: Seq<char>) -> Seq<Seq<char>>
    decreases s.len(),
{
    if s.len() == 0 {
        Seq::empty()
    } else {
        let before = closed_names(s.drop_last());
        let begun = open_name(s.drop_last());
        if is_joiner(s.last()) && begun.len() > 0 {
            before.push(begun)
        } else {
            before
        }
    }
}

/// The names in a text like `12 & 19 & 31`: what stands between
/// the joiners, empty pieces left out.
pub open spec fn names_in(s: Seq<char>) -> Seq<Seq<char>> {
    if open_name(s).len() > 0 {
        closed_names(s).push(open_name(s))
    } else {
        closed_names(s)
    }
}

/// The names of the equal temperaments in the name of a mapping:
/// they stand with spaces, ampersands or plus signs between them.
pub fn mapping_names(text: &str) -> (names: Vec<String>)
    ensures
        Seq::new(names.len() as nat, |k: int| names[k]@) == names_in(text@),
{
    let chars = chars_of(text);
    let mut names: Vec<String> = Vec::new();
    let mut current = String::new();
    let mut any = false;
    let mut i: usize = 0;
    proof {
        assert(chars@.take(0) =~= Seq::<char>::empty());
        assert(Seq::new(names.len() as nat, |k: int| names[k]@) =~= Seq::<Seq<char>>::empty());
    }
    while i < chars.len()
        invariant
            i <= chars.len(),
            chars@ == text@,
            current@ == open_name(chars@.take(i as int)),
            any == (current@.len() > 0),
            Seq::new(names.len() as nat, |k: int| names[k]@) == closed_names(chars@.take(i as int)),
        decreases chars.len() - i,
    {
        let c = chars[i];
        let ghost done = Seq::new(names.len() as nat, |k: int| names[k]@);
        proof {
            let next = chars@.take(i as int + 1);
            assert(next.drop_last() =~= chars@.take(i as int));
            assert(next.last() == c);
        }
        if c == ' ' || c == '&' || c == '+' {
            if any {
                let ghost name = current@;
                names.push(current);
                proof {
                    assert(Seq::new(names.len() as nat, |k: int| names[k]@) =~= done.push(name));
                }
                current = String::new();
                any = false;
            }
        } else {
            current.push(c);
            any = true;
        }
        i += 1;
    }
    proof {
        assert(chars@.take(chars.len() as int) =~= chars@);
    }
    if any {
        let ghost done = Seq::new(names.len() as nat, |k: int| names[k]@);
        let ghost name = current@;
        names.push(current);
        proof {
            assert(Seq::new(names.len() as nat, |k: int| names[k]@) =~= done.push(name));
        }
    }
    names
}

} // verus!
