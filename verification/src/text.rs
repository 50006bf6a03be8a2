//! Decimal numbers as text.
use vstd::prelude::*;
use vstd::string::StrSliceExecFns;

verus! {

/// `String::push` appends one character.
pub assume_specification[ String::push ](s: &mut String, c: char)
    ensures
        final(s)@ == old(s)@.push(c),
;

/// The characters of a string slice.
pub fn chars_of(s: &str) -> (v: Vec<char>)
    ensures
        v@ == s@,
{
    let n = s.unicode_len();
    let mut v: Vec<char> = Vec::new();
    let mut i: usize = 0;
    while i < n
        invariant
            i <= n,
            n == s@.len(),
            v@ == s@.take(i as int),
        decreases n - i,
    {
        v.push(s.get_char(i));
        proof {
            assert(s@.take(i as int + 1) =~= s@.take(i as int).push(s@[i as int]));
        }
        i += 1;
    }
    proof {
        assert(s@.take(n as int) =~= s@);
    }
    v
}

/// `c` is one of the ten digits.
pub open spec fn is_digit(c: char) -> bool {
    '0' <= c <= '9'
}

/// The digit that stands for `d`.
pub open spec fn digit_char(d: int) -> char {
    (d + 48) as char
}

/// The number that a sequence of digits stands for.
pub open spec fn decimal_value(s: Seq<char>) -> nat
    decreases s.len(),
{
    if s.len() == 0 {
        0
    } else {
        (decimal_value(s.drop_last()) * 10 + (s.last() as int - 48)) as nat
    }
}

/// Every character is a digit.
pub open spec fn all_digits(s: Seq<char>) -> bool {
    forall|i: int| 0 <= i < s.len() ==> is_digit(#[trigger] s[i])
}

/// The decimal digits of `n`, without leading zeros.
pub open spec fn decimal_digits(n: nat) -> Seq<char>
    decreases n,
{
    if n < 10 {
        seq![digit_char(n as int)]
    } else {
        decimal_digits(n / 10).push(digit_char((n % 10) as int))
    }
}

/// The digits of an unsigned number as text: an optional plus sign
/// and then at least one digit.  `None` for any other text.
pub open spec fn unsigned_digits(s: Seq<char>) -> Option<Seq<char>> {
    let body = if s.len() > 0 && s[0] == '+' {
        s.skip(1)
    } else {
        s
    };
    if body.len() > 0 && all_digits(body) {
        Some(body)
    } else {
        None
    }
}

/// The number that a text stands for, where it is an unsigned
/// number of at most `max`.
pub open spec fn unsigned_value(s: Seq<char>, max: nat) -> Option<nat> {
    match unsigned_digits(s) {
        Some(body) => if decimal_value(body) <= max {
            Some(decimal_value(body))
        } else {
            None
        },
        None => None,
    }
}

/// Reading the digits of a number gives the number back.
pub proof fn lemma_decimal_round_trip(n: nat)
    ensures
        decimal_digits(n).len() > 0,
        all_digits(decimal_digits(n)),
        decimal_value(decimal_digits(n)) == n,
        decimal_digits(n)[0] != '+',
    decreases n,
{
    if n < 10 {
        let s = decimal_digits(n);
        assert(s.drop_last() =~= Seq::<char>::empty());
        assert(decimal_value(s.drop_last()) == 0);
    } else {
        lemma_decimal_round_trip(n / 10);
        let s = decimal_digits(n);
        assert(s.drop_last() =~= decimal_digits(n / 10));
    }
}

/// A number is read from its digits as itself.
pub proof fn lemma_unsigned_value_of_digits(n: nat, max: nat)
    requires
        n <= max,
    ensures
        unsigned_value(decimal_digits(n), max) == Some(n),
{
    lemma_decimal_round_trip(n);
}

proof fn lemma_decimal_value_grows(s: Seq<char>, k: int)
    requires
        all_digits(s),
        0 <= k <= s.len(),
    ensures
        decimal_value(s.take(k)) <= decimal_value(s),
    decreases s.len() - k,
{
    if k < s.len() {
        lemma_decimal_value_grows(s, k + 1);
        let t = s.take(k + 1);
        assert(t.drop_last() =~= s.take(k));
        assert(is_digit(s[k]));
    } else {
        assert(s.take(k) =~= s);
    }
}

/// Reads an unsigned decimal number of at most `max`, as Rust's
/// integer parsing does: an optional plus sign, then digits.
pub fn parse_unsigned(text: &str, max: u128) -> (r: Option<u128>)
    ensures
        r matches Some(v) ==> unsigned_value(text@, max as nat) == Some(v as nat),
        r is None ==> unsigned_value(text@, max as nat) is None,
{
    let chars = chars_of(text);
    parse_unsigned_chars(&chars, max)
}

/// Reads an unsigned decimal number of at most `max` from characters.
pub fn parse_unsigned_chars(chars: &Vec<char>, max: u128) -> (r: Option<u128>)
    ensures
        r matches Some(v) ==> unsigned_value(chars@, max as nat) == Some(v as nat),
        r is None ==> unsigned_value(chars@, max as nat) is None,
{
    let start: usize = if chars.len() > 0 && chars[0] == '+' {
        1
    } else {
        0
    };
    let ghost body = if start == 1 {
        chars@.skip(1)
    } else {
        chars@
    };
    if start == chars.len() {
        return None;
    }
    proof {
        assert(chars@.skip(0) =~= chars@);
        assert(body.take(0) =~= Seq::<char>::empty());
    }
    let mut value: u128 = 0;
    let mut i: usize = start;
    let mut fits = true;
    while i < chars.len()
        invariant
            start <= i <= chars.len(),
            body == chars@.skip(start as int),
            body == if chars@.len() > 0 && chars@[0] == '+' {
                chars@.skip(1)
            } else {
                chars@
            },
            all_digits(body.take(i - start)),
            fits ==> value == decimal_value(body.take(i - start)) && value <= max,
            !fits ==> exists|k: int| 0 <= k <= i - start && decimal_value(body.take(k)) > max,
        decreases chars.len() - i,
    {
        let c = chars[i];
        if !(c >= '0' && c <= '9') {
            proof {
                assert(body[i - start] == c);
                assert(!all_digits(body));
            }
            return None;
        }
        proof {
            let t = body.take(i - start + 1);
            assert(t.drop_last() =~= body.take(i - start));
            assert(t.last() == c);
            assert forall|k: int| 0 <= k < t.len() implies is_digit(#[trigger] t[k]) by {
                if k < i - start {
                    assert(body.take(i - start)[k] == t[k]);
                }
            }
        }
        if fits {
            let digit: u128 = (c as u32 - 48) as u128;
            if digit > max {
                fits = false;
            } else if value > (max - digit) / 10 {
                fits = false;
                proof {
                    assert(value * 10 + digit > max) by (nonlinear_arith)
                        requires
                            value > (max - digit) / 10,
                            digit <= max,
                    ;
                }
            } else {
                proof {
                    assert(value * 10 + digit <= max) by (nonlinear_arith)
                        requires
                            value <= (max - digit) / 10,
                            digit <= max,
                    ;
                }
                value = value * 10 + digit;
            }
        }
        i += 1;
    }
    proof {
        assert(body.take(body.len() as int) =~= body);
        if !fits {
            let k = choose|k: int| 0 <= k <= i - start && decimal_value(body.take(k)) > max;
            lemma_decimal_value_grows(body, k);
        }
    }
    if fits {
        Some(value)
    } else {
        None
    }
}

/// The decimal digits of `n` as text.
pub fn decimal(n: u128) -> (s: String)
    ensures
        s@ == decimal_digits(n as nat),
{
    let mut reversed: Vec<char> = Vec::new();
    let mut rest: u128 = n;
    // the digits after the first, last digit first
    while rest >= 10
        invariant
            decimal_digits(n as nat) == decimal_digits(rest as nat) + reversed@.reverse(),
        decreases rest,
    {
        let d: u8 = (rest % 10) as u8;
        let ghost before = reversed@;
        reversed.push((d + 48) as char);
        proof {
            let c = digit_char((rest % 10) as int);
            assert(reversed@ == before.push(c));
            assert(reversed@.reverse() =~= seq![c] + before.reverse());
            assert(decimal_digits(rest as nat) == decimal_digits((rest / 10) as nat).push(c));
            assert(decimal_digits((rest / 10) as nat).push(c) + before.reverse()
                =~= decimal_digits((rest / 10) as nat) + (seq![c] + before.reverse()));
        }
        rest = rest / 10;
    }
    let mut s = String::new();
    s.push((rest as u8 + 48) as char);
    let mut i: usize = reversed.len();
    proof {
        assert(reversed@.reverse().take(0) =~= Seq::<char>::empty());
    }
    while i > 0
        invariant
            i <= reversed.len(),
            s@ == decimal_digits(rest as nat) + reversed@.reverse().take(reversed.len() - i),
            rest < 10,
        decreases i,
    {
        i -= 1;
        s.push(reversed[i]);
        proof {
            let r = reversed@.reverse();
            let k = reversed.len() - i - 1;
            assert(r[k] == reversed[i as int]);
            assert(r.take(k + 1) =~= r.take(k).push(r[k]));
            assert((decimal_digits(rest as nat) + r.take(k)).push(r[k]) =~= decimal_digits(
                rest as nat,
            ) + r.take(k + 1));
        }
    }
    proof {
        let r = reversed@.reverse();
        assert(r.take(r.len() as int) =~= r);
    }
    s
}

} // verus!
