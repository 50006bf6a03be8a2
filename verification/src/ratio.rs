//! Vectors of prime exponents as frequency ratios.
use crate::et_name::{signed_decimal, signed_digits};
use crate::limit::{join, joined, partial_names, texts, whole, PrimeLimit};
use crate::primes::lists_primes_below;
use crate::text::{
    chars_of, decimal, decimal_digits, lemma_unsigned_value_of_digits, parse_unsigned,
    parse_unsigned_chars, unsigned_value,
};
use crate::{ETMap, Exponent, Harmonic, Mapping};
use vstd::arithmetic::power::{lemma0_pow, lemma1_pow, lemma_pow_increases, lemma_pow_positive, pow};
use vstd::prelude::*;
use vstd::string::StringExecFns;

verus! {

/// Integers in ratios can get bigger than partials.
pub type Length = u128;

/// A frequency ratio: numerator and denominator.
pub type Ratio = (Length, Length);

/// The text of a ratio: numerator, a colon, denominator.
pub open spec fn ratio_text(ratio: (nat, nat)) -> Seq<char> {
    decimal_digits(ratio.0).push(':') + decimal_digits(ratio.1)
}

/// Writes a ratio as `numerator:denominator`.
pub fn stringify(ratio: Ratio) -> (s: String)
    ensures
        s@ == ratio_text((ratio.0 as nat, ratio.1 as nat)),
{
    let (numerator, denominator) = ratio;
    let mut s = decimal(numerator);
    s.push(':');
    let tail = decimal(denominator);
    s.append(tail.as_str());
    s
}

/// The partials of a limit as numbers, where every heading is one.
pub open spec fn partials_of_limit(headings: Seq<Seq<char>>) -> Option<Seq<nat>> {
    if forall|k: int|
        0 <= k < headings.len() ==> unsigned_value(#[trigger] headings[k], u128::MAX as nat) is Some {
        Some(
            Seq::new(
                headings.len(),
                |k: int| unsigned_value(headings[k], u128::MAX as nat).unwrap(),
            ),
        )
    } else {
        None
    }
}

/// Reverse engineers a prime limit into a list of integers.
/// `None` where a heading is no number.
pub fn integer_partials(limit: &PrimeLimit) -> (r: Option<Vec<Length>>)
    ensures
        match partials_of_limit(limit.heading_texts()) {
            Some(partials) => r matches Some(v) && v@.map_values(|p: Length| p as nat) == partials,
            None => r is None,
        },
{
    let mut partials: Vec<Length> = Vec::new();
    let ghost headings = limit.heading_texts();
    let mut k: usize = 0;
    while k < limit.headings.len()
        invariant
            k <= limit.headings.len(),
            headings == limit.heading_texts(),
            partials.len() == k,
            forall|j: int|
                0 <= j < k ==> unsigned_value(#[trigger] headings[j], u128::MAX as nat) == Some(
                    partials[j] as nat,
                ),
        decreases limit.headings.len() - k,
    {
        proof {
            assert(headings[k as int] == limit.headings[k as int]@);
        }
        match parse_unsigned(limit.headings[k].as_str(), u128::MAX) {
            Some(p) => {
                partials.push(p);
            },
            None => {
                return None;
            },
        }
        k += 1;
    }
    proof {
        assert(partials@.map_values(|p: Length| p as nat) =~= partials_of_limit(
            headings,
        ).unwrap());
    }
    Some(partials)
}

/// `base` to the power `exp`, or `None` where that leaves the
/// machine's range.
pub fn checked_pow(base: Length, exp: u32) -> (r: Option<Length>)
    ensures
        pow(base as int, exp as nat) >= 0,
        r == if pow(base as int, exp as nat) <= u128::MAX {
            Some(pow(base as int, exp as nat) as Length)
        } else {
            None
        },
{
    if exp == 0 {
        proof {
            assert(pow(base as int, 0) == 1) by {
                reveal(pow);
            }
        }
        return Some(1);
    }
    if base <= 1 {
        proof {
            if base == 0 {
                lemma0_pow(exp as nat);
            } else {
                lemma1_pow(exp as nat);
            }
        }
        return Some(base);
    }
    let mut acc: Length = 1;
    let mut k: u32 = 0;
    proof {
        assert(pow(base as int, 0) == 1) by {
            reveal(pow);
        }
    }
    while k < exp
        invariant
            k <= exp,
            base >= 2,
            acc == pow(base as int, k as nat),
        decreases exp - k,
    {
        proof {
            assert(pow(base as int, (k + 1) as nat) == base * pow(base as int, k as nat)) by {
                reveal(pow);
            }
        }
        if acc > u128::MAX / base {
            proof {
                assert(base * acc > u128::MAX) by (nonlinear_arith)
                    requires
                        acc > (u128::MAX as int) / (base as int),
                        base >= 2,
                ;
                lemma_pow_increases(base as nat, (k + 1) as nat, exp as nat);
            }
            return None;
        }
        proof {
            assert(base * acc <= u128::MAX) by (nonlinear_arith)
                requires
                    acc <= (u128::MAX as int) / (base as int),
                    base >= 2,
            ;
        }
        acc = base * acc;
        k += 1;
    }
    Some(acc)
}

/// The product of `acc` and `factor`, where both are there and the
/// product is in the machine's range.
pub open spec fn times(acc: Option<nat>, factor: int) -> Option<nat> {
    match acc {
        Some(a) => if 0 <= factor <= u128::MAX && a * factor <= u128::MAX {
            Some((a * factor) as nat)
        } else {
            None
        },
        None => None,
    }
}

/// The product of the powers of the first `n` partials whose
/// exponents have the sign `sign`, taken in order.  `None` where a
/// power or a product on the way leaves the machine's range.
pub open spec fn power_product(partials: Seq<nat>, exponents: Seq<int>, sign: int, n: nat) -> Option<
    nat,
>
    decreases n,
{
    if n == 0 {
        Some(1)
    } else {
        let before = power_product(partials, exponents, sign, (n - 1) as nat);
        let e = sign * exponents[n - 1];
        if e > 0 {
            times(before, pow(partials[n - 1] as int, e as nat))
        } else {
            before
        }
    }
}

/// The ratio that a vector of exponents stands for: the product of
/// the powers with positive exponents over the product of those
/// with negative ones.
pub open spec fn ratio_of(partials: Seq<nat>, exponents: Seq<int>) -> Option<(nat, nat)> {
    let n = if partials.len() <= exponents.len() {
        partials.len()
    } else {
        exponents.len()
    };
    match (power_product(partials, exponents, 1, n), power_product(partials, exponents, -1, n)) {
        (Some(numerator), Some(denominator)) => Some((numerator, denominator)),
        _ => None,
    }
}

/// The vector as integers.
pub open spec fn exponents(v: Seq<i32>) -> Seq<int> {
    v.map_values(|e: i32| e as int)
}

/// Turns the ratio-space vector into a ratio.  `None` where a
/// heading of the limit is no number, and where the ratio leaves
/// the machine's range.
pub fn get_ratio(limit: &PrimeLimit, rsvec: &ETMap) -> (r: Option<Ratio>)
    ensures
        match partials_of_limit(limit.heading_texts()) {
            Some(partials) => match ratio_of(partials, exponents(rsvec@)) {
                Some(ratio) => r matches Some(found) && found.0 == ratio.0 && found.1 == ratio.1,
                None => r is None,
            },
            None => r is None,
        },
{
    let harmonics = integer_partials(limit)?;
    let ghost partials = partials_of_limit(limit.heading_texts()).unwrap();
    let ghost exps = exponents(rsvec@);
    let n: usize = if harmonics.len() <= rsvec.len() {
        harmonics.len()
    } else {
        rsvec.len()
    };
    let mut numerator: Length = 1;
    let mut denominator: Length = 1;
    let mut i: usize = 0;
    while i < n
        invariant
            i <= n,
            n <= harmonics.len(),
            n <= rsvec.len(),
            n == if partials.len() <= exps.len() {
                partials.len()
            } else {
                exps.len()
            },
            harmonics@.map_values(|p: Length| p as nat) == partials,
            exps == exponents(rsvec@),
            partials_of_limit(limit.heading_texts()) == Some(partials),
            power_product(partials, exps, 1, i as nat) == Some(numerator as nat),
            power_product(partials, exps, -1, i as nat) == Some(denominator as nat),
        decreases n - i,
    {
        let harmonic = harmonics[i];
        let el: i64 = rsvec[i] as i64;
        let ghost num0 = numerator;
        let ghost den0 = denominator;
        proof {
            assert(partials[i as int] == harmonic);
            assert(exps[i as int] == el);
            assert(1 * exps[i as int] == el);
            assert(-1 * exps[i as int] == -el);
            assert(power_product(partials, exps, 1, (i + 1) as nat) == if el > 0 {
                times(Some(num0 as nat), pow(harmonic as int, el as nat))
            } else {
                Some(num0 as nat)
            });
            assert(power_product(partials, exps, -1, (i + 1) as nat) == if el < 0 {
                times(Some(den0 as nat), pow(harmonic as int, (-el) as nat))
            } else {
                Some(den0 as nat)
            });
        }
        if el > 0 {
            match checked_pow(harmonic, el as u32) {
                Some(power) => {
                    if power != 0 && numerator > u128::MAX / power {
                        proof {
                            assert(numerator * power > u128::MAX) by (nonlinear_arith)
                                requires
                                    numerator > (u128::MAX as int) / (power as int),
                                    power > 0,
                            ;
                            lemma_power_product_fails(partials, exps, 1, (i + 1) as nat, n as nat);
                        }
                        return None;
                    }
                    proof {
                        if power != 0 {
                            assert(numerator * power <= u128::MAX) by (nonlinear_arith)
                                requires
                                    numerator <= (u128::MAX as int) / (power as int),
                                    power > 0,
                            ;
                        } else {
                            assert(numerator * power == 0) by (nonlinear_arith)
                                requires
                                    power == 0,
                            ;
                        }
                    }
                    numerator = numerator * power;
                    assert(times(Some(num0 as nat), pow(harmonic as int, el as nat)) == Some(
                        numerator as nat,
                    ));
                },
                None => {
                    proof {
                        lemma_power_product_fails(partials, exps, 1, (i + 1) as nat, n as nat);
                    }
                    return None;
                },
            }
        }
        if el < 0 {
            match checked_pow(harmonic, (-el) as u32) {
                Some(power) => {
                    if power != 0 && denominator > u128::MAX / power {
                        proof {
                            assert(denominator * power > u128::MAX) by (nonlinear_arith)
                                requires
                                    denominator > (u128::MAX as int) / (power as int),
                                    power > 0,
                            ;
                            lemma_power_product_fails(partials, exps, -1, (i + 1) as nat, n as nat);
                        }
                        return None;
                    }
                    proof {
                        if power != 0 {
                            assert(denominator * power <= u128::MAX) by (nonlinear_arith)
                                requires
                                    denominator <= (u128::MAX as int) / (power as int),
                                    power > 0,
                            ;
                        } else {
                            assert(denominator * power == 0) by (nonlinear_arith)
                                requires
                                    power == 0,
                            ;
                        }
                    }
                    denominator = denominator * power;
                    assert(times(Some(den0 as nat), pow(harmonic as int, (-el) as nat)) == Some(
                        denominator as nat,
                    ));
                },
                None => {
                    proof {
                        lemma_power_product_fails(partials, exps, -1, (i + 1) as nat, n as nat);
                    }
                    return None;
                },
            }
        }
        i += 1;
    }
    Some((numerator, denominator))
}

/// A product that has left the range stays out of it.
proof fn lemma_power_product_fails(
    partials: Seq<nat>,
    exponents: Seq<int>,
    sign: int,
    k: nat,
    n: nat,
)
    requires
        k <= n,
        power_product(partials, exponents, sign, k) is None,
    ensures
        power_product(partials, exponents, sign, n) is None,
    decreases n,
{
    if k < n {
        lemma_power_product_fails(partials, exponents, sign, k, (n - 1) as nat);
    }
}

/// Turns the ratio-space vector into a ratio-string.
pub fn get_ratio_string(limit: &PrimeLimit, rsvec: &ETMap) -> (r: Option<String>)
    ensures
        match partials_of_limit(limit.heading_texts()) {
            Some(partials) => match ratio_of(partials, exponents(rsvec@)) {
                Some(ratio) => r matches Some(s) && s@ == ratio_text(ratio),
                None => r is None,
            },
            None => r is None,
        },
{
    Some(stringify(get_ratio(limit, rsvec)?))
}

/// How often `p` divides `n`, for `p` of at least two and `n` of at
/// least one; zero for others.
pub open spec fn multiplicity(n: nat, p: nat) -> nat
    decreases n,
    when p >= 2
    via multiplicity_decreases
{
    if n >= 1 && n % p == 0 {
        1 + multiplicity(n / p, p)
    } else {
        0
    }
}

#[via_fn]
proof fn multiplicity_decreases(n: nat, p: nat) {
    if n >= 1 && n % p == 0 {
        lemma_divide_shrinks(n, p);
    }
}

/// What is left of `n` when `p` is divided out as often as it
/// divides.
pub open spec fn cofactor(n: nat, p: nat) -> nat
    decreases n,
    when p >= 2
    via cofactor_decreases
{
    if n >= 1 && n % p == 0 {
        cofactor(n / p, p)
    } else {
        n
    }
}

#[via_fn]
proof fn cofactor_decreases(n: nat, p: nat) {
    if n >= 1 && n % p == 0 {
        lemma_divide_shrinks(n, p);
    }
}

/// Dividing a positive number by its divisor of at least two makes
/// it smaller and leaves it positive.
proof fn lemma_divide_shrinks(n: nat, p: nat)
    requires
        p >= 2,
        n >= 1,
        n % p == 0,
    ensures
        1 <= n / p < n,
        n / p <= n / 2,
        n == p * (n / p),
{
    vstd::arithmetic::div_mod::lemma_fundamental_div_mod(n as int, p as int);
    let q = n / p;
    assert(q >= 1 && q < n && 2 * q <= n) by (nonlinear_arith)
        requires
            n == p * q,
            p >= 2,
            n >= 1,
            q >= 0,
    ;
}

/// What is left of `n` after the first `k` partials are divided
/// out, each as often as it divides what the ones before it left.
pub open spec fn remaining(partials: Seq<nat>, n: nat, k: nat) -> nat
    decreases k,
{
    if k == 0 {
        n
    } else {
        let before = remaining(partials, n, (k - 1) as nat);
        if partials[k - 1] >= 2 {
            cofactor(before, partials[k - 1])
        } else {
            before
        }
    }
}

/// How often partial `i` divides what the partials before it left
/// of `n`.
pub open spec fn factor_exponent(partials: Seq<nat>, n: nat, i: int) -> nat {
    if partials[i] >= 2 {
        multiplicity(remaining(partials, n, i as nat), partials[i])
    } else {
        0
    }
}

/// The exponents of the partials in `n`, where `n` is a product of
/// partials.  A limit with the partial one factorizes nothing.
pub open spec fn factorization(partials: Seq<nat>, n: nat) -> Option<Seq<int>> {
    if n != 0 && !partials.contains(1) && remaining(partials, n, partials.len()) == 1 {
        Some(Seq::new(partials.len(), |i: int| factor_exponent(partials, n, i) as int))
    } else {
        None
    }
}

/// Divides `p` out of `n` as often as it divides.
fn divide_out(n: Length, p: Length) -> (r: (Exponent, Length))
    requires
        n >= 1,
        p >= 2,
    ensures
        r.0 == multiplicity(n as nat, p as nat),
        r.1 == cofactor(n as nat, p as nat),
        r.1 >= 1,
        0 <= r.0 <= 127,
{
    let mut remainder: Length = n;
    let mut count: Exponent = 0;
    proof {
        assert(n >> 0u128 == n) by (bit_vector);
    }
    while remainder % p == 0
        invariant
            p >= 2,
            remainder >= 1,
            0 <= count <= 127,
            remainder <= (n >> (count as u128)),
            multiplicity(n as nat, p as nat) == count + multiplicity(remainder as nat, p as nat),
            cofactor(n as nat, p as nat) == cofactor(remainder as nat, p as nat),
        decreases remainder,
    {
        proof {
            lemma_divide_shrinks(remainder as nat, p as nat);
            let shifted = n >> (count as u128);
            let c = count as u128;
            assert(remainder >= 2);
            assert(c < 127) by (bit_vector)
                requires
                    c <= 127,
                    (n >> c) >= 2,
            ;
            assert((n >> c) / 2 == (n >> ((c + 1) as u128))) by (bit_vector)
                requires
                    c < 127,
            ;
        }
        remainder = remainder / p;
        count += 1;
    }
    (count, remainder)
}

/// The exponents of the partials of the limit in `n`.  `None`
/// where `n` is no product of partials, in particular for zero.
pub fn factorize(limit: &PrimeLimit, n: Length) -> (r: Option<ETMap>)
    ensures
        r matches Some(v) ==> forall|k: int| 0 <= k < v.len() ==> 0 <= #[trigger] v[k] <= 127,
        match partials_of_limit(limit.heading_texts()) {
            Some(partials) => match factorization(partials, n as nat) {
                Some(found) => r matches Some(v) && exponents(v@) == found,
                None => r is None,
            },
            None => r is None,
        },
{
    if n == 0 {
        let _ = integer_partials(limit);
        return None;
    }
    let harmonics = integer_partials(limit)?;
    let ghost partials = partials_of_limit(limit.heading_texts()).unwrap();
    let mut result: ETMap = Vec::new();
    let mut remainder: Length = n;
    let mut i: usize = 0;
    while i < harmonics.len()
        invariant
            i <= harmonics.len(),
            n >= 1,
            remainder >= 1,
            harmonics@.map_values(|p: Length| p as nat) == partials,
            partials_of_limit(limit.heading_texts()) == Some(partials),
            remainder == remaining(partials, n as nat, i as nat),
            result.len() == i,
            forall|k: int| 0 <= k < i ==> partials[k] != 1,
            forall|k: int| 0 <= k < i ==> 0 <= #[trigger] result[k] <= 127,
            forall|k: int|
                0 <= k < i ==> #[trigger] result[k] == factor_exponent(partials, n as nat, k),
        decreases harmonics.len() - i,
    {
        let p = harmonics[i];
        proof {
            assert(partials[i as int] == p);
        }
        if p == 1 {
            proof {
                assert(partials.contains(1));
            }
            return None;
        }
        if p >= 2 {
            let (count, rest) = divide_out(remainder, p);
            result.push(count);
            remainder = rest;
        } else {
            result.push(0);
        }
        i += 1;
    }
    proof {
        assert(!partials.contains(1));
    }
    if remainder == 1 {
        proof {
            assert(exponents(result@) =~= factorization(partials, n as nat).unwrap());
        }
        Some(result)
    } else {
        None
    }
}

/// The difference of two vectors of exponents, entry by entry.
pub open spec fn exponent_difference(a: Seq<int>, b: Seq<int>) -> Seq<int> {
    Seq::new(a.len(), |i: int| a[i] - b[i])
}

/// The vector of a ratio: the exponents of the partials in the
/// numerator less those in the denominator.
pub open spec fn ratio_vector(partials: Seq<nat>, ratio: (nat, nat)) -> Option<Seq<int>> {
    match (factorization(partials, ratio.0), factorization(partials, ratio.1)) {
        (Some(numerator), Some(denominator)) => Some(exponent_difference(numerator, denominator)),
        _ => None,
    }
}

/// Turns a ratio into a vector in the given prime limit.  `None`
/// where numerator or denominator is no product of partials.
pub fn factorize_ratio(limit: &PrimeLimit, ratio: Ratio) -> (r: Option<ETMap>)
    ensures
        match partials_of_limit(limit.heading_texts()) {
            Some(partials) => match ratio_vector(partials, (ratio.0 as nat, ratio.1 as nat)) {
                Some(found) => r matches Some(v) && exponents(v@) == found,
                None => r is None,
            },
            None => r is None,
        },
{
    let (n, d) = ratio;
    let numerator = factorize(limit, n)?;
    let denominator = factorize(limit, d)?;
    let ghost partials = partials_of_limit(limit.heading_texts()).unwrap();
    let ghost a = factorization(partials, n as nat).unwrap();
    let ghost b = factorization(partials, d as nat).unwrap();
    let mut result: ETMap = Vec::new();
    let mut i: usize = 0;
    proof {
        assert(numerator.len() == partials.len()) by {
            assert(exponents(numerator@).len() == a.len());
        }
        assert(denominator.len() == partials.len()) by {
            assert(exponents(denominator@).len() == b.len());
        }
        assert forall|k: int| 0 <= k < a.len() implies 0 <= #[trigger] a[k] <= 127 by {
            assert(exponents(numerator@)[k] == numerator[k]);
        }
        assert forall|k: int| 0 <= k < b.len() implies 0 <= #[trigger] b[k] <= 127 by {
            assert(exponents(denominator@)[k] == denominator[k]);
        }
    }
    while i < numerator.len()
        invariant
            i <= numerator.len(),
            numerator.len() == denominator.len(),
            exponents(numerator@) == a,
            exponents(denominator@) == b,
            a.len() == partials.len(),
            b.len() == partials.len(),
            forall|k: int| 0 <= k < a.len() ==> 0 <= #[trigger] a[k] <= 127,
            forall|k: int| 0 <= k < b.len() ==> 0 <= #[trigger] b[k] <= 127,
            result.len() == i,
            forall|k: int| 0 <= k < i ==> #[trigger] result[k] == a[k] - b[k],
        decreases numerator.len() - i,
    {
        proof {
            assert(exponents(numerator@)[i as int] == numerator[i as int]);
            assert(exponents(denominator@)[i as int] == denominator[i as int]);
        }
        result.push(numerator[i] - denominator[i]);
        i += 1;
    }
    proof {
        assert(exponents(result@) =~= exponent_difference(a, b));
    }
    Some(result)
}

/// White space, as Unicode has it.
pub open spec fn is_space(c: char) -> bool {
    let u = c as u32;
    ||| 0x09 <= u <= 0x0d
    ||| u == 0x20
    ||| u == 0x85
    ||| u == 0xa0
    ||| u == 0x1680
    ||| 0x2000 <= u <= 0x200a
    ||| u == 0x2028
    ||| u == 0x2029
    ||| u == 0x202f
    ||| u == 0x205f
    ||| u == 0x3000
}

/// Whether a character is white space.
fn is_whitespace(c: char) -> (b: bool)
    ensures
        b == is_space(c),
{
    let u: u32 = c as u32;
    (0x09 <= u && u <= 0x0d) || u == 0x20 || u == 0x85 || u == 0xa0 || u == 0x1680 || (0x2000 <= u
        && u <= 0x200a) || u == 0x2028 || u == 0x2029 || u == 0x202f || u == 0x205f || u == 0x3000
}

/// How many characters of white space stand at the front of `s`,
/// from `i` on.
pub open spec fn space_before(s: Seq<char>, i: int) -> int
    decreases s.len() - i,
{
    if 0 <= i < s.len() && is_space(s[i]) {
        space_before(s, i + 1)
    } else {
        i
    }
}

/// Where the white space at the end of `s` begins, looking back
/// from `j` as far as `low`.
pub open spec fn space_after(s: Seq<char>, low: int, j: int) -> int
    decreases j,
{
    if 0 <= low < j <= s.len() && is_space(s[j - 1]) {
        space_after(s, low, j - 1)
    } else {
        j
    }
}

/// `s` without the white space at both ends.
pub open spec fn trimmed(s: Seq<char>) -> Seq<char> {
    let start = space_before(s, 0);
    let end = space_after(s, start, s.len() as int);
    s.subrange(start, end)
}

/// The first index at or after `i` at which a colon or a slash
/// stands, or the length of `s`.
pub open spec fn divider_from(s: Seq<char>, i: int) -> int
    decreases s.len() - i,
{
    if i < 0 || i >= s.len() {
        s.len() as int
    } else if s[i] == ':' || s[i] == '/' {
        i
    } else {
        divider_from(s, i + 1)
    }
}

/// The ratio that a text names: a whole number, or two with a
/// colon or a slash between them.
pub open spec fn ratio_of_text(s: Seq<char>) -> Option<(nat, nat)> {
    match unsigned_value(s, u128::MAX as nat) {
        Some(n) => Some((n, 1nat)),
        None => {
            let at = divider_from(s, 0);
            if at < s.len() {
                match (
                    unsigned_value(s.take(at), u128::MAX as nat),
                    unsigned_value(s.skip(at + 1), u128::MAX as nat),
                ) {
                    (Some(n), Some(d)) => Some((n, d)),
                    _ => None,
                }
            } else {
                None
            }
        },
    }
}

/// A copy of the characters from `from` up to `to`.
fn slice_chars(chars: &Vec<char>, from: usize, to: usize) -> (r: Vec<char>)
    requires
        from <= to <= chars.len(),
    ensures
        r@ == chars@.subrange(from as int, to as int),
{
    let mut r: Vec<char> = Vec::new();
    let mut i: usize = from;
    while i < to
        invariant
            from <= i <= to <= chars.len(),
            r@ == chars@.subrange(from as int, i as int),
        decreases to - i,
    {
        r.push(chars[i]);
        proof {
            assert(chars@.subrange(from as int, i as int + 1) =~= chars@.subrange(
                from as int,
                i as int,
            ).push(chars@[i as int]));
        }
        i += 1;
    }
    r
}

/// Reads a ratio from its text.
fn parse_ratio(chars: &Vec<char>) -> (r: Option<Ratio>)
    ensures
        match ratio_of_text(chars@) {
            Some(ratio) => r matches Some(found) && found.0 == ratio.0 && found.1 == ratio.1,
            None => r is None,
        },
{
    match parse_unsigned_chars(chars, u128::MAX) {
        Some(n) => Some((n, 1)),
        None => {
            let mut at: usize = 0;
            while at < chars.len() && chars[at] != ':' && chars[at] != '/'
                invariant
                    at <= chars.len(),
                    divider_from(chars@, 0) == divider_from(chars@, at as int),
                decreases chars.len() - at,
            {
                at += 1;
            }
            if at >= chars.len() {
                return None;
            }
            let head = slice_chars(chars, 0, at);
            let tail = slice_chars(chars, at + 1, chars.len());
            proof {
                assert(chars@.subrange(0, at as int) =~= chars@.take(at as int));
                assert(chars@.subrange(at as int + 1, chars.len() as int) =~= chars@.skip(
                    at as int + 1,
                ));
            }
            match (parse_unsigned_chars(&head, u128::MAX), parse_unsigned_chars(&tail, u128::MAX)) {
                (Some(n), Some(d)) => Some((n, d)),
                _ => None,
            }
        },
    }
}

/// Turns the ratio encoded as a string into a vector in the given
/// prime limit: the text without white space around it is a whole
/// number, or a numerator and a denominator with a colon or a slash
/// between them.
pub fn parse_as_vector(limit: &PrimeLimit, input: &str) -> (r: Option<ETMap>)
    ensures
        match (ratio_of_text(trimmed(input@)), partials_of_limit(limit.heading_texts())) {
            (Some(ratio), Some(partials)) => match ratio_vector(partials, ratio) {
                Some(found) => r matches Some(v) && exponents(v@) == found,
                None => r is None,
            },
            _ => r is None,
        },
{
    let chars = chars_of(input);
    let mut start: usize = 0;
    while start < chars.len() && is_whitespace(chars[start])
        invariant
            start <= chars.len(),
            space_before(chars@, 0) == space_before(chars@, start as int),
        decreases chars.len() - start,
    {
        start += 1;
    }
    let mut end: usize = chars.len();
    while end > start && is_whitespace(chars[end - 1])
        invariant
            start <= end <= chars.len(),
            space_after(chars@, start as int, chars.len() as int) == space_after(
                chars@,
                start as int,
                end as int,
            ),
        decreases end,
    {
        end -= 1;
    }
    let text = slice_chars(&chars, start, end);
    let ratio = parse_ratio(&text)?;
    factorize_ratio(limit, ratio)
}

/// The text of a vector as a ket: the entries with commas between
/// them, in a square and an angle bracket.
pub open spec fn ket_text(rsvec: Seq<i32>) -> Seq<char> {
    seq!['['] + joined(Seq::new(rsvec.len(), |i: int| signed_digits(rsvec[i] as int)), seq![',', ' '])
        + seq!['⟩']
}

/// Turns the ratio-space vector into a ratio-string, or a ket
/// where it stands for no ratio in the machine's range.
pub fn get_ratio_or_ket_string(limit: &PrimeLimit, rsvec: &ETMap) -> (s: String)
    ensures
        s@ == match partials_of_limit(limit.heading_texts()) {
            Some(partials) => match ratio_of(partials, exponents(rsvec@)) {
                Some(ratio) => ratio_text(ratio),
                None => ket_text(rsvec@),
            },
            None => ket_text(rsvec@),
        },
{
    match get_ratio(limit, rsvec) {
        Some(ratio) => stringify(ratio),
        None => {
            let mut entries: Vec<String> = Vec::new();
            let mut i: usize = 0;
            while i < rsvec.len()
                invariant
                    i <= rsvec.len(),
                    entries.len() == i,
                    forall|k: int|
                        0 <= k < i ==> (#[trigger] entries[k])@ == signed_digits(rsvec[k] as int),
                decreases rsvec.len() - i,
            {
                entries.push(signed_decimal(rsvec[i]));
                i += 1;
            }
            proof {
                reveal_strlit(", ");
                assert(", "@ =~= seq![',', ' ']);
                assert(texts(entries@) =~= Seq::new(
                    rsvec.len() as nat,
                    |i: int| signed_digits(rsvec[i] as int),
                ));
            }
            let inner = join(", ", &entries);
            let mut s = String::new();
            s.push('[');
            s.append(inner.as_str());
            s.push('⟩');
            proof {
                assert(s@ =~= ket_text(rsvec@));
            }
            s
        },
    }
}

/// A number is the power of `p` that divides it times what is left.
proof fn lemma_multiplicity(n: nat, p: nat)
    requires
        n >= 1,
        p >= 2,
    ensures
        cofactor(n, p) >= 1,
        n == pow(p as int, multiplicity(n, p)) * cofactor(n, p),
    decreases n,
{
    reveal(pow);
    if n % p == 0 {
        lemma_divide_shrinks(n, p);
        lemma_multiplicity(n / p, p);
        let q = n / p;
        let e = multiplicity(q, p);
        let c = cofactor(q, p);
        assert(pow(p as int, e + 1) == p * pow(p as int, e));
        assert(p * (pow(p as int, e) * c) == (p * pow(p as int, e)) * c) by (nonlinear_arith);
    } else {
        assert(pow(p as int, 0) == 1);
    }
}

/// The product of the powers of the first `k` partials in `n`.
spec fn factored_part(partials: Seq<nat>, n: nat, k: nat) -> int
    decreases k,
{
    if k == 0 {
        1
    } else {
        factored_part(partials, n, (k - 1) as nat) * pow(
            partials[k - 1] as int,
            factor_exponent(partials, n, k - 1),
        )
    }
}

/// A number is the product of the powers of the first partials in
/// it, times what they leave.
proof fn lemma_factored_part(partials: Seq<nat>, n: nat, k: nat)
    requires
        n >= 1,
        k <= partials.len(),
    ensures
        factored_part(partials, n, k) >= 1,
        remaining(partials, n, k) >= 1,
        n == factored_part(partials, n, k) * remaining(partials, n, k),
        k > 0 ==> 1 <= pow(partials[k - 1] as int, factor_exponent(partials, n, k - 1)) <= n,
        factored_part(partials, n, k) <= n,
    decreases k,
{
    reveal(pow);
    if k > 0 {
        lemma_factored_part(partials, n, (k - 1) as nat);
        let p = partials[k - 1];
        let before = factored_part(partials, n, (k - 1) as nat);
        let rest = remaining(partials, n, (k - 1) as nat);
        let e = factor_exponent(partials, n, k - 1);
        let power = pow(p as int, e);
        let after = remaining(partials, n, k);
        if p >= 2 {
            lemma_multiplicity(rest, p);
            assert(rest == power * after);
            lemma_pow_positive(p as int, e);
        } else {
            assert(power == 1);
            assert(after == rest);
        }
        assert(n == (before * power) * after && before * power >= 1 && power <= n && before * power
            <= n) by (nonlinear_arith)
            requires
                n == before * rest,
                rest == power * after,
                before >= 1,
                power >= 1,
                after >= 1,
        ;
    }
}

/// The product of the powers with exponents of one sign is the
/// factored part of the number, where the vector holds on that side
/// the exponents of the partials in the number.
proof fn lemma_one_side(partials: Seq<nat>, n: nat, v: Seq<int>, sign: int, k: nat)
    requires
        1 <= n <= u128::MAX,
        k <= partials.len(),
        v.len() == partials.len(),
        forall|i: int|
            0 <= i < partials.len() ==> {
                let e = factor_exponent(partials, n, i);
                (e > 0 ==> sign * #[trigger] v[i] == e) && (e == 0 ==> sign * v[i] <= 0)
            },
    ensures
        power_product(partials, v, sign, k) == Some(factored_part(partials, n, k) as nat),
    decreases k,
{
    reveal(pow);
    if k > 0 {
        lemma_one_side(partials, n, v, sign, (k - 1) as nat);
        lemma_factored_part(partials, n, (k - 1) as nat);
        lemma_factored_part(partials, n, k);
        let e = factor_exponent(partials, n, k - 1);
        let before = factored_part(partials, n, (k - 1) as nat);
        let power = pow(partials[k - 1] as int, e);
        assert(sign * v[k - 1] == e || (e == 0 && sign * v[k - 1] <= 0));
        if e == 0 {
            assert(power == 1);
            assert(before * 1 == before);
        }
    }
}

/// Ratio round trip: the vector of a ratio whose numerator and
/// denominator are products of partials stands for that ratio,
/// where the ratio is in lowest terms over the limit: no partial
/// has an exponent in both.
pub proof fn lemma_ratio_round_trip(partials: Seq<nat>, n: nat, d: nat)
    requires
        n <= u128::MAX,
        d <= u128::MAX,
        factorization(partials, n) is Some,
        factorization(partials, d) is Some,
        forall|i: int|
            0 <= i < partials.len() ==> factor_exponent(partials, n, i) == 0 || factor_exponent(
                partials,
                d,
                i,
            ) == 0,
    ensures
        ratio_vector(partials, (n, d)) is Some,
        ratio_of(partials, ratio_vector(partials, (n, d)).unwrap()) == Some((n, d)),
{
    let a = factorization(partials, n).unwrap();
    let b = factorization(partials, d).unwrap();
    let v = exponent_difference(a, b);
    let len = partials.len();
    assert forall|i: int| 0 <= i < len implies {
        let e = factor_exponent(partials, n, i);
        (e > 0 ==> 1 * #[trigger] v[i] == e) && (e == 0 ==> 1 * v[i] <= 0)
    } by {
        assert(v[i] == a[i] - b[i]);
    }
    assert forall|i: int| 0 <= i < len implies {
        let e = factor_exponent(partials, d, i);
        (e > 0 ==> -1 * #[trigger] v[i] == e) && (e == 0 ==> -1 * v[i] <= 0)
    } by {
        assert(v[i] == a[i] - b[i]);
    }
    lemma_one_side(partials, n, v, 1, len);
    lemma_one_side(partials, d, v, -1, len);
    lemma_factored_part(partials, n, len);
    lemma_factored_part(partials, d, len);
    assert(factored_part(partials, n, len) * 1 == factored_part(partials, n, len));
    assert(factored_part(partials, d, len) * 1 == factored_part(partials, d, len));
}

/// The index of the last entry before `k` that is not zero, or -1.
pub open spec fn last_nonzero(v: Seq<int>, k: nat) -> int
    decreases k,
{
    if k == 0 {
        -1
    } else if v[k - 1] != 0 {
        k - 1
    } else {
        last_nonzero(v, (k - 1) as nat)
    }
}

/// The largest index at which one of the first `n` vectors has an
/// entry that is not zero, or -1.
pub open spec fn last_used(vectors: Seq<Seq<int>>, n: nat) -> int
    decreases n,
{
    if n == 0 {
        -1
    } else {
        let before = last_used(vectors, (n - 1) as nat);
        let here = last_nonzero(vectors[n - 1], vectors[n - 1].len());
        if here > before {
            here
        } else {
            before
        }
    }
}

/// The vectors of the ratios over the given partials, where every
/// ratio has one.
pub open spec fn ratio_vectors(partials: Seq<nat>, ratios: Seq<Ratio>) -> Option<Seq<Seq<int>>> {
    if forall|i: int|
        0 <= i < ratios.len() ==> ratio_vector(
            partials,
            ((#[trigger] ratios[i]).0 as nat, ratios[i].1 as nat),
        ) is Some {
        Some(
            Seq::new(
                ratios.len(),
                |i: int| ratio_vector(partials, (ratios[i].0 as nat, ratios[i].1 as nat)).unwrap(),
            ),
        )
    } else {
        None
    }
}

/// The whole numbers as partials of a limit.
pub open spec fn as_partials(primes: Seq<Harmonic>) -> Seq<nat> {
    Seq::new(primes.len(), |k: int| primes[k] as nat)
}

/// No vector is all zeros.
pub open spec fn none_is_zero(vectors: Seq<Seq<int>>) -> bool {
    forall|i: int|
        0 <= i < vectors.len() ==> last_nonzero(#[trigger] vectors[i], vectors[i].len()) >= 0
}

/// What `factorize_ratios_in_simplest_limit` gives for the primes
/// below 101: where every ratio is a product of them and none is a
/// unison, the limit of the primes up to the largest that a ratio
/// needs, under the name of that prime, and the vectors of the
/// ratios in it.
pub open spec fn simplest_limit_is(
    primes: Seq<Harmonic>,
    ratios: Seq<Ratio>,
    r: Option<(PrimeLimit, Mapping)>,
) -> bool {
    let found = ratio_vectors(as_partials(primes), ratios);
    if ratios.len() > 0 && found is Some && none_is_zero(found.unwrap()) {
        let full = found.unwrap();
        let size = last_used(full, full.len()) + 1;
        &&& r matches Some((limit, vectors))
        &&& limit.heading_texts() == partial_names(whole(primes)).take(size)
        &&& limit.label@ == partial_names(whole(primes))[size - 1]
        &&& vectors.len() == ratios.len()
        &&& forall|i: int|
            0 <= i < vectors.len() ==> exponents((#[trigger] vectors[i])@) == full[i].take(size)
    } else {
        r is None
    }
}

/// The index of the last entry that is not zero.
fn find_last_nonzero(v: &ETMap) -> (r: Option<usize>)
    ensures
        match r {
            Some(k) => k == last_nonzero(exponents(v@), v.len() as nat) && k < v.len(),
            None => last_nonzero(exponents(v@), v.len() as nat) == -1,
        },
{
    let mut k: usize = v.len();
    while k > 0
        invariant
            k <= v.len(),
            last_nonzero(exponents(v@), v.len() as nat) == last_nonzero(exponents(v@), k as nat),
        decreases k,
    {
        proof {
            assert(exponents(v@)[k - 1] == v[k - 1]);
        }
        if v[k - 1] != 0 {
            return Some(k - 1);
        }
        k -= 1;
    }
    None
}

proof fn lemma_last_nonzero_bound(v: Seq<int>, k: nat)
    ensures
        -1 <= last_nonzero(v, k) < k,
    decreases k,
{
    if k > 0 && v[k - 1] == 0 {
        lemma_last_nonzero_bound(v, (k - 1) as nat);
    }
}

proof fn lemma_last_used_bound(vectors: Seq<Seq<int>>, n: nat, len: nat)
    requires
        n <= vectors.len(),
        forall|i: int| 0 <= i < vectors.len() ==> (#[trigger] vectors[i]).len() == len,
    ensures
        -1 <= last_used(vectors, n) < len || (len == 0 && last_used(vectors, n) == -1),
        n > 0 && (forall|i: int|
            0 <= i < n ==> last_nonzero(#[trigger] vectors[i], vectors[i].len()) >= 0)
            ==> last_used(vectors, n) >= 0,
    decreases n,
{
    if n > 0 {
        lemma_last_used_bound(vectors, (n - 1) as nat, len);
        lemma_last_nonzero_bound(vectors[n - 1], len);
    }
}

/// Factorizes the ratios over the primes up to 100 and gives their
/// vectors in the smallest limit of consecutive primes that holds
/// them all.  `None` where there is no ratio, where a ratio is no
/// product of these primes, and where a ratio is a unison.
pub fn factorize_ratios_in_simplest_limit(ratios: &[Ratio]) -> (r: Option<(PrimeLimit, Mapping)>)
    ensures
        exists|primes: Seq<Harmonic>|
            lists_primes_below(primes, 101) && simplest_limit_is(primes, ratios@, r),
{
    // For now, primes over 100 will not be recognized
    let limit = PrimeLimit::new(100);
    let ghost primes = choose|primes: Seq<Harmonic>|
        lists_primes_below(primes, 101) && limit.heading_texts() == partial_names(whole(primes));
    let ghost partials = as_partials(primes);
    let ghost names = partial_names(whole(primes));
    proof {
        assert forall|k: int| 0 <= k < names.len() implies unsigned_value(
            #[trigger] names[k],
            u128::MAX as nat,
        ) == Some(partials[k]) by {
            lemma_unsigned_value_of_digits(primes[k] as nat, u128::MAX as nat);
        }
        assert(partials_of_limit(limit.heading_texts()) == Some(partials)) by {
            assert(Seq::new(
                names.len(),
                |k: int| unsigned_value(names[k], u128::MAX as nat).unwrap(),
            ) =~= partials);
        }
    }
    let limit_size = limit.headings.len();
    let mut vectors: Mapping = Vec::new();
    let mut i: usize = 0;
    while i < ratios.len()
        invariant
            i <= ratios.len(),
            lists_primes_below(primes, 101),
            partials == as_partials(primes),
            partials_of_limit(limit.heading_texts()) == Some(partials),
            partials.len() == limit_size,
            vectors.len() == i,
            forall|k: int|
                0 <= k < i ==> ratio_vector(
                    partials,
                    ((#[trigger] ratios[k]).0 as nat, ratios[k].1 as nat),
                ) == Some(exponents(vectors[k]@)),
        decreases ratios.len() - i,
    {
        match factorize_ratio(&limit, ratios[i]) {
            Some(v) => {
                vectors.push(v);
            },
            None => {
                proof {
                    assert(ratio_vector(partials, (ratios[i as int].0 as nat, ratios[i as int].1 as nat))
                        is None);
                    assert(ratio_vectors(partials, ratios@) is None);
                    assert(simplest_limit_is(primes, ratios@, None));
                }
                return None;
            },
        }
        i += 1;
    }
    let ghost full = ratio_vectors(partials, ratios@).unwrap();
    proof {
        assert(ratio_vectors(partials, ratios@) is Some);
        assert forall|k: int| 0 <= k < full.len() implies #[trigger] full[k] == exponents(
            vectors[k]@,
        ) && full[k].len() == limit_size by {
            assert(ratio_vector(partials, (ratios[k].0 as nat, ratios[k].1 as nat)) == Some(
                exponents(vectors[k]@),
            ));
        }
    }
    if vectors.len() == 0 {
        return None;
    }
    let mut trim_point: usize = 0;
    let mut j: usize = 0;
    while j < vectors.len()
        invariant
            j <= vectors.len(),
            lists_primes_below(primes, 101),
            partials == as_partials(primes),
            vectors.len() == full.len(),
            vectors.len() == ratios.len(),
            ratio_vectors(partials, ratios@) == Some(full),
            forall|k: int|
                0 <= k < full.len() ==> #[trigger] full[k] == exponents(vectors[k]@) && full[k].len()
                    == limit_size,
            forall|k: int| 0 <= k < j ==> last_nonzero(#[trigger] full[k], full[k].len()) >= 0,
            j > 0 ==> trim_point == last_used(full, j as nat),
            j == 0 ==> trim_point == 0,
        decreases vectors.len() - j,
    {
        proof {
            assert(full[j as int] == exponents(vectors[j as int]@));
            lemma_last_used_bound(full, j as nat, limit_size as nat);
        }
        match find_last_nonzero(&vectors[j]) {
            Some(at) => {
                if j == 0 || at > trim_point {
                    trim_point = at;
                }
            },
            None => {
                proof {
                    assert(last_nonzero(full[j as int], full[j as int].len()) == -1);
                    assert(simplest_limit_is(primes, ratios@, None));
                }
                return None;
            },
        }
        j += 1;
    }
    proof {
        lemma_last_used_bound(full, full.len(), limit_size as nat);
    }
    let size: usize = trim_point + 1;
    let mut trimmed_vectors: Mapping = Vec::new();
    let mut k: usize = 0;
    while k < vectors.len()
        invariant
            k <= vectors.len(),
            size <= limit_size,
            vectors.len() == full.len(),
            forall|t: int|
                0 <= t < full.len() ==> #[trigger] full[t] == exponents(vectors[t]@) && full[t].len()
                    == limit_size,
            trimmed_vectors.len() == k,
            forall|t: int|
                0 <= t < k ==> exponents((#[trigger] trimmed_vectors[t])@) == full[t].take(
                    size as int,
                ),
        decreases vectors.len() - k,
    {
        let source = &vectors[k];
        proof {
            assert(full[k as int] == exponents(source@));
            assert(exponents(source@).len() == source.len());
        }
        let mut v: ETMap = Vec::new();
        let mut t: usize = 0;
        while t < size
            invariant
                t <= size <= source.len(),
                v@ == source@.take(t as int),
            decreases size - t,
        {
            v.push(source[t]);
            proof {
                assert(source@.take(t as int + 1) =~= source@.take(t as int).push(source@[t as int]));
            }
            t += 1;
        }
        proof {
            assert(exponents(v@) =~= exponents(source@).take(size as int));
        }
        trimmed_vectors.push(v);
        k += 1;
    }
    let mut headings: Vec<String> = Vec::new();
    let mut h: usize = 0;
    while h < size
        invariant
            h <= size <= limit.headings.len(),
            texts(headings@) == texts(limit.headings@).take(h as int),
        decreases size - h,
    {
        let ghost before = texts(headings@);
        headings.push(limit.headings[h].clone());
        proof {
            assert(texts(headings@) =~= before.push(limit.headings[h as int]@));
            assert(texts(limit.headings@).take(h as int + 1) =~= texts(limit.headings@).take(
                h as int,
            ).push(limit.headings[h as int]@));
        }
        h += 1;
    }
    let label = limit.headings[trim_point].clone();
    let result = Some((PrimeLimit { label, headings }, trimmed_vectors));
    proof {
        assert(names[size - 1] == limit.headings[trim_point as int]@);
        assert(simplest_limit_is(primes, ratios@, result));
    }
    result
}

} // verus!
