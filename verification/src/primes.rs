//! Prime numbers below a bound, by a sieve.
use crate::Harmonic;
use vstd::prelude::*;

verus! {

/// `p` is a prime number.
pub open spec fn is_prime(p: int) -> bool {
    p >= 2 && forall|d: int| 2 <= d < p ==> #[trigger] (p % d) != 0
}

/// `m` has a proper divisor of at least 2 below `bound`.
pub open spec fn has_divisor_below(m: int, bound: int) -> bool {
    exists|d: int| 2 <= d < bound && d < m && #[trigger] (m % d) == 0
}

/// A multiple of `i` that lies strictly between two neighbouring
/// multiples of `i` does not exist.
proof fn lemma_no_multiple_between(i: int, j: int, m: int)
    requires
        i > 0,
        j % i == 0,
        m % i == 0,
        j <= m < j + i,
    ensures
        m == j,
{
    vstd::arithmetic::div_mod::lemma_fundamental_div_mod(j, i);
    vstd::arithmetic::div_mod::lemma_fundamental_div_mod(m, i);
    let a = j / i;
    let b = m / i;
    assert(a == b) by (nonlinear_arith)
        requires
            i > 0,
            i * a <= i * b < i * a + i,
    ;
}

proof fn lemma_step_multiple(i: int, j: int)
    requires
        i > 0,
        j % i == 0,
    ensures
        (j + i) % i == 0,
        (2 * i) % i == 0,
{
    vstd::arithmetic::div_mod::lemma_mod_add_multiples_vanish(j, i);
    vstd::arithmetic::div_mod::lemma_mod_multiples_basic(2, i);
}

/// `primes` lists the primes below `bound` in ascending order.
pub open spec fn lists_primes_below(primes: Seq<Harmonic>, bound: int) -> bool {
    &&& forall|k: int|
        0 <= k < primes.len() ==> is_prime(#[trigger] primes[k] as int) && primes[k] < bound
    &&& forall|j: int, k: int| 0 <= j < k < primes.len() ==> primes[j] < primes[k]
    &&& forall|p: int|
        2 <= p < bound && is_prime(p) ==> exists|k: int|
            0 <= k < primes.len() && #[trigger] primes[k] == p
}

/// The primes below `n`, in ascending order.
pub fn primes_below(n: Harmonic) -> (primes: Vec<Harmonic>)
    requires
        n >= 2,
    ensures
        lists_primes_below(primes@, n as int),
{
    sieve(n as u32)
}

/// The primes below `n`, for bounds up to one more than the largest
/// partial.
pub fn sieve(n: u32) -> (primes: Vec<Harmonic>)
    requires
        2 <= n <= 0x1_0000,
    ensures
        lists_primes_below(primes@, n as int),
{
    let size: usize = n as usize;
    let mut composite: Vec<bool> = Vec::new();
    let mut t: usize = 0;
    while t < size
        invariant
            t <= size,
            composite.len() == t,
            forall|m: int| 0 <= m < t ==> !#[trigger] composite[m],
        decreases size - t,
    {
        composite.push(false);
        t += 1;
    }
    let mut primes: Vec<Harmonic> = Vec::new();
    let mut i: usize = 2;
    while i < size
        invariant
            2 <= i <= size,
            size == n,
            size <= 0x1_0000,
            composite.len() == size,
            forall|m: int| 0 <= m < size ==> (#[trigger] composite[m] <==> has_divisor_below(m, i as int)),
            forall|k: int|
                0 <= k < primes.len() ==> is_prime(#[trigger] primes[k] as int) && primes[k] < i,
            forall|j: int, k: int| 0 <= j < k < primes.len() ==> primes[j] < primes[k],
            forall|p: int|
                2 <= p < i && is_prime(p) ==> exists|k: int|
                    0 <= k < primes.len() && #[trigger] primes[k] == p,
        decreases size - i,
    {
        if !composite[i] {
            proof {
                assert forall|d: int| 2 <= d < i implies #[trigger] (i as int % d) != 0 by {
                    if i as int % d == 0 {
                        assert(has_divisor_below(i as int, i as int));
                    }
                }
            }
            let ghost before = primes@;
            primes.push(i as Harmonic);
            proof {
                assert forall|p: int| 2 <= p < i + 1 && is_prime(p) implies exists|k: int|
                    0 <= k < primes.len() && #[trigger] primes[k] == p by {
                    if p < i {
                        let k = choose|k: int| 0 <= k < before.len() && #[trigger] before[k] == p;
                        assert(primes[k] == p);
                    } else {
                        assert(primes[primes.len() - 1] == p);
                    }
                }
            }
        } else {
            proof {
                let d = choose|d: int| 2 <= d < i && d < i && #[trigger] (i as int % d) == 0;
                assert(!is_prime(i as int));
            }
        }
        // mark the multiples of i
        let mut j: usize = 2 * i;
        proof {
            vstd::arithmetic::div_mod::lemma_mod_self_0(i as int);
            lemma_step_multiple(i as int, i as int);
            assert forall|m: int| i < m < 2 * i implies #[trigger] (m % i as int) != 0 by {
                if m % i as int == 0 {
                    lemma_no_multiple_between(i as int, i as int, m);
                }
            }
        }
        while j < size
            invariant
                2 <= i < size,
                size == n,
                size <= 0x1_0000,
                j <= size + i,
                2 * i <= j,
                j as int % i as int == 0,
                composite.len() == size,
                forall|m: int|
                    0 <= m < size ==> (#[trigger] composite[m] <==> has_divisor_below(m, i as int) || (
                    i < m < j && m % i as int == 0)),
            decreases size + i - j,
        {
            let ghost old_composite = composite@;
            composite.set(j, true);
            proof {
                lemma_step_multiple(i as int, j as int);
                assert forall|m: int| 0 <= m < size implies (#[trigger] composite[m]
                    <==> has_divisor_below(m, i as int) || (i < m < j + i && m % i as int == 0)) by {
                    if m == j {
                    } else {
                        assert(composite[m] == old_composite[m]);
                        if j <= m < j + i && m % i as int == 0 {
                            lemma_no_multiple_between(i as int, j as int, m);
                        }
                    }
                }
            }
            j += i;
        }
        proof {
            assert forall|m: int| 0 <= m < size implies (#[trigger] composite[m]
                <==> has_divisor_below(m, i as int + 1)) by {
                if has_divisor_below(m, i as int + 1) {
                    let d = choose|d: int| 2 <= d < i + 1 && d < m && #[trigger] (m % d) == 0;
                    if d < i {
                        assert(has_divisor_below(m, i as int));
                    }
                }
                if has_divisor_below(m, i as int) {
                    let d = choose|d: int| 2 <= d < i && d < m && #[trigger] (m % d) == 0;
                    assert(2 <= d < i + 1 && d < m && (m % d) == 0);
                }
                if i < m && m % i as int == 0 {
                    assert(2 <= i < i + 1 && i < m && (m % i as int) == 0);
                }
            }
        }
        i += 1;
    }
    primes
}

} // verus!
