//! Prime numbers, found by trial division.
use vstd::prelude::*;

verus! {

/// `x` is at least 2 and no number in `2..x` divides it.
pub open spec fn is_prime(x: nat) -> bool {
    x >= 2 && forall|d: nat| 2 <= d < x ==> #[trigger] (x % d) != 0
}

/// How many primes are below `m`.
pub open spec fn primes_below(m: nat) -> nat
    decreases m,
{
    if m == 0 {
        0
    } else {
        primes_below((m - 1) as nat) + if is_prime((m - 1) as nat) {
            1nat
        } else {
            0nat
        }
    }
}

/// Whether `x` is prime, by trying every divisor below it.
fn is_prime_u64(x: u64) -> (r: bool)
    ensures
        r == is_prime(x as nat),
{
    if x < 2 {
        return false;
    }
    let mut y: u64 = 2;
    while y < x
        invariant
            2 <= y <= x,
            forall|d: nat| 2 <= d < y ==> #[trigger] ((x as nat) % d) != 0,
        decreases x - y,
    {
        if x % y == 0 {
            assert((x as nat) % (y as nat) == 0);
            return false;
        }
        y += 1;
    }
    true
}

/// The prime with `n` primes below it, counting from 0: `nth_prime(0) == 2`.
pub fn nth_prime(n: usize) -> (r: u64)
    requires
        n < primes_below(u64::MAX as nat),
    ensures
        is_prime(r as nat),
        primes_below(r as nat) == n,
{
    let mut c: u64 = 0;
    let mut found: usize = 0;
    loop
        invariant
            found <= n,
            n < primes_below(u64::MAX as nat),
            found == primes_below(c as nat),
        decreases u64::MAX - c,
    {
        if is_prime_u64(c) {
            if found == n {
                return c;
            }
            found += 1;
        }
        assert(c < u64::MAX);
        c += 1;
    }
}

/// The first `n` primes, in ascending order.
pub fn n_primes(n: usize) -> (r: Vec<u64>)
    requires
        n <= primes_below(u64::MAX as nat),
    ensures
        r@.len() == n,
        forall|k: int| 0 <= k < n ==> is_prime(#[trigger] r@[k] as nat) && primes_below(r@[k] as nat) == k,
{
    let mut r: Vec<u64> = Vec::new();
    let mut c: u64 = 0;
    while r.len() < n
        invariant
            r@.len() <= n,
            n <= primes_below(u64::MAX as nat),
            r@.len() == primes_below(c as nat),
            forall|k: int| 0 <= k < r@.len() ==> is_prime(#[trigger] r@[k] as nat) && primes_below(r@[k] as nat) == k,
        decreases u64::MAX - c,
    {
        assert(c < u64::MAX);
        if is_prime_u64(c) {
            r.push(c);
        }
        c += 1;
    }
    r
}

} // verus!
