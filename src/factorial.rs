//! Factorials, computed several ways.
use vstd::prelude::*;

verus! {

/// `n!`.
pub open spec fn fact(n: nat) -> nat
    decreases n,
{
    if n == 0 {
        1
    } else {
        n * fact((n - 1) as nat)
    }
}

/// Factorials grow with their argument and are never zero.
pub proof fn lemma_fact_monotonic(m: nat, n: nat)
    requires
        m <= n,
    ensures
        1 <= fact(m) <= fact(n),
    decreases n,
{
    if n > 0 {
        if m < n {
            lemma_fact_monotonic(m, (n - 1) as nat);
        } else {
            lemma_fact_monotonic((n - 1) as nat, (n - 1) as nat);
        }
        assert(fact((n - 1) as nat) <= n * fact((n - 1) as nat)) by (nonlinear_arith)
            requires
                n >= 1,
        ;
    }
}

/// `n!`, by recursion.
pub fn factorial_recursive(n: u64) -> (r: u64)
    requires
        fact(n as nat) <= u64::MAX,
    ensures
        r == fact(n as nat),
    decreases n,
{
    match n {
        0 => 1,
        n => {
            proof {
                lemma_fact_monotonic((n - 1) as nat, n as nat);
            }
            n * factorial_recursive(n - 1)
        },
    }
}

/// `n!`, by a loop that counts `n` down.
pub fn factorial_while(n: u64) -> (r: u64)
    requires
        fact(n as nat) <= u64::MAX,
    ensures
        r == fact(n as nat),
{
    let mut m: u64 = n;
    let mut result: u64 = 1;
    while m > 0
        invariant
            m <= n,
            fact(n as nat) <= u64::MAX,
            result * fact(m as nat) == fact(n as nat),
        decreases m,
    {
        proof {
            lemma_fact_monotonic(m as nat, n as nat);
            assert(result * m <= result * fact(m as nat)) by (nonlinear_arith)
                requires
                    fact(m as nat) == m * fact((m - 1) as nat),
                    fact((m - 1) as nat) >= 1,
                    m >= 1,
            {
                lemma_fact_monotonic(0, (m - 1) as nat);
            }
            assert(result * fact(m as nat) == (result * m) * fact((m - 1) as nat)) by (nonlinear_arith)
                requires
                    fact(m as nat) == m * fact((m - 1) as nat),
            ;
        }
        result *= m;
        m -= 1;
    }
    assert(fact(m as nat) == 1);
    assert(result * fact(m as nat) == result) by (nonlinear_arith)
        requires
            fact(m as nat) == 1,
    ;
    result
}

/// `n!`, by a loop that multiplies `1..=n` in turn.
pub fn factorial_for(n: u64) -> (r: u64)
    requires
        fact(n as nat) <= u64::MAX,
    ensures
        r == fact(n as nat),
{
    let mut result: u64 = 1;
    let mut k: u64 = 0;
    while k < n
        invariant
            k <= n,
            fact(n as nat) <= u64::MAX,
            result == fact(k as nat),
        decreases n - k,
    {
        k += 1;
        proof {
            lemma_fact_monotonic(k as nat, n as nat);
            assert(fact(k as nat) == k * fact((k - 1) as nat));
            assert(result * k == fact(k as nat)) by (nonlinear_arith)
                requires
                    result == fact((k - 1) as nat),
                    fact(k as nat) == k * fact((k - 1) as nat),
            ;
        }
        result *= k;
    }
    result
}

/// `n!`, folding `1..=n` by multiplication.
pub fn iterator_factorial(n: u64) -> (r: u64)
    requires
        fact(n as nat) <= u64::MAX,
    ensures
        r == fact(n as nat),
{
    let mut acc: u64 = 1;
    let mut x: u64 = 0;
    while x < n
        invariant
            x <= n,
            fact(n as nat) <= u64::MAX,
            acc == fact(x as nat),
        decreases n - x,
    {
        x += 1;
        proof {
            lemma_fact_monotonic(x as nat, n as nat);
            assert(fact(x as nat) == x * fact((x - 1) as nat));
            assert(acc * x == fact(x as nat)) by (nonlinear_arith)
                requires
                    acc == fact((x - 1) as nat),
                    fact(x as nat) == x * fact((x - 1) as nat),
            ;
        }
        acc = acc * x;
    }
    acc
}

/// `n!`, or `None` when it does not fit in a `u64`.
pub fn checked_factorial(n: u64) -> (r: Option<u64>)
    ensures
        r == if fact(n as nat) <= u64::MAX {
            Some(fact(n as nat) as u64)
        } else {
            None::<u64>
        },
    decreases n,
{
    match n {
        0 => Some(1),
        n => {
            proof {
                lemma_fact_monotonic((n - 1) as nat, n as nat);
            }
            let prev = checked_factorial(n - 1)?;
            n.checked_mul(prev)
        },
    }
}

} // verus!
