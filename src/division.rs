//! Exact division and reduction of a pair by its greatest common divisor.
use vstd::arithmetic::div_mod::{lemma_fundamental_div_mod, lemma_mod_multiples_basic};
use vstd::prelude::*;

verus! {

/// `b` divides `a`: some integer times `b` is `a`.
pub open spec fn divides(b: int, a: int) -> bool {
    exists|q: int| #[trigger] (q * b) == a
}

/// `a / b` when `b` divides `a`; `None` when `b` is zero or leaves a remainder.
pub fn divide_exact(a: i32, b: i32) -> (r: Option<i32>)
    requires
        !(a == i32::MIN && b == -1),
    ensures
        r is Some <==> b != 0 && divides(b as int, a as int),
        r matches Some(q) ==> q * b == a,
{
    let ua: u32 = if a >= 0 { a as u32 } else { (0i64 - a as i64) as u32 };
    let ub: u32 = if b >= 0 { b as u32 } else { (0i64 - b as i64) as u32 };
    if ub == 0 {
        return None;
    }
    proof {
        lemma_fundamental_div_mod(ua as int, ub as int);
    }
    if ua % ub != 0 {
        proof {
            if divides(b as int, a as int) {
                let q = choose|q: int| #[trigger] (q * b) == a;
                let m: int = if q >= 0 { q } else { -q };
                assert(m * ub == ua) by (nonlinear_arith)
                    requires
                        q * b == a,
                        m == if q >= 0 { q } else { -q },
                        ua == if a >= 0 { a as int } else { -a },
                        ub == if b >= 0 { b as int } else { -b },
                ;
                lemma_mod_multiples_basic(m, ub as int);
            }
        }
        return None;
    }
    let uq: u32 = ua / ub;
    assert(ua == ub * uq + 0);
    assert(uq * ub == ua) by (nonlinear_arith)
        requires
            ua == ub * uq + 0,
    ;
    assert(uq <= ua) by (nonlinear_arith)
        requires
            uq * ub == ua,
            ub >= 1,
    ;
    let q: i64 = if (a < 0) == (b < 0) { uq as i64 } else { 0 - uq as i64 };
    assert(q * b == a) by (nonlinear_arith)
        requires
            uq * ub == ua,
            q == if (a < 0) == (b < 0) { uq as int } else { -uq },
            ua == if a >= 0 { a as int } else { -a },
            ub == if b >= 0 { b as int } else { -b },
    ;
    assert(i32::MIN <= q <= i32::MAX) by (nonlinear_arith)
        requires
            q * b == a,
            b != 0,
            !(a == i32::MIN && b == -1),
            i32::MIN <= a <= i32::MAX,
            i32::MIN <= b <= i32::MAX,
            uq <= ua,
            q == uq || q == -uq,
            ua == if a >= 0 { a as int } else { -a },
    ;
    assert(divides(b as int, a as int)) by {
        assert((q as int) * (b as int) == a);
    }
    Some(q as i32)
}

/// The ways in which a greatest common divisor can be refused.
#[derive(Debug, PartialEq, Eq, Structural)]
pub enum GCDError {
    NotPositive,
    OutOfRange,
    NotAnInteger,
}

/// The greatest common divisor of `a` and `b`, by Euclid's algorithm;
/// `gcd(a, 0) == a`.
pub open spec fn gcd(a: nat, b: nat) -> nat
    decreases b,
{
    if b == 0 {
        a
    } else {
        gcd(b, a % b)
    }
}

/// The greatest common divisor of two naturals is at most the larger one, and
/// positive unless both are zero.
pub proof fn lemma_gcd_bounds(a: nat, b: nat)
    ensures
        gcd(a, b) <= if a >= b { a } else { b },
        a != 0 || b != 0 ==> gcd(a, b) > 0,
    decreases b,
{
    if b != 0 {
        lemma_gcd_bounds(b, a % b);
    }
}

fn gcd_u16(a: u16, b: u16) -> (r: u16)
    ensures
        r == gcd(a as nat, b as nat),
{
    let mut m: u16 = a;
    let mut n: u16 = b;
    while n != 0
        invariant
            gcd(m as nat, n as nat) == gcd(a as nat, b as nat),
        decreases n,
    {
        let t = n;
        n = m % n;
        m = t;
    }
    m
}

/// `a` and `b` divided by their greatest common divisor.
pub fn divide_gcd(a: u16, b: u16) -> (r: (u16, u16))
    requires
        a != 0 || b != 0,
    ensures
        r.0 == a as nat / gcd(a as nat, b as nat),
        r.1 == b as nat / gcd(a as nat, b as nat),
{
    let g = gcd_u16(a, b);
    proof {
        lemma_gcd_bounds(a as nat, b as nat);
    }
    (a / g, b / g)
}

} // verus!
