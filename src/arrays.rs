//! Building and filling arrays and vectors.
use vstd::prelude::*;

verus! {

/// Ten zeros.
pub fn create_array_1() -> (r: [i32; 10])
    ensures
        r@ == Seq::new(10, |_k: int| 0i32),
{
    let r = [0i32; 10];
    assert(r@ =~= Seq::new(10, |_k: int| 0i32));
    r
}

/// The four values, in order.
pub fn create_array_2(a: i32, b: i32, c: i32, d: i32) -> (r: [i32; 4])
    ensures
        r@ == seq![a, b, c, d],
{
    let r = [a, b, c, d];
    assert(r@ =~= seq![a, b, c, d]);
    r
}

/// An empty vector.
pub fn create_vec_empty() -> (r: Vec<i32>)
    ensures
        r@ == Seq::<i32>::empty(),
{
    Vec::new()
}

/// A vector of ten zeros.
pub fn create_vec_macro_1() -> (r: Vec<i32>)
    ensures
        r@ == Seq::new(10, |_k: int| 0i32),
{
    let r = vec![0i32; 10];
    assert(r@ =~= Seq::new(10, |_k: int| 0i32));
    r
}

/// A vector of the four values, in order.
pub fn create_vec_macro_2(a: i32, b: i32, c: i32, d: i32) -> (r: Vec<i32>)
    ensures
        r@ == seq![a, b, c, d],
{
    let r = vec![a, b, c, d];
    assert(r@ =~= seq![a, b, c, d]);
    r
}

/// Appends a `2`.
pub fn add_two(x: &mut Vec<i32>)
    ensures
        final(x)@ == old(x)@.push(2),
{
    x.push(2)
}

/// Sets every element to `1`.
pub fn set_to_one(x: &mut [i32])
    ensures
        final(x)@ == Seq::new(old(x)@.len(), |_k: int| 1i32),
{
    let n = x.len();
    let mut i: usize = 0;
    while i < n
        invariant
            n == old(x)@.len(),
            x@.len() == n,
            i <= n,
            forall|k: int| 0 <= k < i ==> x@[k] == 1i32,
        decreases n - i,
    {
        x[i] = 1;
        i += 1;
    }
    assert(x@ =~= Seq::new(old(x)@.len(), |_k: int| 1i32));
}

} // verus!
