//! FizzBuzz and borrowing exercises.
use vstd::prelude::*;

verus! {

/// What FizzBuzz says for a number.
#[derive(Debug, PartialEq, Eq, Structural)]
pub enum FizzBuzz {
    Fizz,
    Buzz,
    FizzBuzz,
    Neither(u64),
}

impl FizzBuzz {
    /// `FizzBuzz` for multiples of 15, `Fizz` for other multiples of 3,
    /// `Buzz` for other multiples of 5, and the number itself otherwise.
    pub fn new(n: u64) -> (r: Self)
        ensures
            r == if n % 15 == 0 {
                FizzBuzz::FizzBuzz
            } else if n % 3 == 0 {
                FizzBuzz::Fizz
            } else if n % 5 == 0 {
                FizzBuzz::Buzz
            } else {
                FizzBuzz::Neither(n)
            },
    {
        match (n % 3, n % 5) {
            (0, 0) => FizzBuzz::FizzBuzz,
            (0, _) => FizzBuzz::Fizz,
            (_, 0) => FizzBuzz::Buzz,
            _ => FizzBuzz::Neither(n),
        }
    }
}

/// Takes a shared and a mutable borrow of two distinct strings and changes
/// neither.
pub fn double_ref(_a: &String, _b: &mut String)
    ensures
        *final(_b) == *old(_b),
{
}

} // verus!
