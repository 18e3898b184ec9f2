//! Verified puzzles and exercises: a backtracking Sudoku solver, and small
//! integer, collection and generic routines.

pub mod arrays;
pub mod division;
pub mod exercises;
pub mod factorial;
pub mod generics;
pub mod primes;
pub mod sudoku;
