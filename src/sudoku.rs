//! A 9x9 Sudoku board and a backtracking solver that fills it in place.
//!
//! The board is stored row-major: cell `(i, j)` sits at position `9 * i + j`.
//! A cell holds `0` when empty and a digit `1..=9` when filled.
use vstd::prelude::*;
use vstd::set_lib::{lemma_int_range, lemma_len_subset, set_int_range};

verus! {

/// The number of cells on a board.
pub const CELLS: usize = 81;

/// The values of row `i`, left to right.
pub open spec fn row_vals(b: Seq<u8>, i: int) -> Seq<u8> {
    Seq::new(9, |k: int| b[9 * i + k])
}

/// The values of column `j`, top to bottom.
pub open spec fn col_vals(b: Seq<u8>, j: int) -> Seq<u8> {
    Seq::new(9, |k: int| b[9 * k + j])
}

/// The position of the `k`-th cell (row-major) of the 3x3 block holding cell `(i, j)`.
pub open spec fn box_cell(i: int, j: int, k: int) -> int {
    9 * (3 * (i / 3) + k / 3) + 3 * (j / 3) + k % 3
}

/// The values of the 3x3 block holding cell `(i, j)`, row-major.
pub open spec fn box_vals(b: Seq<u8>, i: int, j: int) -> Seq<u8> {
    Seq::new(9, |k: int| b[box_cell(i, j, k)])
}

/// Every cell holds `0` or a digit.
pub open spec fn cells_ok(b: Seq<u8>) -> bool {
    b.len() == 81 && forall|p: int| 0 <= p < 81 ==> #[trigger] b[p] <= 9
}

/// No non-zero digit occurs twice among the nine values.
pub open spec fn no_dup(s: Seq<u8>) -> bool {
    forall|k1: int, k2: int|
        0 <= k1 < 9 && 0 <= k2 < 9 && k1 != k2 && #[trigger] s[k1] != 0 ==> s[k1] != #[trigger] s[k2]
}

/// No row, column or block holds a non-zero digit twice.
pub open spec fn legal(b: Seq<u8>) -> bool {
    &&& forall|i: int| 0 <= i < 9 ==> no_dup(#[trigger] row_vals(b, i))
    &&& forall|j: int| 0 <= j < 9 ==> no_dup(#[trigger] col_vals(b, j))
    &&& forall|i: int, j: int| 0 <= i < 9 && 0 <= j < 9 ==> no_dup(#[trigger] box_vals(b, i, j))
}

/// No cell is empty.
pub open spec fn full(b: Seq<u8>) -> bool {
    forall|p: int| 0 <= p < 81 ==> #[trigger] b[p] != 0
}

/// `d` may be written at cell `(i, j)`: it is a digit that its row, its column
/// and its block do not hold yet.
pub open spec fn candidate(b: Seq<u8>, i: int, j: int, d: int) -> bool {
    &&& 1 <= d <= 9
    &&& !row_vals(b, i).contains(d as u8)
    &&& !col_vals(b, j).contains(d as u8)
    &&& !box_vals(b, i, j).contains(d as u8)
}

/// `s` keeps every filled cell of `b`.
pub open spec fn keeps_clues(b: Seq<u8>, s: Seq<u8>) -> bool {
    &&& s.len() == b.len()
    &&& forall|p: int| 0 <= p < b.len() && #[trigger] b[p] != 0 ==> s[p] == b[p]
}

/// `s` is a complete, legal filling of the board `b`.
pub open spec fn is_solution(b: Seq<u8>, s: Seq<u8>) -> bool {
    cells_ok(s) && full(s) && legal(s) && keeps_clues(b, s)
}

/// The first empty cell at or after position `p`, in row-major order.
pub open spec fn first_empty_from(b: Seq<u8>, p: int) -> Option<int>
    decreases 81 - p,
{
    if p >= 81 || p < 0 {
        None
    } else if b[p] == 0 {
        Some(p)
    } else {
        first_empty_from(b, p + 1)
    }
}

/// The first empty cell of the board, in row-major order.
pub open spec fn first_empty(b: Seq<u8>) -> Option<int> {
    first_empty_from(b, 0)
}

/// The number of empty cells among the first `b.len()` positions.
pub open spec fn empty_count(b: Seq<u8>) -> nat
    decreases b.len(),
{
    if b.len() == 0 {
        0
    } else {
        empty_count(b.drop_last()) + if b.last() == 0 {
            1nat
        } else {
            0nat
        }
    }
}

/// The first empty cell at or after `p` is an empty cell of the board.
pub proof fn lemma_first_empty_from(b: Seq<u8>, p: int)
    requires
        b.len() == 81,
        0 <= p,
    ensures
        match first_empty_from(b, p) {
            Some(q) => p <= q < 81 && 0 <= q && b[q] == 0
                && forall|r: int| p <= r < q ==> #[trigger] b[r] != 0,
            None => forall|r: int| p <= r < 81 ==> #[trigger] b[r] != 0,
        },
    decreases 81 - p,
{
    if p < 81 && b[p] != 0 {
        lemma_first_empty_from(b, p + 1);
    }
}

/// Filling an empty cell leaves one empty cell fewer.
pub proof fn lemma_fill_one(b: Seq<u8>, p: int, v: u8)
    requires
        0 <= p < b.len(),
        b[p] == 0,
        v != 0,
    ensures
        empty_count(b.update(p, v)) + 1 == empty_count(b),
    decreases b.len(),
{
    let c = b.update(p, v);
    if p == b.len() - 1 {
        assert(c.drop_last() =~= b.drop_last());
    } else {
        assert(c.drop_last() =~= b.drop_last().update(p, v));
        lemma_fill_one(b.drop_last(), p, v);
    }
}

/// The board that the solver reaches from `b` when it tries the digits from
/// `d` upward at the first empty cell, backtracking on failure; `None` when
/// every branch fails.
pub open spec fn search_from(b: Seq<u8>, d: int) -> Option<Seq<u8>>
    decreases empty_count(b), 10 - d,
{
    if b.len() != 81 {
        None
    } else {
        match first_empty(b) {
            None => Some(b),
            Some(p) => {
                if d < 1 || d > 9 {
                    None
                } else {
                    proof {
                        lemma_first_empty_from(b, 0);
                        lemma_fill_one(b, p, d as u8);
                    }
                    if candidate(b, p / 9, p % 9, d) {
                        match search_from(b.update(p, d as u8), 1) {
                            Some(s) => Some(s),
                            None => search_from(b, d + 1),
                        }
                    } else {
                        search_from(b, d + 1)
                    }
                }
            },
        }
    }
}

/// What solving `b` yields: the first solution in the solver's order, or
/// `None` when the board breaks the rules or has no solution.
pub open spec fn solved(b: Seq<u8>) -> Option<Seq<u8>> {
    if legal(b) {
        search_from(b, 1)
    } else {
        None
    }
}

/// Writing a digit that a unit lacks keeps the unit free of repeats.
proof fn lemma_no_dup_update(u: Seq<u8>, k: int, d: u8)
    requires
        u.len() == 9,
        0 <= k < 9,
        no_dup(u),
        !u.contains(d),
    ensures
        no_dup(u.update(k, d)),
{
    let w = u.update(k, d);
    assert forall|k1: int, k2: int| 0 <= k1 < 9 && 0 <= k2 < 9 && k1 != k2 && #[trigger] w[k1] != 0 implies w[k1] != #[trigger] w[k2] by {
        if k1 == k {
            assert(u[k2] == w[k2]);
        } else if k2 == k {
            assert(u[k1] == w[k1]);
        } else {
            assert(u[k1] != 0);
        }
    }
}

/// Writing a candidate into an empty cell keeps the board legal.
pub proof fn lemma_fill_legal(b: Seq<u8>, p: int, d: int)
    requires
        cells_ok(b),
        legal(b),
        0 <= p < 81,
        b[p] == 0,
        candidate(b, p / 9, p % 9, d),
    ensures
        legal(b.update(p, d as u8)),
        cells_ok(b.update(p, d as u8)),
{
    let i = p / 9;
    let j = p % 9;
    let c = b.update(p, d as u8);
    assert forall|x: int| 0 <= x < 9 implies no_dup(#[trigger] row_vals(c, x)) by {
        if x == i {
            assert(row_vals(c, x) =~= row_vals(b, x).update(j, d as u8));
            lemma_no_dup_update(row_vals(b, x), j, d as u8);
        } else {
            assert(row_vals(c, x) =~= row_vals(b, x));
        }
    }
    assert forall|y: int| 0 <= y < 9 implies no_dup(#[trigger] col_vals(c, y)) by {
        if y == j {
            assert(col_vals(c, y) =~= col_vals(b, y).update(i, d as u8));
            lemma_no_dup_update(col_vals(b, y), i, d as u8);
        } else {
            assert(col_vals(c, y) =~= col_vals(b, y));
        }
    }
    lemma_fill_legal_boxes(b, p, d);
}

/// Writing a candidate into an empty cell keeps every block free of repeats.
proof fn lemma_fill_legal_boxes(b: Seq<u8>, p: int, d: int)
    requires
        cells_ok(b),
        legal(b),
        0 <= p < 81,
        b[p] == 0,
        candidate(b, p / 9, p % 9, d),
    ensures
        forall|x: int, y: int| 0 <= x < 9 && 0 <= y < 9 ==> no_dup(#[trigger] box_vals(b.update(p, d as u8), x, y)),
{
    let i = p / 9;
    let j = p % 9;
    let c = b.update(p, d as u8);
    assert forall|x: int, y: int| 0 <= x < 9 && 0 <= y < 9 implies no_dup(#[trigger] box_vals(c, x, y)) by {
        if x / 3 == i / 3 && y / 3 == j / 3 {
            let kk = 3 * (i % 3) + j % 3;
            assert(box_cell(x, y, kk) == p);
            assert forall|k: int| 0 <= k < 9 && k != kk implies box_cell(x, y, k) != p by {
                assert(box_cell(x, y, k) == 9 * (3 * (i / 3) + k / 3) + 3 * (j / 3) + k % 3);
            }
            assert(box_vals(c, x, y) =~= box_vals(b, x, y).update(kk, d as u8));
            lemma_box_corner(b, x, y);
            lemma_box_corner(b, i, j);
            lemma_no_dup_update(box_vals(b, x, y), kk, d as u8);
        } else {
            assert forall|k: int| 0 <= k < 9 implies box_cell(x, y, k) != p by {
                if box_cell(x, y, k) == p {
                    assert(3 * (x / 3) + k / 3 == i);
                    assert(3 * (y / 3) + k % 3 == j);
                }
            }
            assert(box_vals(c, x, y) =~= box_vals(b, x, y));
        }
    }
}

/// The value that a solution gives an empty cell may be written there.
proof fn lemma_solution_candidate(b: Seq<u8>, s: Seq<u8>, p: int)
    requires
        cells_ok(b),
        is_solution(b, s),
        0 <= p < 81,
        b[p] == 0,
    ensures
        candidate(b, p / 9, p % 9, s[p] as int),
{
    let i = p / 9;
    let j = p % 9;
    let v = s[p];
    assert(v != 0);
    if row_vals(b, i).contains(v) {
        let k = choose|k: int| 0 <= k < 9 && row_vals(b, i)[k] == v;
        assert(b[9 * i + k] == v);
        assert(row_vals(s, i)[k] == v && row_vals(s, i)[j] == v);
        assert(no_dup(row_vals(s, i)));
    }
    if col_vals(b, j).contains(v) {
        let k = choose|k: int| 0 <= k < 9 && col_vals(b, j)[k] == v;
        assert(b[9 * k + j] == v);
        assert(col_vals(s, j)[k] == v && col_vals(s, j)[i] == v);
        assert(no_dup(col_vals(s, j)));
    }
    if box_vals(b, i, j).contains(v) {
        let k = choose|k: int| 0 <= k < 9 && box_vals(b, i, j)[k] == v;
        let kk = 3 * (i % 3) + j % 3;
        assert(box_cell(i, j, kk) == p);
        assert(b[box_cell(i, j, k)] == v);
        assert(box_vals(s, i, j)[k] == v && box_vals(s, i, j)[kk] == v);
        assert(no_dup(box_vals(s, i, j)));
    }
}

/// Whatever the search reaches from a legal board is a solution of it.
proof fn lemma_search_sound(b: Seq<u8>, d: int)
    requires
        cells_ok(b),
        legal(b),
        search_from(b, d) is Some,
    ensures
        is_solution(b, search_from(b, d)->Some_0),
    decreases empty_count(b), 10 - d,
{
    lemma_first_empty_from(b, 0);
    match first_empty(b) {
        None => {},
        Some(p) => {
            if candidate(b, p / 9, p % 9, d) && search_from(b.update(p, d as u8), 1) is Some {
                let c = b.update(p, d as u8);
                lemma_fill_legal(b, p, d);
                lemma_fill_one(b, p, d as u8);
                lemma_search_sound(c, 1);
                let s = search_from(c, 1)->Some_0;
                assert forall|q: int| 0 <= q < b.len() && #[trigger] b[q] != 0 implies s[q] == b[q] by {
                    assert(c[q] == b[q]);
                }
            } else {
                lemma_search_sound(b, d + 1);
            }
        },
    }
}

/// From a legal board that has a solution, the search finds one, as long as
/// it starts at or below the digit that the solution gives the first empty cell.
proof fn lemma_search_complete(b: Seq<u8>, d: int, s: Seq<u8>)
    requires
        cells_ok(b),
        legal(b),
        is_solution(b, s),
        1 <= d,
        first_empty(b) matches Some(p) ==> d <= s[p],
    ensures
        search_from(b, d) is Some,
    decreases empty_count(b), 10 - d,
{
    lemma_first_empty_from(b, 0);
    match first_empty(b) {
        None => {},
        Some(p) => {
            let v = s[p] as int;
            assert(v != 0 && v <= 9);
            if d < v {
                lemma_search_complete(b, d + 1, s);
            } else {
                lemma_solution_candidate(b, s, p);
                let c = b.update(p, d as u8);
                lemma_fill_legal(b, p, d);
                lemma_fill_one(b, p, d as u8);
                assert forall|q: int| 0 <= q < c.len() && #[trigger] c[q] != 0 implies s[q] == c[q] by {
                    if q != p {
                        assert(b[q] == c[q]);
                    }
                }
                lemma_first_empty_from(c, 0);
                lemma_search_complete(c, 1, s);
            }
        },
    }
}

/// A board that has a solution is legal: the solution keeps its clues.
proof fn lemma_clues_legal(b: Seq<u8>, s: Seq<u8>)
    requires
        cells_ok(b),
        is_solution(b, s),
    ensures
        legal(b),
{
    assert forall|x: int| 0 <= x < 9 implies no_dup(#[trigger] row_vals(b, x)) by {
        assert(no_dup(row_vals(s, x)));
        assert forall|k1: int, k2: int| 0 <= k1 < 9 && 0 <= k2 < 9 && k1 != k2 && #[trigger] row_vals(b, x)[k1] != 0
            implies row_vals(b, x)[k1] != #[trigger] row_vals(b, x)[k2] by {
            assert(row_vals(s, x)[k1] == row_vals(b, x)[k1]);
            if row_vals(b, x)[k2] != 0 {
                assert(row_vals(s, x)[k2] == row_vals(b, x)[k2]);
            }
        }
    }
    assert forall|y: int| 0 <= y < 9 implies no_dup(#[trigger] col_vals(b, y)) by {
        assert(no_dup(col_vals(s, y)));
        assert forall|k1: int, k2: int| 0 <= k1 < 9 && 0 <= k2 < 9 && k1 != k2 && #[trigger] col_vals(b, y)[k1] != 0
            implies col_vals(b, y)[k1] != #[trigger] col_vals(b, y)[k2] by {
            assert(col_vals(s, y)[k1] == col_vals(b, y)[k1]);
            if col_vals(b, y)[k2] != 0 {
                assert(col_vals(s, y)[k2] == col_vals(b, y)[k2]);
            }
        }
    }
    assert forall|x: int, y: int| 0 <= x < 9 && 0 <= y < 9 implies no_dup(#[trigger] box_vals(b, x, y)) by {
        assert(no_dup(box_vals(s, x, y)));
        assert forall|k1: int, k2: int| 0 <= k1 < 9 && 0 <= k2 < 9 && k1 != k2 && #[trigger] box_vals(b, x, y)[k1] != 0
            implies box_vals(b, x, y)[k1] != #[trigger] box_vals(b, x, y)[k2] by {
            assert(box_vals(s, x, y)[k1] == box_vals(b, x, y)[k1]);
            if box_vals(b, x, y)[k2] != 0 {
                assert(box_vals(s, x, y)[k2] == box_vals(b, x, y)[k2]);
            }
        }
    }
}

/// Solving succeeds exactly on the boards that have a solution, and what it
/// returns is one of them.
pub proof fn lemma_solved_iff_solution(b: Seq<u8>)
    requires
        cells_ok(b),
    ensures
        solved(b) is Some <==> exists|s: Seq<u8>| is_solution(b, s),
        solved(b) matches Some(s) ==> is_solution(b, s),
{
    if legal(b) && search_from(b, 1) is Some {
        lemma_search_sound(b, 1);
    }
    if exists|s: Seq<u8>| is_solution(b, s) {
        let s = choose|s: Seq<u8>| is_solution(b, s);
        lemma_clues_legal(b, s);
        lemma_first_empty_from(b, 0);
        if let Some(p) = first_empty(b) {
            assert(s[p] != 0);
        }
        lemma_search_complete(b, 1, s);
    }
}

/// The digits `1..=9`.
pub open spec fn digits() -> Set<u8> {
    Set::new(|d: u8| 1 <= d <= 9)
}

/// Nine digits without a repeat are all nine digits.
proof fn lemma_nine_digits(u: Seq<u8>)
    requires
        u.len() == 9,
        forall|k: int| 0 <= k < 9 ==> 1 <= #[trigger] u[k] <= 9,
        no_dup(u),
    ensures
        u.to_set() == digits(),
{
    let w = u.map_values(|x: u8| x as int);
    assert(w.no_duplicates()) by {
        assert forall|k1: int, k2: int| 0 <= k1 < w.len() && 0 <= k2 < w.len() && k1 != k2 implies w[k1] != w[k2] by {
            assert(u[k1] != 0);
        }
    }
    w.unique_seq_to_set();
    lemma_int_range(1, 10);
    assert forall|d: u8| 1 <= d <= 9 implies u.contains(d) by {
        if !u.contains(d) {
            let r = set_int_range(1, 10).remove(d as int);
            assert forall|x: int| w.to_set().contains(x) implies r.contains(x) by {
                let k = choose|k: int| 0 <= k < w.len() && w[k] == x;
                assert(u[k] as int == x);
            }
            lemma_len_subset(w.to_set(), r);
        }
    }
    assert(u.to_set() =~= digits());
}

/// A full, legal board holds every digit once in each row, column and block.
pub proof fn lemma_full_legal_units(s: Seq<u8>)
    requires
        cells_ok(s),
        full(s),
        legal(s),
    ensures
        forall|i: int| 0 <= i < 9 ==> (#[trigger] row_vals(s, i)).to_set() == digits(),
        forall|j: int| 0 <= j < 9 ==> (#[trigger] col_vals(s, j)).to_set() == digits(),
        forall|i: int, j: int| 0 <= i < 9 && 0 <= j < 9 ==> (#[trigger] box_vals(s, i, j)).to_set() == digits(),
{
    assert forall|i: int| 0 <= i < 9 implies (#[trigger] row_vals(s, i)).to_set() == digits() by {
        assert forall|k: int| 0 <= k < 9 implies 1 <= #[trigger] row_vals(s, i)[k] <= 9 by {
            assert(s[9 * i + k] != 0);
        }
        lemma_nine_digits(row_vals(s, i));
    }
    assert forall|j: int| 0 <= j < 9 implies (#[trigger] col_vals(s, j)).to_set() == digits() by {
        assert forall|k: int| 0 <= k < 9 implies 1 <= #[trigger] col_vals(s, j)[k] <= 9 by {
            assert(s[9 * k + j] != 0);
        }
        lemma_nine_digits(col_vals(s, j));
    }
    assert forall|i: int, j: int| 0 <= i < 9 && 0 <= j < 9 implies (#[trigger] box_vals(s, i, j)).to_set() == digits() by {
        assert forall|k: int| 0 <= k < 9 implies 1 <= #[trigger] box_vals(s, i, j)[k] <= 9 by {
            assert(s[box_cell(i, j, k)] != 0);
        }
        lemma_nine_digits(box_vals(s, i, j));
    }
}

/// A board that solving fills holds every digit exactly once in each row,
/// each column and each block.
pub proof fn lemma_solved_rows_cols_blocks(b: Seq<u8>)
    requires
        cells_ok(b),
        solved(b) is Some,
    ensures
        forall|i: int| 0 <= i < 9 ==> (#[trigger] row_vals(solved(b)->Some_0, i)).to_set() == digits(),
        forall|j: int| 0 <= j < 9 ==> (#[trigger] col_vals(solved(b)->Some_0, j)).to_set() == digits(),
        forall|i: int, j: int| 0 <= i < 9 && 0 <= j < 9 ==> (#[trigger] box_vals(solved(b)->Some_0, i, j)).to_set() == digits(),
{
    lemma_solved_iff_solution(b);
    lemma_full_legal_units(solved(b)->Some_0);
}

/// A board that solving fills keeps every cell that was filled before.
pub proof fn lemma_solved_keeps_clues(b: Seq<u8>)
    requires
        cells_ok(b),
        solved(b) is Some,
    ensures
        forall|p: int| 0 <= p < 81 && #[trigger] b[p] != 0 ==> solved(b)->Some_0[p] == b[p],
{
    lemma_solved_iff_solution(b);
}

/// Two equal boards are solved to the same board, or both fail.
pub proof fn lemma_solve_deterministic(b1: Seq<u8>, b2: Seq<u8>)
    requires
        cells_ok(b1),
        b1 == b2,
    ensures
        solved(b1) == solved(b2),
{
}

/// A board whose row holds one digit twice cannot be solved.
pub proof fn lemma_repeated_digit_unsolvable(b: Seq<u8>, i: int, k1: int, k2: int)
    requires
        cells_ok(b),
        0 <= i < 9,
        0 <= k1 < 9,
        0 <= k2 < 9,
        k1 != k2,
        b[9 * i + k1] != 0,
        b[9 * i + k1] == b[9 * i + k2],
    ensures
        solved(b) is None,
{
    assert(row_vals(b, i)[k1] == row_vals(b, i)[k2]);
}

/// Solving a full, legal board succeeds and leaves it as it is.
pub proof fn lemma_full_board_unchanged(b: Seq<u8>)
    requires
        cells_ok(b),
        full(b),
        legal(b),
    ensures
        solved(b) == Some(b),
{
    lemma_first_empty_from(b, 0);
}

/// The cell that a character of a board's text stands for: a space for an
/// empty cell, a decimal digit for that digit.
pub open spec fn char_cell(c: char) -> Option<u8> {
    if c == ' ' {
        Some(0)
    } else if '0' <= c <= '9' {
        Some((c as u32 - '0' as u32) as u8)
    } else {
        None
    }
}

/// The first nine rows of `rows` have nine characters or more, and each of
/// their first nine characters stands for a cell.
pub open spec fn rows_readable(rows: Seq<Seq<char>>) -> bool {
    &&& rows.len() >= 9
    &&& forall|i: int| 0 <= i < 9 ==> (#[trigger] rows[i]).len() >= 9
    &&& forall|i: int, j: int| 0 <= i < 9 && 0 <= j < 9 ==> (#[trigger] char_cell(rows[i][j])) is Some
}

/// A Sudoku board.
pub struct Sudoku {
    board: [u8; 81],
}

impl View for Sudoku {
    type V = Seq<u8>;

    /// The cells, row-major.
    closed spec fn view(&self) -> Seq<u8> {
        self.board@
    }
}

impl Sudoku {
    /// Every cell holds `0` or a digit.
    pub open spec fn wf(&self) -> bool {
        cells_ok(self@)
    }

    /// The board with the given rows; `None` when a value is above 9.
    pub fn from_grid(grid: [[u8; 9]; 9]) -> (r: Option<Sudoku>)
        ensures
            r is Some <==> forall|i: int, j: int| 0 <= i < 9 && 0 <= j < 9 ==> #[trigger] grid[i][j] <= 9,
            r matches Some(s) ==> s.wf() && forall|i: int, j: int| 0 <= i < 9 && 0 <= j < 9 ==> s@[9 * i + j] == #[trigger] grid[i][j],
    {
        let mut board = [0u8; 81];
        let mut i: usize = 0;
        while i < 9
            invariant
                i <= 9,
                board@.len() == 81,
                forall|p: int| 0 <= p < 81 ==> #[trigger] board@[p] <= 9,
                forall|x: int, y: int| 0 <= x < i && 0 <= y < 9 ==> #[trigger] grid[x][y] <= 9,
                forall|x: int, y: int| 0 <= x < i && 0 <= y < 9 ==> board@[9 * x + y] == #[trigger] grid[x][y],
            decreases 9 - i,
        {
            let mut j: usize = 0;
            while j < 9
                invariant
                    i < 9,
                    j <= 9,
                    board@.len() == 81,
                    forall|p: int| 0 <= p < 81 ==> #[trigger] board@[p] <= 9,
                    forall|x: int, y: int| 0 <= x < i && 0 <= y < 9 ==> #[trigger] grid[x][y] <= 9,
                    forall|x: int, y: int| 0 <= x < i && 0 <= y < 9 ==> board@[9 * x + y] == #[trigger] grid[x][y],
                    forall|y: int| 0 <= y < j ==> #[trigger] grid[i as int][y] <= 9,
                    forall|y: int| 0 <= y < j ==> board@[9 * i + y] == #[trigger] grid[i as int][y],
                decreases 9 - j,
            {
                let v = grid[i][j];
                if v > 9 {
                    return None;
                }
                board[9 * i + j] = v;
                j += 1;
            }
            i += 1;
        }
        Some(Sudoku { board })
    }

    /// The board written in `rows`, one row per line: a space stands for an
    /// empty cell and a decimal digit for that digit. Only the first nine
    /// characters of the first nine rows are read. `None` when a row or a
    /// character is missing, or a character stands for no cell.
    pub fn from_rows(rows: &Vec<Vec<char>>) -> (r: Option<Sudoku>)
        ensures
            r is Some <==> rows_readable(rows@.map_values(|row: Vec<char>| row@)),
            r matches Some(s) ==> s.wf() && forall|i: int, j: int| 0 <= i < 9 && 0 <= j < 9
                ==> s@[9 * i + j] == (#[trigger] char_cell(rows@[i]@[j]))->Some_0,
    {
        let ghost text = rows@.map_values(|row: Vec<char>| row@);
        if rows.len() < 9 {
            return None;
        }
        let mut board = [0u8; 81];
        let mut i: usize = 0;
        while i < 9
            invariant
                i <= 9,
                rows@.len() >= 9,
                text == rows@.map_values(|row: Vec<char>| row@),
                board@.len() == 81,
                forall|p: int| 0 <= p < 81 ==> #[trigger] board@[p] <= 9,
                forall|x: int| 0 <= x < i ==> (#[trigger] text[x]).len() >= 9,
                forall|x: int, y: int| 0 <= x < i && 0 <= y < 9 ==> (#[trigger] char_cell(text[x][y])) is Some,
                forall|x: int, y: int| 0 <= x < i && 0 <= y < 9 ==> board@[9 * x + y] == (#[trigger] char_cell(rows@[x]@[y]))->Some_0,
            decreases 9 - i,
        {
            let row = &rows[i];
            if row.len() < 9 {
                assert(text[i as int] == row@);
                return None;
            }
            let mut j: usize = 0;
            while j < 9
                invariant
                    i < 9,
                    j <= 9,
                    rows@.len() >= 9,
                    *row == rows@[i as int],
                    row@.len() >= 9,
                    text == rows@.map_values(|row: Vec<char>| row@),
                    board@.len() == 81,
                    forall|p: int| 0 <= p < 81 ==> #[trigger] board@[p] <= 9,
                    forall|x: int| 0 <= x < i ==> (#[trigger] text[x]).len() >= 9,
                    forall|x: int, y: int| 0 <= x < i && 0 <= y < 9 ==> (#[trigger] char_cell(text[x][y])) is Some,
                    forall|x: int, y: int| 0 <= x < i && 0 <= y < 9 ==> board@[9 * x + y] == (#[trigger] char_cell(rows@[x]@[y]))->Some_0,
                    forall|y: int| 0 <= y < j ==> (#[trigger] char_cell(row@[y])) is Some,
                    forall|y: int| 0 <= y < j ==> board@[9 * i + y] == (#[trigger] char_cell(row@[y]))->Some_0,
                decreases 9 - j,
            {
                let ch = row[j];
                let v: u8 = if ch == ' ' {
                    0
                } else if '0' <= ch && ch <= '9' {
                    (ch as u32 - '0' as u32) as u8
                } else {
                    assert(char_cell(text[i as int][j as int]) is None);
                    return None;
                };
                board[9 * i + j] = v;
                j += 1;
            }
            assert(text[i as int] == row@);
            i += 1;
        }
        Some(Sudoku { board })
    }

    /// The value of cell `(row, col)`: `0` when empty.
    pub fn cell_value(&self, row: usize, col: usize) -> (r: u8)
        requires
            row < 9,
            col < 9,
        ensures
            r == self@[9 * row + col],
    {
        proof {
            lemma_board_len(self);
        }
        self.board[9 * row + col]
    }

    /// Overwrites cell `(row, col)` with `digit`, `0` to empty it.
    pub fn set_cell(&mut self, row: usize, col: usize, digit: u8)
        requires
            old(self).wf(),
            row < 9,
            col < 9,
            digit <= 9,
        ensures
            final(self).wf(),
            final(self)@ == old(self)@.update(9 * row + col, digit),
    {
        self.board[9 * row + col] = digit;
    }

    /// The values of row `i`, left to right.
    pub fn get_row(&self, i: usize) -> (r: Vec<u8>)
        requires
            i < 9,
        ensures
            r@ == row_vals(self@, i as int),
    {
        proof {
            lemma_board_len(self);
        }
        let mut r: Vec<u8> = Vec::new();
        let mut k: usize = 0;
        while k < 9
            invariant
                k <= 9,
                i < 9,
                self@.len() == 81,
                r@ == row_vals(self@, i as int).take(k as int),
            decreases 9 - k,
        {
            r.push(self.board[9 * i + k]);
            k += 1;
            assert(r@ =~= row_vals(self@, i as int).take(k as int));
        }
        assert(r@ =~= row_vals(self@, i as int));
        r
    }

    /// The values of column `j`, top to bottom.
    pub fn get_col(&self, j: usize) -> (r: Vec<u8>)
        requires
            j < 9,
        ensures
            r@ == col_vals(self@, j as int),
    {
        proof {
            lemma_board_len(self);
        }
        let mut r: Vec<u8> = Vec::new();
        let mut k: usize = 0;
        while k < 9
            invariant
                k <= 9,
                j < 9,
                self@.len() == 81,
                r@ == col_vals(self@, j as int).take(k as int),
            decreases 9 - k,
        {
            r.push(self.board[9 * k + j]);
            k += 1;
            assert(r@ =~= col_vals(self@, j as int).take(k as int));
        }
        assert(r@ =~= col_vals(self@, j as int));
        r
    }

    /// The values of the 3x3 block holding cell `(i, j)`, row-major.
    pub fn get_subgrid(&self, i: usize, j: usize) -> (r: Vec<u8>)
        requires
            i < 9,
            j < 9,
        ensures
            r@ == box_vals(self@, i as int, j as int),
    {
        proof {
            lemma_board_len(self);
        }
        let row_start: usize = if i < 3 {
            0
        } else if i < 6 {
            3
        } else {
            6
        };
        let col_start: usize = if j < 3 {
            0
        } else if j < 6 {
            3
        } else {
            6
        };
        assert(row_start == 3 * (i / 3) && col_start == 3 * (j / 3));
        let mut r: Vec<u8> = Vec::new();
        let mut x: usize = 0;
        while x < 3
            invariant
                x <= 3,
                i < 9,
                j < 9,
                row_start == 3 * (i / 3),
                col_start == 3 * (j / 3),
                self@.len() == 81,
                r@ == box_vals(self@, i as int, j as int).take(3 * x),
            decreases 3 - x,
        {
            let mut y: usize = 0;
            while y < 3
                invariant
                    x < 3,
                    y <= 3,
                    i < 9,
                    j < 9,
                    row_start == 3 * (i / 3),
                    col_start == 3 * (j / 3),
                    self@.len() == 81,
                    r@ == box_vals(self@, i as int, j as int).take(3 * x + y),
                decreases 3 - y,
            {
                r.push(self.board[9 * (row_start + x) + col_start + y]);
                y += 1;
                assert(r@ =~= box_vals(self@, i as int, j as int).take(3 * x + y));
            }
            x += 1;
        }
        assert(r@ =~= box_vals(self@, i as int, j as int));
        r
    }

    /// The first empty cell in row-major order, as `(row, col)`; `None` when
    /// every cell is filled.
    pub fn get_first_empty_cell(&self) -> (r: Option<(usize, usize)>)
        ensures
            r is None <==> first_empty(self@) is None,
            r matches Some((i, j)) ==> i < 9 && j < 9 && first_empty(self@) == Some(9 * i + j),
    {
        proof {
            lemma_board_len(self);
        }
        let mut p: usize = 0;
        while p < CELLS
            invariant
                p <= 81,
                self@.len() == 81,
                first_empty_from(self@, p as int) == first_empty(self@),
            decreases 81 - p,
        {
            if self.board[p] == 0 {
                return Some((p / 9, p % 9));
            }
            p += 1;
        }
        None
    }

    /// Whether no row, column or block holds a non-zero digit twice.
    pub fn is_legal(&self) -> (r: bool)
        ensures
            r == legal(self@),
    {
        let mut i: usize = 0;
        while i < 9
            invariant
                i <= 9,
                forall|x: int| 0 <= x < i ==> no_dup(#[trigger] row_vals(self@, x)),
                forall|x: int| 0 <= x < i ==> no_dup(#[trigger] col_vals(self@, x)),
            decreases 9 - i,
        {
            let row = self.get_row(i);
            if !distinct_digits(&row) {
                return false;
            }
            let col = self.get_col(i);
            if !distinct_digits(&col) {
                return false;
            }
            i += 1;
        }
        let mut u: usize = 0;
        while u < 9
            invariant
                u <= 9,
                forall|x: int| 0 <= x < 9 ==> no_dup(#[trigger] row_vals(self@, x)),
                forall|x: int| 0 <= x < 9 ==> no_dup(#[trigger] col_vals(self@, x)),
                forall|x: int| 0 <= x < u ==> no_dup(#[trigger] box_vals(self@, 3 * (x / 3), 3 * (x % 3))),
            decreases 9 - u,
        {
            let block = self.get_subgrid(3 * (u / 3), 3 * (u % 3));
            if !distinct_digits(&block) {
                proof {
                    lemma_box_corner(self@, 3 * (u / 3) as int, 3 * (u % 3) as int);
                }
                return false;
            }
            u += 1;
        }
        proof {
            assert forall|i: int, j: int| 0 <= i < 9 && 0 <= j < 9 implies no_dup(#[trigger] box_vals(self@, i, j)) by {
                lemma_box_corner(self@, i, j);
                let x = 3 * (i / 3) + j / 3;
                assert(3 * (x / 3) == 3 * (i / 3) && 3 * (x % 3) == 3 * (j / 3));
                assert(no_dup(box_vals(self@, 3 * (x / 3), 3 * (x % 3))));
            }
        }
        true
    }

    /// Solves the board in place. Returns `true` when it is solved: the board
    /// then holds the first solution in row-major, ascending-digit order.
    /// Returns `false` when the board breaks the rules or cannot be
    /// completed, and leaves it as it was.
    pub fn solve(&mut self) -> (r: bool)
        requires
            old(self).wf(),
        ensures
            final(self).wf(),
            r == solved(old(self)@) is Some,
            r ==> solved(old(self)@) == Some(final(self)@),
            !r ==> final(self)@ == old(self)@,
            r <==> exists|s: Seq<u8>| is_solution(old(self)@, s),
            r ==> is_solution(old(self)@, final(self)@),
    {
        proof {
            lemma_solved_iff_solution(self@);
        }
        if !self.is_legal() {
            return false;
        }
        self.is_solvable()
    }

    /// Fills the empty cells by depth-first search: at the first empty cell
    /// it tries each candidate in ascending order and undoes it when the rest
    /// cannot be completed. On failure the board is left as it was.
    pub fn is_solvable(&mut self) -> (r: bool)
        requires
            old(self).wf(),
        ensures
            final(self).wf(),
            r == search_from(old(self)@, 1) is Some,
            r ==> search_from(old(self)@, 1) == Some(final(self)@),
            !r ==> final(self)@ == old(self)@,
        decreases empty_count(old(self)@),
    {
        proof {
            lemma_board_len(self);
        }
        let first = self.get_first_empty_cell();
        match first {
            None => true,
            Some((r, c)) => {
                let ghost b0 = self@;
                let ghost p = 9 * r + c;
                assert(p / 9 == r && p % 9 == c);
                proof {
                    lemma_first_empty_from(b0, 0);
                }
                let options = self.get_possible(r, c);
                let mut k: usize = 0;
                while k < options.len()
                    invariant
                        self@ == b0,
                        old(self)@ == b0,
                        cells_ok(b0),
                        r < 9,
                        c < 9,
                        p == 9 * r + c,
                        p / 9 == r,
                        p % 9 == c,
                        first_empty(b0) == Some(p),
                        b0[p] == 0,
                        k <= options@.len(),
                        forall|m: int| 0 <= m < options@.len() ==> candidate(b0, r as int, c as int, #[trigger] options@[m] as int),
                        forall|m1: int, m2: int| 0 <= m1 < m2 < options@.len() ==> #[trigger] options@[m1] < #[trigger] options@[m2],
                        forall|d: int| candidate(b0, r as int, c as int, d) ==> #[trigger] options@.contains(d as u8),
                        search_from(b0, 1) == search_from(b0, if k == 0 { 1 } else { options@[k - 1] + 1 }),
                    decreases options@.len() - k,
                {
                    let num = options[k];
                    proof {
                        let lo = if k == 0 { 1 } else { options@[k as int - 1] + 1 };
                        lemma_gap(b0, p, options@, k as int, lo, num as int);
                        if k > 0 {
                            assert(options@[k as int - 1] < options@[k as int]);
                        }
                        lemma_skip(b0, p, lo, num as int);
                        lemma_fill_one(b0, p, num);
                    }
                    self.board[9 * r + c] = num;
                    assert(self@ == b0.update(p, num));
                    assert(candidate(b0, p / 9, p % 9, num as int));
                    if self.is_solvable() {
                        return true;
                    }
                    self.board[9 * r + c] = 0;
                    assert(self@ =~= b0);
                    k += 1;
                }
                proof {
                    let lo = if k == 0 { 1 } else { options@[k as int - 1] + 1 };
                    lemma_gap(b0, p, options@, k as int, lo, 10);
                    lemma_skip(b0, p, lo, 10);
                }
                false
            },
        }
    }

    /// The digits that may be written at cell `(i, j)`, in ascending order.
    pub fn get_possible(&self, i: usize, j: usize) -> (r: Vec<u8>)
        requires
            i < 9,
            j < 9,
        ensures
            forall|k: int| 0 <= k < r@.len() ==> candidate(self@, i as int, j as int, #[trigger] r@[k] as int),
            forall|k1: int, k2: int| 0 <= k1 < k2 < r@.len() ==> #[trigger] r@[k1] < #[trigger] r@[k2],
            forall|d: int| candidate(self@, i as int, j as int, d) ==> #[trigger] r@.contains(d as u8),
    {
        let row = self.get_row(i);
        let col = self.get_col(j);
        let subgrid = self.get_subgrid(i, j);
        let mut possible: Vec<u8> = Vec::new();
        let mut option: u8 = 1;
        while option <= 9
            invariant
                1 <= option <= 10,
                row@ == row_vals(self@, i as int),
                col@ == col_vals(self@, j as int),
                subgrid@ == box_vals(self@, i as int, j as int),
                forall|k: int| 0 <= k < possible@.len() ==> candidate(self@, i as int, j as int, #[trigger] possible@[k] as int),
                forall|k: int| 0 <= k < possible@.len() ==> #[trigger] possible@[k] < option,
                forall|k1: int, k2: int| 0 <= k1 < k2 < possible@.len() ==> #[trigger] possible@[k1] < #[trigger] possible@[k2],
                forall|d: int| 1 <= d < option && candidate(self@, i as int, j as int, d) ==> #[trigger] possible@.contains(d as u8),
            decreases 10 - option,
        {
            let ghost before = possible@;
            if !holds(&row, option) && !holds(&col, option) && !holds(&subgrid, option) {
                possible.push(option);
                assert(possible@.last() == option);
            }
            proof {
                assert forall|d: int| 1 <= d < option + 1 && candidate(self@, i as int, j as int, d) implies #[trigger] possible@.contains(d as u8) by {
                    if d == option {
                        assert(possible@.last() == option);
                    } else {
                        assert(before.contains(d as u8));
                        let k = choose|k: int| 0 <= k < before.len() && before[k] == d as u8;
                        assert(possible@[k] == d as u8);
                    }
                }
            }
            option += 1;
        }
        possible
    }
}

/// Whether `v` holds `x`.
fn holds(v: &Vec<u8>, x: u8) -> (r: bool)
    ensures
        r == v@.contains(x),
{
    let mut k: usize = 0;
    while k < v.len()
        invariant
            k <= v.len(),
            forall|m: int| 0 <= m < k ==> v@[m] != x,
        decreases v.len() - k,
    {
        if v[k] == x {
            return true;
        }
        k += 1;
    }
    false
}

/// Where no digit in `d..e` may be written at the first empty cell, trying
/// the digits from `d` reaches what trying them from `e` reaches.
proof fn lemma_skip(b: Seq<u8>, p: int, d: int, e: int)
    requires
        b.len() == 81,
        first_empty(b) == Some(p),
        1 <= d <= e <= 10,
        forall|x: int| d <= x < e ==> !#[trigger] candidate(b, p / 9, p % 9, x),
    ensures
        search_from(b, d) == search_from(b, e),
    decreases e - d,
{
    if d < e {
        lemma_skip(b, p, d + 1, e);
    }
}

/// A sorted list of digits that holds every candidate of `b` at `p` leaves
/// out no candidate between two of its neighbouring entries.
proof fn lemma_gap(b: Seq<u8>, p: int, opts: Seq<u8>, k: int, lo: int, hi: int)
    requires
        0 <= k <= opts.len(),
        forall|m1: int, m2: int| 0 <= m1 < m2 < opts.len() ==> #[trigger] opts[m1] < #[trigger] opts[m2],
        forall|d: int| candidate(b, p / 9, p % 9, d) ==> #[trigger] opts.contains(d as u8),
        lo == if k == 0 { 1 } else { opts[k - 1] + 1 },
        hi == if k == opts.len() { 10 } else { opts[k] as int },
    ensures
        forall|x: int| lo <= x < hi ==> !#[trigger] candidate(b, p / 9, p % 9, x),
{
    assert forall|x: int| lo <= x < hi implies !#[trigger] candidate(b, p / 9, p % 9, x) by {
        if candidate(b, p / 9, p % 9, x) {
            assert(opts.contains(x as u8));
            let m = choose|m: int| 0 <= m < opts.len() && opts[m] == x as u8;
            if m < k {
                if m < k - 1 {
                    assert(opts[m] < opts[k - 1]);
                }
            } else if m > k {
                assert(opts[k] < opts[m]);
            }
        }
    }
}

/// Whether no non-zero digit occurs twice among the nine values of `v`.
fn distinct_digits(v: &Vec<u8>) -> (r: bool)
    requires
        v@.len() == 9,
    ensures
        r == no_dup(v@),
{
    let mut k1: usize = 0;
    while k1 < 9
        invariant
            v@.len() == 9,
            k1 <= 9,
            forall|a: int, c: int| 0 <= a < k1 && 0 <= c < 9 && a != c && #[trigger] v@[a] != 0 ==> v@[a] != #[trigger] v@[c],
        decreases 9 - k1,
    {
        let mut k2: usize = 0;
        while k2 < 9
            invariant
                v@.len() == 9,
                k1 < 9,
                k2 <= 9,
                forall|a: int, c: int| 0 <= a < k1 && 0 <= c < 9 && a != c && #[trigger] v@[a] != 0 ==> v@[a] != #[trigger] v@[c],
                forall|c: int| 0 <= c < k2 && k1 != c && v@[k1 as int] != 0 ==> v@[k1 as int] != #[trigger] v@[c],
            decreases 9 - k2,
        {
            if k1 != k2 && v[k1] != 0 && v[k1] == v[k2] {
                return false;
            }
            k2 += 1;
        }
        k1 += 1;
    }
    true
}

/// The block of cell `(i, j)` is the block that starts at its top-left corner.
proof fn lemma_box_corner(b: Seq<u8>, i: int, j: int)
    requires
        0 <= i < 9,
        0 <= j < 9,
    ensures
        box_vals(b, i, j) == box_vals(b, 3 * (i / 3), 3 * (j / 3)),
{
    assert(box_vals(b, i, j) =~= box_vals(b, 3 * (i / 3), 3 * (j / 3)));
}

/// A board has 81 cells.
proof fn lemma_board_len(s: &Sudoku)
    ensures
        s@.len() == 81,
{
}

} // verus!
