use rustlabs::sudoku::Sudoku;

const PUZZLE: [&str; 9] = [
    "53  7    ",
    "6  195   ",
    " 98    6 ",
    "8   6   3",
    "4  8 3  1",
    "7   2   6",
    " 6    28 ",
    "   419  5",
    "    8  79",
];

const SOLUTION: [[u8; 9]; 9] = [
    [5, 3, 4, 6, 7, 8, 9, 1, 2],
    [6, 7, 2, 1, 9, 5, 3, 4, 8],
    [1, 9, 8, 3, 4, 2, 5, 6, 7],
    [8, 5, 9, 7, 6, 1, 4, 2, 3],
    [4, 2, 6, 8, 5, 3, 7, 9, 1],
    [7, 1, 3, 9, 2, 4, 8, 5, 6],
    [9, 6, 1, 5, 3, 7, 2, 8, 4],
    [2, 8, 7, 4, 1, 9, 6, 3, 5],
    [3, 4, 5, 2, 8, 6, 1, 7, 9],
];

fn rows_of(lines: &[&str]) -> Vec<Vec<char>> {
    lines.iter().map(|l| l.chars().collect()).collect()
}

fn puzzle() -> Sudoku {
    Sudoku::from_rows(&rows_of(&PUZZLE)).unwrap()
}

fn cells(s: &Sudoku) -> Vec<u8> {
    let mut v = Vec::new();
    for i in 0..9 {
        for j in 0..9 {
            v.push(s.cell_value(i, j));
        }
    }
    v
}

fn assert_complete_and_legal(s: &Sudoku) {
    let all: Vec<u8> = (1..=9).collect();
    for i in 0..9 {
        let mut row = s.get_row(i);
        row.sort();
        assert_eq!(row, all);
        let mut col = s.get_col(i);
        col.sort();
        assert_eq!(col, all);
        let mut block = s.get_subgrid(3 * (i / 3), 3 * (i % 3));
        block.sort();
        assert_eq!(block, all);
    }
}

#[test]
fn known_puzzle_matches_its_solution() {
    let mut s = puzzle();
    assert!(s.solve());
    for i in 0..9 {
        for j in 0..9 {
            assert_eq!(s.cell_value(i, j), SOLUTION[i][j]);
        }
    }
}

#[test]
fn solution_keeps_clues_and_is_legal() {
    let before = puzzle();
    let mut s = puzzle();
    assert!(s.solve());
    for i in 0..9 {
        for j in 0..9 {
            let clue = before.cell_value(i, j);
            if clue != 0 {
                assert_eq!(s.cell_value(i, j), clue);
            }
        }
    }
    assert_complete_and_legal(&s);
}

#[test]
fn equal_boards_solve_alike() {
    let mut a = puzzle();
    let mut b = puzzle();
    assert!(a.solve());
    assert!(b.solve());
    assert_eq!(cells(&a), cells(&b));
    let mut e1 = Sudoku::from_grid([[0u8; 9]; 9]).unwrap();
    let mut e2 = Sudoku::from_grid([[0u8; 9]; 9]).unwrap();
    assert!(e1.solve());
    assert!(e2.solve());
    assert_eq!(cells(&e1), cells(&e2));
}

#[test]
fn repeated_digit_in_row_is_unsolvable() {
    let mut grid = [[0u8; 9]; 9];
    grid[0][0] = 4;
    grid[0][7] = 4;
    let mut s = Sudoku::from_grid(grid).unwrap();
    assert!(!s.is_legal());
    assert!(!s.solve());
    let mut expected = vec![0u8; 81];
    expected[0] = 4;
    expected[7] = 4;
    assert_eq!(cells(&s), expected);
}

#[test]
fn repeated_digit_in_full_board_is_unsolvable() {
    let mut grid = SOLUTION;
    grid[0][0] = grid[0][1];
    let mut s = Sudoku::from_grid(grid).unwrap();
    assert!(!s.solve());
}

#[test]
fn solved_board_is_left_as_is() {
    let mut s = Sudoku::from_grid(SOLUTION).unwrap();
    assert!(s.is_legal());
    assert_eq!(s.get_first_empty_cell(), None);
    assert!(s.solve());
    for i in 0..9 {
        for j in 0..9 {
            assert_eq!(s.cell_value(i, j), SOLUTION[i][j]);
        }
    }
}

#[test]
fn empty_board_is_solved_legally() {
    let mut s = Sudoku::from_grid([[0u8; 9]; 9]).unwrap();
    assert!(s.solve());
    assert_complete_and_legal(&s);
    assert_eq!(s.get_row(0), vec![1, 2, 3, 4, 5, 6, 7, 8, 9]);
}

#[test]
fn dead_end_board_is_restored() {
    let mut grid = [[0u8; 9]; 9];
    for j in 0..8 {
        grid[0][j] = (j + 1) as u8;
    }
    grid[1][8] = 9;
    let mut s = Sudoku::from_grid(grid).unwrap();
    assert!(s.is_legal());
    assert_eq!(s.get_possible(0, 8), Vec::<u8>::new());
    let before = cells(&s);
    assert!(!s.solve());
    assert_eq!(cells(&s), before);
}

#[test]
fn candidates_of_a_cell() {
    let s = puzzle();
    assert_eq!(s.get_possible(0, 2), vec![1, 2, 4]);
    assert_eq!(s.get_possible(4, 4), vec![5]);
    assert_eq!(s.get_row(0), vec![5, 3, 0, 0, 7, 0, 0, 0, 0]);
    assert_eq!(s.get_col(0), vec![5, 6, 0, 8, 4, 7, 0, 0, 0]);
    assert_eq!(s.get_subgrid(8, 8), vec![2, 8, 0, 0, 0, 5, 0, 7, 9]);
    assert_eq!(s.get_subgrid(4, 1), vec![8, 0, 0, 4, 0, 0, 7, 0, 0]);
}

#[test]
fn first_empty_cell_is_row_major() {
    let mut s = puzzle();
    assert_eq!(s.get_first_empty_cell(), Some((0, 2)));
    s.set_cell(0, 2, 4);
    assert_eq!(s.get_first_empty_cell(), Some((0, 3)));
    assert_eq!(s.cell_value(0, 2), 4);
    s.set_cell(0, 2, 0);
    assert_eq!(s.get_first_empty_cell(), Some((0, 2)));
}

#[test]
fn rows_with_digits_and_spaces_are_read() {
    let s = puzzle();
    assert_eq!(s.cell_value(0, 0), 5);
    assert_eq!(s.cell_value(0, 2), 0);
    assert_eq!(s.cell_value(8, 8), 9);
    let mut lines: Vec<String> = PUZZLE.iter().map(|l| format!("{}xyz", l)).collect();
    lines.push(String::from("extra"));
    let rows: Vec<Vec<char>> = lines.iter().map(|l| l.chars().collect()).collect();
    let t = Sudoku::from_rows(&rows).unwrap();
    assert_eq!(cells(&t), cells(&s));
    let zeros = Sudoku::from_rows(&rows_of(&["000000000"; 9])).unwrap();
    assert_eq!(zeros.get_first_empty_cell(), Some((0, 0)));
}

#[test]
fn unreadable_rows_are_refused() {
    assert!(Sudoku::from_rows(&rows_of(&PUZZLE[..8])).is_none());
    let mut short = PUZZLE;
    short[3] = "8   6   ";
    assert!(Sudoku::from_rows(&rows_of(&short)).is_none());
    let mut bad = PUZZLE;
    bad[5] = "7   x   6";
    assert!(Sudoku::from_rows(&rows_of(&bad)).is_none());
}

#[test]
fn grid_with_value_above_nine_is_refused() {
    let mut grid = [[0u8; 9]; 9];
    grid[8][8] = 10;
    assert!(Sudoku::from_grid(grid).is_none());
    grid[8][8] = 9;
    assert!(Sudoku::from_grid(grid).is_some());
}
