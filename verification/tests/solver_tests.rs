use killer_sudoku::board::Board;
use killer_sudoku::cage_table::CageTable;
use killer_sudoku::solver::{brute_force_with_backtracking,
    brute_force_with_backtracking_and_cage_table, simple_brute_force_function};

fn sample_solution_rows() -> Vec<Vec<i32>> {
    vec![
        vec![2, 1, 5, 6, 4, 7, 3, 9, 8],
        vec![3, 6, 8, 9, 5, 2, 1, 7, 4],
        vec![7, 9, 4, 3, 8, 1, 6, 5, 2],
        vec![5, 8, 6, 2, 7, 4, 9, 3, 1],
        vec![1, 4, 2, 5, 9, 3, 8, 6, 7],
        vec![9, 7, 3, 8, 1, 6, 4, 2, 5],
        vec![8, 2, 1, 7, 3, 9, 5, 4, 6],
        vec![6, 5, 9, 4, 2, 8, 7, 1, 3],
        vec![4, 3, 7, 1, 6, 5, 2, 8, 9],
    ]
}

fn assert_grid_is(board: &Board, rows: &[Vec<i32>]) {
    for y in 0..9 {
        for x in 0..9 {
            assert_eq!(board.get_value(x, y), rows[y][x], "cell ({}, {})", x, y);
        }
    }
}

#[test]
fn backtracking_solves_sample_puzzle() {
    let mut board = Board::sample_puzzle();
    assert!(brute_force_with_backtracking(&mut board));
    assert!(board.is_finished());
    assert_grid_is(&board, &sample_solution_rows());
}

#[test]
fn naive_enumeration_solves_sample_puzzle() {
    let mut board = Board::sample_puzzle();
    assert!(simple_brute_force_function(&mut board, 0));
    assert!(board.is_finished());
    assert_grid_is(&board, &sample_solution_rows());
}

#[test]
fn cage_table_strategy_solves_sample_puzzle() {
    // With an empty table every lookup misses and the strategy falls
    // back to plain digit enumeration.
    let mut board = Board::sample_puzzle();
    let mut table = CageTable(Vec::new());
    assert!(brute_force_with_backtracking_and_cage_table(&mut board, &mut table));
    assert_grid_is(&board, &sample_solution_rows());

    // With entries present the candidate digits come from the table.
    let text = b"1 cells\n2 cells\n3: 12\n4: 13\n3 cells\n24: 789\n";
    let mut table = CageTable::parse(text).unwrap();
    let mut board = Board::sample_puzzle();
    assert!(brute_force_with_backtracking_and_cage_table(&mut board, &mut table));
    assert_grid_is(&board, &sample_solution_rows());
}

#[test]
fn all_strategies_find_the_same_solution() {
    let mut a = Board::sample_puzzle();
    let mut b = Board::sample_puzzle();
    let mut c = Board::sample_puzzle();
    let mut table = CageTable(Vec::new());
    assert!(simple_brute_force_function(&mut a, 0));
    assert!(brute_force_with_backtracking(&mut b));
    assert!(brute_force_with_backtracking_and_cage_table(&mut c, &mut table));
    assert_eq!(a, b);
    assert_eq!(b, c);
}

#[test]
fn failed_search_restores_the_board() {
    // A valid but unsolvable plain board: row 0 holds 1..8, so cell
    // (8, 0) needs a 9, but column 8 already has its 9 at (8, 1).
    let mut board = Board::default();
    for x in 0..8 {
        board.unchecked_set_num(x, 0, (x + 1) as i32);
    }
    board.unchecked_set_num(8, 1, 9);
    let before = board.clone();
    assert!(!brute_force_with_backtracking(&mut board));
    assert_eq!(board, before);

    let mut board2 = before.clone();
    assert!(!simple_brute_force_function(&mut board2, 0));
    assert_eq!(board2, before);

    let mut board3 = before.clone();
    let mut table = CageTable(Vec::new());
    assert!(!brute_force_with_backtracking_and_cage_table(&mut board3, &mut table));
    assert_eq!(board3, before);
}

#[test]
fn solver_completes_a_partial_board() {
    // Pre-fill the sample puzzle's first row with its solution: the
    // search must keep those digits and still find the full solution.
    let mut board = Board::sample_puzzle();
    let rows = sample_solution_rows();
    for x in 0..9 {
        board.unchecked_set_num(x, 0, rows[0][x]);
    }
    assert!(brute_force_with_backtracking(&mut board));
    assert_grid_is(&board, &rows);
}

#[test]
fn empty_plain_board_is_solvable() {
    let mut board = Board::default();
    assert!(brute_force_with_backtracking(&mut board));
    assert!(board.is_finished());
}

#[test]
fn misleading_table_entry_makes_search_fail_and_restore() {
    // The only entry for (size 2, sum 3) lists digits that can never
    // pass the cage check, and combinations are taken as given: the
    // search exhausts them, fails, and leaves the board untouched.
    let text = b"1 cells\n2 cells\n3: 45\n";
    let mut table = CageTable::parse(text).unwrap();
    let mut board = Board::sample_puzzle();
    assert!(!brute_force_with_backtracking_and_cage_table(&mut board, &mut table));
    assert_eq!(board, Board::sample_puzzle());
}
