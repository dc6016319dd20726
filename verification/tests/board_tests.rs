use killer_sudoku::board::Board;
use killer_sudoku::cage::CageColor;

/// The sample puzzle's unique solution, row-major.
fn sample_solution_rows() -> Vec<Vec<i32>> {
    vec![
        vec![2, 1, 5, 6, 4, 7, 3, 9, 8],
        vec![3, 6, 8, 9, 5, 2, 1, 7, 4],
        vec![7, 9, 4, 3, 8, 1, 6, 5, 2],
        vec![5, 8, 6, 2, 7, 4, 9, 3, 1],
        vec![1, 4, 2, 5, 9, 3, 8, 6, 7],
        vec![9, 7, 3, 8, 1, 6, 4, 2, 5],
        vec![8, 2, 1, 7, 3, 9, 5, 4, 6],
        vec![6, 5, 9, 4, 2, 8, 7, 1, 3],
        vec![4, 3, 7, 1, 6, 5, 2, 8, 9],
    ]
}

fn fill_board(board: &mut Board, rows: &[Vec<i32>]) {
    for (y, row) in rows.iter().enumerate() {
        for (x, &num) in row.iter().enumerate() {
            board.unchecked_set_num(x, y, num);
        }
    }
}

#[test]
fn check_is_finished() {
    let mut board = Board::default();
    let vec1 = vec![1, 2, 3, 4, 5, 6, 7, 8, 9];
    let mut vec3 = vec1.clone();
    vec3.rotate_right(3);
    let mut vec2 = vec3.clone();
    vec2.rotate_right(3);
    let mut vec9 = vec1.clone();
    vec9.rotate_right(1);
    let mut vec8 = vec9.clone();
    vec8.rotate_right(3);
    let mut vec7 = vec8.clone();
    vec7.rotate_right(3);

    let mut vec4 = vec7.clone();
    vec4.rotate_right(1);
    let mut vec6 = vec4.clone();
    vec6.rotate_right(3);
    let mut vec5 = vec6.clone();
    vec5.rotate_right(3);

    let rows = vec![vec1, vec2, vec3, vec4, vec5, vec6, vec7, vec8, vec9];
    fill_board(&mut board, &rows);

    assert!(board.is_finished());
}

#[test]
fn check_killer_sudoku() {
    let mut board = Board::sample_puzzle();
    assert!(board.is_possible(0, 0, 2));
    board.unchecked_set_num(0, 0, 2);

    assert!(board.is_possible(1, 0, 1));
    assert!(!board.is_possible(1, 0, 9));
    board.unchecked_set_num(1, 0, 1);
}

#[test]
fn empty_board_is_not_finished() {
    let board = Board::default();
    assert!(!board.is_finished());
}

#[test]
fn duplicate_breaks_is_finished() {
    let mut board = Board::default();
    fill_board(&mut board, &sample_solution_rows());
    assert!(board.is_finished());
    // Two equal digits in row 0: no longer a permutation of 1..9.
    board.unchecked_set_num(0, 0, 1);
    assert!(!board.is_finished());
    // An empty cell also breaks it.
    board.unchecked_set_num(0, 0, 0);
    assert!(!board.is_finished());
}

#[test]
fn solution_digits_stay_possible_when_filled_in_order() {
    let mut board = Board::sample_puzzle();
    let solution = sample_solution_rows();
    for i in 0..81 {
        let (x, y) = (i % 9, i / 9);
        let digit = solution[y][x];
        assert!(board.is_possible(x, y, digit));
        board.unchecked_set_num(x, y, digit);
    }
    assert!(board.is_finished());
}

#[test]
fn unchecked_clear_restores_placement() {
    let mut board = Board::sample_puzzle();
    let before = board.clone();
    board.unchecked_set_num(4, 6, 3);
    assert_ne!(board, before);
    board.unchecked_set_num(4, 6, 0);
    assert_eq!(board, before);
}

#[test]
fn set_num_rejects_silently() {
    let mut board = Board::sample_puzzle();
    // Cage at (0, 0) has target sum 3: a 9 cannot fit.
    board.set_num(0, 0, 9);
    assert_eq!(board.get_value(0, 0), 0);
    // A feasible digit is written.
    board.set_num(0, 0, 2);
    assert_eq!(board.get_value(0, 0), 2);
    // An occupied cell is never overwritten through the checked path.
    board.set_num(0, 0, 1);
    assert_eq!(board.get_value(0, 0), 2);
}

#[test]
fn cage_sizes_and_sums() {
    let mut board = Board::sample_puzzle();
    // The top-left cage holds cells (0,0) and (1,0) and sums to 3.
    assert_eq!(board.get_sum(0, 0), 3);
    assert_eq!(board.get_cage_size(0, 0), 2);
    assert_eq!(board.get_cage_size_left(0, 0), 2);
    board.unchecked_set_num(0, 0, 2);
    assert_eq!(board.get_cage_size(0, 0), 2);
    assert_eq!(board.get_cage_size_left(0, 0), 1);
    assert_eq!(board.get_cage_size_left(1, 0), 1);
    // The cage of (5, 0) spans four cells and sums to 22.
    assert_eq!(board.get_sum(5, 0), 22);
    assert_eq!(board.get_cage_size(5, 0), 4);
}

#[test]
fn cage_colors_cycle_by_index() {
    let board = Board::sample_puzzle();
    // Cage 1 at (0,0): 1 % 4 == 1 -> green; cage 2 at (2,0): red.
    assert_eq!(board.get_color(0, 0), CageColor::Green);
    assert_eq!(board.get_color(2, 0), CageColor::Red);
    // Cage 4 at (6,0): 4 % 4 == 0 -> yellow; cage 3 at (5,0): blue.
    assert_eq!(board.get_color(6, 0), CageColor::Yellow);
    assert_eq!(board.get_color(5, 0), CageColor::Blue);
    // The default board's single cage 0 is yellow.
    assert_eq!(Board::default().get_color(4, 4), CageColor::Yellow);
}

#[test]
fn get_grid_returns_rows() {
    let mut board = Board::default();
    board.unchecked_set_num(3, 0, 7);
    board.unchecked_set_num(0, 5, 4);
    let grid = board.get_grid();
    assert_eq!(grid.len(), 9);
    for row in &grid {
        assert_eq!(row.len(), 9);
    }
    assert_eq!(grid[0][3], 7);
    assert_eq!(grid[5][0], 4);
    assert_eq!(grid[8][8], 0);
}

#[test]
fn default_board_is_empty() {
    let board = Board::default();
    for y in 0..9 {
        for x in 0..9 {
            assert_eq!(board.get_value(x, y), 0);
            assert_eq!(board.get_sum(x, y), 0);
        }
    }
}

#[test]
fn from_archive_record_reads_both_grids() {
    let mut values = Vec::new();
    let mut solution = Vec::new();
    let rows = sample_solution_rows();
    for y in 0..9 {
        for x in 0..9 {
            // A puzzle with only the first row given, and its solution.
            let digit = if y == 0 { rows[y][x] } else { 0 };
            values.push(b'0' + digit as u8);
            solution.push(b'0' + rows[y][x] as u8);
        }
    }
    let board = Board::from_archive_record(&values, &solution).unwrap();
    assert_eq!(board.get_value(0, 0), 2);
    assert_eq!(board.get_value(8, 0), 8);
    assert_eq!(board.get_value(0, 1), 0);
    assert_eq!(board.get_sum(4, 4), 0);
}

#[test]
fn from_archive_record_rejects_bad_input() {
    assert!(Board::from_archive_record(b"123", b"456").is_none());
    let ok = vec![b'1'; 81];
    let mut bad = vec![b'1'; 81];
    bad[40] = b'x';
    assert!(Board::from_archive_record(&ok, &bad).is_none());
    assert!(Board::from_archive_record(&bad, &ok).is_none());
    assert!(Board::from_archive_record(&ok, &ok).is_some());
}
