use killer_sudoku::board::{Board, Difficulty};

#[test]
fn generated_boards_have_the_right_number_of_clues() {
    for (difficulty, clues) in [
        (Difficulty::Easy, 32),
        (Difficulty::Normal, 24),
        (Difficulty::Hard, 17),
    ] {
        let board = Board::gen_random(difficulty);
        let mut filled = 0;
        for y in 0..9 {
            for x in 0..9 {
                if board.get_value(x, y) != 0 {
                    filled += 1;
                }
            }
        }
        assert_eq!(filled, clues);
        // No clue may clash with another in its row or column.
        for y in 0..9 {
            for x in 0..9 {
                let v = board.get_value(x, y);
                if v != 0 {
                    for o in 0..9 {
                        assert!(o == x || board.get_value(o, y) != v);
                        assert!(o == y || board.get_value(x, o) != v);
                    }
                }
            }
        }
    }
}
