use killer_sudoku::board::Board;
use killer_sudoku::node::Node;

#[test]
fn node_keeps_its_board_and_children() {
    let board = Board::sample_puzzle();
    let mut root = Node::new(board.clone());
    assert_eq!(root.get_date().as_ref(), Some(&board));
    assert_eq!(root.children.len(), 0);
    let child = Node::from_board(Board::default());
    root.add_child(child);
    assert_eq!(root.children.len(), 1);
    assert_eq!(root.children[0].get_date().as_ref(), Some(&Board::default()));
}
