//! A simple tree of boards, used to record positions explored by a
//! caller.

use vstd::prelude::*;

use crate::board::Board;

verus! {

/// A tree node: an optional payload and the node's children.
pub struct Node<T> {
    pub children: Vec<Node<T>>,
    data: Option<T>,
}

impl Node<Board> {
    /// The payload carried by this node.
    pub closed spec fn spec_data(self) -> Option<Board> {
        self.data
    }

    /// The node's children.
    pub closed spec fn spec_children(self) -> Seq<Node<Board>> {
        self.children@
    }

    /// A leaf node carrying the given board.
    pub fn new(data: Board) -> (r: Node<Board>)
        ensures
            r.spec_data() == Some(data),
            r.spec_children().len() == 0,
    {
        Node { data: Some(data), children: Vec::new() }
    }

    /// Appends the given node to this node's children.
    pub fn add_child(&mut self, node: Node<Board>)
        ensures
            final(self).spec_data() == old(self).spec_data(),
            final(self).spec_children() == old(self).spec_children().push(node),
    {
        self.children.push(node);
    }

    /// A leaf node carrying the given board.
    pub fn from_board(board: Board) -> (r: Node<Board>)
        ensures
            r.spec_data() == Some(board),
            r.spec_children().len() == 0,
    {
        Node { children: Vec::new(), data: Some(board) }
    }

    /// The payload carried by this node.
    pub fn get_date(&self) -> (r: &Option<Board>)
        ensures
            *r == self.spec_data(),
    {
        &self.data
    }
}

} // verus!
