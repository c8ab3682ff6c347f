use crate::board::Board;
use crate::node::Node;
use vstd::prelude::*;

verus! {

/// The unit of distributable work: one second-ply node that is not yet
/// deep-expanded, the board positioned exactly at that node, and the
/// `(i, j)` slot in the coordinator's two-level children array that
/// the finished result must be merged back into.
#[derive(Debug)]
pub struct Assignment {
    pub node: Node,
    pub board: Board,
    pub indexes: (usize, usize),
}

impl Assignment {
    pub fn new(node: Node, board: Board, indexes: (usize, usize)) -> (a: Assignment)
        ensures
            a.node == node,
            a.board == board,
            a.indexes == indexes,
    {
        Assignment { node, board, indexes }
    }
}

} // verus!
