use connect_four::board::{Board, GameStatus, TokenColor};
use connect_four::node::Node;
use connect_four::tag::Tag;
use connect_four::task::Assignment;
use connect_four::value::Value;
use connect_four::worker::{process_assignment, reply_action, WorkerAction};

#[test]
fn reply_dispatch_follows_the_tag() {
    assert_eq!(reply_action(Tag::Finished), WorkerAction::Stop);
    assert_eq!(reply_action(Tag::Response), WorkerAction::Process);
    assert_eq!(reply_action(Tag::Request), WorkerAction::Ignore);
    assert_eq!(reply_action(Tag::Completed), WorkerAction::Ignore);
}

#[test]
fn worker_expands_and_values_its_assignment() {
    let board = Board::new(6, 7);
    let snapshot = board.clone();
    let node = Node::new(TokenColor::Yellow, 3, GameStatus::InProgress);
    let mut assignment = Assignment::new(node, board, (2, 3));
    process_assignment(&mut assignment, 2, TokenColor::Red, TokenColor::Yellow).unwrap();
    assert_eq!(assignment.indexes, (2, 3));
    assert_eq!(assignment.board, snapshot);
    assert_eq!(assignment.node.children.len(), 7);
    assert!(assignment.node.value.is_some());
    for child in &assignment.node.children {
        assert_eq!(child.color, TokenColor::Red);
        assert!(child.value.is_some());
    }
}

#[test]
fn worker_sees_an_immediate_win() {
    // Red already threatens a row win on the assignment's own board:
    // the first expanded ply finds it, and rule 1 drives the node's
    // value to +1.
    let mut board = Board::new(6, 7);
    board.make_move(0, TokenColor::Red).unwrap();
    board.make_move(1, TokenColor::Red).unwrap();
    board.make_move(2, TokenColor::Red).unwrap();
    let node = Node::new(TokenColor::Yellow, 5, GameStatus::InProgress);
    let mut assignment = Assignment::new(node, board, (0, 0));
    process_assignment(&mut assignment, 3, TokenColor::Red, TokenColor::Yellow).unwrap();
    assert_eq!(assignment.node.value, Some(Value { num: 1, den: 1 }));
    let winner = &assignment.node.children[3];
    assert_eq!(winner.status, GameStatus::Finished(TokenColor::Red));
    assert_eq!(winner.children.len(), 0);
}
