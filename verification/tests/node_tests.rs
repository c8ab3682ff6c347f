use connect_four::board::{Board, GameStatus, TokenColor};
use connect_four::node::Node;
use connect_four::value::Value;

#[test]
fn shallow_tree_has_one_child_per_column() {
    let mut board = Board::new(6, 7);
    board.make_move(3, TokenColor::Yellow).unwrap();
    let snapshot = board.clone();
    let mut root = Node::new(TokenColor::Yellow, 3, GameStatus::InProgress);
    root.build_tree(&mut board, 1, 0);
    assert_eq!(board, snapshot);
    assert_eq!(root.children.len(), 7);
    for (column, child) in root.children.iter().enumerate() {
        assert_eq!(child.color, TokenColor::Red);
        assert_eq!(child.column, column);
        assert_eq!(child.status, GameStatus::InProgress);
        assert!(child.value.is_none());
        assert_eq!(child.children.len(), 7);
        for grandchild in &child.children {
            assert_eq!(grandchild.color, TokenColor::Yellow);
            assert_eq!(grandchild.children.len(), 0);
        }
    }
}

#[test]
fn full_column_grows_no_child() {
    let mut board = Board::new(6, 7);
    for _ in 0..3 {
        board.make_move(0, TokenColor::Red).unwrap();
        board.make_move(0, TokenColor::Yellow).unwrap();
    }
    let mut root = Node::new(TokenColor::Yellow, 0, GameStatus::InProgress);
    root.build_tree(&mut board, 0, 0);
    assert_eq!(root.children.len(), 6);
    for (i, child) in root.children.iter().enumerate() {
        assert_eq!(child.column, i + 1);
    }
}

#[test]
fn terminal_child_is_never_expanded() {
    let mut board = Board::new(6, 7);
    board.make_move(0, TokenColor::Red).unwrap();
    board.make_move(1, TokenColor::Red).unwrap();
    board.make_move(2, TokenColor::Red).unwrap();
    let mut root = Node::new(TokenColor::Yellow, 2, GameStatus::InProgress);
    // Depth budget would allow two more plies, but the winning reply
    // stays a leaf.
    root.build_tree(&mut board, 1, 0);
    let winner = &root.children[3];
    assert_eq!(winner.status, GameStatus::Finished(TokenColor::Red));
    assert_eq!(winner.children.len(), 0);
    let open = &root.children[4];
    assert_eq!(open.status, GameStatus::InProgress);
    assert_eq!(open.children.len(), 7);
}

#[test]
fn leaf_values_follow_status() {
    let mut cpu_win = Node::new(TokenColor::Red, 0, GameStatus::Finished(TokenColor::Red));
    cpu_win
        .calculate_value(TokenColor::Red, TokenColor::Yellow)
        .unwrap();
    assert_eq!(cpu_win.value, Some(Value { num: 1, den: 1 }));

    let mut cpu_loss = Node::new(TokenColor::Yellow, 0, GameStatus::Finished(TokenColor::Yellow));
    cpu_loss
        .calculate_value(TokenColor::Red, TokenColor::Yellow)
        .unwrap();
    assert_eq!(cpu_loss.value, Some(Value { num: -1, den: 1 }));

    let mut open = Node::new(TokenColor::Red, 0, GameStatus::InProgress);
    open.calculate_value(TokenColor::Red, TokenColor::Yellow)
        .unwrap();
    assert_eq!(open.value, Some(Value { num: 0, den: 1 }));
}

fn child_with_value(color: TokenColor, column: usize, num: i64, den: i64) -> Node {
    let mut child = Node::new(color, column, GameStatus::InProgress);
    child.value = Some(Value { num, den });
    child
}

#[test]
fn mean_of_three_children() {
    // No qualifying single-child win or loss and no all-win/all-loss:
    // the parent takes the mean of {+1, 0, -1}, which is 0.
    let mut parent = Node::new(TokenColor::Red, 0, GameStatus::InProgress);
    parent.add_child(child_with_value(TokenColor::Yellow, 0, 1, 1));
    parent.add_child(child_with_value(TokenColor::Yellow, 1, 0, 1));
    parent.add_child(child_with_value(TokenColor::Red, 2, -1, 1));
    parent
        .calculate_value(TokenColor::Red, TokenColor::Yellow)
        .unwrap();
    assert_eq!(parent.value, Some(Value { num: 0, den: 1 }));
}

#[test]
fn single_cpu_win_dominates() {
    // A +1 child moved by the cpu color decides the node, whatever the
    // other children say.
    let mut parent = Node::new(TokenColor::Yellow, 0, GameStatus::InProgress);
    parent.add_child(child_with_value(TokenColor::Red, 0, 1, 1));
    parent.add_child(child_with_value(TokenColor::Red, 1, -1, 1));
    parent.add_child(child_with_value(TokenColor::Red, 2, 0, 1));
    parent
        .calculate_value(TokenColor::Red, TokenColor::Yellow)
        .unwrap();
    assert_eq!(parent.value, Some(Value { num: 1, den: 1 }));
}

#[test]
fn single_player_loss_dominates() {
    // No qualifying win, but a -1 child moved by the player color.
    let mut parent = Node::new(TokenColor::Red, 0, GameStatus::InProgress);
    parent.add_child(child_with_value(TokenColor::Yellow, 0, -1, 1));
    parent.add_child(child_with_value(TokenColor::Yellow, 1, 0, 1));
    parent
        .calculate_value(TokenColor::Red, TokenColor::Yellow)
        .unwrap();
    assert_eq!(parent.value, Some(Value { num: -1, den: 1 }));
}

#[test]
fn all_win_children_give_win() {
    // Every child is +1, though none was moved by the cpu color: the
    // node is still +1.
    let mut parent = Node::new(TokenColor::Red, 0, GameStatus::InProgress);
    parent.add_child(child_with_value(TokenColor::Yellow, 0, 1, 1));
    parent.add_child(child_with_value(TokenColor::Yellow, 1, 1, 1));
    parent
        .calculate_value(TokenColor::Red, TokenColor::Yellow)
        .unwrap();
    assert_eq!(parent.value, Some(Value { num: 1, den: 1 }));
}

#[test]
fn all_loss_children_give_loss() {
    // Every child is -1, though none was moved by the player color.
    let mut parent = Node::new(TokenColor::Yellow, 0, GameStatus::InProgress);
    parent.add_child(child_with_value(TokenColor::Red, 0, -1, 1));
    parent.add_child(child_with_value(TokenColor::Red, 1, -1, 1));
    parent
        .calculate_value(TokenColor::Red, TokenColor::Yellow)
        .unwrap();
    assert_eq!(parent.value, Some(Value { num: -1, den: 1 }));
}

#[test]
fn stored_child_values_are_kept() {
    // A child that already carries a value keeps it, even though its
    // own leaf rule would say otherwise.
    let mut parent = Node::new(TokenColor::Red, 0, GameStatus::InProgress);
    let mut child = Node::new(TokenColor::Yellow, 0, GameStatus::Finished(TokenColor::Red));
    child.value = Some(Value { num: 0, den: 1 });
    parent.add_child(child);
    parent.add_child(Node::new(TokenColor::Yellow, 1, GameStatus::InProgress));
    parent
        .calculate_value(TokenColor::Red, TokenColor::Yellow)
        .unwrap();
    assert_eq!(parent.children[0].value, Some(Value { num: 0, den: 1 }));
    assert_eq!(parent.value, Some(Value { num: 0, den: 1 }));
}

#[test]
fn revaluation_gives_identical_results() {
    let mut board = Board::new(6, 7);
    board.make_move(3, TokenColor::Yellow).unwrap();
    let mut root = Node::new(TokenColor::Yellow, 3, GameStatus::InProgress);
    root.build_tree(&mut board, 2, 0);
    root.calculate_value(TokenColor::Red, TokenColor::Yellow)
        .unwrap();
    let first_value = root.value;
    let first_children: Vec<Option<Value>> = root.children.iter().map(|c| c.value).collect();
    root.calculate_value(TokenColor::Red, TokenColor::Yellow)
        .unwrap();
    assert_eq!(root.value, first_value);
    let second_children: Vec<Option<Value>> = root.children.iter().map(|c| c.value).collect();
    assert_eq!(second_children, first_children);
}

#[test]
fn values_well_formed_checks_the_whole_tree() {
    let mut parent = Node::new(TokenColor::Red, 0, GameStatus::InProgress);
    parent.add_child(child_with_value(TokenColor::Yellow, 0, 1, 2));
    assert!(parent.values_well_formed());
    parent.add_child(child_with_value(TokenColor::Yellow, 1, 1, 0));
    assert!(!parent.values_well_formed());
    parent.children[1].value = Some(Value { num: 3, den: 2 });
    assert!(!parent.values_well_formed());
}
