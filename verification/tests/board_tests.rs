use connect_four::board::{Board, Field, GameStatus, TokenColor};

#[test]
fn first_move_lands_bottom() {
    let mut board = Board::new(6, 7);
    assert!(board.make_move(3, TokenColor::Yellow).is_ok());
    assert_eq!(board.get_cell(5, 3), Field::Token(TokenColor::Yellow));
    for row in 0..5 {
        assert_eq!(board.get_cell(row, 3), Field::Empty);
    }
    assert!(!board.is_column_full(3));
    assert!(board.is_move_legal(3));
}

#[test]
fn tokens_stack_upward() {
    let mut board = Board::new(6, 7);
    board.make_move(2, TokenColor::Yellow).unwrap();
    board.make_move(2, TokenColor::Red).unwrap();
    assert_eq!(board.get_cell(5, 2), Field::Token(TokenColor::Yellow));
    assert_eq!(board.get_cell(4, 2), Field::Token(TokenColor::Red));
    assert_eq!(board.get_cell(3, 2), Field::Empty);
}

#[test]
fn full_column_rejects_seventh_move() {
    let mut board = Board::new(6, 7);
    let colors = [
        TokenColor::Yellow,
        TokenColor::Red,
        TokenColor::Yellow,
        TokenColor::Yellow,
        TokenColor::Red,
        TokenColor::Red,
    ];
    for color in colors {
        assert!(board.make_move(0, color).is_ok());
    }
    assert!(board.is_column_full(0));
    assert!(!board.is_move_legal(0));
    assert!(board.make_move(0, TokenColor::Red).is_err());
}

#[test]
fn out_of_range_column_rejected() {
    let mut board = Board::new(6, 7);
    assert!(!board.is_move_legal(7));
    assert!(board.make_move(7, TokenColor::Red).is_err());
    assert!(board.make_move(usize::MAX, TokenColor::Red).is_err());
}

#[test]
fn undo_on_empty_column_fails() {
    let mut board = Board::new(6, 7);
    assert!(board.undo_move(2).is_err());
    assert!(board.undo_move(7).is_err());
    board.make_move(2, TokenColor::Red).unwrap();
    assert!(board.undo_move(3).is_err());
    assert!(board.undo_move(2).is_ok());
    assert!(board.undo_move(2).is_err());
}

#[test]
fn move_then_undo_restores_board() {
    let mut board = Board::new(6, 7);
    board.make_move(1, TokenColor::Yellow).unwrap();
    board.make_move(1, TokenColor::Red).unwrap();
    board.make_move(4, TokenColor::Yellow).unwrap();
    let snapshot = board.clone();
    for column in 0..7 {
        board.make_move(column, TokenColor::Red).unwrap();
        board.undo_move(column).unwrap();
        assert_eq!(board, snapshot);
    }
}

#[test]
fn undo_clears_full_flag() {
    let mut board = Board::new(2, 2);
    board.make_move(0, TokenColor::Red).unwrap();
    board.make_move(0, TokenColor::Yellow).unwrap();
    assert!(board.is_column_full(0));
    board.undo_move(0).unwrap();
    assert!(!board.is_column_full(0));
    assert_eq!(board.get_cell(1, 0), Field::Token(TokenColor::Red));
    assert_eq!(board.get_cell(0, 0), Field::Empty);
}

#[test]
fn row_win_detected() {
    let mut board = Board::new(6, 7);
    for column in 0..3 {
        board.make_move(column, TokenColor::Red).unwrap();
        assert_eq!(board.get_status(), GameStatus::InProgress);
    }
    board.make_move(3, TokenColor::Red).unwrap();
    assert_eq!(board.get_status(), GameStatus::Finished(TokenColor::Red));
}

#[test]
fn column_win_detected() {
    let mut board = Board::new(6, 7);
    for _ in 0..3 {
        board.make_move(2, TokenColor::Yellow).unwrap();
        assert_eq!(board.get_status(), GameStatus::InProgress);
    }
    board.make_move(2, TokenColor::Yellow).unwrap();
    assert_eq!(board.get_status(), GameStatus::Finished(TokenColor::Yellow));
}

#[test]
fn right_diagonal_win_detected() {
    let mut board = Board::new(6, 7);
    // Red climbs the "/" diagonal from (5,0) to (2,3); yellow fills
    // below without making a run of four of its own.
    board.make_move(0, TokenColor::Red).unwrap();
    board.make_move(1, TokenColor::Yellow).unwrap();
    board.make_move(1, TokenColor::Red).unwrap();
    board.make_move(2, TokenColor::Yellow).unwrap();
    board.make_move(2, TokenColor::Yellow).unwrap();
    board.make_move(2, TokenColor::Red).unwrap();
    board.make_move(3, TokenColor::Yellow).unwrap();
    board.make_move(3, TokenColor::Yellow).unwrap();
    board.make_move(3, TokenColor::Yellow).unwrap();
    assert_eq!(board.get_status(), GameStatus::InProgress);
    board.make_move(3, TokenColor::Red).unwrap();
    assert_eq!(board.get_status(), GameStatus::Finished(TokenColor::Red));
}

#[test]
fn left_diagonal_win_detected() {
    let mut board = Board::new(6, 7);
    // Red descends the "\" diagonal from (2,0) to (5,3).
    board.make_move(0, TokenColor::Yellow).unwrap();
    board.make_move(0, TokenColor::Yellow).unwrap();
    board.make_move(0, TokenColor::Yellow).unwrap();
    board.make_move(0, TokenColor::Red).unwrap();
    board.make_move(1, TokenColor::Yellow).unwrap();
    board.make_move(1, TokenColor::Yellow).unwrap();
    board.make_move(1, TokenColor::Red).unwrap();
    board.make_move(2, TokenColor::Yellow).unwrap();
    board.make_move(2, TokenColor::Red).unwrap();
    assert_eq!(board.get_status(), GameStatus::InProgress);
    board.make_move(3, TokenColor::Red).unwrap();
    assert_eq!(board.get_status(), GameStatus::Finished(TokenColor::Red));
}

#[test]
fn scattered_tokens_stay_in_progress() {
    let mut board = Board::new(6, 7);
    board.make_move(0, TokenColor::Red).unwrap();
    board.make_move(1, TokenColor::Yellow).unwrap();
    board.make_move(2, TokenColor::Red).unwrap();
    board.make_move(3, TokenColor::Red).unwrap();
    board.make_move(4, TokenColor::Yellow).unwrap();
    board.make_move(2, TokenColor::Yellow).unwrap();
    assert_eq!(board.get_status(), GameStatus::InProgress);
}

fn board_parts(board: &Board) -> (Vec<Vec<Field>>, Vec<bool>) {
    let rows = board.rows();
    let columns = board.columns();
    let mut fields = Vec::new();
    for r in 0..rows {
        let mut row = Vec::new();
        for c in 0..columns {
            row.push(board.get_cell(r, c));
        }
        fields.push(row);
    }
    let mut full = Vec::new();
    for c in 0..columns {
        full.push(board.is_column_full(c));
    }
    (fields, full)
}

#[test]
fn from_parts_round_trips() {
    let mut board = Board::new(6, 7);
    board.make_move(0, TokenColor::Red).unwrap();
    board.make_move(0, TokenColor::Yellow).unwrap();
    board.make_move(5, TokenColor::Red).unwrap();
    let (fields, full) = board_parts(&board);
    let rebuilt = Board::from_parts(6, 7, fields, full).unwrap();
    assert_eq!(rebuilt, board);
}

#[test]
fn from_parts_rejects_floating_token() {
    // A token in the top row above an empty cell breaks gravity.
    let mut fields = vec![vec![Field::Empty; 7]; 6];
    fields[0][3] = Field::Token(TokenColor::Red);
    let mut full = vec![false; 7];
    full[3] = true;
    assert!(Board::from_parts(6, 7, fields, full).is_none());
}

#[test]
fn from_parts_rejects_wrong_full_flag() {
    let fields = vec![vec![Field::Empty; 7]; 6];
    let mut full = vec![false; 7];
    full[0] = true;
    assert!(Board::from_parts(6, 7, fields, full).is_none());
}

#[test]
fn from_parts_rejects_ragged_grid() {
    let mut fields = vec![vec![Field::Empty; 7]; 6];
    fields[2].pop();
    let full = vec![false; 7];
    assert!(Board::from_parts(6, 7, fields, full).is_none());
    let fields_short = vec![vec![Field::Empty; 7]; 5];
    assert!(Board::from_parts(6, 7, fields_short, vec![false; 7]).is_none());
}

#[test]
fn default_board_is_six_by_seven() {
    let board = Board::default();
    assert_eq!(board.rows(), 6);
    assert_eq!(board.columns(), 7);
    for c in 0..7 {
        assert!(!board.is_column_full(c));
    }
}

#[test]
fn invert_swaps_colors() {
    assert_eq!(TokenColor::Red.invert(), TokenColor::Yellow);
    assert_eq!(TokenColor::Yellow.invert(), TokenColor::Red);
}
