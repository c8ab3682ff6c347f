use vstd::prelude::*;

verus! {

/// One of the two players' token colors.
#[derive(Clone, Copy, PartialEq, Eq, Structural, Debug)]
pub enum TokenColor {
    Red,
    Yellow,
}

impl TokenColor {
    /// The color of the opposing player.
    pub fn invert(self: &Self) -> (c: TokenColor)
        ensures
            c == self.spec_invert(),
    {
        if *self == Self::Red {
            return Self::Yellow;
        }

        return Self::Red;
    }

    pub open spec fn spec_invert(self) -> TokenColor {
        match self {
            TokenColor::Red => TokenColor::Yellow,
            TokenColor::Yellow => TokenColor::Red,
        }
    }
}

/// One cell of the grid: empty, or holding a token of one color.
#[derive(Clone, Copy, PartialEq, Eq, Structural, Debug)]
pub enum Field {
    Empty,
    Token(TokenColor),
}

/// Whether the game is still open or has been won by one color.
/// Derived from the grid on demand; never stored on the board.
#[derive(Clone, Copy, PartialEq, Eq, Structural, Debug)]
pub enum GameStatus {
    InProgress,
    Finished(TokenColor),
}

/// Error for a move or undo that the board refuses.
#[derive(Clone, Debug)]
pub struct MoveError {
    message: String,
}

impl MoveError {
    fn new(message: String) -> (e: MoveError)
        ensures
            e.spec_message() == message@,
    {
        MoveError { message }
    }

    pub closed spec fn spec_message(&self) -> Seq<char> {
        self.message@
    }

    /// The human-readable description of the refused operation.
    pub fn message(&self) -> (r: &str)
        ensures
            r@ == self.spec_message(),
    {
        self.message.as_str()
    }
}

/// The mathematical state of a board: the grid of cells in row-major
/// order (row 0 at the top, row `rows - 1` at the bottom) and the
/// per-column full-flag cache.
#[verifier::ext_equal]
pub ghost struct BoardModel {
    pub rows: nat,
    pub columns: nat,
    pub cells: Seq<Seq<Field>>,
    pub full: Seq<bool>,
}

impl BoardModel {
    /// Shape, gravity and cache invariant: the grid has `rows x columns`
    /// cells, a token never floats above an empty cell, and a column's
    /// full flag is set exactly when its top cell is occupied.
    pub open spec fn wf(self) -> bool {
        &&& self.cells.len() == self.rows
        &&& forall|r: int| 0 <= r < self.rows ==> (#[trigger] self.cells[r]).len() == self.columns
        &&& self.full.len() == self.columns
        &&& forall|c: int|
            0 <= c < self.columns ==> #[trigger] self.full[c] == (self.rows > 0
                && self.cells[0][c] is Token)
        &&& forall|r1: int, r2: int, c: int|
            #![trigger self.cells[r1][c], self.cells[r2][c]]
            0 <= r1 <= r2 < self.rows && 0 <= c < self.columns && self.cells[r1][c] is Token
                ==> self.cells[r2][c] is Token
    }

    /// A move on `col` is accepted: the index is in range and the column
    /// is not yet full.
    pub open spec fn legal(self, col: int) -> bool {
        0 <= col < self.columns && !self.full[col]
    }

    /// The lowest empty row of `col` at or above row `r`, scanning
    /// upward from the bottom; -1 if every cell from `r` down is taken.
    pub open spec fn drop_row_from(self, col: int, r: int) -> int
        decreases r,
    {
        if r < 0 || r >= self.rows {
            -1
        } else if self.cells[r][col] is Empty {
            r
        } else if r == 0 {
            -1
        } else {
            self.drop_row_from(col, r - 1)
        }
    }

    /// The row where a token dropped into `col` lands.
    pub open spec fn drop_row(self, col: int) -> int {
        self.drop_row_from(col, self.rows - 1)
    }

    /// The board after dropping a token of `color` into `col`.
    /// If no cell is free the board is unchanged.
    pub open spec fn after_move(self, col: int, color: TokenColor) -> BoardModel {
        let r = self.drop_row(col);
        if r < 0 {
            self
        } else {
            BoardModel {
                cells: self.cells.update(r, self.cells[r].update(col, Field::Token(color))),
                full: if r == 0 {
                    self.full.update(col, true)
                } else {
                    self.full
                },
                ..self
            }
        }
    }

    /// The topmost occupied row of `col` at or below row `r`, scanning
    /// downward from the top; -1 if every cell from `r` down is empty.
    pub open spec fn top_row_from(self, col: int, r: int) -> int
        decreases self.rows - r,
    {
        if r < 0 || r >= self.rows {
            -1
        } else if self.cells[r][col] is Token {
            r
        } else {
            self.top_row_from(col, r + 1)
        }
    }

    /// The row of the token that an undo on `col` removes.
    pub open spec fn top_row(self, col: int) -> int {
        self.top_row_from(col, 0)
    }

    /// No cell of `col` holds a token.
    pub open spec fn column_empty(self, col: int) -> bool {
        forall|r: int| 0 <= r < self.rows ==> (#[trigger] self.cells[r][col]) is Empty
    }

    /// The number of tokens in `col`.
    pub open spec fn column_count(self, col: int) -> int {
        if self.top_row(col) < 0 {
            0
        } else {
            self.rows - self.top_row(col)
        }
    }

    /// The board after removing the topmost token of `col`.
    /// If the column is empty the board is unchanged.
    pub open spec fn after_undo(self, col: int) -> BoardModel {
        let t = self.top_row(col);
        if t < 0 {
            self
        } else {
            BoardModel {
                cells: self.cells.update(t, self.cells[t].update(col, Field::Empty)),
                full: self.full.update(col, false),
                ..self
            }
        }
    }

    /// Four tokens of `k` in a row, rightward from `(r, c)`.
    pub open spec fn win_row_at(self, r: int, c: int, k: TokenColor) -> bool {
        &&& 0 <= r < self.rows
        &&& 0 <= c && c + 4 <= self.columns
        &&& self.cells[r][c] == Field::Token(k)
        &&& self.cells[r][c + 1] == Field::Token(k)
        &&& self.cells[r][c + 2] == Field::Token(k)
        &&& self.cells[r][c + 3] == Field::Token(k)
    }

    /// Four tokens of `k` in a column, downward from `(r, c)`.
    pub open spec fn win_column_at(self, r: int, c: int, k: TokenColor) -> bool {
        &&& 0 <= r && r + 4 <= self.rows
        &&& 0 <= c < self.columns
        &&& self.cells[r][c] == Field::Token(k)
        &&& self.cells[r + 1][c] == Field::Token(k)
        &&& self.cells[r + 2][c] == Field::Token(k)
        &&& self.cells[r + 3][c] == Field::Token(k)
    }

    /// Four tokens of `k` on the "\" diagonal, up-left from `(r, c)`.
    pub open spec fn win_left_diagonal_at(self, r: int, c: int, k: TokenColor) -> bool {
        &&& 3 <= r < self.rows
        &&& 3 <= c < self.columns
        &&& self.cells[r][c] == Field::Token(k)
        &&& self.cells[r - 1][c - 1] == Field::Token(k)
        &&& self.cells[r - 2][c - 2] == Field::Token(k)
        &&& self.cells[r - 3][c - 3] == Field::Token(k)
    }

    /// Four tokens of `k` on the "/" diagonal, up-right from `(r, c)`.
    pub open spec fn win_right_diagonal_at(self, r: int, c: int, k: TokenColor) -> bool {
        &&& 3 <= r < self.rows
        &&& 0 <= c && c + 4 <= self.columns
        &&& self.cells[r][c] == Field::Token(k)
        &&& self.cells[r - 1][c + 1] == Field::Token(k)
        &&& self.cells[r - 2][c + 2] == Field::Token(k)
        &&& self.cells[r - 3][c + 3] == Field::Token(k)
    }

    /// A qualifying run of `k` starts at `(r, c)` in one of the four
    /// directions.
    pub open spec fn wins_at(self, r: int, c: int, k: TokenColor) -> bool {
        ||| self.win_row_at(r, c, k)
        ||| self.win_column_at(r, c, k)
        ||| self.win_left_diagonal_at(r, c, k)
        ||| self.win_right_diagonal_at(r, c, k)
    }

    /// Somewhere on the board four contiguous cells hold tokens of `k`.
    pub open spec fn has_win(self, k: TokenColor) -> bool {
        exists|r: int, c: int| self.wins_at(r, c, k)
    }

    /// The row-major scan for a winner, starting at `(r, c)`: the color
    /// of the first cell that starts a qualifying run. The scan order is
    /// the deterministic tie-break when runs of both colors exist.
    pub open spec fn winner_from(self, r: int, c: int) -> Option<TokenColor>
        decreases self.rows - r, self.columns - c,
    {
        if r < 0 || c < 0 || r >= self.rows {
            None
        } else if c >= self.columns {
            self.winner_from(r + 1, 0)
        } else {
            match self.cells[r][c] {
                Field::Token(k) => if self.wins_at(r, c, k) {
                    Some(k)
                } else {
                    self.winner_from(r, c + 1)
                },
                Field::Empty => self.winner_from(r, c + 1),
            }
        }
    }

    /// The winner that the full scan reports, if any.
    pub open spec fn winner(self) -> Option<TokenColor> {
        self.winner_from(0, 0)
    }

    /// The derived game status: finished for the scan's winner, else
    /// still in progress.
    pub open spec fn status(self) -> GameStatus {
        match self.winner() {
            Some(k) => GameStatus::Finished(k),
            None => GameStatus::InProgress,
        }
    }

    /// The model that a grid given as plain parts would have.
    pub open spec fn from_parts_model(
        rows: nat,
        columns: nat,
        fields: Seq<Vec<Field>>,
        full: Seq<bool>,
    ) -> BoardModel {
        BoardModel { rows, columns, cells: Seq::new(fields.len(), |r: int| fields[r]@), full }
    }

    /// An empty `rows x columns` board.
    pub open spec fn empty(rows: nat, columns: nat) -> BoardModel {
        BoardModel {
            rows,
            columns,
            cells: Seq::new(rows, |r: int| Seq::new(columns, |c: int| Field::Empty)),
            full: Seq::new(columns, |c: int| false),
        }
    }
}

/// Fixed `rows x columns` grid of cells with gravity semantics: a move
/// drops a token into the lowest empty cell of a column.
#[derive(Debug, PartialEq)]
pub struct Board {
    rows: usize,
    columns: usize,
    fields: Vec<Vec<Field>>,
    columns_full: Vec<bool>,
}

impl View for Board {
    type V = BoardModel;

    closed spec fn view(&self) -> BoardModel {
        BoardModel {
            rows: self.rows as nat,
            columns: self.columns as nat,
            cells: Seq::new(self.fields@.len(), |r: int| self.fields@[r]@),
            full: self.columns_full@,
        }
    }
}

impl Board {
    /// A fresh empty board of the given dimensions.
    pub fn new(rows: usize, columns: usize) -> (b: Board)
        ensures
            b@ == BoardModel::empty(rows as nat, columns as nat),
            b@.wf(),
            b@.rows == rows,
            b@.columns == columns,
    {
        let mut fields: Vec<Vec<Field>> = Vec::new();
        for r in 0..rows
            invariant
                fields@.len() == r,
                forall|i: int|
                    0 <= i < r ==> (#[trigger] fields@[i])@ =~= Seq::new(
                        columns as nat,
                        |c: int| Field::Empty,
                    ),
        {
            let mut row: Vec<Field> = Vec::new();
            for c in 0..columns
                invariant
                    row@.len() == c,
                    forall|j: int| 0 <= j < c ==> row@[j] == Field::Empty,
            {
                row.push(Field::Empty);
            }
            assert(row@ =~= Seq::new(columns as nat, |c: int| Field::Empty));
            fields.push(row);
        }
        let mut columns_full: Vec<bool> = Vec::new();
        for c in 0..columns
            invariant
                columns_full@.len() == c,
                forall|j: int| 0 <= j < c ==> columns_full@[j] == false,
        {
            columns_full.push(false);
        }
        let b = Board { rows, columns, fields, columns_full };
        assert(b@ =~~= BoardModel::empty(rows as nat, columns as nat));
        assert(b@.wf());
        b
    }

    /// Number of rows of the grid.
    pub fn rows(&self) -> (r: usize)
        ensures
            r == self@.rows,
    {
        self.rows
    }

    /// Number of columns of the grid.
    pub fn columns(&self) -> (r: usize)
        ensures
            r == self@.columns,
    {
        self.columns
    }

    /// The cell at the given position.
    pub fn get_cell(&self, row: usize, column: usize) -> (f: Field)
        requires
            self@.wf(),
            row < self@.rows,
            column < self@.columns,
        ensures
            f == self@.cells[row as int][column as int],
    {
        self.fields[row][column]
    }

    /// The cached full flag of `column`.
    pub fn is_column_full(&self, column: usize) -> (r: bool)
        requires
            self@.wf(),
            column < self@.columns,
        ensures
            r == self@.full[column as int],
    {
        self.columns_full[column]
    }

    /// Rebuilds a board from its plain parts, accepting them only when
    /// they satisfy the board invariant: the expected grid shape, a
    /// correct full-flag cache, and no token floating above an empty
    /// cell. This is the only way a grid that did not come from this
    /// module's own moves — say, one decoded from a message — can
    /// become a `Board`.
    pub fn from_parts(
        rows: usize,
        columns: usize,
        fields: Vec<Vec<Field>>,
        columns_full: Vec<bool>,
    ) -> (result: Option<Board>)
        ensures
            result matches Some(b) ==> b@ == BoardModel::from_parts_model(
                rows as nat,
                columns as nat,
                fields@,
                columns_full@,
            ) && b@.wf(),
            result is None ==> !BoardModel::from_parts_model(
                rows as nat,
                columns as nat,
                fields@,
                columns_full@,
            ).wf(),
    {
        let ghost m = BoardModel::from_parts_model(
            rows as nat,
            columns as nat,
            fields@,
            columns_full@,
        );
        if fields.len() != rows || columns_full.len() != columns {
            proof {
                assert(m.cells.len() == fields@.len());
                assert(m.full.len() == columns_full@.len());
                assert(!m.wf());
            }
            return None;
        }
        let mut r: usize = 0;
        while r < rows
            invariant
                m == BoardModel::from_parts_model(
                    rows as nat,
                    columns as nat,
                    fields@,
                    columns_full@,
                ),
                m.cells.len() == m.rows == rows,
                r <= rows,
                fields@.len() == rows,
                forall|i: int| 0 <= i < r ==> (#[trigger] m.cells[i]).len() == columns,
            decreases rows - r,
        {
            if fields[r].len() != columns {
                proof {
                    assert(m.cells[r as int].len() != columns);
                    assert(!m.wf());
                }
                return None;
            }
            r = r + 1;
        }
        let mut c: usize = 0;
        while c < columns
            invariant
                m == BoardModel::from_parts_model(
                    rows as nat,
                    columns as nat,
                    fields@,
                    columns_full@,
                ),
                m.cells.len() == m.rows == rows,
                m.columns == columns,
                m.full == columns_full@,
                c <= columns,
                fields@.len() == rows,
                columns_full@.len() == columns,
                forall|i: int| 0 <= i < rows ==> (#[trigger] m.cells[i]).len() == columns,
                forall|c2: int|
                    0 <= c2 < c ==> #[trigger] m.full[c2] == (m.rows > 0 && m.cells[0][c2]
                        is Token),
                forall|r1: int, r2: int, c2: int|
                    #![trigger m.cells[r1][c2], m.cells[r2][c2]]
                    0 <= r1 <= r2 < rows && 0 <= c2 < c && m.cells[r1][c2] is Token
                        ==> m.cells[r2][c2] is Token,
            decreases columns - c,
        {
            let expected_full = rows > 0 && !fields[0][c].is_empty_cell();
            if columns_full[c] != expected_full {
                proof {
                    assert(m.full[c as int] != (m.rows > 0 && m.cells[0][c as int] is Token));
                    assert(!m.wf());
                }
                return None;
            }
            let mut seen_token = false;
            let mut row: usize = 0;
            while row < rows
                invariant
                    m == BoardModel::from_parts_model(
                        rows as nat,
                        columns as nat,
                        fields@,
                        columns_full@,
                    ),
                    m.cells.len() == m.rows == rows,
                    m.columns == columns,
                    c < columns,
                    row <= rows,
                    fields@.len() == rows,
                    forall|i: int| 0 <= i < rows ==> (#[trigger] m.cells[i]).len() == columns,
                    seen_token == exists|r1: int|
                        0 <= r1 < row && (#[trigger] m.cells[r1][c as int]) is Token,
                    forall|r1: int, r2: int|
                        #![trigger m.cells[r1][c as int], m.cells[r2][c as int]]
                        0 <= r1 <= r2 < row && m.cells[r1][c as int] is Token
                            ==> m.cells[r2][c as int] is Token,
                decreases rows - row,
            {
                let token_here = !fields[row][c].is_empty_cell();
                if seen_token && !token_here {
                    proof {
                        let r1 = choose|r1: int|
                            0 <= r1 < row && (#[trigger] m.cells[r1][c as int]) is Token;
                        assert(m.cells[r1][c as int] is Token && m.cells[row as int][c as int]
                            is Empty);
                        assert(!m.wf());
                    }
                    return None;
                }
                if token_here {
                    seen_token = true;
                    assert(m.cells[row as int][c as int] is Token);
                }
                row = row + 1;
            }
            c = c + 1;
        }
        let b = Board { rows, columns, fields, columns_full };
        proof {
            assert(b@ =~~= m);
            assert(m.wf());
        }
        Some(b)
    }

    /// Range and fullness probe: true exactly when a move on `column`
    /// would be accepted.
    pub fn is_move_legal(self: &Self, column: usize) -> (r: bool)
        requires
            self@.wf(),
        ensures
            r == self@.legal(column as int),
    {
        if column >= self.columns {
            return false;
        }

        if self.columns_full[column] {
            return false;
        }

        return true;
    }

    /// Drops a token of `color` into the lowest empty cell of `column`.
    /// Refused when the column index is out of range or the column is
    /// full; the full flag is set when the move fills the top row.
    pub fn make_move(self: &mut Self, column: usize, color: TokenColor) -> (r: Result<
        (),
        MoveError,
    >)
        requires
            old(self)@.wf(),
        ensures
            final(self)@.wf(),
            r is Ok <==> old(self)@.legal(column as int),
            r is Ok ==> final(self)@ == old(self)@.after_move(column as int, color),
            r is Err ==> final(self)@ == old(self)@,
    {
        if !self.is_move_legal(column) {
            return Err(MoveError::new(String::from_str("illegal move")));
        }

        let ghost pre = self@;
        let mut row: usize = self.rows;
        while row > 0
            invariant
                self@ == pre,
                pre == old(self)@,
                pre.wf(),
                pre.legal(column as int),
                row <= pre.rows,
                pre.drop_row(column as int) == pre.drop_row_from(column as int, row - 1),
            decreases row,
        {
            row = row - 1;
            if matches!(self.fields[row][column], Field::Empty) {
                self.fields[row].set(column, Field::Token(color));
                if row == 0 {
                    self.columns_full.set(column, true);
                }
                proof {
                    assert(pre.drop_row(column as int) == row);
                    assert(self@.cells =~~= pre.after_move(column as int, color).cells);
                    assert(self@.full =~= pre.after_move(column as int, color).full);
                    assert(self@ =~~= pre.after_move(column as int, color));
                    lemma_after_move_wf(pre, column as int, color);
                }
                return Ok(());
            }
            proof {
                assert(pre.drop_row_from(column as int, row as int) == pre.drop_row_from(
                    column as int,
                    row - 1,
                ));
            }
        }
        // A legal column has its top cell free, so the scan cannot fall
        // through unless the board has no rows at all; then the move
        // leaves the board unchanged.
        proof {
            if pre.rows > 0 {
                lemma_drop_row_props(pre, column as int);
            }
            assert(pre.rows == 0);
            assert(pre.drop_row(column as int) == -1);
            assert(self@ =~~= pre.after_move(column as int, color));
        }
        return Ok(());
    }

    /// Scans every cell in row-major order for the start of a run of
    /// four; reports the game finished for the first color found.
    pub fn get_status(self: &Self) -> (s: GameStatus)
        requires
            self@.wf(),
        ensures
            s == self@.status(),
    {
        match self.get_winner() {
            Some(color) => GameStatus::Finished(color),
            None => GameStatus::InProgress,
        }
    }

    fn get_winner(self: &Self) -> (w: Option<TokenColor>)
        requires
            self@.wf(),
        ensures
            w == self@.winner(),
    {
        let ghost m = self@;
        let mut row: usize = 0;
        while row < self.rows
            invariant
                self@ == m,
                m.wf(),
                row <= m.rows,
                m.winner() == m.winner_from(row as int, 0),
            decreases m.rows - row,
        {
            let mut column: usize = 0;
            while column < self.columns
                invariant
                    self@ == m,
                    m.wf(),
                    row < m.rows,
                    column <= m.columns,
                    m.winner() == m.winner_from(row as int, column as int),
                decreases m.columns - column,
            {
                if !self.fields[row][column].is_empty_cell() {
                    // Rows
                    if (self.columns - column >= 4) && (self.fields[row][column]
                        == self.fields[row][column + 1]) && (self.fields[row][column + 1]
                        == self.fields[row][column + 2]) && (self.fields[row][column + 2]
                        == self.fields[row][column + 3]) {
                        return match self.fields[row][column] {
                            Field::Token(color) => Some(color),
                            Field::Empty => None,
                        };
                    }
                    // Columns
                    if (self.rows - row >= 4) && (self.fields[row][column]
                        == self.fields[row + 1][column]) && (self.fields[row + 1][column]
                        == self.fields[row + 2][column]) && (self.fields[row + 2][column]
                        == self.fields[row + 3][column]) {
                        return match self.fields[row][column] {
                            Field::Token(color) => Some(color),
                            Field::Empty => None,
                        };
                    }
                    // Left diagonal
                    if (row >= 3 && column >= 3) && (self.fields[row][column]
                        == self.fields[row - 1][column - 1]) && (self.fields[row - 1][column - 1]
                        == self.fields[row - 2][column - 2]) && (self.fields[row - 2][column - 2]
                        == self.fields[row - 3][column - 3]) {
                        return match self.fields[row][column] {
                            Field::Token(color) => Some(color),
                            Field::Empty => None,
                        };
                    }
                    // Right diagonal
                    if (row >= 3 && self.columns - column >= 4) && (self.fields[row][column]
                        == self.fields[row - 1][column + 1]) && (self.fields[row - 1][column + 1]
                        == self.fields[row - 2][column + 2]) && (self.fields[row - 2][column + 2]
                        == self.fields[row - 3][column + 3]) {
                        return match self.fields[row][column] {
                            Field::Token(color) => Some(color),
                            Field::Empty => None,
                        };
                    }
                }
                column = column + 1;
            }
            row = row + 1;
        }
        return None;
    }

    /// Clears the single topmost occupied cell of `column` and clears
    /// the full flag. Refused when the index is out of range or the
    /// column holds no token.
    pub fn undo_move(self: &mut Self, column: usize) -> (r: Result<(), MoveError>)
        requires
            old(self)@.wf(),
        ensures
            final(self)@.wf(),
            r is Ok <==> column < old(self)@.columns && !old(self)@.column_empty(column as int),
            r is Ok ==> final(self)@ == old(self)@.after_undo(column as int),
            r is Err ==> final(self)@ == old(self)@,
    {
        if column >= self.columns {
            return Err(MoveError::new(String::from_str("column index out of range")));
        }

        let ghost pre = self@;
        if self.rows == 0 || matches!(self.fields[self.rows - 1][column], Field::Empty) {
            proof {
                if pre.rows > 0 {
                    lemma_bottom_empty_column_empty(pre, column as int);
                }
            }
            return Err(MoveError::new(String::from_str("column is empty")));
        }

        assert(!pre.column_empty(column as int));
        let mut i: usize = 0;
        while i < self.rows
            invariant
                self@ == pre,
                pre == old(self)@,
                pre.wf(),
                0 <= column < pre.columns,
                !pre.column_empty(column as int),
                i <= pre.rows,
                pre.cells[pre.rows - 1][column as int] is Token,
                pre.top_row(column as int) == pre.top_row_from(column as int, i as int),
            decreases pre.rows - i,
        {
            if matches!(self.fields[i][column], Field::Token(_)) {
                self.fields[i].set(column, Field::Empty);
                proof {
                    assert(pre.top_row(column as int) == i);
                    lemma_top_row_props(pre, column as int);
                }
                if self.fields[0][column].is_empty_cell() {
                    self.columns_full.set(column, false);
                }
                proof {
                    // Row 0 is empty after the clear: either the cleared
                    // cell was row 0, or it was already empty (the
                    // cleared cell was the topmost token).
                    assert(self@.cells[0][column as int] is Empty);
                    assert(self@.cells =~~= pre.after_undo(column as int).cells);
                    assert(self@.full =~= pre.after_undo(column as int).full);
                    assert(self@ =~~= pre.after_undo(column as int));
                    lemma_after_undo_wf(pre, column as int);
                }
                return Ok(());
            }
            i = i + 1;
        }
        // Unreachable: the bottom cell holds a token, so the scan finds
        // one before running out of rows.
        proof {
            lemma_top_row_props(pre, column as int);
            assert(false);
        }
        return Err(MoveError::new(String::from_str("column is empty")));
    }
}

impl Clone for Board {
    /// A deep copy: an independent board in the same state, used when a
    /// branch of the search needs its own hypothetical grid.
    fn clone(&self) -> (b: Board)
        ensures
            b@ == self@,
    {
        let mut fields: Vec<Vec<Field>> = Vec::new();
        let mut r: usize = 0;
        while r < self.fields.len()
            invariant
                fields@.len() == r,
                r <= self.fields@.len(),
                forall|i: int| 0 <= i < r ==> (#[trigger] fields@[i])@ == self.fields@[i]@,
            decreases self.fields@.len() - r,
        {
            let source = &self.fields[r];
            let mut row: Vec<Field> = Vec::new();
            let mut c: usize = 0;
            while c < source.len()
                invariant
                    row@.len() == c,
                    c <= source@.len(),
                    forall|j: int| 0 <= j < c ==> row@[j] == source@[j],
                decreases source@.len() - c,
            {
                row.push(source[c]);
                c = c + 1;
            }
            assert(row@ =~= source@);
            fields.push(row);
            r = r + 1;
        }
        let mut columns_full: Vec<bool> = Vec::new();
        let mut c: usize = 0;
        while c < self.columns_full.len()
            invariant
                columns_full@.len() == c,
                c <= self.columns_full@.len(),
                forall|j: int| 0 <= j < c ==> columns_full@[j] == self.columns_full@[j],
            decreases self.columns_full@.len() - c,
        {
            columns_full.push(self.columns_full[c]);
            c = c + 1;
        }
        assert(columns_full@ =~= self.columns_full@);
        let b = Board { rows: self.rows, columns: self.columns, fields, columns_full };
        assert(b@ =~~= self@);
        b
    }
}

impl Field {
    /// True for an empty cell.
    pub fn is_empty_cell(&self) -> (r: bool)
        ensures
            r == (*self is Empty),
    {
        matches!(self, Field::Empty)
    }
}

impl Default for Board {
    /// The standard 6-row, 7-column board.
    fn default() -> (b: Board)
        ensures
            b@ == BoardModel::empty(6, 7),
            b@.wf(),
    {
        Board::new(6, 7)
    }
}

/// When the bottom cell of a column is empty, the whole column is.
pub proof fn lemma_bottom_empty_column_empty(b: BoardModel, col: int)
    requires
        b.wf(),
        0 <= col < b.columns,
        b.rows > 0,
        b.cells[b.rows - 1][col] is Empty,
    ensures
        b.column_empty(col),
{
    assert forall|r: int| 0 <= r < b.rows implies (#[trigger] b.cells[r][col]) is Empty by {
        assert(b.cells[r][col] is Token ==> b.cells[b.rows - 1][col] is Token);
    }
}

/// The drop scan from row `r` downward lands on an empty cell with only
/// tokens below it, or reports the column full from `r` down.
proof fn lemma_drop_row_from_props(b: BoardModel, col: int, r: int)
    requires
        b.wf(),
        0 <= col < b.columns,
        r < b.rows,
    ensures
        b.drop_row_from(col, r) < 0 ==> forall|rr: int|
            0 <= rr <= r ==> (#[trigger] b.cells[rr][col]) is Token,
        b.drop_row_from(col, r) >= 0 ==> {
            let d = b.drop_row_from(col, r);
            &&& d <= r
            &&& b.cells[d][col] is Empty
            &&& forall|rr: int| d < rr <= r ==> (#[trigger] b.cells[rr][col]) is Token
        },
    decreases r,
{
    if r >= 0 && !(b.cells[r][col] is Empty) && r > 0 {
        lemma_drop_row_from_props(b, col, r - 1);
    }
}

/// On a legal column of a board with at least one row, the drop row is
/// a real row: empty itself, every cell below it occupied, every cell
/// above it empty.
pub proof fn lemma_drop_row_props(b: BoardModel, col: int)
    requires
        b.wf(),
        b.legal(col),
        b.rows > 0,
    ensures
        0 <= b.drop_row(col) < b.rows,
        b.cells[b.drop_row(col)][col] is Empty,
        forall|rr: int|
            b.drop_row(col) < rr < b.rows ==> (#[trigger] b.cells[rr][col]) is Token,
        forall|rr: int| 0 <= rr < b.drop_row(col) ==> (#[trigger] b.cells[rr][col]) is Empty,
{
    lemma_drop_row_from_props(b, col, b.rows - 1);
    assert(b.cells[0][col] is Empty);
    let d = b.drop_row(col);
    assert forall|rr: int| 0 <= rr < d implies (#[trigger] b.cells[rr][col]) is Empty by {
        assert(b.cells[rr][col] is Token ==> b.cells[d][col] is Token);
    }
}

/// The top scan from row `r` downward lands on the first token, with
/// only empty cells between `r` and it, or reports the column empty
/// from `r` down.
proof fn lemma_top_row_from_props(b: BoardModel, col: int, r: int)
    requires
        b.wf(),
        0 <= col < b.columns,
        0 <= r,
    ensures
        b.top_row_from(col, r) < 0 ==> forall|rr: int|
            r <= rr < b.rows ==> (#[trigger] b.cells[rr][col]) is Empty,
        b.top_row_from(col, r) >= 0 ==> {
            let t = b.top_row_from(col, r);
            &&& r <= t < b.rows
            &&& b.cells[t][col] is Token
            &&& forall|rr: int| r <= rr < t ==> (#[trigger] b.cells[rr][col]) is Empty
        },
    decreases b.rows - r,
{
    if r < b.rows && !(b.cells[r][col] is Token) {
        lemma_top_row_from_props(b, col, r + 1);
    }
}

/// On a non-empty column the top row is a real row: the topmost token,
/// with every cell above it empty and every cell below it occupied.
pub proof fn lemma_top_row_props(b: BoardModel, col: int)
    requires
        b.wf(),
        0 <= col < b.columns,
        !b.column_empty(col),
    ensures
        0 <= b.top_row(col) < b.rows,
        b.cells[b.top_row(col)][col] is Token,
        forall|rr: int| 0 <= rr < b.top_row(col) ==> (#[trigger] b.cells[rr][col]) is Empty,
        forall|rr: int|
            b.top_row(col) <= rr < b.rows ==> (#[trigger] b.cells[rr][col]) is Token,
{
    lemma_top_row_from_props(b, col, 0);
    let t = b.top_row(col);
    if t < 0 {
        assert(forall|r: int| 0 <= r < b.rows ==> (#[trigger] b.cells[r][col]) is Empty);
    }
    assert forall|rr: int| t <= rr < b.rows implies (#[trigger] b.cells[rr][col]) is Token by {
        assert(b.cells[t][col] is Token);
    }
}

/// A legal move keeps the board well-formed.
pub proof fn lemma_after_move_wf(b: BoardModel, col: int, color: TokenColor)
    requires
        b.wf(),
        b.legal(col),
    ensures
        b.after_move(col, color).wf(),
{
    if b.rows > 0 {
        lemma_drop_row_props(b, col);
    }
}

/// An undo on a non-empty column keeps the board well-formed.
pub proof fn lemma_after_undo_wf(b: BoardModel, col: int)
    requires
        b.wf(),
        0 <= col < b.columns,
        !b.column_empty(col),
    ensures
        b.after_undo(col).wf(),
{
    lemma_top_row_props(b, col);
}

/// A color that the scan reports really has a qualifying run.
proof fn lemma_winner_from_sound(b: BoardModel, r: int, c: int)
    ensures
        b.winner_from(r, c) matches Some(k) ==> b.has_win(k),
    decreases b.rows - r, b.columns - c,
{
    if r < 0 || c < 0 || r >= b.rows {
    } else if c >= b.columns {
        lemma_winner_from_sound(b, r + 1, 0);
    } else {
        match b.cells[r][c] {
            Field::Token(k) => {
                if b.wins_at(r, c, k) {
                    assert(b.has_win(k));
                } else {
                    lemma_winner_from_sound(b, r, c + 1);
                }
            },
            Field::Empty => {
                lemma_winner_from_sound(b, r, c + 1);
            },
        }
    }
}

/// A scan that still has a winning cell ahead of it reports a winner.
proof fn lemma_winner_from_finds(b: BoardModel, r: int, c: int, r0: int, c0: int, k: TokenColor)
    requires
        b.wins_at(r0, c0, k),
        0 <= r,
        0 <= c,
        r < r0 || (r == r0 && c <= c0),
    ensures
        b.winner_from(r, c) is Some,
    decreases b.rows - r, b.columns - c,
{
    assert(r0 < b.rows && 0 <= c0 < b.columns);
    if c >= b.columns {
        lemma_winner_from_finds(b, r + 1, 0, r0, c0, k);
    } else if r == r0 && c == c0 {
        assert(b.cells[r][c] == Field::Token(k));
    } else {
        match b.cells[r][c] {
            Field::Token(kk) => {
                if !b.wins_at(r, c, kk) {
                    lemma_winner_from_finds(b, r, c + 1, r0, c0, k);
                }
            },
            Field::Empty => {
                lemma_winner_from_finds(b, r, c + 1, r0, c0, k);
            },
        }
    }
}

/// Win detection, one direction: when exactly one color has four
/// contiguous tokens somewhere, the derived status names that color.
pub proof fn lemma_win_detected(b: BoardModel, k: TokenColor)
    requires
        b.has_win(k),
        !b.has_win(k.spec_invert()),
    ensures
        b.status() == GameStatus::Finished(k),
{
    let (r0, c0): (int, int) = choose|r: int, c: int| b.wins_at(r, c, k);
    lemma_winner_from_finds(b, 0, 0, r0, c0, k);
    lemma_winner_from_sound(b, 0, 0);
    let kk = b.winner()->0;
    assert(b.has_win(kk));
    assert(kk == k || kk == k.spec_invert());
}

/// Win detection, the other direction: a board with no four-in-a-row of
/// either color is still in progress.
pub proof fn lemma_no_win_in_progress(b: BoardModel)
    requires
        !b.has_win(TokenColor::Red),
        !b.has_win(TokenColor::Yellow),
    ensures
        b.status() == GameStatus::InProgress,
{
    lemma_winner_from_sound(b, 0, 0);
    if b.winner() is Some {
        let kk = b.winner()->0;
        assert(kk == TokenColor::Red || kk == TokenColor::Yellow);
    }
}

/// The fullness check refuses exactly the columns that already hold
/// `rows` tokens: the cached flag that makes a move illegal is set
/// precisely when every cell of the column is taken.
pub proof fn lemma_full_iff_count(b: BoardModel, col: int)
    requires
        b.wf(),
        0 <= col < b.columns,
        b.rows >= 1,
    ensures
        b.full[col] <==> b.column_count(col) == b.rows,
{
    if b.column_empty(col) {
        assert(b.cells[0][col] is Empty);
        assert(b.top_row_from(col, 0) == b.top_row_from(col, 1) || b.rows == 1);
        lemma_top_row_from_props(b, col, 0);
        assert(b.top_row(col) < 0);
    } else {
        lemma_top_row_props(b, col);
        assert(b.full[col] <==> b.top_row(col) == 0);
    }
}

/// A move and an immediate undo on the same column restore the board
/// bit for bit.
pub proof fn lemma_move_undo_roundtrip(b: BoardModel, col: int, color: TokenColor)
    requires
        b.wf(),
        b.legal(col),
        b.rows > 0,
    ensures
        b.after_move(col, color).after_undo(col) == b,
{
    lemma_drop_row_props(b, col);
    let d = b.drop_row(col);
    let b2 = b.after_move(col, color);
    lemma_after_move_wf(b, col, color);
    assert(!b2.column_empty(col));
    lemma_top_row_props(b2, col);
    assert(b2.top_row(col) == d) by {
        lemma_top_row_from_props(b2, col, 0);
        let t = b2.top_row(col);
        assert(b2.cells[d][col] is Token);
        if t < d {
            assert(b2.cells[t][col] is Token);
            assert(b.cells[t][col] is Token);
        }
        if t > d {
            assert(b2.cells[d][col] is Empty);
        }
    }
    let b3 = b2.after_undo(col);
    assert(b3.cells =~~= b.cells);
    assert(b3.full =~= b.full);
    assert(b3 =~~= b);
}

} // verus!
