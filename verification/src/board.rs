use vstd::prelude::*;

use crate::outcome::Outcome;
use crate::position_id::{index_of, on_board, PositionId};
use crate::stone::Stone;

verus! {

/// Why a stone could not be placed.
#[derive(Debug, Clone, Copy, PartialEq, Eq, Structural)]
pub enum PlaceError {
    /// The cell already holds a stone.
    Occupied,
    /// `Stone::Empty` is not a stone that can be placed.
    NoStone,
    /// The game is already decided.
    GameOver,
}

impl PlaceError {
    /// The message shown for this error.
    pub fn to_string(&self) -> (result: String)
        ensures
            result@ == self.message(),
    {
        match self {
            PlaceError::Occupied => String::from_str("Position is not empty"),
            PlaceError::NoStone => String::from_str("An empty cell is not a stone"),
            PlaceError::GameOver => String::from_str("The game is already over"),
        }
    }

    pub open spec fn message(&self) -> Seq<char> {
        match self {
            PlaceError::Occupied => "Position is not empty"@,
            PlaceError::NoStone => "An empty cell is not a stone"@,
            PlaceError::GameOver => "The game is already over"@,
        }
    }
}

/// How many cells of `cells` hold a stone.
pub open spec fn stone_count(cells: Seq<Stone>) -> nat
    decreases cells.len(),
{
    if cells.len() == 0 {
        0
    } else {
        stone_count(cells.drop_last()) + if cells.last() != Stone::Empty {
            1nat
        } else {
            0nat
        }
    }
}

/// Row step of each of the four line directions: east, south, south-east,
/// south-west.
pub open spec fn dir_row(d: int) -> int {
    if d == 0 {
        0
    } else {
        1
    }
}

/// Column step of each of the four line directions.
pub open spec fn dir_col(d: int) -> int {
    if d == 0 {
        1
    } else if d == 1 {
        0
    } else if d == 2 {
        1
    } else {
        -1
    }
}

/// The stone at `row`, `col`.
pub open spec fn cell_at(cells: Seq<Stone>, row: int, col: int) -> Stone {
    cells[index_of(row, col)]
}

/// Five cells starting at `row`, `col` in direction `d` all hold `stone`.
pub open spec fn five_at(cells: Seq<Stone>, stone: Stone, row: int, col: int, d: int) -> bool {
    &&& 0 <= d < 4
    &&& forall|k: int|
        0 <= k < 5 ==> on_board(row + k * dir_row(d), col + k * dir_col(d)) && #[trigger] cell_at(
            cells,
            row + k * dir_row(d),
            col + k * dir_col(d),
        ) == stone
}

/// `stone` has five in a row somewhere.
pub open spec fn has_five(cells: Seq<Stone>, stone: Stone) -> bool {
    exists|row: int, col: int, d: int| on_board(row, col) && #[trigger] five_at(cells, stone, row, col, d)
}

/// No cell is empty.
pub open spec fn all_occupied(cells: Seq<Stone>) -> bool {
    forall|i: int| 0 <= i < cells.len() ==> #[trigger] cells[i] != Stone::Empty
}

/// The state of the game on `cells`: a five decides it, a full board
/// without one is a draw.
pub open spec fn outcome_of(cells: Seq<Stone>) -> Option<Outcome> {
    if has_five(cells, Stone::Black) {
        Some(Outcome::BlackWins)
    } else if has_five(cells, Stone::White) {
        Some(Outcome::WhiteWins)
    } else if all_occupied(cells) {
        Some(Outcome::Draw)
    } else {
        None
    }
}

/// The symbol of one cell in the board's text.
pub open spec fn symbol(stone: Stone) -> Seq<char> {
    match stone {
        Stone::Black => "X"@,
        Stone::White => "O"@,
        Stone::Empty => "·"@,
    }
}

/// What stands before cell `i` in the board's text: nothing before the
/// first cell, a line break before each new row, a space otherwise.
pub open spec fn separator(i: int) -> Seq<char> {
    if i == 0 {
        Seq::empty()
    } else if i % 15 == 0 {
        "\n"@
    } else {
        " "@
    }
}

/// The text of the first `n` cells.
pub open spec fn board_text(cells: Seq<Stone>, n: int) -> Seq<char>
    decreases n,
{
    if n <= 0 {
        Seq::empty()
    } else {
        board_text(cells, n - 1) + separator(n - 1) + symbol(cells[n - 1])
    }
}

/// Changing one cell changes the stone count by what it puts in and takes out.
pub proof fn lemma_stone_count_update(cells: Seq<Stone>, i: int, v: Stone)
    requires
        0 <= i < cells.len(),
    ensures
        stone_count(cells.update(i, v)) + (if cells[i] != Stone::Empty {
            1int
        } else {
            0int
        }) == stone_count(cells) + (if v != Stone::Empty {
            1int
        } else {
            0int
        }),
    decreases cells.len(),
{
    let u = cells.update(i, v);
    if i == cells.len() - 1 {
        assert(u.drop_last() =~= cells.drop_last());
    } else {
        lemma_stone_count_update(cells.drop_last(), i, v);
        assert(u.drop_last() =~= cells.drop_last().update(i, v));
    }
}

/// The stone count never exceeds the number of cells, and reaches it only
/// when every cell holds a stone.
pub proof fn lemma_stone_count_full(cells: Seq<Stone>)
    ensures
        stone_count(cells) <= cells.len(),
        stone_count(cells) == cells.len() <==> all_occupied(cells),
    decreases cells.len(),
{
    if cells.len() > 0 {
        lemma_stone_count_full(cells.drop_last());
        if all_occupied(cells) {
            assert(all_occupied(cells.drop_last()));
        }
        if stone_count(cells) == cells.len() {
            assert forall|i: int| 0 <= i < cells.len() implies #[trigger] cells[i] != Stone::Empty by {
                if i < cells.len() - 1 {
                    assert(cells.drop_last()[i] == cells[i]);
                }
            }
        }
    }
}

/// A 15×15 Gomoku board.
#[derive(Debug)]
pub struct Board {
    cells: Vec<Stone>,
    move_count: usize,
}

impl View for Board {
    type V = Seq<Stone>;

    closed spec fn view(&self) -> Seq<Stone> {
        self.cells@
    }
}

impl Clone for Board {
    fn clone(&self) -> (result: Self)
        ensures
            self.wf() ==> result.wf(),
            result@ == self@,
            result.spec_move_count() == self.spec_move_count(),
    {
        Board { cells: self.cells.clone(), move_count: self.move_count }
    }
}

impl Board {
    /// One entry per cell, and the move count is the number of stones.
    pub closed spec fn wf(&self) -> bool {
        &&& self.cells@.len() == 225
        &&& self.move_count == stone_count(self.cells@)
    }

    /// A well-formed board has one entry per cell and counts its stones.
    pub proof fn lemma_wf(&self)
        requires
            self.wf(),
        ensures
            self@.len() == 225,
            self.spec_move_count() == stone_count(self@),
            self.spec_move_count() <= 225,
    {
        lemma_stone_count_full(self@);
    }

    pub closed spec fn spec_move_count(&self) -> nat {
        self.move_count as nat
    }

    /// The stone at a cell.
    pub open spec fn at(&self, position: PositionId) -> Stone {
        self@[position.idx()]
    }

    /// An empty board.
    pub fn new() -> (result: Self)
        ensures
            result.wf(),
            result@ == Seq::new(225, |i: int| Stone::Empty),
            result.spec_move_count() == 0,
    {
        let mut cells: Vec<Stone> = Vec::new();
        let mut i: usize = 0;
        while i < 225
            invariant
                i <= 225,
                cells@ == Seq::new(i as nat, |k: int| Stone::Empty),
            decreases 225 - i,
        {
            cells.push(Stone::Empty);
            i = i + 1;
            proof {
                assert(cells@ =~= Seq::new(i as nat, |k: int| Stone::Empty));
            }
        }
        proof {
            lemma_empty_count(225);
        }
        Board { cells, move_count: 0 }
    }

    /// The stone at `position`, or `None` when the cell is empty.
    pub fn stone(&self, position: PositionId) -> (result: Option<Stone>)
        requires
            self.wf(),
        ensures
            result == (if self.at(position) == Stone::Empty {
                None
            } else {
                Some(self.at(position))
            }),
    {
        let stone = self.stone_at(position);
        if stone == Stone::Empty {
            None
        } else {
            Some(stone)
        }
    }

    /// The content of `position`, `Stone::Empty` when there is no stone.
    pub fn stone_at(&self, position: PositionId) -> (result: Stone)
        requires
            self.wf(),
        ensures
            result == self.at(position),
    {
        self.cells[position.to_index()]
    }

    pub fn is_empty(&self, position: PositionId) -> (result: bool)
        requires
            self.wf(),
        ensures
            result == (self.at(position) == Stone::Empty),
    {
        self.stone_at(position) == Stone::Empty
    }

    /// Whether a stone lies at most two rows and two columns from
    /// `position`.
    pub fn has_stone_near(&self, position: PositionId) -> (result: bool)
        requires
            self.wf(),
        ensures
            result == stone_near(self@, position.spec_row(), position.spec_col()),
    {
        proof {
            self.lemma_wf();
        }
        let r = position.row() as i32;
        let c = position.col() as i32;
        let mut dr: i32 = -2;
        while dr <= 2
            invariant
                -2 <= dr <= 3,
                0 <= r < 15,
                0 <= c < 15,
                r == position.spec_row(),
                c == position.spec_col(),
                self.wf(),
                self@.len() == 225,
                forall|row: int, col: int|
                    r - 2 <= row < r + dr && c - 2 <= col <= c + 2 && on_board(row, col) ==> #[trigger] self@[index_of(
                        row,
                        col,
                    )] == Stone::Empty,
            decreases 3 - dr,
        {
            let mut dc: i32 = -2;
            while dc <= 2
                invariant
                    -2 <= dr <= 2,
                    -2 <= dc <= 3,
                    0 <= r < 15,
                    0 <= c < 15,
                    r == position.spec_row(),
                    c == position.spec_col(),
                    self.wf(),
                    self@.len() == 225,
                    forall|row: int, col: int|
                        r - 2 <= row < r + dr && c - 2 <= col <= c + 2 && on_board(row, col) ==> #[trigger] self@[index_of(
                            row,
                            col,
                        )] == Stone::Empty,
                    forall|col: int|
                        c - 2 <= col < c + dc && on_board(r + dr, col) ==> #[trigger] self@[index_of(r + dr, col)]
                            == Stone::Empty,
                decreases 3 - dc,
            {
                let row = r + dr;
                let col = c + dc;
                if 0 <= row && row < 15 && 0 <= col && col < 15 {
                    let q = PositionId::from_row_col(row as usize, col as usize);
                    if self.stone_at(q) != Stone::Empty {
                        assert(self@[index_of(row as int, col as int)] != Stone::Empty);
                        return true;
                    }
                }
                dc = dc + 1;
            }
            dr = dr + 1;
        }
        false
    }

    /// How many stones are on the board.
    pub fn move_count(&self) -> (result: usize)
        requires
            self.wf(),
        ensures
            result == stone_count(self@),
            result == self.spec_move_count(),
            result <= 225,
            self@.len() == 225,
    {
        proof {
                        lemma_stone_count_full(self@);
        }
        self.move_count
    }

    /// Every cell holds a stone.
    pub fn is_full(&self) -> (result: bool)
        requires
            self.wf(),
        ensures
            result == all_occupied(self@),
    {
        proof {
                        lemma_stone_count_full(self@);
        }
        self.move_count == 225
    }

    /// Whose turn it is when Black starts and the colours alternate.
    pub fn stone_to_move(&self) -> (result: Stone)
        requires
            self.wf(),
        ensures
            result == (if stone_count(self@) % 2 == 0 {
                Stone::Black
            } else {
                Stone::White
            }),
    {
        if self.move_count() % 2 == 0 {
            Stone::Black
        } else {
            Stone::White
        }
    }

    /// Five cells from `row`, `col` in direction `d` hold `stone`.
    fn five_at_exec(&self, stone: Stone, row: usize, col: usize, d: usize) -> (result: bool)
        requires
            self.wf(),
            row < 15,
            col < 15,
            d < 4,
        ensures
            result == five_at(self@, stone, row as int, col as int, d as int),
    {
        let dr: usize = if d == 0 {
            0
        } else {
            1
        };
        let end_row = row + 4 * dr;
        if end_row >= 15 {
            proof {
                if five_at(self@, stone, row as int, col as int, d as int) {
                    assert(cell_at(self@, row + 4 * dir_row(d as int), col + 4 * dir_col(d as int))
                        == stone);
                }
            }
            return false;
        }
        if d == 0 || d == 2 {
            if col + 4 >= 15 {
            proof {
                    if five_at(self@, stone, row as int, col as int, d as int) {
                        assert(cell_at(self@, row + 4 * dir_row(d as int), col + 4 * dir_col(d as int))
                            == stone);
                    }
                }
                return false;
            }
        }
        if d == 3 && col < 4 {
            proof {
                if five_at(self@, stone, row as int, col as int, d as int) {
                    assert(cell_at(self@, row + 4 * dir_row(d as int), col + 4 * dir_col(d as int))
                        == stone);
                }
            }
            return false;
        }
        let mut k: usize = 0;
        while k < 5
            invariant
                k <= 5,
                row < 15,
                col < 15,
                d < 4,
                dr == dir_row(d as int),
                row + 4 * dr < 15,
                d == 0 || d == 2 ==> col + 4 < 15,
                d == 3 ==> col >= 4,
                self.cells@.len() == 225,
                self@ == self.cells@,
                forall|j: int|
                    0 <= j < k ==> on_board(
                        row + j * dir_row(d as int),
                        col + j * dir_col(d as int),
                    ) && #[trigger] cell_at(
                        self@,
                        row + j * dir_row(d as int),
                        col + j * dir_col(d as int),
                    ) == stone,
            decreases 5 - k,
        {
            let r = row + k * dr;
            let c: usize = if d == 0 || d == 2 {
                col + k
            } else if d == 1 {
                col
            } else {
                col - k
            };
            assert(r == row + k * dir_row(d as int));
            assert(c == col + k * dir_col(d as int)) by {
                let kk = k as int;
                if d == 1 {
                    assert(kk * 0 == 0) by (nonlinear_arith);
                } else if d == 3 {
                    assert(kk * -1 == -kk) by (nonlinear_arith);
                } else {
                    assert(kk * 1 == kk) by (nonlinear_arith);
                }
            }
            if self.cells[r * 15 + c] != stone {
                assert(cell_at(self@, row + k * dir_row(d as int), col + k * dir_col(d as int))
                    != stone);
                return false;
            }
            k = k + 1;
        }
        true
    }

    /// Whether `stone` has five in a row anywhere on the board.
    pub fn has_five(&self, stone: Stone) -> (result: bool)
        requires
            self.wf(),
        ensures
            result == has_five(self@, stone),
    {
        let mut row: usize = 0;
        while row < 15
            invariant
                row <= 15,
                self.wf(),
                forall|r: int, c: int, d: int|
                    0 <= r < row && on_board(r, c) ==> !#[trigger] five_at(self@, stone, r, c, d),
            decreases 15 - row,
        {
            let mut col: usize = 0;
            while col < 15
                invariant
                    row < 15,
                    col <= 15,
                    self.wf(),
                    forall|r: int, c: int, d: int|
                        0 <= r < row && on_board(r, c) ==> !#[trigger] five_at(
                            self@,
                            stone,
                            r,
                            c,
                            d,
                        ),
                    forall|c: int, d: int|
                        0 <= c < col ==> !#[trigger] five_at(self@, stone, row as int, c, d),
                decreases 15 - col,
            {
                let mut d: usize = 0;
                while d < 4
                    invariant
                        row < 15,
                        col < 15,
                        d <= 4,
                        self.wf(),
                        forall|dd: int|
                            0 <= dd < d ==> !#[trigger] five_at(
                                self@,
                                stone,
                                row as int,
                                col as int,
                                dd,
                            ),
                    decreases 4 - d,
                {
                    if self.five_at_exec(stone, row, col, d) {
                        assert(on_board(row as int, col as int));
                        return true;
                    }
                    d = d + 1;
                }
                assert forall|dd: int| !#[trigger] five_at(self@, stone, row as int, col as int, dd) by {
                    if !(0 <= dd < 4) {
                    }
                }
                col = col + 1;
            }
            row = row + 1;
        }
        false
    }

    /// The result of the game if it is decided.
    pub fn outcome(&self) -> (result: Option<Outcome>)
        requires
            self.wf(),
        ensures
            result == outcome_of(self@),
    {
        if self.has_five(Stone::Black) {
            Some(Outcome::BlackWins)
        } else if self.has_five(Stone::White) {
            Some(Outcome::WhiteWins)
        } else if self.is_full() {
            Some(Outcome::Draw)
        } else {
            None
        }
    }

    /// Whether the game is decided: a five, or a full board.
    pub fn is_finished(&self) -> (result: bool)
        requires
            self.wf(),
        ensures
            result == outcome_of(self@).is_some(),
    {
        self.outcome().is_some()
    }

    /// Puts `stone` on an empty cell without checking the game state.
    pub fn place_unchecked(&mut self, position: PositionId, stone: Stone)
        requires
            old(self).wf(),
            old(self).at(position) == Stone::Empty,
            stone.is_colour(),
        ensures
            final(self).wf(),
            final(self)@ == old(self)@.update(position.idx(), stone),
            final(self).spec_move_count() == old(self).spec_move_count() + 1,
    {
        let index = position.to_index();
        proof {
            lemma_stone_count_update(self.cells@, position.idx(), stone);
            lemma_stone_count_full(self.cells@);
            assert(self.cells@[position.idx()] == Stone::Empty);
        }
        self.cells.set(index, stone);
        self.move_count = self.move_count + 1;
    }

    /// Takes `stone` back off `position`.
    pub fn undo(&mut self, position: PositionId, stone: Stone)
        requires
            old(self).wf(),
            old(self).at(position) == stone,
            stone.is_colour(),
        ensures
            final(self)@ == old(self)@.update(position.idx(), Stone::Empty),
            final(self).wf(),
            final(self).spec_move_count() + 1 == old(self).spec_move_count(),
    {
        let index = position.to_index();
        proof {
            lemma_stone_count_update(self.cells@, position.idx(), Stone::Empty);
        }
        self.cells.set(index, Stone::Empty);
        self.move_count = self.move_count - 1;
    }

    /// Places a stone on an empty cell of an undecided game.
    pub fn place(&mut self, position: PositionId, stone: Stone) -> (result: Result<(), PlaceError>)
        requires
            old(self).wf(),
        ensures
            final(self).wf(),
            match result {
                Ok(()) => final(self)@ == old(self)@.update(position.idx(), stone)
                    && final(self).spec_move_count() == old(self).spec_move_count() + 1,
                Err(e) => *final(self) == *old(self),
            },
            result == (if stone == Stone::Empty {
                Err::<(), PlaceError>(PlaceError::NoStone)
            } else if old(self).at(position) != Stone::Empty {
                Err(PlaceError::Occupied)
            } else if outcome_of(old(self)@).is_some() {
                Err(PlaceError::GameOver)
            } else {
                Ok(())
            }),
    {
        if stone == Stone::Empty {
            return Err(PlaceError::NoStone);
        }
        if !self.is_empty(position) {
            return Err(PlaceError::Occupied);
        }
        if self.is_finished() {
            return Err(PlaceError::GameOver);
        }
        self.place_unchecked(position, stone);
        Ok(())
    }

    /// The empty cells, in row-major order.
    pub fn empty_position_ids(&self) -> (result: Vec<PositionId>)
        requires
            self.wf(),
        ensures
            forall|i: int| 0 <= i < result@.len() ==> self.at(#[trigger] result@[i]) == Stone::Empty,
            forall|p: PositionId| p.valid() && self.at(p) == Stone::Empty ==> #[trigger] result@.contains(p),
            forall|i: int| 0 <= i < result@.len() ==> (#[trigger] result@[i]).valid(),
            forall|i: int, j: int|
                0 <= i < j < result@.len() ==> (#[trigger] result@[i]).idx() < (#[trigger] result@[j]).idx(),
    {
        let mut result: Vec<PositionId> = Vec::new();
        let mut index: usize = 0;
        while index < 225
            invariant
                index <= 225,
                self.cells@.len() == 225,
                forall|i: int| 0 <= i < result@.len() ==> self.at(#[trigger] result@[i]) == Stone::Empty,
                forall|i: int| 0 <= i < result@.len() ==> (#[trigger] result@[i]).idx() < index,
                forall|i: int| 0 <= i < result@.len() ==> (#[trigger] result@[i]).valid(),
                forall|p: PositionId|
                    p.valid() && p.idx() < index && self.at(p) == Stone::Empty ==> #[trigger] result@.contains(p),
                forall|i: int, j: int|
                    0 <= i < j < result@.len() ==> (#[trigger] result@[i]).idx() < (#[trigger] result@[j]).idx(),
            decreases 225 - index,
        {
            let position = PositionId::from_index(index);
            if self.cells[index] == Stone::Empty {
                let ghost old_result = result@;
                result.push(position);
                proof {
                    assert forall|p: PositionId|
                        p.valid() && p.idx() < index + 1 && self.at(p) == Stone::Empty implies #[trigger] result@.contains(p) by {
                        if p.idx() == index {
                            p.idx_determines(position);
                            assert(result@[result@.len() - 1] == p);
                        } else {
                            assert(old_result.contains(p));
                            let k = choose|k: int| 0 <= k < old_result.len() && old_result[k] == p;
                            assert(result@[k] == p);
                        }
                    }
                }
            } else {
                proof {
                    assert forall|p: PositionId|
                        p.valid() && p.idx() < index + 1 && self.at(p) == Stone::Empty implies #[trigger] result@.contains(p) by {
                        if p.idx() == index {
                            p.idx_determines(position);
                        }
                    }
                }
            }
            index = index + 1;
        }
        proof {
            assert forall|p: PositionId| p.valid() && self.at(p) == Stone::Empty implies #[trigger] result@.contains(p) by {
            }
        }
        result
    }

    /// The board as text: one line per row, cells separated by spaces, `X`
    /// for Black, `O` for White and `·` for an empty cell.
    pub fn to_string(&self) -> (result: String)
        requires
            self.wf(),
        ensures
            result@ == board_text(self@, 225),
    {
        let mut text = String::new();
        let mut i: usize = 0;
        while i < 225
            invariant
                i <= 225,
                self.cells@.len() == 225,
                text@ == board_text(self@, i as int),
            decreases 225 - i,
        {
            if i > 0 {
                if i % 15 == 0 {
                    text.append("\n");
                } else {
                    text.append(" ");
                }
            }
            match self.cells[i] {
                Stone::Black => text.append("X"),
                Stone::White => text.append("O"),
                Stone::Empty => text.append("·"),
            }
            proof {
                assert(text@ =~= board_text(self@, i as int) + separator(i as int) + symbol(
                    self@[i as int],
                ));
            }
            i = i + 1;
        }
        text
    }
}

/// An all-empty sequence holds no stones.
pub proof fn lemma_empty_count(n: nat)
    ensures
        stone_count(Seq::new(n, |k: int| Stone::Empty)) == 0,
    decreases n,
{
    if n > 0 {
        lemma_empty_count((n - 1) as nat);
        assert(Seq::new(n, |k: int| Stone::Empty).drop_last() =~= Seq::new(
            (n - 1) as nat,
            |k: int| Stone::Empty,
        ));
    }
}

/// A sequence holding no stones is all empty.
pub proof fn lemma_empty_when_no_stones(cells: Seq<Stone>)
    requires
        stone_count(cells) == 0,
    ensures
        cells == Seq::new(cells.len(), |k: int| Stone::Empty),
    decreases cells.len(),
{
    if cells.len() > 0 {
        lemma_empty_when_no_stones(cells.drop_last());
        assert forall|k: int| 0 <= k < cells.len() implies cells[k] == Stone::Empty by {
            if k < cells.len() - 1 {
                assert(cells.drop_last()[k] == cells[k]);
            }
        }
        assert(cells =~= Seq::new(cells.len(), |k: int| Stone::Empty));
    }
}

/// Some stone lies at most two rows and two columns from `row`, `col`.
pub open spec fn stone_near(cells: Seq<Stone>, row: int, col: int) -> bool {
    exists|r: int, c: int|
        row - 2 <= r <= row + 2 && col - 2 <= c <= col + 2 && on_board(r, c) && #[trigger] cells[index_of(r, c)]
            != Stone::Empty
}

/// How many of the first `i` cells are empty.
pub open spec fn empties_before(cells: Seq<Stone>, i: int) -> int
    decreases i,
{
    if i <= 0 {
        0
    } else {
        empties_before(cells, i - 1) + if cells[i - 1] == Stone::Empty {
            1int
        } else {
            0int
        }
    }
}

/// In a list of exactly the empty cells in reading order, the first
/// `empties_before(cells, i)` cells lie before cell `i` and the rest from
/// it on.
proof fn lemma_empties_prefix(cells: Seq<Stone>, list: Seq<PositionId>, i: int)
    requires
        cells.len() == 225,
        0 <= i <= 225,
        forall|j: int| 0 <= j < list.len() ==> (#[trigger] list[j]).valid() && cells[list[j].idx()] == Stone::Empty,
        forall|p: PositionId| p.valid() && cells[p.idx()] == Stone::Empty ==> #[trigger] list.contains(p),
        forall|a: int, b: int| 0 <= a < b < list.len() ==> (#[trigger] list[a]).idx() < (#[trigger] list[b]).idx(),
    ensures
        0 <= empties_before(cells, i) <= list.len(),
        forall|j: int| 0 <= j < empties_before(cells, i) ==> (#[trigger] list[j]).idx() < i,
        forall|j: int| empties_before(cells, i) <= j < list.len() ==> (#[trigger] list[j]).idx() >= i,
    decreases i,
{
    if i > 0 {
        lemma_empties_prefix(cells, list, i - 1);
        let m = empties_before(cells, i - 1);
        if cells[i - 1] == Stone::Empty {
            crate::position_id::lemma_index_has_cell(i - 1);
            let p = choose|p: PositionId| p.valid() && #[trigger] p.idx() == i - 1;
            assert(list.contains(p));
            let j = choose|j: int| 0 <= j < list.len() && list[j] == p;
            if j > m {
                assert(list[m].idx() < list[j].idx());
            }
            assert(j == m);
            assert forall|k: int| m + 1 <= k < list.len() implies (#[trigger] list[k]).idx() >= i by {
                assert(list[m].idx() < list[k].idx());
            }
        } else {
            assert forall|k: int| m <= k < list.len() implies (#[trigger] list[k]).idx() >= i by {
                if list[k].idx() == i - 1 {
                    assert(cells[list[k].idx()] == Stone::Empty);
                }
            }
        }
    }
}

/// In a list of exactly the empty cells in reading order, the cell at `k`
/// has `k` empty cells before it, and the list holds every empty cell.
pub proof fn lemma_kth_empty(cells: Seq<Stone>, list: Seq<PositionId>, k: int)
    requires
        cells.len() == 225,
        0 <= k < list.len(),
        forall|j: int| 0 <= j < list.len() ==> (#[trigger] list[j]).valid() && cells[list[j].idx()] == Stone::Empty,
        forall|p: PositionId| p.valid() && cells[p.idx()] == Stone::Empty ==> #[trigger] list.contains(p),
        forall|a: int, b: int| 0 <= a < b < list.len() ==> (#[trigger] list[a]).idx() < (#[trigger] list[b]).idx(),
    ensures
        empties_before(cells, list[k].idx() as int) == k,
        list.len() == empties_before(cells, 225),
{
    let t = list[k].idx() as int;
    assert(list[k].valid());
    lemma_empties_prefix(cells, list, t);
    let m = empties_before(cells, t);
    if k > m {
        assert(list[m].idx() < list[k].idx());
    }
    lemma_empties_prefix(cells, list, 225);
    if empties_before(cells, 225) < list.len() {
        let last = list[list.len() - 1];
        assert(last.valid());
    }
}

} // verus!
