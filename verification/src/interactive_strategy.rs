//! The decisions of the interactive player: what a key does, and how a cell
//! and the side to move are shown.

use vstd::prelude::*;

use crate::board::Board;
use crate::offset::Offset;
use crate::position_id::PositionId;
use crate::stone::Stone;

verus! {

/// The cell `offset` away from `cursor`, or `cursor` itself when that would
/// leave the board.
pub fn move_cursor(cursor: PositionId, offset: Offset) -> (result: PositionId)
    ensures
        result == match cursor.from_offset_spec(offset) {
            Some(p) => p,
            None => cursor,
        },
{
    match cursor.offset(offset) {
        Some(p) => p,
        None => cursor,
    }
}

/// A key the player pressed.
#[derive(Debug, Clone, Copy, PartialEq, Eq, Structural)]
pub enum Key {
    Up,
    Down,
    Left,
    Right,
    Enter,
    Esc,
    Char(char),
    /// Any other key.
    Other,
}

/// What a key press does.
#[derive(Debug, Clone, Copy, PartialEq, Eq, Structural)]
pub enum KeyOutcome {
    /// The cursor goes here (where it was, at the edge of the board); the
    /// board is drawn again.
    Moved(PositionId),
    /// The player puts a stone under the cursor.
    Placed(PositionId),
    /// The player leaves the game.
    Quit,
    /// Nothing happens; the next key is read.
    Ignored,
}

/// The cell one row and column step from `cursor`, or `cursor` at the edge.
pub open spec fn stepped(cursor: PositionId, rows: int, cols: int) -> PositionId {
    let row = cursor.spec_row() + rows;
    let col = cursor.spec_col() + cols;
    if crate::position_id::on_board(row, col) {
        choose|p: PositionId| p.valid() && p.spec_row() == row && p.spec_col() == col
    } else {
        cursor
    }
}

/// What `key` does with the cursor at `cursor` on a board holding `cells`:
/// arrows and `hjkl` move the cursor, Enter and Space place a stone on an
/// empty cell, `q` and Esc quit, and every other key does nothing.
pub open spec fn key_outcome(key: Key, cursor: PositionId, cells: Seq<Stone>) -> KeyOutcome {
    if key == Key::Up || key == Key::Char('k') {
        KeyOutcome::Moved(stepped(cursor, -1, 0))
    } else if key == Key::Down || key == Key::Char('j') {
        KeyOutcome::Moved(stepped(cursor, 1, 0))
    } else if key == Key::Left || key == Key::Char('h') {
        KeyOutcome::Moved(stepped(cursor, 0, -1))
    } else if key == Key::Right || key == Key::Char('l') {
        KeyOutcome::Moved(stepped(cursor, 0, 1))
    } else if key == Key::Enter || key == Key::Char(' ') {
        if cells[cursor.idx()] == Stone::Empty {
            KeyOutcome::Placed(cursor)
        } else {
            KeyOutcome::Ignored
        }
    } else if key == Key::Char('q') || key == Key::Esc {
        KeyOutcome::Quit
    } else {
        KeyOutcome::Ignored
    }
}

/// The cursor moved by one step.
fn step(cursor: PositionId, rows: isize, cols: isize) -> (result: PositionId)
    requires
        -1 <= rows <= 1,
        -1 <= cols <= 1,
    ensures
        result == stepped(cursor, rows as int, cols as int),
{
    let offset = Offset::new(rows, cols);
    move_cursor(cursor, offset)
}

/// What a key press does on `board` with the cursor at `cursor`.
pub fn handle_key(key: Key, cursor: PositionId, board: &Board) -> (result: KeyOutcome)
    requires
        board.wf(),
    ensures
        result == key_outcome(key, cursor, board@),
{
    match key {
        Key::Up => KeyOutcome::Moved(step(cursor, -1, 0)),
        Key::Down => KeyOutcome::Moved(step(cursor, 1, 0)),
        Key::Left => KeyOutcome::Moved(step(cursor, 0, -1)),
        Key::Right => KeyOutcome::Moved(step(cursor, 0, 1)),
        Key::Enter => {
            if board.is_empty(cursor) {
                KeyOutcome::Placed(cursor)
            } else {
                KeyOutcome::Ignored
            }
        },
        Key::Esc => KeyOutcome::Quit,
        Key::Char(c) => {
            if c == 'k' {
                KeyOutcome::Moved(step(cursor, -1, 0))
            } else if c == 'j' {
                KeyOutcome::Moved(step(cursor, 1, 0))
            } else if c == 'h' {
                KeyOutcome::Moved(step(cursor, 0, -1))
            } else if c == 'l' {
                KeyOutcome::Moved(step(cursor, 0, 1))
            } else if c == ' ' {
                if board.is_empty(cursor) {
                    KeyOutcome::Placed(cursor)
                } else {
                    KeyOutcome::Ignored
                }
            } else if c == 'q' {
                KeyOutcome::Quit
            } else {
                KeyOutcome::Ignored
            }
        },
        Key::Other => KeyOutcome::Ignored,
    }
}

/// How a cell is drawn: `X` for Black, `O` for White, a middle dot when
/// empty.
pub fn cell_symbol(stone: Stone) -> (result: &'static str)
    ensures
        result@ == match stone {
            Stone::Black => "X"@,
            Stone::White => "O"@,
            Stone::Empty => "·"@,
        },
{
    match stone {
        Stone::Black => "X",
        Stone::White => "O",
        Stone::Empty => "·",
    }
}

/// How the side to move is named to the player.
pub fn stone_name(stone: Stone) -> (result: &'static str)
    requires
        stone.is_colour(),
    ensures
        result@ == if stone == Stone::Black {
            "Black (X)"@
        } else {
            "White (O)"@
        },
{
    if stone == Stone::Black {
        "Black (X)"
    } else {
        "White (O)"
    }
}

} // verus!
