use gomoku::board::Board;
use gomoku::interactive_strategy::{cell_symbol, handle_key, stone_name, Key, KeyOutcome};
use gomoku::position::Position;
use gomoku::position_id::PositionId;
use gomoku::stone::Stone;

fn pos(row: usize, col: usize) -> PositionId {
    PositionId::from_position(Position::new(row, col))
}

#[test]
fn arrows_and_hjkl_move_the_cursor_alike() {
    let board = Board::new();
    let cursor = pos(7, 7);

    assert_eq!(handle_key(Key::Up, cursor, &board), KeyOutcome::Moved(pos(6, 7)));
    assert_eq!(handle_key(Key::Char('k'), cursor, &board), KeyOutcome::Moved(pos(6, 7)));
    assert_eq!(handle_key(Key::Down, cursor, &board), KeyOutcome::Moved(pos(8, 7)));
    assert_eq!(handle_key(Key::Char('j'), cursor, &board), KeyOutcome::Moved(pos(8, 7)));
    assert_eq!(handle_key(Key::Left, cursor, &board), KeyOutcome::Moved(pos(7, 6)));
    assert_eq!(handle_key(Key::Char('h'), cursor, &board), KeyOutcome::Moved(pos(7, 6)));
    assert_eq!(handle_key(Key::Right, cursor, &board), KeyOutcome::Moved(pos(7, 8)));
    assert_eq!(handle_key(Key::Char('l'), cursor, &board), KeyOutcome::Moved(pos(7, 8)));
}

#[test]
fn the_cursor_stays_at_the_edge() {
    let board = Board::new();

    assert_eq!(handle_key(Key::Up, pos(0, 3), &board), KeyOutcome::Moved(pos(0, 3)));
    assert_eq!(handle_key(Key::Right, pos(4, 14), &board), KeyOutcome::Moved(pos(4, 14)));
}

#[test]
fn enter_and_space_place_only_on_an_empty_cell() {
    let mut board = Board::new();
    board.place(pos(7, 7), Stone::Black).unwrap();

    assert_eq!(handle_key(Key::Enter, pos(7, 8), &board), KeyOutcome::Placed(pos(7, 8)));
    assert_eq!(handle_key(Key::Char(' '), pos(7, 8), &board), KeyOutcome::Placed(pos(7, 8)));
    assert_eq!(handle_key(Key::Enter, pos(7, 7), &board), KeyOutcome::Ignored);
    assert_eq!(handle_key(Key::Char(' '), pos(7, 7), &board), KeyOutcome::Ignored);
}

#[test]
fn q_and_esc_quit_and_other_keys_do_nothing() {
    let board = Board::new();

    assert_eq!(handle_key(Key::Char('q'), pos(7, 7), &board), KeyOutcome::Quit);
    assert_eq!(handle_key(Key::Esc, pos(7, 7), &board), KeyOutcome::Quit);
    assert_eq!(handle_key(Key::Char('x'), pos(7, 7), &board), KeyOutcome::Ignored);
    assert_eq!(handle_key(Key::Other, pos(7, 7), &board), KeyOutcome::Ignored);
}

#[test]
fn render_board_shows_empty_cells() {
    assert_eq!(cell_symbol(Stone::Empty), "·");
}

#[test]
fn render_board_shows_black_stone() {
    assert_eq!(cell_symbol(Stone::Black), "X");
}

#[test]
fn render_board_shows_white_stone() {
    assert_eq!(cell_symbol(Stone::White), "O");
}

#[test]
fn render_status_shows_black_turn() {
    assert!(format!("Your turn: {}", stone_name(Stone::Black)).contains("Black (X)"));
}

#[test]
fn render_status_shows_white_turn() {
    assert!(format!("Your turn: {}", stone_name(Stone::White)).contains("White (O)"));
}
