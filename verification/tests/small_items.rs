use gomoku::board::Board;
use gomoku::game::observer::{GameObserver, NoOpObserver};
use gomoku::gene::Gene;
use gomoku::interactive_strategy::move_cursor;
use gomoku::match_result::MatchResult;
use gomoku::minimax::strategy::MinimaxStrategy;
use gomoku::nn::cluster_expansion::ClusterExpansion;
use gomoku::nn::no_neighbors::NoNeighbors;
use gomoku::nn::square3x3::Square3x3;
use gomoku::offset::Offset;
use gomoku::outcome::Outcome;
use gomoku::position::Position;
use gomoku::position_id::PositionId;
use gomoku::stone::Stone;
use gomoku::strategy::Strategy;

fn pos(row: usize, col: usize) -> PositionId {
    PositionId::from_position(Position::new(row, col))
}

#[test]
fn accessors_return_correct_values() {
    let result = MatchResult::new(
        Outcome::BlackWins,
        "black".to_string(),
        "white".to_string(),
        9,
        "board".to_string(),
    );
    assert_eq!(result.outcome(), Outcome::BlackWins);
    assert_eq!(result.black_label(), "black");
    assert_eq!(result.white_label(), "white");
    assert_eq!(result.turn_count(), 9);
    assert_eq!(result.board_state(), "board");
}

#[test]
fn noop_observer_always_continues() {
    let mut observer = NoOpObserver;
    let board = Board::new();
    let position = PositionId::from_index(0);

    let result = observer.on_move(Stone::Black, position, &board);

    assert!(result.is_continue());
}

#[test]
fn move_cursor_up_from_center() {
    let center = PositionId::center();
    let new_pos = move_cursor(center, Offset::new(-1, 0));
    assert_eq!(new_pos.row(), center.row() - 1);
    assert_eq!(new_pos.col(), center.col());
}

#[test]
fn move_cursor_down_from_center() {
    let center = PositionId::center();
    let new_pos = move_cursor(center, Offset::new(1, 0));
    assert_eq!(new_pos.row(), center.row() + 1);
    assert_eq!(new_pos.col(), center.col());
}

#[test]
fn move_cursor_stays_at_top_edge() {
    let top = pos(0, 7);
    let new_pos = move_cursor(top, Offset::new(-1, 0));
    assert_eq!(new_pos, top);
}

#[test]
fn move_cursor_stays_at_bottom_edge() {
    let bottom = pos(14, 7);
    let new_pos = move_cursor(bottom, Offset::new(1, 0));
    assert_eq!(new_pos, bottom);
}

#[test]
fn move_cursor_stays_at_left_edge() {
    let left = pos(7, 0);
    let new_pos = move_cursor(left, Offset::new(0, -1));
    assert_eq!(new_pos, left);
}

#[test]
fn move_cursor_stays_at_right_edge() {
    let right = pos(7, 14);
    let new_pos = move_cursor(right, Offset::new(0, 1));
    assert_eq!(new_pos, right);
}

#[test]
fn label_includes_depth() {
    let strategy = MinimaxStrategy::new(6);

    assert_eq!(strategy.label(), "minimax-d6");
}

#[test]
fn label_of_a_two_digit_depth() {
    assert_eq!(MinimaxStrategy::new(12).label(), "minimax-d12");
    assert_eq!(MinimaxStrategy::new(85).label(), "minimax-d85");
}

#[test]
fn display_names_the_encoder() {
    assert_eq!(NoNeighbors.to_string(), "no neighbors");
}

#[test]
fn display_names_the_square() {
    assert_eq!(Square3x3.to_string(), "3x3 square");
}

#[test]
fn display_names_the_expansion() {
    assert_eq!(ClusterExpansion::<9>.to_string(), "9-cluster expansion");
    assert_eq!(ClusterExpansion::<3>.to_string(), "3-cluster expansion");
}

#[test]
fn gene_keeps_its_index() {
    assert_eq!(Gene::new(17).index(), 17);
    assert!(Gene::new(1) < Gene::new(2));
}

fn place_stones(board: &mut Board, stone: Stone, positions: &[(usize, usize)]) {
    for &(row, col) in positions {
        board.place(pos(row, col), stone).unwrap();
    }
}

#[test]
fn choose_move_returns_empty_position() {
    let strategy = MinimaxStrategy::new(2);
    let board = Board::new();
    let mut rng = fastrand::Rng::with_seed(42);

    let result = strategy.choose_move(Stone::Black, &board, &mut rng);

    assert!(board.is_empty(result));
}

#[test]
fn choose_move_finds_winning_move() {
    let strategy = MinimaxStrategy::new(2);
    let mut board = Board::new();
    place_stones(&mut board, Stone::Black, &[(7, 5), (7, 6), (7, 7), (7, 8)]);
    place_stones(&mut board, Stone::White, &[(8, 5), (8, 6), (8, 7)]);
    let mut rng = fastrand::Rng::with_seed(42);

    let result = strategy.choose_move(Stone::Black, &board, &mut rng);

    assert!(result == pos(7, 4) || result == pos(7, 9));
}

#[test]
fn choose_move_blocks_opponent_threat() {
    let strategy = MinimaxStrategy::new(2);
    let mut board = Board::new();
    place_stones(&mut board, Stone::White, &[(7, 5), (7, 6), (7, 7), (7, 8)]);
    place_stones(&mut board, Stone::Black, &[(7, 4), (8, 5), (8, 6)]);
    let mut rng = fastrand::Rng::with_seed(42);

    let result = strategy.choose_move(Stone::Black, &board, &mut rng);

    assert_eq!(result, pos(7, 9));
}

#[test]
fn a_stone_is_near_within_two_rows_and_columns() {
    let mut board = Board::new();
    board.place(pos(7, 7), Stone::Black).unwrap();

    assert!(board.has_stone_near(pos(5, 9)));
    assert!(board.has_stone_near(pos(7, 7)));
    assert!(!board.has_stone_near(pos(4, 7)));
    assert!(!board.has_stone_near(pos(7, 10)));
    assert!(!Board::new().has_stone_near(pos(7, 7)));
}
