use gomoku::board::Board;
use gomoku::cache_repository::{CacheKind, CacheRepository};
use gomoku::game_state::GameState;
use gomoku::minimax::strategy::MinimaxStrategy;
use gomoku::position::Position;
use gomoku::position_id::PositionId;
use gomoku::stone::Stone;

fn pos(row: usize, col: usize) -> PositionId {
    PositionId::from_position(Position::new(row, col))
}

#[test]
fn new_state_has_empty_board() {
    let state = GameState::new();
    assert_eq!(state.stone(pos(0, 0)), Stone::Empty);
    assert_eq!(state.empty_position_ids().len(), PositionId::COUNT);
}

#[test]
fn place_updates_board_and_cache() {
    let mut state = GameState::new();
    let center = PositionId::center();
    state.place(center, Stone::Black).unwrap();
    assert_eq!(state.stone(center), Stone::Black);
    assert!(!state.empty_position_ids().contains(&center));
}

#[test]
fn place_returns_error_for_occupied_position() {
    let mut state = GameState::new();
    let center = PositionId::center();
    state.place(center, Stone::Black).unwrap();
    let err = state.place(center, Stone::White).unwrap_err();
    assert_eq!(err.to_string(), "Position is not empty");
}

#[test]
fn display_delegates_to_board() {
    let state = GameState::new();
    let expected_row = vec!["·"; 15].join(" ");
    let expected = vec![expected_row; 15].join("\n");
    assert_eq!(state.to_string(), expected);
}

#[test]
fn a_strategy_without_caches_activates_none() {
    let mut state = GameState::new();
    state.place(pos(7, 7), Stone::Black).unwrap();
    state.activate_for(&MinimaxStrategy::new(2));
    assert!(state.cache().counts(CacheKind::Nn1).is_none());
    assert!(!state.is_finished());
    assert_eq!(state.outcome(), None);
    assert!(!state.is_full());
}

#[test]
fn activated_cache_counts_stones_placed_before_and_after() {
    let mut board = Board::new();
    let mut repo = CacheRepository::new();
    board.place(pos(7, 7), Stone::Black).unwrap();
    repo.place(pos(7, 7), Stone::Black);
    repo.activate(CacheKind::Nn1, &board);
    let counts = repo.counts(CacheKind::Nn1).unwrap().counts_for(pos(7, 8), Stone::White);
    assert_eq!((counts.player(), counts.opponent(), counts.empty()), (0, 1, 3));

    board.place(pos(6, 8), Stone::White).unwrap();
    repo.place(pos(6, 8), Stone::White);
    let counts = repo.counts(CacheKind::Nn1).unwrap().counts_for(pos(7, 8), Stone::Black);
    assert_eq!((counts.player(), counts.opponent(), counts.empty()), (1, 1, 2));
    assert!(repo.is_active(CacheKind::Nn1));
    assert!(!repo.is_active(CacheKind::Nn4));
}

#[test]
fn activating_caches_keeps_each_listed_kind_once() {
    let mut state = GameState::new();
    state.place(pos(7, 7), Stone::Black).unwrap();
    state.activate_caches(&vec![CacheKind::Nn1, CacheKind::Nn3, CacheKind::Nn1]);
    assert!(state.cache().is_active(CacheKind::Nn1));
    assert!(state.cache().is_active(CacheKind::Nn3));
    assert!(!state.cache().is_active(CacheKind::Nn2));
    assert!(!state.cache().is_active(CacheKind::Nn4));
    state.activate_caches(&vec![CacheKind::Nn2]);
    assert!(state.cache().is_active(CacheKind::Nn1));
    assert!(state.cache().is_active(CacheKind::Nn2));
}
