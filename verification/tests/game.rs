use std::ops::ControlFlow;

use gomoku::board::Board;
use gomoku::cache_repository::CacheKind;
use gomoku::evolution::fitness_evaluator::minimax::{MinimaxFitness, MinimaxObserver};
use gomoku::game::freestyle::Freestyle;
use gomoku::game::observer::{GameObserver, NoOpObserver};
use gomoku::game::random_opening::RandomOpening;
use gomoku::game::{Game, Scripted};
use gomoku::outcome::Outcome;
use gomoku::position::Position;
use gomoku::position_id::PositionId;
use gomoku::stone::Stone;
use gomoku::strategy::Strategy;

fn pos(row: usize, col: usize) -> PositionId {
    PositionId::from_position(Position::new(row, col))
}

/// Plays the first cell of its list that is still empty.
struct ScriptedStrategy {
    label: String,
    positions: Vec<PositionId>,
}

impl ScriptedStrategy {
    fn with_positions(label: &str, cells: &[(usize, usize)]) -> Self {
        ScriptedStrategy {
            label: label.to_string(),
            positions: cells.iter().map(|&(row, col)| pos(row, col)).collect(),
        }
    }

    /// Black fills row 0 from the left and wins on the ninth stone.
    fn black_wins() -> (Self, Self) {
        (
            Self::with_positions("black", &[(0, 0), (0, 1), (0, 2), (0, 3), (0, 4)]),
            Self::with_positions("white", &[(1, 0), (1, 1), (1, 2), (1, 3)]),
        )
    }

    /// White fills row 1 from the left while Black scatters its stones.
    fn white_wins() -> (Self, Self) {
        (
            Self::with_positions("black", &[(0, 0), (2, 2), (4, 4), (6, 6), (8, 8), (10, 10)]),
            Self::with_positions("white", &[(1, 0), (1, 1), (1, 2), (1, 3), (1, 4)]),
        )
    }

    /// Every cell is filled and nobody gets five: a cell is Black when
    /// `(col + 2 * row) % 4 < 2`.
    fn draw() -> (Self, Self) {
        let mut black = Vec::new();
        let mut white = Vec::new();
        for row in 0..15 {
            for col in 0..15 {
                if (col + 2 * row) % 4 < 2 {
                    black.push((row, col));
                } else {
                    white.push((row, col));
                }
            }
        }
        (Self::with_positions("black", &black), Self::with_positions("white", &white))
    }
}

impl Strategy for ScriptedStrategy {
    fn label(&self) -> &str {
        &self.label
    }

    fn cache_dependencies(&self) -> Vec<CacheKind> {
        Vec::new()
    }

    fn choose_move(&self, _current_stone: Stone, board: &Board, _rng: &mut fastrand::Rng) -> PositionId {
        *self.positions.iter().find(|&&p| board.is_empty(p)).expect("scripted moves ran out")
    }
}

/// Breaks before the first strategy move, leaving only the opening stones.
struct BreakImmediately;

impl GameObserver for BreakImmediately {
    fn stops(&self, _: Stone, _: PositionId, _: &Board) -> bool {
        true
    }

    fn on_move(&mut self, _: Stone, _: PositionId, _: &Board) -> ControlFlow<()> {
        ControlFlow::Break(())
    }
}

/// Records the board's move count on the first call.
struct FirstMoveCapture {
    captured_move_count: Option<usize>,
}

impl GameObserver for FirstMoveCapture {
    fn stops(&self, _: Stone, _: PositionId, _: &Board) -> bool {
        false
    }

    fn on_move(&mut self, _: Stone, _: PositionId, board: &Board) -> ControlFlow<()> {
        if self.captured_move_count.is_none() {
            self.captured_move_count = Some(board.move_count());
        }
        ControlFlow::Continue(())
    }
}

/// Breaks after letting a fixed number of moves through.
struct BreakAfter {
    remaining: usize,
}

impl GameObserver for BreakAfter {
    fn stops(&self, _: Stone, _: PositionId, _: &Board) -> bool {
        self.remaining == 0
    }

    fn on_move(&mut self, _: Stone, _: PositionId, _: &Board) -> ControlFlow<()> {
        if self.remaining == 0 {
            ControlFlow::Break(())
        } else {
            self.remaining -= 1;
            ControlFlow::Continue(())
        }
    }
}

fn freestyle() -> Freestyle {
    Freestyle { opening_moves: 0 }
}

// ---- freestyle ----

#[test]
fn black_five_in_a_row_wins() {
    let (black, white) = ScriptedStrategy::black_wins();
    let mut rng = fastrand::Rng::new();

    let outcome = freestyle().play(&black, &white, &mut rng);

    assert_eq!(outcome, Outcome::BlackWins);
}

#[test]
fn white_five_in_a_row_wins() {
    let (black, white) = ScriptedStrategy::white_wins();
    let mut rng = fastrand::Rng::new();

    let outcome = freestyle().play(&black, &white, &mut rng);

    assert_eq!(outcome, Outcome::WhiteWins);
}

#[test]
fn full_board_without_five_is_a_draw() {
    let (black, white) = ScriptedStrategy::draw();
    let mut rng = fastrand::Rng::new();

    let outcome = freestyle().play(&black, &white, &mut rng);

    assert_eq!(outcome, Outcome::Draw);
}

#[test]
fn board_holds_every_move_after_play() {
    let (black, white) = ScriptedStrategy::black_wins();
    let mut board = Board::new();
    let mut rng = fastrand::Rng::new();

    freestyle().play_from(&mut board, &black, &white, &mut NoOpObserver, &mut rng);

    assert_eq!(board.move_count(), 9);
}

#[test]
fn freestyle_board_has_correct_stone_count_after_opening() {
    let game = Freestyle { opening_moves: 4 };
    let (black, white) = ScriptedStrategy::black_wins();
    let mut board = Board::new();
    let mut rng = fastrand::Rng::with_seed(42);

    game.play_from(&mut board, &black, &white, &mut BreakImmediately, &mut rng);

    assert_eq!(board.move_count(), 4);
}

#[test]
fn opening_alternates_colours_starting_with_black() {
    let game = Freestyle { opening_moves: 5 };
    let (black, white) = ScriptedStrategy::black_wins();
    let mut board = Board::new();
    let mut rng = fastrand::Rng::with_seed(42);

    game.play_from(&mut board, &black, &white, &mut BreakImmediately, &mut rng);

    let black_count = PositionId::iter().into_iter().filter(|&p| board.stone(p) == Some(Stone::Black)).count();
    assert_eq!(black_count, 3);
    assert_eq!(board.stone_to_move(), Stone::White);
}

#[test]
fn freestyle_opening_setup_does_not_panic_across_seeds() {
    for seed in 0..50 {
        let (black, white) = ScriptedStrategy::black_wins();
        let game = Freestyle { opening_moves: 10 };
        let mut board = Board::new();
        let mut rng = fastrand::Rng::with_seed(seed);
        game.play_from(&mut board, &black, &white, &mut BreakImmediately, &mut rng);
        assert_eq!(board.move_count(), 10);
    }
}

#[test]
fn play_continues_from_stones_already_on_the_board() {
    let (black, white) = ScriptedStrategy::black_wins();
    let mut board = Board::new();
    let mut rng = fastrand::Rng::with_seed(0);
    for (row, col, stone) in [(5, 0, Stone::Black), (5, 1, Stone::White), (6, 0, Stone::Black), (6, 1, Stone::White)] {
        board.place(pos(row, col), stone).unwrap();
    }

    let outcome = freestyle().play_from(&mut board, &black, &white, &mut NoOpObserver, &mut rng);

    assert_eq!(outcome, Some(Outcome::BlackWins));
    assert_eq!(board.move_count(), 9 + 4);
}

// ---- the game enum ----

#[test]
fn freestyle_variant_plays_game() {
    let (black, white) = ScriptedStrategy::black_wins();
    let game: Game = freestyle().into();
    let mut rng = fastrand::Rng::new();

    let outcome = game.play_from(&mut Board::new(), &black, &white, &mut NoOpObserver, &mut rng);

    assert_eq!(outcome, Some(Outcome::BlackWins));
}

#[test]
fn scripted_variant_returns_predetermined_winner() {
    let game = Game::Scripted(Scripted::new().add("a", "b", Some("a")));
    let a = ScriptedStrategy::with_positions("a", &[]);
    let b = ScriptedStrategy::with_positions("b", &[]);
    let mut rng = fastrand::Rng::new();

    let outcome = game.play_from(&mut Board::new(), &a, &b, &mut NoOpObserver, &mut rng);

    assert_eq!(outcome, Some(Outcome::BlackWins));
}

#[test]
fn scripted_variant_returns_draw() {
    let game = Game::Scripted(Scripted::new().add("a", "b", None));
    let a = ScriptedStrategy::with_positions("a", &[]);
    let b = ScriptedStrategy::with_positions("b", &[]);
    let mut rng = fastrand::Rng::new();

    let outcome = game.play_from(&mut Board::new(), &a, &b, &mut NoOpObserver, &mut rng);

    assert_eq!(outcome, Some(Outcome::Draw));
}

#[test]
fn scripted_outcome_is_found_in_either_order_and_the_latest_counts() {
    let script = Scripted::new().add("a", "b", Some("a")).add("b", "a", Some("b")).add("c", "d", None);

    assert_eq!(script.outcome_for("a", "b"), Some(Outcome::WhiteWins));
    assert_eq!(script.outcome_for("b", "a"), Some(Outcome::BlackWins));
    assert_eq!(script.outcome_for("d", "c"), Some(Outcome::Draw));
    assert_eq!(script.outcome_for("a", "c"), None);
}

#[test]
fn play_default_starts_from_empty_board() {
    let (black, white) = ScriptedStrategy::black_wins();
    let mut capture = FirstMoveCapture { captured_move_count: None };
    let mut board = Board::new();
    let mut rng = fastrand::Rng::new();

    freestyle().play_from(&mut board, &black, &white, &mut capture, &mut rng);

    assert_eq!(capture.captured_move_count, Some(0));
}

#[test]
fn play_from_board_reflects_final_state_on_natural_finish() {
    let (black, white) = ScriptedStrategy::black_wins();
    let mut board = Board::new();
    let mut rng = fastrand::Rng::new();

    freestyle().play_from(&mut board, &black, &white, &mut NoOpObserver, &mut rng);

    assert!(board.is_finished());
}

#[test]
fn play_from_board_reflects_partial_state_on_early_exit() {
    let (black, white) = ScriptedStrategy::black_wins();
    let mut board = Board::new();
    let mut rng = fastrand::Rng::new();
    let mut observer = BreakAfter { remaining: 2 };

    let result = freestyle().play_from(&mut board, &black, &white, &mut observer, &mut rng);

    assert!(result.is_none());
    assert_eq!(board.move_count(), 2);
}

// ---- whole games and their reports ----

#[test]
fn returns_match_result_with_black_wins() {
    let (black, white) = ScriptedStrategy::black_wins();
    let mut rng = fastrand::Rng::new();

    let result = Game::new().run(&black, &white, &mut rng);

    assert_eq!(result.outcome(), Outcome::BlackWins);
}

#[test]
fn returns_match_result_with_white_wins() {
    let (black, white) = ScriptedStrategy::white_wins();
    let mut rng = fastrand::Rng::new();

    let result = Game::new().run(&black, &white, &mut rng);

    assert_eq!(result.outcome(), Outcome::WhiteWins);
}

#[test]
fn returns_match_result_with_draw() {
    let (black, white) = ScriptedStrategy::draw();
    let mut rng = fastrand::Rng::new();

    let result = Game::new().run(&black, &white, &mut rng);

    assert_eq!(result.outcome(), Outcome::Draw);
    assert_eq!(result.turn_count(), 225);
}

#[test]
fn turn_count_is_correct() {
    let (black, white) = ScriptedStrategy::black_wins();
    let mut rng = fastrand::Rng::new();

    let result = Game::new().run(&black, &white, &mut rng);

    assert_eq!(result.turn_count(), 9);
}

#[test]
fn captures_strategy_labels() {
    let black = ScriptedStrategy::with_positions("black_label", &[(0, 0), (0, 1), (0, 2), (0, 3), (0, 4)]);
    let white = ScriptedStrategy::with_positions("white_label", &[(1, 0), (1, 1), (1, 2), (1, 3)]);
    let mut rng = fastrand::Rng::new();

    let result = Game::new().run(&black, &white, &mut rng);

    assert_eq!(result.black_label(), "black_label");
    assert_eq!(result.white_label(), "white_label");
}

#[test]
fn captures_board_state() {
    let (black, white) = ScriptedStrategy::black_wins();
    let mut rng = fastrand::Rng::new();

    let result = Game::new().run(&black, &white, &mut rng);

    assert!(!result.board_state().is_empty());
}

// ---- random openings ----

#[test]
fn random_opening_board_has_correct_stone_count_after_opening() {
    let game = RandomOpening { moves: 4 };
    let (black, white) = ScriptedStrategy::black_wins();
    let mut board = Board::new();
    let mut rng = fastrand::Rng::with_seed(42);

    game.play_from(&mut board, &black, &white, &mut BreakImmediately, &mut rng);

    assert_eq!(board.move_count(), 4);
}

#[test]
fn zero_opening_moves_produces_same_result_as_freestyle() {
    let (black_a, white_a) = ScriptedStrategy::black_wins();
    let (black_b, white_b) = ScriptedStrategy::black_wins();
    let mut rng_a = fastrand::Rng::with_seed(42);
    let mut rng_b = fastrand::Rng::with_seed(42);

    let result_random = RandomOpening { moves: 0 }.play(&black_a, &white_a, &mut rng_a);
    let result_freestyle = freestyle().play(&black_b, &white_b, &mut rng_b);

    assert_eq!(result_random, result_freestyle);
}

#[test]
fn random_opening_opening_setup_does_not_panic_across_seeds() {
    for seed in 0..50 {
        let (black, white) = ScriptedStrategy::black_wins();
        let game = RandomOpening { moves: 10 };
        let mut board = Board::new();
        let mut rng = fastrand::Rng::with_seed(seed);
        game.play_from(&mut board, &black, &white, &mut BreakImmediately, &mut rng);
        assert_eq!(board.move_count(), 10);
    }
}

#[test]
fn turn_count_in_result_includes_opening_stones() {
    let (black, white) = ScriptedStrategy::black_wins();
    let mut board = Board::new();
    let mut rng = fastrand::Rng::with_seed(0);
    board.place(pos(5, 0), Stone::Black).unwrap();
    board.place(pos(5, 1), Stone::White).unwrap();
    board.place(pos(6, 0), Stone::Black).unwrap();
    board.place(pos(6, 1), Stone::White).unwrap();

    let result = freestyle().play_from(&mut board, &black, &white, &mut NoOpObserver, &mut rng);

    assert_eq!(result, Some(Outcome::BlackWins));
    assert_eq!(board.move_count(), 9 + 4);
}

// ---- games against minimax ----

#[test]
fn minimax_move_limit_returns_none_when_game_exceeds_limit() {
    let (black, white) = ScriptedStrategy::black_wins();
    let mut board = Board::new();
    let mut observer = MinimaxObserver::new(Some(5), None);
    let mut rng = fastrand::Rng::with_seed(42);

    let result = freestyle().play_from(&mut board, &black, &white, &mut observer, &mut rng);

    assert!(result.is_none());
}

#[test]
fn minimax_move_limit_returns_result_when_game_finishes_before_limit() {
    let (black, white) = ScriptedStrategy::black_wins();
    let mut board = Board::new();
    let mut observer = MinimaxObserver::new(Some(20), None);
    let mut rng = fastrand::Rng::with_seed(42);

    let result = freestyle().play_from(&mut board, &black, &white, &mut observer, &mut rng);

    assert!(result.is_some());
    assert_eq!(board.move_count(), 9);
    assert_eq!(board.outcome(), Some(Outcome::BlackWins));
}

#[test]
fn minimax_move_limit_none_plays_to_completion() {
    let (black, white) = ScriptedStrategy::black_wins();
    let mut board = Board::new();
    let mut observer = MinimaxObserver::new(None, None);
    let mut rng = fastrand::Rng::with_seed(42);

    let result = freestyle().play_from(&mut board, &black, &white, &mut observer, &mut rng);

    assert!(result.is_some());
    assert_eq!(board.move_count(), 9);
    assert_eq!(board.outcome(), Some(Outcome::BlackWins));
}

#[test]
fn minimax_observer_breaks_when_move_count_reaches_limit() {
    let mut observer = MinimaxObserver::new(Some(4), None);
    let mut board = Board::new();
    let positions = board.empty_position_ids();
    board.place(positions[0], Stone::Black).unwrap();
    board.place(positions[1], Stone::White).unwrap();
    board.place(positions[2], Stone::Black).unwrap();
    board.place(positions[3], Stone::White).unwrap();

    let result = observer.on_move(Stone::Black, positions[4], &board);

    assert!(result.is_break());
}

#[test]
fn minimax_observer_continues_below_move_limit() {
    let mut observer = MinimaxObserver::new(Some(10), None);
    let board = Board::new();
    let position = board.empty_position_ids()[0];

    let result = observer.on_move(Stone::Black, position, &board);

    assert!(result.is_continue());
}

#[test]
fn minimax_observer_scores_only_white_moves() {
    let mut board = Board::new();
    for col in 5..9 {
        board.place(pos(7, col), Stone::Black).unwrap();
    }
    let blocking_position = pos(7, 9);
    let mut observer = MinimaxObserver::new(None, Some(1));

    let _ = observer.on_move(Stone::Black, blocking_position, &board);
    assert!(observer.white_moves().is_empty());

    let _ = observer.on_move(Stone::White, blocking_position, &board);
    assert_eq!(observer.white_moves().len(), 1);
    let scored = observer.white_moves()[0];
    assert_ne!(scored.after.0 - scored.before.0, 0);
    assert!(scored.near_stone);
}

#[test]
fn minimax_observer_no_score_when_scoring_depth_is_none() {
    let mut observer = MinimaxObserver::new(None, None);
    let board = Board::new();
    let position = board.empty_position_ids()[0];

    let _ = observer.on_move(Stone::White, position, &board);

    assert!(observer.white_moves().is_empty());
}

#[test]
fn minimax_white_move_without_prior_black_move_skips_scoring() {
    let mut observer = MinimaxObserver::new(None, Some(1));
    let board = Board::new();
    let position = board.empty_position_ids()[0];

    let _ = observer.on_move(Stone::White, position, &board);

    assert!(observer.white_moves().is_empty());
}

#[test]
fn minimax_blocking_one_end_of_an_open_four_changes_nothing() {
    let mut before_black = Board::new();
    for col in 5..8 {
        before_black.place(pos(7, col), Stone::Black).unwrap();
    }
    let black_pos = pos(7, 8);
    let mut after_black = before_black.clone();
    after_black.place(black_pos, Stone::Black).unwrap();

    let mut blocking = MinimaxObserver::new(None, Some(1));
    let _ = blocking.on_move(Stone::Black, black_pos, &before_black);
    let _ = blocking.on_move(Stone::White, pos(7, 9), &after_black);

    let mut ignoring = MinimaxObserver::new(None, Some(1));
    let _ = ignoring.on_move(Stone::Black, black_pos, &before_black);
    let _ = ignoring.on_move(Stone::White, pos(0, 0), &after_black);

    let delta = |observer: &MinimaxObserver| {
        let scored = observer.white_moves()[0];
        i64::from(scored.after.0) - i64::from(scored.before.0)
    };
    // The open four wins at its other end whatever White does.
    assert_eq!(delta(&blocking), 0);
    assert_eq!(delta(&ignoring), 0);
}

#[test]
fn minimax_proximity_marks_moves_near_stones_not_at_corner() {
    let before_black = Board::new();
    let black_pos = PositionId::center();
    let mut after_black = before_black.clone();
    after_black.place(black_pos, Stone::Black).unwrap();

    let mut nearby = MinimaxObserver::new(None, Some(1));
    let _ = nearby.on_move(Stone::Black, black_pos, &before_black);
    let _ = nearby.on_move(Stone::White, pos(7, 6), &after_black);

    let mut corner = MinimaxObserver::new(None, Some(1));
    let _ = corner.on_move(Stone::Black, black_pos, &before_black);
    let _ = corner.on_move(Stone::White, pos(0, 0), &after_black);

    assert!(nearby.white_moves()[0].near_stone);
    assert!(!corner.white_moves()[0].near_stone);
}

/// Plays the first empty cell, row by row.
struct FirstEmpty;

impl Strategy for FirstEmpty {
    fn label(&self) -> &str {
        "first-empty"
    }

    fn cache_dependencies(&self) -> Vec<CacheKind> {
        Vec::new()
    }

    fn choose_move(&self, _current_stone: Stone, board: &Board, _rng: &mut fastrand::Rng) -> PositionId {
        board.empty_position_ids()[0]
    }
}

#[test]
fn evaluation_at_one_depth_keeps_the_one_game() {
    let evaluator = MinimaxFitness::new(freestyle().into(), vec![1], None);
    let mut rng = fastrand::Rng::with_seed(1);

    let results = evaluator.evaluate_games(&FirstEmpty, &mut rng);

    assert!(results.minimax_win.is_some() != results.strategy_win.is_some());
    if let Some(win) = &results.minimax_win {
        assert!(win.outcome == Outcome::BlackWins || win.outcome == Outcome::Draw);
        assert!(win.turn_count >= 9);
        assert!(win.white_moves.is_empty());
    }
    if let Some(win) = &results.strategy_win {
        assert_eq!(win.outcome, Outcome::WhiteWins);
    }
}

#[test]
fn evaluation_with_no_depths_plays_nothing() {
    let evaluator = MinimaxFitness::new(freestyle().into(), vec![], None);
    let mut rng = fastrand::Rng::with_seed(1);

    let results = evaluator.evaluate_games(&FirstEmpty, &mut rng);

    assert!(results.minimax_win.is_none());
    assert!(results.strategy_win.is_none());
}
