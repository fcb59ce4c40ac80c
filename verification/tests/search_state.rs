use gomoku::board::Board;
use gomoku::minimax::score::Score;
use gomoku::minimax::search_state::SearchState;
use gomoku::outcome::Outcome;
use gomoku::position::Position;
use gomoku::position_id::PositionId;
use gomoku::stone::Stone;

fn pos(row: usize, col: usize) -> PositionId {
    PositionId::from_position(Position::new(row, col))
}

#[test]
fn search_state_empty_board_evaluates_to_zero() {
    let board = Board::new();
    let state = SearchState::from_board(&board);

    assert_eq!(state.evaluate(Stone::Black), Score::DRAW());
    assert_eq!(state.evaluate(Stone::White), Score::DRAW());
}

#[test]
fn undo_restores_previous_score() {
    let mut board = Board::new();
    board.place(pos(7, 7), Stone::Black).unwrap();
    board.place(pos(7, 8), Stone::White).unwrap();
    board.place(pos(6, 6), Stone::Black).unwrap();

    let mut state = SearchState::from_board(&board);
    let score_before = state.total_score();

    state.place(pos(8, 8), Stone::White);
    state.undo(pos(8, 8), Stone::White);

    assert_eq!(state.total_score(), score_before);
}

#[test]
fn evaluate_credits_the_side_to_move_for_its_own_open_three() {
    let mut board = Board::new();
    board.place(pos(7, 6), Stone::Black).unwrap();
    board.place(pos(7, 7), Stone::Black).unwrap();
    board.place(pos(7, 8), Stone::Black).unwrap();
    board.place(pos(0, 0), Stone::White).unwrap();
    board.place(pos(14, 14), Stone::White).unwrap();
    let state = SearchState::from_board(&board);

    // Black to move makes an open four next; White to move can still block.
    assert_eq!(
        state.evaluate(Stone::Black),
        Score::OPEN_THREE() + Score::OPEN_FOUR()
    );
    assert_eq!(state.evaluate(Stone::White), -Score::OPEN_THREE());
}

#[test]
fn evaluate_treats_two_open_threes_against_the_side_to_move_as_decisive() {
    let mut board = Board::new();
    // Row 7 and column 3, far enough apart to share no line.
    for &(row, col) in &[(7, 6), (7, 7), (7, 8), (3, 3), (4, 3), (5, 3)] {
        board.place(pos(row, col), Stone::Black).unwrap();
    }
    board.place(pos(0, 14), Stone::White).unwrap();
    let state = SearchState::from_board(&board);

    assert_eq!(
        state.evaluate(Stone::White),
        -(Score::OPEN_THREE() * 2) - Score::OPEN_FOUR()
    );
}

#[test]
fn evaluate_scores_a_four_for_the_side_to_move_as_a_win_next_move() {
    let mut board = Board::new();
    for &(row, col) in &[(7, 6), (7, 7), (7, 8), (7, 9)] {
        board.place(pos(row, col), Stone::Black).unwrap();
    }
    board.place(pos(7, 5), Stone::White).unwrap();
    let state = SearchState::from_board(&board);

    assert_eq!(
        state.evaluate(Stone::Black),
        Score::win_at_depth(board.move_count() + 1)
    );
    // White to move has to block; the plain total stands.
    assert_eq!(state.evaluate(Stone::White), -Score::HALF_OPEN_FOUR());
}

#[test]
fn evaluate_does_not_credit_an_open_three_against_a_four() {
    let mut board = Board::new();
    for &(row, col) in &[(7, 6), (7, 7), (7, 8)] {
        board.place(pos(row, col), Stone::Black).unwrap();
    }
    for &(row, col) in &[(3, 2), (3, 3), (3, 4), (3, 5)] {
        board.place(pos(row, col), Stone::White).unwrap();
    }
    board.place(pos(3, 1), Stone::Black).unwrap();
    let state = SearchState::from_board(&board);

    // Black's open three must wait: White's OOOO_ has to be blocked first.
    assert_eq!(
        state.evaluate(Stone::Black),
        Score::OPEN_THREE() - Score::HALF_OPEN_FOUR()
    );
}

#[test]
fn has_four_follows_the_four_through_place_block_and_undo() {
    let mut board = Board::new();
    board.place(pos(7, 3), Stone::Black).unwrap();
    board.place(pos(7, 4), Stone::Black).unwrap();
    board.place(pos(7, 5), Stone::Black).unwrap();
    board.place(pos(7, 2), Stone::White).unwrap();

    let mut state = SearchState::from_board(&board);
    assert!(!state.has_four(Stone::Black));
    assert!(!state.has_four(Stone::White));

    // OXXXX_ is a four for Black.
    state.place(pos(7, 6), Stone::Black);
    assert!(state.has_four(Stone::Black));
    assert!(!state.has_four(Stone::White));

    // OXXXXO is dead: no longer a four.
    state.place(pos(7, 7), Stone::White);
    assert!(!state.has_four(Stone::Black));

    state.undo(pos(7, 7), Stone::White);
    assert!(state.has_four(Stone::Black));

    state.undo(pos(7, 6), Stone::Black);
    assert!(!state.has_four(Stone::Black));
}

#[test]
fn nested_place_undo_restores_correctly() {
    let mut board = Board::new();
    board.place(pos(7, 7), Stone::Black).unwrap();

    let mut state = SearchState::from_board(&board);
    let score_0 = state.total_score();

    state.place(pos(7, 8), Stone::White);
    let score_1 = state.total_score();

    state.place(pos(6, 6), Stone::Black);

    state.undo(pos(6, 6), Stone::Black);
    assert_eq!(state.total_score(), score_1, "after undoing second place");

    state.undo(pos(7, 8), Stone::White);
    assert_eq!(state.total_score(), score_0, "after undoing first place");
}

#[test]
fn detects_black_win() {
    let mut board = Board::new();
    board.place(pos(7, 3), Stone::Black).unwrap();
    board.place(pos(7, 4), Stone::Black).unwrap();
    board.place(pos(7, 5), Stone::Black).unwrap();
    board.place(pos(7, 6), Stone::Black).unwrap();
    // White stones to keep alternating turns valid for Board
    board.place(pos(0, 0), Stone::White).unwrap();
    board.place(pos(0, 1), Stone::White).unwrap();

    let mut state = SearchState::from_board(&board);
    assert!(state.outcome().is_none());

    state.place(pos(7, 7), Stone::Black);

    assert_eq!(state.outcome(), Some(Outcome::Win(Stone::Black)));
}

#[test]
fn detects_white_win() {
    let mut board = Board::new();
    board.place(pos(3, 7), Stone::White).unwrap();
    board.place(pos(4, 7), Stone::White).unwrap();
    board.place(pos(5, 7), Stone::White).unwrap();
    board.place(pos(6, 7), Stone::White).unwrap();
    board.place(pos(0, 0), Stone::Black).unwrap();

    let mut state = SearchState::from_board(&board);
    assert!(state.outcome().is_none());

    state.place(pos(7, 7), Stone::White);

    assert_eq!(state.outcome(), Some(Outcome::Win(Stone::White)));
}

#[test]
fn undo_clears_win_outcome() {
    let mut board = Board::new();
    board.place(pos(7, 3), Stone::Black).unwrap();
    board.place(pos(7, 4), Stone::Black).unwrap();
    board.place(pos(7, 5), Stone::Black).unwrap();
    board.place(pos(7, 6), Stone::Black).unwrap();
    board.place(pos(0, 0), Stone::White).unwrap();

    let mut state = SearchState::from_board(&board);

    state.place(pos(7, 7), Stone::Black);
    assert_eq!(state.outcome(), Some(Outcome::Win(Stone::Black)));

    state.undo(pos(7, 7), Stone::Black);
    assert!(state.outcome().is_none());
}

#[test]
fn incremental_place_matches_from_scratch() {
    let mut rng = fastrand::Rng::with_seed(54321);
    for _ in 0..200 {
        let mut board = Board::new();
        let mut state = SearchState::from_board(&board);
        let stone_count = rng.usize(1..20);
        let mut positions: Vec<PositionId> = PositionId::iter();
        rng.shuffle(&mut positions);
        let mut turn = Stone::Black;
        for &position in positions.iter().take(stone_count) {
            if board.is_finished() || state.outcome().is_some() {
                break;
            }
            board.place(position, turn).unwrap();
            state.place(position, turn);

            let expected = SearchState::from_board(&board);
            assert_eq!(
                state.total_score(),
                expected.total_score(),
                "Score mismatch after placing at ({}, {})",
                position.row(),
                position.col()
            );
            for stone in [Stone::Black, Stone::White] {
                assert_eq!(
                    state.has_four(stone),
                    expected.has_four(stone),
                    "Four tracking mismatch after placing at ({}, {})",
                    position.row(),
                    position.col()
                );
                assert_eq!(
                    state.evaluate(stone),
                    expected.evaluate(stone),
                    "Open three tracking mismatch after placing at ({}, {})",
                    position.row(),
                    position.col()
                );
            }
            assert_eq!(state.hash(), expected.hash());
            turn = turn.opponent();
        }
    }
}

#[test]
fn undo_restores_line_scores_and_masks() {
    let mut rng = fastrand::Rng::with_seed(12345);
    for _ in 0..200 {
        let mut board = Board::new();
        let mut state = SearchState::from_board(&board);
        let setup_count = rng.usize(0..15);
        let mut positions: Vec<PositionId> = PositionId::iter();
        rng.shuffle(&mut positions);
        let mut turn = Stone::Black;

        for &position in positions.iter().take(setup_count) {
            if board.is_finished() {
                break;
            }
            board.place(position, turn).unwrap();
            state.place(position, turn);
            turn = turn.opponent();
        }

        if board.is_finished() {
            continue;
        }

        let total_before = state.total_score();
        let hash_before = state.hash();
        let evaluations_before = [state.evaluate(Stone::Black), state.evaluate(Stone::White)];
        let fours_before = [state.has_four(Stone::Black), state.has_four(Stone::White)];

        let empty: Vec<PositionId> = PositionId::iter().into_iter().filter(|&p| board.is_empty(p)).collect();
        let target = empty[rng.usize(0..empty.len())];

        state.place(target, turn);
        state.undo(target, turn);

        assert_eq!(state.total_score(), total_before, "total_score mismatch");
        assert_eq!(state.hash(), hash_before, "hash mismatch");
        assert_eq!(
            [state.evaluate(Stone::Black), state.evaluate(Stone::White)],
            evaluations_before,
            "evaluation mismatch"
        );
        assert_eq!(
            [state.has_four(Stone::Black), state.has_four(Stone::White)],
            fours_before,
            "lines_with_four mismatch"
        );
    }
}

#[test]
fn outcome_agrees_with_board_across_random_games() {
    let mut rng = fastrand::Rng::with_seed(99999);
    for _ in 0..200 {
        let mut board = Board::new();
        let mut state = SearchState::from_board(&board);
        let mut positions: Vec<PositionId> = PositionId::iter();
        rng.shuffle(&mut positions);
        let mut turn = Stone::Black;

        for &position in &positions {
            if board.is_finished() {
                break;
            }
            board.place(position, turn).unwrap();
            state.place(position, turn);

            assert_eq!(
                state.outcome(),
                board.outcome(),
                "outcome mismatch after placing at ({}, {})",
                position.row(),
                position.col()
            );
            turn = turn.opponent();
        }
    }
}

/// One wyrand step of a generator made from `seed`, after `count` earlier
/// values.
fn wyrand(seed: u64, count: u64) -> u64 {
    let state = seed.wrapping_add((count + 1).wrapping_mul(0x2d35_8dcc_aa6c_78a5));
    let t = u128::from(state) * u128::from(state ^ 0x8bb8_4b93_962e_acc9);
    (t as u64) ^ ((t >> 64) as u64)
}

#[test]
fn one_stone_hashes_to_its_zobrist_key() {
    let mut board = Board::new();
    board.place(pos(7, 7), Stone::Black).unwrap();
    let state = SearchState::from_board(&board);
    let index = u64::try_from(pos(7, 7).to_index()).unwrap();
    assert_eq!(state.hash(), wyrand(gomoku::minimax::search_state::ZOBRIST_SEED, 2 * index));
    let mut board = Board::new();
    board.place(pos(0, 1), Stone::White).unwrap();
    let state = SearchState::from_board(&board);
    let index = u64::try_from(pos(0, 1).to_index()).unwrap();
    assert_eq!(state.hash(), wyrand(gomoku::minimax::search_state::ZOBRIST_SEED, 2 * index + 1));
}
