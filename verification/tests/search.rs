use gomoku::board::Board;
use gomoku::minimax::score::Score;
use gomoku::minimax::search::{find_best_move, score_move, Depth, KillerTable, Search};
use gomoku::minimax::search_state::SearchState;
use gomoku::minimax::tt::TranspositionTable;
use gomoku::position::Position;
use gomoku::position_id::PositionId;
use gomoku::stone::Stone;

fn pos(row: usize, col: usize) -> PositionId {
    PositionId::from_position(Position::new(row, col))
}

fn place_stones(board: &mut Board, stone: Stone, positions: &[(usize, usize)]) {
    for &(row, col) in positions {
        board.place(pos(row, col), stone).unwrap();
    }
}

fn score_move_fresh(board: &Board, stone: Stone, position: PositionId, depth: u32) -> Score {
    score_move(
        board,
        stone,
        position,
        depth,
        &mut TranspositionTable::new(),
    )
}

#[test]
fn returns_center_on_empty_board() {
    let mut board = Board::new();
    let mut rng = fastrand::Rng::with_seed(42);

    let result = find_best_move(&board, Stone::Black, 4, &mut rng);

    assert_eq!(result, PositionId::center());
}

#[test]
fn finds_immediate_winning_move() {
    let mut board = Board::new();
    place_stones(&mut board, Stone::Black, &[(7, 5), (7, 6), (7, 7), (7, 8)]);
    place_stones(&mut board, Stone::White, &[(8, 5), (8, 6), (8, 7)]);
    let mut rng = fastrand::Rng::with_seed(42);

    let result = find_best_move(&board, Stone::Black, 4, &mut rng);

    assert!(
        result == pos(7, 4) || result == pos(7, 9),
        "Expected winning move at (7,4) or (7,9), got ({}, {})",
        result.row(),
        result.col()
    );
}

#[test]
fn blocks_opponent_winning_move() {
    let mut board = Board::new();
    // Half-open four: Black at (7,4) blocks one end, so (7,9) is the only block
    place_stones(&mut board, Stone::White, &[(7, 5), (7, 6), (7, 7), (7, 8)]);
    place_stones(&mut board, Stone::Black, &[(7, 4), (8, 5), (8, 6)]);
    let mut rng = fastrand::Rng::with_seed(42);

    let result = find_best_move(&board, Stone::Black, 4, &mut rng);

    assert_eq!(
        result,
        pos(7, 9),
        "Expected blocking move at (7,9), got ({}, {})",
        result.row(),
        result.col()
    );
}

#[test]
fn makes_the_open_four_from_an_open_three() {
    let mut board = Board::new();
    // O_XXX__: only (7,9) makes an open four.
    place_stones(&mut board, Stone::Black, &[(7, 6), (7, 7), (7, 8)]);
    place_stones(&mut board, Stone::White, &[(7, 4), (0, 0), (0, 14)]);
    let mut rng = fastrand::Rng::with_seed(42);

    let result = find_best_move(&board, Stone::Black, 1, &mut rng);

    assert_eq!(result, pos(7, 9));
}

#[test]
fn equal_moves_are_selected_uniformly() {
    // Open three: White has (7,6), (7,7), (7,8) with both ends open.
    // Black stones are far away and symmetric, so blocking at (7,5) or
    // (7,9) is equally good — both should appear.
    let mut board = Board::new();
    place_stones(&mut board, Stone::White, &[(7, 6), (7, 7), (7, 8)]);
    place_stones(&mut board, Stone::Black, &[(2, 6), (2, 8)]);

    let mut seen = std::collections::HashSet::new();
    for seed in 0..100 {
        let mut rng = fastrand::Rng::with_seed(seed);
        let result = find_best_move(&board, Stone::Black, 2, &mut rng);
        seen.insert(result);
    }

    assert!(
        seen.contains(&pos(7, 5)),
        "Expected (7,5) to appear at least once in 100 samples"
    );
    assert!(
        seen.contains(&pos(7, 9)),
        "Expected (7,9) to appear at least once in 100 samples"
    );
}

#[test]
fn killer_table_starts_empty() {
    let table = KillerTable::new(Depth(4));

    for depth in 0..4 {
        assert_eq!(*table.get(Depth(depth)), [None, None]);
    }
}

#[test]
fn killer_table_stores_in_first_slot() {
    let mut table = KillerTable::new(Depth(4));
    let position = pos(7, 7);

    table.put(Depth(2), position);

    assert_eq!(table.get(Depth(2)), &[Some(position), None]);
}

#[test]
fn killer_table_shifts_first_to_second_on_new_entry() {
    let mut table = KillerTable::new(Depth(4));
    let first = pos(7, 7);
    let second = pos(3, 3);

    table.put(Depth(1), first);
    table.put(Depth(1), second);

    assert_eq!(table.get(Depth(1)), &[Some(second), Some(first)]);
}

#[test]
fn killer_table_skips_duplicate_in_first_slot() {
    let mut table = KillerTable::new(Depth(4));
    let first = pos(7, 7);
    let second = pos(3, 3);

    table.put(Depth(0), first);
    table.put(Depth(0), second);
    table.put(Depth(0), second);

    assert_eq!(table.get(Depth(0)), &[Some(second), Some(first)]);
}

#[test]
fn killer_table_depths_are_independent() {
    let mut table = KillerTable::new(Depth(4));
    let position_a = pos(7, 7);
    let position_b = pos(3, 3);

    table.put(Depth(0), position_a);
    table.put(Depth(3), position_b);

    assert_eq!(table.get(Depth(0)), &[Some(position_a), None]);
    assert_eq!(table.get(Depth(1)), &[None, None]);
    assert_eq!(table.get(Depth(3)), &[Some(position_b), None]);
}

#[test]
fn killer_table_third_entry_evicts_oldest() {
    let mut table = KillerTable::new(Depth(4));
    let first = pos(7, 7);
    let second = pos(3, 3);
    let third = pos(5, 5);

    table.put(Depth(0), first);
    table.put(Depth(0), second);
    table.put(Depth(0), third);

    assert_eq!(table.get(Depth(0)), &[Some(third), Some(second)]);
}

#[test]
fn search_is_deterministic_with_killers() {
    let mut board = Board::new();
    place_stones(&mut board, Stone::Black, &[(7, 7), (7, 8), (8, 6)]);
    place_stones(&mut board, Stone::White, &[(6, 7), (8, 8), (9, 5)]);

    let result_a = find_best_move(&board,
        Stone::Black,
        4,
        &mut fastrand::Rng::with_seed(42),
    );
    let result_b = find_best_move(&board,
        Stone::Black,
        4,
        &mut fastrand::Rng::with_seed(42),
    );

    assert_eq!(result_a, result_b);
}

#[test]
fn search_at_depth_one_works_with_killers() {
    let mut board = Board::new();
    place_stones(&mut board, Stone::Black, &[(7, 7)]);
    let mut rng = fastrand::Rng::with_seed(42);

    let result = find_best_move(&board, Stone::White, 1, &mut rng);

    let row_dist = result.row().abs_diff(7);
    let col_dist = result.col().abs_diff(7);
    assert!(
        row_dist <= 2 && col_dist <= 2,
        "Move ({}, {}) should be near the existing stone",
        result.row(),
        result.col()
    );
}

#[test]
fn score_move_completing_five_returns_win() {
    let mut board = Board::new();
    place_stones(&mut board, Stone::Black, &[(7, 5), (7, 6), (7, 7), (7, 8)]);
    place_stones(&mut board, Stone::White, &[(8, 5), (8, 6), (8, 7)]);

    let score = score_move_fresh(&board, Stone::Black, pos(7, 4), 4);

    // 4 Black + 3 White + 1 placed = 8 stones total
    assert_eq!(score, Score::win_at_depth(8));
}

#[test]
fn score_move_winning_scores_higher_than_non_winning() {
    let mut board = Board::new();
    place_stones(&mut board, Stone::Black, &[(7, 5), (7, 6), (7, 7), (7, 8)]);
    place_stones(&mut board, Stone::White, &[(8, 5), (8, 6), (8, 7)]);

    let winning = score_move_fresh(&board, Stone::Black, pos(7, 4), 4);
    let other = score_move_fresh(&board, Stone::Black, pos(6, 5), 4);

    assert!(winning > other);
}

#[test]
fn score_move_open_four_is_won_at_depth_one() {
    let mut board = Board::new();
    place_stones(&mut board, Stone::Black, &[(7, 6), (7, 7), (7, 8)]);
    place_stones(&mut board, Stone::White, &[(2, 2), (2, 3)]);

    // Place at (7,5) creates _XXXX_. White's block is forced and costs no
    // depth; Black then completes five: 6 stones + block + five = 8.
    for depth in 1..=4 {
        let score = score_move_fresh(&board, Stone::Black, pos(7, 5), depth);
        assert_eq!(score, Score::win_at_depth(8), "at depth {depth}");
    }
}

#[test]
fn score_move_open_three_is_answered_before_the_leaf() {
    let mut board = Board::new();
    place_stones(&mut board, Stone::Black, &[(7, 7), (7, 8)]);

    // Place at (7,6) creates _XXX_. White's answer is forced and costs no
    // depth: either neighbour leaves Black a half-open three.
    let score = score_move_fresh(&board, Stone::Black, pos(7, 6), 1);

    assert!(score > Score::DRAW() && !score.is_decided(), "{score:?}");
}

#[test]
fn score_move_finds_win_by_four_then_open_three_at_depth_one() {
    let mut board = Board::new();
    place_stones(
        &mut board,
        Stone::Black,
        &[(7, 4), (7, 5), (7, 6), (5, 7), (6, 7)],
    );
    place_stones(&mut board, Stone::White, &[(7, 3)]);

    // (7,7) makes the four OXXXX_ and the open three in column 7. White
    // must block at (7,8); Black then holds an open three with no White
    // four in sight, which is a win in three more stones: 8 + 3 = 11.
    let score = score_move_fresh(&board, Stone::Black, pos(7, 7), 1);

    assert_eq!(score, Score::win_at_depth(11));
}

#[test]
fn score_move_counter_four_saves_a_lost_open_three() {
    let mut board = Board::new();
    // Black _XXX_ on row 7. White has OOO on row 3 hemmed at (3,4), and a
    // second three XOO_O_ on row 11, hemmed too so it is no win in itself.
    place_stones(
        &mut board,
        Stone::Black,
        &[(7, 6), (7, 7), (7, 8), (3, 4), (11, 4)],
    );
    place_stones(
        &mut board,
        Stone::White,
        &[(3, 5), (3, 6), (3, 7), (11, 5), (11, 6), (11, 8)],
    );

    // White plays (3,8): a four Black must block at (3,9). White then
    // still faces the open three and defuses it, say at (7,5). Black
    // develops one free move at depth 2 and White is not lost.
    let score = score_move_fresh(&board, Stone::White, pos(3, 8), 2);

    assert!(
        !score.is_decided(),
        "the counter-four should keep White in the game: {score:?}"
    );
}

#[test]
fn leaf_finds_a_win_by_continuous_fours() {
    // Black: OXXX_ on row 7, a blocked pair on column 6, and a stone at
    // (9,7) on the diagonal through (7,5) and (8,6). (7,6) is a four;
    // after the forced block at (7,7), (8,6) makes a four on column 6
    // and a free three on the diagonal at once. No single cell wins
    // outright, so only the continuous-fours search sees it.
    let mut board = Board::new();
    place_stones(
        &mut board,
        Stone::Black,
        &[(7, 3), (7, 4), (7, 5), (5, 6), (6, 6), (9, 7)],
    );
    place_stones(&mut board, Stone::White, &[(7, 2), (4, 6), (0, 0)]);

    // A quiet White move elsewhere leaves Black to move at the leaf.
    let lost = score_move_fresh(&board, Stone::White, pos(0, 14), 1);
    assert!(lost.is_decided() && lost < Score::DRAW(), "{lost:?}");

    // Without the diagonal stone there is no follow-up.
    let mut calm = Board::new();
    place_stones(
        &mut calm,
        Stone::Black,
        &[(7, 3), (7, 4), (7, 5), (5, 6), (6, 6)],
    );
    place_stones(&mut calm, Stone::White, &[(7, 2), (4, 6), (0, 0)]);
    let fine = score_move_fresh(&calm, Stone::White, pos(0, 14), 1);
    assert!(!fine.is_decided(), "{fine:?}");
}

#[test]
fn score_move_negative_when_position_favors_opponent() {
    let mut board = Board::new();
    place_stones(&mut board, Stone::Black, &[(7, 6), (7, 7), (7, 8)]);

    // White blocks Black's left side — board still favors Black
    let score = score_move_fresh(&board, Stone::White, pos(7, 5), 1);

    assert!(score < Score::DRAW(), "{score:?}");
}
/// A middle-game position where White, to move, faces threats on several
/// lines and has many cells that would make a four. Counter-fours must
/// cost depth: the depth-4 search below takes about 120 thousand nodes,
/// and ten times that when counter-fours are free replies.
fn dense_middle_game() -> Board {
    let mut board = Board::new();
    place_stones(
        &mut board,
        Stone::Black,
        &[
            (5, 8),
            (6, 8),
            (7, 7),
            (7, 8),
            (7, 9),
            (8, 6),
            (9, 5),
            (10, 9),
        ],
    );
    place_stones(
        &mut board,
        Stone::White,
        &[(4, 8), (5, 9), (6, 7), (7, 6), (8, 7), (9, 8), (10, 4)],
    );
    board
}

#[test]
fn dense_middle_game_search_stays_within_a_node_budget() {
    let board = dense_middle_game();
    let mut tt = TranspositionTable::new();
    let mut search = Search::new(Depth::moves(4));

    search.best_move(
        &mut tt,
        &board,
        Stone::White,
        Depth::moves(4),
        &mut fastrand::Rng::with_seed(7),
    );

    assert!(
        search.nodes() < 300_000,
        "depth-4 search used {} nodes",
        search.nodes()
    );
}

#[test]
fn two_free_threes_win_when_the_opponent_has_no_four_in_reach() {
    // (7,8) joins _XX_ on row 7 and _XX_ on column 8 into two free
    // threes. White's stones are far away and make no four.
    let mut board = Board::new();
    place_stones(&mut board, Stone::Black, &[(7, 6), (7, 7), (5, 8), (6, 8)]);
    place_stones(&mut board, Stone::White, &[(0, 0), (0, 14), (14, 0)]);
    let mut state = SearchState::from_board(&board);

    assert_eq!(
        Search::win_by_threats(&mut state, Stone::Black),
        Some(Score::win_at_depth(7 + 5))
    );
    assert_eq!(Search::win_by_threats(&mut state, Stone::White), None);
}

#[test]
fn two_free_threes_are_no_sure_win_against_a_side_that_can_make_a_four() {
    // As above, but White holds OOO hemmed at (3,4): (3,8) makes a four,
    // so a defence of either three could be a counter-four instead.
    let mut board = Board::new();
    place_stones(
        &mut board,
        Stone::Black,
        &[(7, 6), (7, 7), (5, 8), (6, 8), (3, 4)],
    );
    place_stones(&mut board, Stone::White, &[(3, 5), (3, 6), (3, 7)]);
    let mut state = SearchState::from_board(&board);

    assert_eq!(Search::win_by_threats(&mut state, Stone::Black), None);
}

#[test]
fn four_and_free_three_win_unless_the_block_makes_a_four() {
    // (7,7) makes OXXXX_ on row 7 and _XXX_ on column 7 at once; White
    // must block at (7,8). White's OOO on row 3 gives it a four to make,
    // so the block is played out: at (7,8) it makes nothing.
    let mut board = Board::new();
    place_stones(
        &mut board,
        Stone::Black,
        &[(7, 4), (7, 5), (7, 6), (5, 7), (6, 7), (3, 4)],
    );
    place_stones(&mut board, Stone::White, &[(7, 3), (3, 5), (3, 6), (3, 7)]);
    let mut state = SearchState::from_board(&board);
    assert_eq!(
        Search::win_by_threats(&mut state, Stone::Black),
        Some(Score::win_at_depth(10 + 5))
    );

    // With OO_O on column 8 the block at (7,8) makes a White four.
    place_stones(&mut board, Stone::White, &[(4, 8), (5, 8), (6, 8)]);
    place_stones(&mut board, Stone::Black, &[(8, 8)]);
    let mut state = SearchState::from_board(&board);
    assert_eq!(Search::win_by_threats(&mut state, Stone::Black), None);
}

#[test]
fn own_five_comes_before_blocking_the_opponents() {
    let mut board = Board::new();
    place_stones(&mut board, Stone::Black, &[(7, 5), (7, 6), (7, 7), (7, 8)]);
    place_stones(&mut board, Stone::White, &[(9, 5), (9, 6), (9, 7), (9, 8)]);
    place_stones(&mut board, Stone::Black, &[(0, 0)]);

    let choice = find_best_move(&board, Stone::White, 2, &mut fastrand::Rng::with_seed(3));
    board.place(choice, Stone::White).unwrap();

    assert_eq!(board.outcome(), Some(gomoku::outcome::Outcome::WhiteWins));
}

#[test]
fn a_five_the_opponent_could_complete_is_taken() {
    let mut board = Board::new();
    place_stones(&mut board, Stone::Black, &[(7, 5), (7, 6), (7, 7), (7, 8)]);
    place_stones(&mut board, Stone::White, &[(7, 9), (0, 0), (14, 14)]);

    let choice = find_best_move(&board, Stone::White, 2, &mut fastrand::Rng::with_seed(5));

    assert_eq!(choice, pos(7, 4));
}
