//! Fitness by playing against minimax at several depths.

use vstd::prelude::*;

use core::ops::ControlFlow;

use crate::board::{outcome_of, stone_count, stone_near, Board};
use crate::game::observer::GameObserver;
use crate::game::{empty_board, game_played, observed_moves, replay, to_move, watched_game, Game};
use crate::minimax::score::Score;
use crate::minimax::search::{in_range, move_score_facts, score_move};
use crate::minimax::strategy::MinimaxStrategy;
use crate::minimax::tt::TranspositionTable;
use crate::outcome::Outcome;
use crate::position_id::PositionId;
use crate::stone::Stone;
use crate::strategy::Strategy;

verus! {

/// `depths` is strictly increasing.
pub open spec fn strictly_increasing(depths: Seq<u32>) -> bool {
    forall|i: int, j: int| 0 <= i < j < depths.len() ==> depths[i] < depths[j]
}

/// Evaluates fitness by playing each strategy against minimax at multiple
/// depths. Minimax plays as Black; the evaluated strategy plays as White.
pub struct MinimaxFitness {
    game: Game,
    depths: Vec<u32>,
    scoring_depth: Option<u32>,
}

/// The depths sorted, each once.
fn sorted_distinct(depths: Vec<u32>) -> (result: Vec<u32>)
    ensures
        strictly_increasing(result@),
        forall|d: u32| #[trigger] result@.contains(d) <==> depths@.contains(d),
{
    let mut result: Vec<u32> = Vec::new();
    let mut i: usize = 0;
    while i < depths.len()
        invariant
            i <= depths@.len(),
            strictly_increasing(result@),
            forall|d: u32| #[trigger] result@.contains(d) <==> depths@.subrange(0, i as int).contains(d),
        decreases depths@.len() - i,
    {
        let depth = depths[i];
        // Find where `depth` belongs.
        let mut at: usize = 0;
        while at < result.len() && result[at] < depth
            invariant
                at <= result@.len(),
                forall|k: int| 0 <= k < at ==> result@[k] < depth,
            decreases result@.len() - at,
        {
            at = at + 1;
        }
        let ghost before = result@;
        let ghost prev = depths@.subrange(0, i as int);
        let ghost prefix = depths@.subrange(0, i + 1);
        proof {
            assert(prefix == prev.push(depth));
            assert(forall|d: u32| #[trigger] before.contains(d) <==> prev.contains(d));
        }
        if at == result.len() || result[at] != depth {
            result.insert(at, depth);
            proof {
                assert(result@ == before.insert(at as int, depth));
                assert forall|a: int, b: int| 0 <= a < b < result@.len() implies result@[a] < result@[b] by {
                    if b < at {
                    } else if a < at && b == at {
                    } else if a < at && b > at {
                        assert(result@[b] == before[b - 1]);
                        if at < before.len() {
                            assert(before[at as int] > depth);
                            assert(before[at as int] <= before[b - 1]);
                        }
                    } else if a == at {
                        assert(result@[b] == before[b - 1]);
                        assert(before[at as int] > depth);
                        if b - 1 > at {
                            assert(before[at as int] < before[b - 1]);
                        }
                    } else {
                        assert(result@[a] == before[a - 1]);
                        assert(result@[b] == before[b - 1]);
                    }
                }
                assert forall|d: u32| #[trigger] result@.contains(d) <==> prefix.contains(d) by {
                    if result@.contains(d) {
                        let k = choose|k: int| 0 <= k < result@.len() && result@[k] == d;
                        if k == at {
                            assert(prefix[prev.len() as int] == d);
                        } else {
                            let j = if k < at { k } else { k - 1 };
                            assert(before[j] == d);
                            assert(before.contains(d));
                            assert(prev.contains(d));
                            let m = choose|m: int| 0 <= m < prev.len() && prev[m] == d;
                            assert(prefix[m] == d);
                        }
                    }
                    if prefix.contains(d) {
                        let k = choose|k: int| 0 <= k < prefix.len() && prefix[k] == d;
                        if k == prev.len() {
                            assert(result@[at as int] == d);
                        } else {
                            assert(prev[k] == d);
                            assert(prev.contains(d));
                            assert(before.contains(d));
                            let m = choose|m: int| 0 <= m < before.len() && before[m] == d;
                            let j = if m < at { m } else { m + 1 };
                            assert(result@[j] == d);
                        }
                    }
                }
            }
        } else {
            proof {
                assert forall|d: u32| #[trigger] result@.contains(d) <==> prefix.contains(d) by {
                    if d == depth {
                        assert(result@[at as int] == d);
                    }
                    if prefix.contains(d) && d != depth {
                        let k = choose|k: int| 0 <= k < prefix.len() && prefix[k] == d;
                        assert(prev[k] == d);
                    }
                    if prev.contains(d) {
                        let k = choose|k: int| 0 <= k < prev.len() && prev[k] == d;
                        assert(prefix[k] == d);
                    }
                }
            }
        }
        i = i + 1;
    }
    proof {
        assert(depths@.subrange(0, depths@.len() as int) == depths@);
    }
    result
}

impl MinimaxFitness {
    pub closed spec fn spec_depths(&self) -> Seq<u32> {
        self.depths@
    }

    pub closed spec fn spec_scoring_depth(&self) -> Option<u32> {
        self.scoring_depth
    }

    pub closed spec fn spec_game(&self) -> Game {
        self.game
    }

    /// The depths come out sorted, each once.
    pub fn new(game: Game, depths: Vec<u32>, scoring_depth: Option<u32>) -> (result: Self)
        ensures
            strictly_increasing(result.spec_depths()),
            forall|d: u32| #[trigger] result.spec_depths().contains(d) <==> depths@.contains(d),
            result.spec_scoring_depth() == scoring_depth,
            result.spec_game() == game,
    {
        MinimaxFitness { game, depths: sorted_distinct(depths), scoring_depth }
    }

    /// The depths minimax plays at, shallowest first.
    pub fn depths(&self) -> (result: &Vec<u32>)
        ensures
            result@ == self.spec_depths(),
    {
        &self.depths
    }

    pub fn scoring_depth(&self) -> (result: Option<u32>)
        ensures
            result == self.spec_scoring_depth(),
    {
        self.scoring_depth
    }

    pub fn game(&self) -> (result: &Game)
        ensures
            *result == self.spec_game(),
    {
        &self.game
    }
}

/// The fewest turns in which Black can win: five stones on alternating
/// turns, starting with the first.
pub const FASTEST_WIN_TURNS: usize = 9;

/// What minimax made of one White move: its score of Black's move before it,
/// from White's side, its score of White's reply, and whether the reply was
/// next to a stone.
#[derive(Debug, Clone, Copy, PartialEq, Eq, Structural)]
pub struct WhiteMoveScore {
    pub before: Score,
    pub after: Score,
    pub near_stone: bool,
}

/// `after` is `before` with one more score, for White's move at `position`
/// on `board` following Black's at `black_position` on `black_board`, both
/// searched `depth` moves deep: Black's move scored from White's side and
/// White's move, each as `score_move` gives it, and whether a stone lies
/// near White's move.
pub open spec fn scored_white_move(
    before: Seq<WhiteMoveScore>,
    after: Seq<WhiteMoveScore>,
    black_board: Seq<Stone>,
    black_position: PositionId,
    board: Seq<Stone>,
    position: PositionId,
    depth: u32,
) -> bool {
    let scored = after.last();
    &&& after.len() == before.len() + 1
    &&& after.drop_last() == before
    &&& in_range(scored.before)
    &&& in_range(scored.after)
    &&& move_score_facts(black_board, black_position, Stone::Black, depth, -scored.before.0)
    &&& move_score_facts(board, position, Stone::White, depth, scored.after.0 as int)
    &&& scored.near_stone == stone_near(board, position.spec_row(), position.spec_col())
}

/// Per-game observer of a game against minimax. It stops the game at an
/// optional move limit, and when a scoring depth is set it scores every
/// White move that follows a Black one.
pub struct MinimaxObserver {
    move_limit: Option<usize>,
    scoring_depth: Option<u32>,
    white_moves: Vec<WhiteMoveScore>,
    prev_black_move: Option<(Board, PositionId)>,
}

impl MinimaxObserver {
    #[verifier::type_invariant]
    spec fn ready(self) -> bool {
        &&& match self.scoring_depth {
            Some(depth) => 0 < depth <= 86,
            None => true,
        }
        &&& match self.prev_black_move {
            Some((board, position)) => board.wf() && position.valid() && board@[position.idx()] == Stone::Empty
                && outcome_of(board@).is_none(),
            None => true,
        }
    }

    pub closed spec fn spec_move_limit(&self) -> Option<usize> {
        self.move_limit
    }

    pub closed spec fn spec_scoring_depth(&self) -> Option<u32> {
        self.scoring_depth
    }

    /// While scoring, the last Black move seen and the board it was played
    /// on.
    pub closed spec fn spec_last_black(&self) -> Option<(Seq<Stone>, PositionId)> {
        match self.prev_black_move {
            Some((board, position)) => Some((board@, position)),
            None => None,
        }
    }

    /// The scores of the White moves seen so far, in order.
    pub closed spec fn spec_white_moves(&self) -> Seq<WhiteMoveScore> {
        self.white_moves@
    }

    /// An observer that stops the game once `move_limit` stones are on the
    /// board and scores White's moves `scoring_depth` moves deep.
    pub fn new(move_limit: Option<usize>, scoring_depth: Option<u32>) -> (result: Self)
        requires
            scoring_depth matches Some(depth) ==> 0 < depth <= 86,
        ensures
            result.spec_move_limit() == move_limit,
            result.spec_scoring_depth() == scoring_depth,
            result.spec_white_moves() == Seq::<WhiteMoveScore>::empty(),
            result.spec_last_black() is None,
    {
        MinimaxObserver {
            move_limit,
            scoring_depth,
            white_moves: Vec::new(),
            prev_black_move: None,
        }
    }

    /// The scores of the White moves seen so far, in order.
    pub fn white_moves(&self) -> (result: &Vec<WhiteMoveScore>)
        ensures
            result@ == self.spec_white_moves(),
    {
        &self.white_moves
    }
}

impl GameObserver for MinimaxObserver {
    /// Without a move limit the observer never stops a game.
    open spec fn never_stops(&self) -> bool {
        self.spec_move_limit() is None
    }

    /// It stops a game once the move limit's worth of stones is on the
    /// board.
    open spec fn stops(&self, stone: Stone, position: PositionId, board: &Board) -> bool {
        self.spec_move_limit() matches Some(limit) && stone_count(board@) >= limit
    }

    /// The move limit and the scoring depth stay.
    open spec fn keeps(&self, next: &Self) -> bool {
        next.spec_move_limit() == self.spec_move_limit() && next.spec_scoring_depth() == self.spec_scoring_depth()
    }

    /// Stops the game when the move limit is reached; otherwise remembers a
    /// Black move, or scores a White move that follows one.
    fn on_move(&mut self, stone: Stone, position: PositionId, board: &Board) -> (result: ControlFlow<()>)
        ensures
            result is Break <==> (old(self).spec_move_limit() matches Some(limit) && stone_count(board@) >= limit),
            final(self).spec_move_limit() == old(self).spec_move_limit(),
            final(self).spec_scoring_depth() == old(self).spec_scoring_depth(),
            result is Break || old(self).spec_scoring_depth() is None ==> final(self).spec_white_moves() == old(self).spec_white_moves() && final(self).spec_last_black() == old(self).spec_last_black(),
            result is Continue && old(self).spec_scoring_depth() is Some ==> if stone
                == Stone::Black {
                &&& final(self).spec_last_black() == Some((board@, position))
                &&& final(self).spec_white_moves() == old(self).spec_white_moves()
            } else {
                &&& final(self).spec_last_black() == old(self).spec_last_black()
                &&& match old(self).spec_last_black() {
                    None => final(self).spec_white_moves() == old(self).spec_white_moves(),
                    Some((black_board, black_position)) => scored_white_move(
                        old(self).spec_white_moves(),
                        final(self).spec_white_moves(),
                        black_board,
                        black_position,
                        board@,
                        position,
                        old(self).spec_scoring_depth().unwrap(),
                    ),
                }
            },
    {
        proof {
            use_type_invariant(&*self);
        }
        if let Some(limit) = self.move_limit {
            if board.move_count() >= limit {
                assert(self.white_moves@.subrange(0, self.white_moves@.len() as int) == self.white_moves@);
                return ControlFlow::Break(());
            }
        }
        let ghost before_moves = self.white_moves@;
        if let Some(depth) = self.scoring_depth {
            if stone == Stone::Black {
                self.prev_black_move = Some((board.clone(), position));
            } else if let Some((prev_board, black_position)) = &self.prev_black_move {
                let mut black_table = TranspositionTable::new();
                let black_score = score_move(prev_board, Stone::Black, *black_position, depth, &mut black_table);
                let before = Score(-black_score.0);
                let mut white_table = TranspositionTable::new();
                let after = score_move(board, Stone::White, position, depth, &mut white_table);
                let near_stone = board.has_stone_near(position);
                let mut moves: Vec<WhiteMoveScore> = Vec::new();
                core::mem::swap(&mut moves, &mut self.white_moves);
                moves.push(WhiteMoveScore { before, after, near_stone });
                assert(moves@.drop_last() =~= before_moves);
                self.white_moves = moves;
            }
        }
        ControlFlow::Continue(())
    }
}

/// One game against minimax: how many stones it took, how it ended, and
/// what minimax made of White's moves.
#[derive(Debug, Clone)]
pub struct GameRecord {
    pub turn_count: usize,
    pub outcome: Outcome,
    pub white_moves: Vec<WhiteMoveScore>,
}

/// The games that decide a strategy's fitness: minimax's quickest win (a
/// draw counts as one), and the strategy's longest win.
#[derive(Debug, Clone)]
pub struct DepthResults {
    pub minimax_win: Option<GameRecord>,
    pub strategy_win: Option<GameRecord>,
}

/// `record` tells of a finished game: some board holds its outcome and its
/// number of stones.
pub open spec fn finished_game(record: GameRecord) -> bool {
    exists|cells: Seq<Stone>|
        cells.len() == 225 && outcome_of(cells) == Some(record.outcome) && stone_count(cells) == record.turn_count
}

/// The games kept after `record`: a White win replaces a shorter one, and
/// a Black win or a draw replaces a longer one.
pub open spec fn keep_game(results: DepthResults, record: GameRecord) -> DepthResults {
    if record.outcome == Outcome::WhiteWins {
        if results.strategy_win matches Some(best) && record.turn_count <= best.turn_count {
            results
        } else {
            DepthResults { minimax_win: results.minimax_win, strategy_win: Some(record) }
        }
    } else {
        if results.minimax_win matches Some(best) && record.turn_count >= best.turn_count {
            results
        } else {
            DepthResults { minimax_win: Some(record), strategy_win: results.strategy_win }
        }
    }
}

/// The games kept from `played`, in order; `None` stands for a game the
/// move limit cut off.
pub open spec fn kept_games(played: Seq<Option<GameRecord>>) -> DepthResults
    decreases played.len(),
{
    if played.len() == 0 {
        DepthResults { minimax_win: None, strategy_win: None }
    } else {
        let prior = kept_games(played.drop_last());
        match played.last() {
            Some(record) => keep_game(prior, record),
            None => prior,
        }
    }
}

/// Minimax won or drew in the fewest turns possible.
pub open spec fn fastest_win(results: DepthResults) -> bool {
    results.minimax_win matches Some(record) && record.turn_count == FASTEST_WIN_TURNS
}

/// How many random opening stones `game` places.
pub open spec fn opening_count(game: Game) -> nat {
    match game {
        Game::Freestyle(g) => g.opening_moves as nat,
        Game::RandomOpening(g) => g.moves as nat,
        _ => 0,
    }
}

/// `record` tells of a game of `game` from an empty board between minimax
/// at `depth`, as Black, and `strategy`, as White: its outcome and its
/// number of stones.
pub open spec fn played_game<S: Strategy>(game: Game, depth: u32, strategy: &S, record: GameRecord) -> bool {
    exists|minimax: MinimaxStrategy, opening: Seq<PositionId>, moves: Seq<PositionId>|
        {
            &&& minimax.spec_depth() == depth
            &&& #[trigger] game_played(
                &minimax,
                strategy,
                empty_board(),
                opening_count(game),
                opening,
                moves,
                replay(replay(empty_board(), opening), moves),
            )
            &&& outcome_of(replay(replay(empty_board(), opening), moves)) == Some(record.outcome)
            &&& stone_count(replay(replay(empty_board(), opening), moves)) == record.turn_count
        }
}

/// The move limit that the games kept so far set: the length of minimax's
/// quickest win.
pub open spec fn limit_of(results: DepthResults) -> Option<usize> {
    match results.minimax_win {
        Some(record) => Some(record.turn_count),
        None => None,
    }
}

/// A game of `game` from an empty board was watched by an observer with
/// move limit `limit` and ended in `finished` on `after`: every move the
/// observer let through was played on a board with fewer stones than the
/// limit, and a game it cut off had the limit's worth of stones.
pub open spec fn limited_game(game: Game, limit: Option<usize>, finished: Option<Outcome>, after: Seq<Stone>) -> bool {
    exists|
        first: MinimaxObserver,
        opening: Seq<PositionId>,
        moves: Seq<PositionId>,
        states: Seq<MinimaxObserver>,
        boards: Seq<Board>,
        end: Board,
        last: MinimaxObserver,
    |
        {
            &&& first.spec_move_limit() == limit
            &&& end@ == after
            &&& #[trigger] watched_game(
                first,
                empty_board(),
                opening_count(game),
                opening,
                moves,
                states,
                boards,
                end,
                last,
                finished,
            )
            &&& limit is Some ==> forall|k: int|
                0 <= k < boards.len() ==> stone_count(#[trigger] boards[k]@) < limit.unwrap()
            &&& limit is Some && finished is None ==> stone_count(after) >= limit.unwrap()
        }
}

/// An observer's move limit stays through the moves it was shown, so each
/// board it let through had fewer stones than the limit, and the board it
/// stopped on had at least as many.
proof fn lemma_limit_kept(
    first: MinimaxObserver,
    states: Seq<MinimaxObserver>,
    boards: Seq<Board>,
    cells: Seq<Stone>,
    moves: Seq<PositionId>,
)
    requires
        observed_moves(first, states, boards, cells, moves),
    ensures
        forall|k: int| 0 <= k < states.len() ==> #[trigger] states[k].spec_move_limit() == first.spec_move_limit(),
        first.spec_move_limit() is Some ==> forall|k: int|
            0 <= k < boards.len() ==> stone_count(#[trigger] boards[k]@) < first.spec_move_limit().unwrap(),
    decreases moves.len(),
{
    if moves.len() > 0 {
        let n = moves.len() - 1;
        assert(observed_moves(first, states.drop_last(), boards.drop_last(), cells, moves.drop_last())) by {
            assert forall|k: int| 0 <= k < n implies {
                &&& (#[trigger] boards.drop_last()[k]).wf()
                &&& boards.drop_last()[k]@ == replay(cells, moves.drop_last().take(k))
                &&& !states.drop_last()[k].stops(to_move(boards.drop_last()[k]@), moves.drop_last()[k], &boards.drop_last()[k])
                &&& states.drop_last()[k].keeps(&states.drop_last()[k + 1])
            } by {
                assert(moves.drop_last().take(k) =~= moves.take(k));
                assert(boards.drop_last()[k] == boards[k]);
                assert(states.drop_last()[k] == states[k]);
                assert(states.drop_last()[k + 1] == states[k + 1]);
            }
        }
        lemma_limit_kept(first, states.drop_last(), boards.drop_last(), cells, moves.drop_last());
        assert(boards[n].wf());
        assert(states[n].keeps(&states[n + 1]));
        assert(states[n] == states.drop_last()[n]);
        assert forall|k: int| 0 <= k < states.len() implies #[trigger] states[k].spec_move_limit()
            == first.spec_move_limit() by {
            if k <= n {
                assert(states[k] == states.drop_last()[k]);
            }
        }
        assert forall|k: int| 0 <= k < boards.len() && first.spec_move_limit() is Some implies stone_count(
            #[trigger] boards[k]@,
        ) < first.spec_move_limit().unwrap() by {
            assert(!states[k].stops(to_move(boards[k]@), moves[k], &boards[k]));
        }
    }
}

/// `played` holds one game per depth, from the shallowest, each kept or
/// cut off; a game is cut off only once minimax has a win to beat, none is
/// played after minimax's fastest win, and `result` holds the games kept.
pub open spec fn depth_games<S: Strategy>(
    game: Game,
    depths: Seq<u32>,
    strategy: &S,
    played: Seq<Option<GameRecord>>,
    result: DepthResults,
) -> bool {
    &&& played.len() <= depths.len()
    &&& result == kept_games(played)
    &&& played.len() < depths.len() ==> fastest_win(kept_games(played))
    &&& forall|k: int|
        0 <= k < played.len() ==> {
            let prior = #[trigger] kept_games(played.take(k));
            &&& !fastest_win(prior)
            &&& played[k] is None ==> prior.minimax_win is Some
            &&& played[k] matches Some(record) ==> played_game(game, depths[k], strategy, record)
            &&& played[k] matches Some(record) ==> exists|after: Seq<Stone>|
                #[trigger] limited_game(game, limit_of(prior), Some(record.outcome), after) && stone_count(after)
                    == record.turn_count
            &&& played[k] is None ==> exists|after: Seq<Stone>| #[trigger] limited_game(game, limit_of(prior), None, after)
        }
}

impl MinimaxFitness {
    /// Plays `strategy`, as White, against minimax at each depth,
    /// shallowest first. Keeps minimax's quickest win and the strategy's
    /// longest win; a game is cut off once it reaches the length of the
    /// quickest minimax win so far, and no depth is played after a win in
    /// the fewest turns possible.
    pub fn evaluate_games<S: Strategy>(&self, strategy: &S, rng: &mut fastrand::Rng) -> (result: DepthResults)
        requires
            self.spec_game() is Freestyle || self.spec_game() is RandomOpening,
            forall|i: int| 0 <= i < self.spec_depths().len() ==> 0 < #[trigger] self.spec_depths()[i] <= 86,
            self.spec_scoring_depth() matches Some(depth) ==> 0 < depth <= 86,
        ensures
            result.minimax_win matches Some(record) ==> (record.outcome == Outcome::BlackWins || record.outcome
                == Outcome::Draw) && record.turn_count <= 225,
            result.strategy_win matches Some(record) ==> record.outcome == Outcome::WhiteWins
                && record.turn_count <= 225,
            self.spec_depths().len() == 0 ==> result.minimax_win is None && result.strategy_win is None,
            self.spec_depths().len() > 0 ==> result.minimax_win is Some || result.strategy_win is Some,
            result.minimax_win matches Some(record) ==> finished_game(record),
            result.strategy_win matches Some(record) ==> finished_game(record),
            exists|played: Seq<Option<GameRecord>>|
                #[trigger] depth_games(self.spec_game(), self.spec_depths(), strategy, played, result),
    {
        let mut minimax_win: Option<GameRecord> = None;
        let mut strategy_win: Option<GameRecord> = None;
        let mut i: usize = 0;
        let ghost mut played: Seq<Option<GameRecord>> = Seq::empty();
        while i < self.depths.len()
            invariant
                i <= self.depths@.len(),
                self.game is Freestyle || self.game is RandomOpening,
                forall|k: int| 0 <= k < self.spec_depths().len() ==> 0 < #[trigger] self.spec_depths()[k] <= 86,
                self.scoring_depth matches Some(depth) ==> 0 < depth <= 86,
                minimax_win matches Some(record) ==> (record.outcome == Outcome::BlackWins || record.outcome
                    == Outcome::Draw) && record.turn_count <= 225,
                strategy_win matches Some(record) ==> record.outcome == Outcome::WhiteWins && record.turn_count
                    <= 225,
                self.depths@.len() == 0 ==> minimax_win is None && strategy_win is None,
                i > 0 ==> minimax_win is Some || strategy_win is Some,
                minimax_win matches Some(record) ==> finished_game(record),
                strategy_win matches Some(record) ==> finished_game(record),
                played.len() == i,
                kept_games(played).minimax_win == minimax_win,
                kept_games(played).strategy_win == strategy_win,
                forall|k: int|
                    0 <= k < played.len() ==> {
                        let prior = #[trigger] kept_games(played.take(k));
                        &&& !fastest_win(prior)
                        &&& played[k] is None ==> prior.minimax_win is Some
                        &&& played[k] matches Some(record) ==> played_game(
                            self.spec_game(),
                            self.spec_depths()[k],
                            strategy,
                            record,
                        )
                        &&& played[k] matches Some(record) ==> exists|after: Seq<Stone>|
                            #[trigger] limited_game(self.spec_game(), limit_of(prior), Some(record.outcome), after)
                                && stone_count(after) == record.turn_count
                        &&& played[k] is None ==> exists|after: Seq<Stone>|
                            #[trigger] limited_game(self.spec_game(), limit_of(prior), None, after)
                    },
            ensures
                self.depths@.len() == 0 ==> minimax_win is None && strategy_win is None,
                self.depths@.len() > 0 ==> minimax_win is Some || strategy_win is Some,
                minimax_win matches Some(record) ==> (record.outcome == Outcome::BlackWins || record.outcome
                    == Outcome::Draw) && record.turn_count <= 225,
                strategy_win matches Some(record) ==> record.outcome == Outcome::WhiteWins && record.turn_count
                    <= 225,
                minimax_win matches Some(record) ==> finished_game(record),
                strategy_win matches Some(record) ==> finished_game(record),
                played.len() <= self.depths@.len(),
                played.len() < self.depths@.len() ==> fastest_win(kept_games(played)),
                kept_games(played).minimax_win == minimax_win,
                kept_games(played).strategy_win == strategy_win,
                forall|k: int|
                    0 <= k < played.len() ==> {
                        let prior = #[trigger] kept_games(played.take(k));
                        &&& !fastest_win(prior)
                        &&& played[k] is None ==> prior.minimax_win is Some
                        &&& played[k] matches Some(record) ==> played_game(
                            self.spec_game(),
                            self.spec_depths()[k],
                            strategy,
                            record,
                        )
                        &&& played[k] matches Some(record) ==> exists|after: Seq<Stone>|
                            #[trigger] limited_game(self.spec_game(), limit_of(prior), Some(record.outcome), after)
                                && stone_count(after) == record.turn_count
                        &&& played[k] is None ==> exists|after: Seq<Stone>|
                            #[trigger] limited_game(self.spec_game(), limit_of(prior), None, after)
                    },
            decreases self.depths@.len() - i,
        {
            let fastest = match &minimax_win {
                Some(record) => record.turn_count == FASTEST_WIN_TURNS,
                None => false,
            };
            if fastest {
                break;
            }
            let depth = self.depths[i];
            assert(self.spec_depths()[i as int] == depth);
            let minimax = MinimaxStrategy::new(depth);
            let move_limit = match &minimax_win {
                Some(record) => Some(record.turn_count),
                None => None,
            };
            let mut board = Board::new();
            let mut observer = MinimaxObserver::new(move_limit, self.scoring_depth);
            let ghost prior = kept_games(played);
            let ghost start = board@;
            let ghost watcher = observer;
            let finished = self.game.play_from(&mut board, &minimax, strategy, &mut observer, rng);
            proof {
                let count = opening_count(self.spec_game());
                let (opening, shown, states, boards) = choose|
                    opening: Seq<PositionId>,
                    shown: Seq<PositionId>,
                    states: Seq<MinimaxObserver>,
                    boards: Seq<Board>,
                |
                    #[trigger] watched_game(watcher, start, count, opening, shown, states, boards, board, observer, finished);
                lemma_limit_kept(watcher, states, boards, replay(start, opening), shown);
                if finished is None && move_limit is Some {
                    let p = choose|p: PositionId|
                        p.valid() && board@[p.idx()] == Stone::Empty && #[trigger] states.last().stops(
                            to_move(board@),
                            p,
                            &board,
                        );
                    assert(states.last().spec_move_limit() == watcher.spec_move_limit());
                }
                assert(start == empty_board());
                assert(limit_of(prior) == move_limit);
                assert(limited_game(self.spec_game(), limit_of(prior), finished, board@));
            }
            let ghost mut entry: Option<GameRecord> = None;
            if finished.is_some() {
                let ended = board.outcome();
                assert(ended.is_some());
                if let Some(outcome) = ended {
                    let turn_count = board.move_count();
                    let white_moves = observer.white_moves().clone();
                    let record = GameRecord { turn_count, outcome, white_moves };
                    proof {
                        board.lemma_wf();
                        assert(board@.len() == 225 && outcome_of(board@) == Some(record.outcome)
                            && stone_count(board@) == record.turn_count);
                        assert(start == empty_board());
                        let (opening, moves) = choose|opening: Seq<PositionId>, moves: Seq<PositionId>|
                            #[trigger] game_played(
                                &minimax,
                                strategy,
                                start,
                                opening_count(self.spec_game()),
                                opening,
                                moves,
                                board@,
                            );
                        assert(game_played(
                            &minimax,
                            strategy,
                            empty_board(),
                            opening_count(self.spec_game()),
                            opening,
                            moves,
                            replay(replay(empty_board(), opening), moves),
                        ));
                        assert(played_game(self.spec_game(), depth, strategy, record));
                        entry = Some(record);
                    }
                    match outcome {
                        Outcome::WhiteWins => {
                            let longer = match &strategy_win {
                                Some(best) => turn_count > best.turn_count,
                                None => true,
                            };
                            if longer {
                                strategy_win = Some(record);
                            }
                        },
                        _ => {
                            let quicker = match &minimax_win {
                                Some(best) => turn_count < best.turn_count,
                                None => true,
                            };
                            if quicker {
                                minimax_win = Some(record);
                            }
                        },
                    }
                }
            }
            proof {
                if finished is None {
                    assert(!watcher.never_stops());
                }
                let longer = played.push(entry);
                assert(longer.drop_last() =~= played);
                assert(longer.take(i as int) =~= played);
                assert forall|k: int| 0 <= k < i implies #[trigger] longer.take(k) == played.take(k) by {
                    assert(longer.take(k) =~= played.take(k));
                }
                played = longer;
            }
            i = i + 1;
        }
        let result = DepthResults { minimax_win, strategy_win };
        proof {
            assert(result == kept_games(played));
            assert(depth_games(self.spec_game(), self.spec_depths(), strategy, played, result));
        }
        result
    }
}

} // verus!
