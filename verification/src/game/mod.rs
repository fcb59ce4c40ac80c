//! Playing games between strategies.

use vstd::prelude::*;

use crate::board::{outcome_of, stone_count, Board};
use crate::match_result::MatchResult;
use crate::outcome::Outcome;
use crate::position_id::PositionId;
use crate::rng::rng_below;
use crate::stone::Stone;
use crate::strategy::Strategy;

pub mod freestyle;
pub mod observer;
pub mod random_opening;

use freestyle::Freestyle;
use observer::GameObserver;
use random_opening::RandomOpening;

verus! {

/// `after` holds every stone of `before`, and maybe more.
pub open spec fn extends(before: Seq<Stone>, after: Seq<Stone>) -> bool {
    &&& after.len() == before.len()
    &&& forall|i: int| 0 <= i < before.len() && before[i] != Stone::Empty ==> #[trigger] after[i] == before[i]
}

/// The stones of an empty board.
pub open spec fn empty_board() -> Seq<Stone> {
    Seq::new(225, |i: int| Stone::Empty)
}

/// Whose turn it is on `cells` when Black starts and the colours alternate.
pub open spec fn to_move(cells: Seq<Stone>) -> Stone {
    if stone_count(cells) % 2 == 0 {
        Stone::Black
    } else {
        Stone::White
    }
}

/// `cells` after `moves` are played in turn, each by the side to move.
pub open spec fn replay(cells: Seq<Stone>, moves: Seq<PositionId>) -> Seq<Stone>
    decreases moves.len(),
{
    if moves.len() == 0 {
        cells
    } else {
        let before = replay(cells, moves.drop_last());
        before.update(moves.last().idx(), to_move(before))
    }
}

/// Each of `moves`, played in turn from `cells`, takes an empty cell of a
/// game not yet decided.
pub open spec fn legal_moves(cells: Seq<Stone>, moves: Seq<PositionId>) -> bool {
    forall|k: int|
        0 <= k < moves.len() ==> {
            let before = #[trigger] replay(cells, moves.take(k));
            &&& moves[k].valid()
            &&& before[moves[k].idx()] == Stone::Empty
            &&& outcome_of(before).is_none()
        }
}

/// Each of `moves`, played in turn from `cells`, is one its side's
/// strategy may choose there: `black`'s on Black's turns, `white`'s on
/// White's.
pub open spec fn chosen_by<B: Strategy, W: Strategy>(black: &B, white: &W, cells: Seq<Stone>, moves: Seq<PositionId>) -> bool {
    forall|k: int|
        0 <= k < moves.len() ==> {
            let before = #[trigger] replay(cells, moves.take(k));
            &&& to_move(before) == Stone::Black ==> black.may_choose(Stone::Black, before, moves[k])
            &&& to_move(before) == Stone::White ==> white.may_choose(Stone::White, before, moves[k])
        }
}

/// Replaying one more move places the side to move's stone, and keeps
/// what `legal_moves` says of the earlier moves.
proof fn lemma_push_legal(cells: Seq<Stone>, moves: Seq<PositionId>, p: PositionId)
    ensures
        replay(cells, moves.push(p)) == replay(cells, moves).update(p.idx(), to_move(replay(cells, moves))),
        legal_moves(cells, moves) && p.valid() && replay(cells, moves)[p.idx()] == Stone::Empty && outcome_of(
            replay(cells, moves),
        ).is_none() ==> legal_moves(cells, moves.push(p)),
{
    let longer = moves.push(p);
    assert(longer.drop_last() =~= moves);
    assert(longer.take(moves.len() as int) =~= moves);
    if legal_moves(cells, moves) && p.valid() && replay(cells, moves)[p.idx()] == Stone::Empty && outcome_of(
        replay(cells, moves),
    ).is_none() {
        assert forall|k: int| 0 <= k < longer.len() implies {
            let before = #[trigger] replay(cells, longer.take(k));
            &&& longer[k].valid()
            &&& before[longer[k].idx()] == Stone::Empty
            &&& outcome_of(before).is_none()
        } by {
            if k < moves.len() {
                assert(longer.take(k) =~= moves.take(k));
                assert(longer[k] == moves[k]);
            }
        }
    }
}

/// One more move shown to the observer and let through keeps what
/// `observed_moves` says.
proof fn lemma_push_observed<O: GameObserver>(
    first: O,
    states: Seq<O>,
    boards: Seq<Board>,
    cells: Seq<Stone>,
    moves: Seq<PositionId>,
    p: PositionId,
    shown: Board,
    next: O,
)
    requires
        observed_moves(first, states, boards, cells, moves),
        shown.wf(),
        shown@ == replay(cells, moves),
        !states.last().stops(to_move(shown@), p, &shown),
        states.last().keeps(&next),
    ensures
        observed_moves(first, states.push(next), boards.push(shown), cells, moves.push(p)),
{
    let longer = moves.push(p);
    let more = states.push(next);
    let seen = boards.push(shown);
    assert(longer.take(moves.len() as int) =~= moves);
    assert forall|k: int| 0 <= k < longer.len() implies {
        &&& (#[trigger] seen[k]).wf()
        &&& seen[k]@ == replay(cells, longer.take(k))
        &&& !more[k].stops(to_move(seen[k]@), longer[k], &seen[k])
        &&& more[k].keeps(&more[k + 1])
    } by {
        if k < moves.len() {
            assert(longer.take(k) =~= moves.take(k));
            assert(seen[k] == boards[k]);
            assert(more[k] == states[k]);
            assert(more[k + 1] == states[k + 1]);
            assert(longer[k] == moves[k]);
        }
    }
}

/// One more move its side's strategy may choose keeps what `chosen_by`
/// says.
proof fn lemma_push_chosen<B: Strategy, W: Strategy>(
    black: &B,
    white: &W,
    cells: Seq<Stone>,
    moves: Seq<PositionId>,
    p: PositionId,
)
    requires
        chosen_by(black, white, cells, moves),
        to_move(replay(cells, moves)) == Stone::Black ==> black.may_choose(Stone::Black, replay(cells, moves), p),
        to_move(replay(cells, moves)) == Stone::White ==> white.may_choose(Stone::White, replay(cells, moves), p),
    ensures
        chosen_by(black, white, cells, moves.push(p)),
{
    let longer = moves.push(p);
    assert(longer.take(moves.len() as int) =~= moves);
    assert forall|k: int| 0 <= k < longer.len() implies {
        let before = #[trigger] replay(cells, longer.take(k));
        &&& to_move(before) == Stone::Black ==> black.may_choose(Stone::Black, before, longer[k])
        &&& to_move(before) == Stone::White ==> white.may_choose(Stone::White, before, longer[k])
    } by {
        if k < moves.len() {
            assert(longer.take(k) =~= moves.take(k));
            assert(longer[k] == moves[k]);
        }
    }
}

/// From `cells`, the observer was shown each of `moves` in turn before it
/// was placed: `boards` are the boards it was shown and `states` its
/// successive states, from `first`. Each state let its move through and
/// carried over to the next what the observer keeps.
pub open spec fn observed_moves<O: GameObserver>(
    first: O,
    states: Seq<O>,
    boards: Seq<Board>,
    cells: Seq<Stone>,
    moves: Seq<PositionId>,
) -> bool {
    &&& states.len() == moves.len() + 1
    &&& boards.len() == moves.len()
    &&& states[0] == first
    &&& forall|k: int|
        0 <= k < moves.len() ==> {
            &&& (#[trigger] boards[k]).wf()
            &&& boards[k]@ == replay(cells, moves.take(k))
            &&& !states[k].stops(to_move(boards[k]@), moves[k], &boards[k])
            &&& states[k].keeps(&states[k + 1])
        }
}

/// The observer, in `state`, stopped the game on `board` at the next move.
pub open spec fn stopped_on<O: GameObserver>(state: O, board: Board) -> bool {
    exists|p: PositionId|
        p.valid() && board@[p.idx()] == Stone::Empty && #[trigger] state.stops(to_move(board@), p, &board)
}

/// From `cells`, an opening of at most `count` random legal moves, then
/// `moves` shown in turn to the observer (from state `first`) before each
/// was placed, lead to `after`; the game ended with the observer in
/// `last` unless the observer stopped it, which it did when `finished` is
/// `None`.
pub open spec fn watched_game<O: GameObserver>(
    first: O,
    cells: Seq<Stone>,
    count: nat,
    opening: Seq<PositionId>,
    moves: Seq<PositionId>,
    states: Seq<O>,
    boards: Seq<Board>,
    after: Board,
    last: O,
    finished: Option<Outcome>,
) -> bool {
    let opened = replay(cells, opening);
    &&& opened_with(cells, count, opening, opened)
    &&& observed_moves(first, states, boards, opened, moves)
    &&& replay(opened, moves) == after@
    &&& finished is Some ==> states.last() == last
    &&& finished is None ==> stopped_on(states.last(), after)
}

/// `after` is `cells` after an opening of at most `count` legal moves,
/// cut short only by the end of the game.
pub open spec fn opened_with(cells: Seq<Stone>, count: nat, opening: Seq<PositionId>, after: Seq<Stone>) -> bool {
    &&& opening.len() <= count
    &&& opening.len() < count ==> outcome_of(after).is_some()
    &&& legal_moves(cells, opening)
    &&& replay(cells, opening) == after
}

/// From `cells`, an opening of at most `count` random legal moves and then
/// `moves` chosen by the two strategies in turn lead to `after`.
pub open spec fn game_played<B: Strategy, W: Strategy>(
    black: &B,
    white: &W,
    cells: Seq<Stone>,
    count: nat,
    opening: Seq<PositionId>,
    moves: Seq<PositionId>,
    after: Seq<Stone>,
) -> bool {
    let opened = replay(cells, opening);
    &&& opened_with(cells, count, opening, opened)
    &&& legal_moves(opened, moves)
    &&& chosen_by(black, white, opened, moves)
    &&& replay(opened, moves) == after
}

/// Plays a game starting from `board`, calling `observer` after each move is
/// chosen but before it is placed. Returns `None` if the observer breaks
/// early; on return `board` holds the final position either way.
pub fn run_from<B: Strategy, W: Strategy, O: GameObserver>(
    board: &mut Board,
    black_strategy: &B,
    white_strategy: &W,
    observer: &mut O,
    rng: &mut fastrand::Rng,
) -> (result: Option<Outcome>)
    requires
        old(board).wf(),
    ensures
        final(board).wf(),
        extends(old(board)@, final(board)@),
        result == outcome_of(final(board)@),
        old(observer).never_stops() ==> result is Some,
        exists|moves: Seq<PositionId>|
            legal_moves(old(board)@, moves) && chosen_by(black_strategy, white_strategy, old(board)@, moves)
                && #[trigger] replay(old(board)@, moves) == final(board)@,
        exists|moves: Seq<PositionId>, states: Seq<O>, boards: Seq<Board>|
            {
                &&& #[trigger] observed_moves(*old(observer), states, boards, old(board)@, moves)
                &&& replay(old(board)@, moves) == final(board)@
                &&& result is Some ==> states.last() == *final(observer)
                &&& result is None ==> stopped_on(states.last(), *final(board))
            },
{
    proof {
        board.lemma_wf();
    }
    let ghost mut moves: Seq<PositionId> = Seq::empty();
    let ghost mut states: Seq<O> = seq![*observer];
    let ghost mut boards: Seq<Board> = Seq::empty();
    proof {
        assert(replay(old(board)@, moves) == old(board)@);
    }
    loop
        invariant
            board.wf(),
            extends(old(board)@, board@),
            old(observer).never_stops() ==> observer.never_stops(),
            legal_moves(old(board)@, moves),
            chosen_by(black_strategy, white_strategy, old(board)@, moves),
            replay(old(board)@, moves) == board@,
            observed_moves(*old(observer), states, boards, old(board)@, moves),
            states.last() == *observer,
        ensures
            board.wf(),
            extends(old(board)@, board@),
            outcome_of(board@).is_some(),
            legal_moves(old(board)@, moves),
            chosen_by(black_strategy, white_strategy, old(board)@, moves),
            replay(old(board)@, moves) == board@,
            observed_moves(*old(observer), states, boards, old(board)@, moves),
            states.last() == *observer,
        decreases 225 - board.spec_move_count(),
    {
        proof {
            board.lemma_wf();
        }
        if board.is_finished() {
            break;
        }
        let stone = board.stone_to_move();
        let position = if stone == Stone::Black {
            black_strategy.choose_move(stone, board, rng)
        } else {
            white_strategy.choose_move(stone, board, rng)
        };
        let ghost watcher = *observer;
        let ghost shown = *board;
        if let core::ops::ControlFlow::Break(()) = observer.on_move(stone, position, board) {
            proof {
                assert(watcher.stops(to_move(board@), position, board));
                assert(stopped_on(states.last(), *board));
                assert(observed_moves(*old(observer), states, boards, old(board)@, moves));
            }
            return None;
        }
        let ghost before = board@;
        let placed = board.place(position, stone);
        proof {
            assert(placed.is_ok());
            board.lemma_wf();
            lemma_push_legal(old(board)@, moves, position);
            lemma_push_chosen(black_strategy, white_strategy, old(board)@, moves, position);
            lemma_push_observed(*old(observer), states, boards, old(board)@, moves, position, shown, *observer);
            moves = moves.push(position);
            states = states.push(*observer);
            boards = boards.push(shown);
        }
    }
    board.outcome()
}

/// Plays a game starting from `board` until it is decided.
pub fn play_to_end<B: Strategy, W: Strategy>(
    board: &mut Board,
    black_strategy: &B,
    white_strategy: &W,
    rng: &mut fastrand::Rng,
) -> (result: Outcome)
    requires
        old(board).wf(),
    ensures
        final(board).wf(),
        extends(old(board)@, final(board)@),
        outcome_of(final(board)@) == Some(result),
{
    loop
        invariant
            board.wf(),
            extends(old(board)@, board@),
        ensures
            board.wf(),
            extends(old(board)@, board@),
            outcome_of(board@).is_some(),
        decreases 225 - board.spec_move_count(),
    {
        proof {
            board.lemma_wf();
        }
        if board.is_finished() {
            break;
        }
        let stone = board.stone_to_move();
        let position = if stone == Stone::Black {
            black_strategy.choose_move(stone, board, rng)
        } else {
            white_strategy.choose_move(stone, board, rng)
        };
        let placed = board.place(position, stone);
        proof {
            assert(placed.is_ok());
            board.lemma_wf();
        }
    }
    match board.outcome() {
        Some(outcome) => outcome,
        None => Outcome::Draw,
    }
}

/// The empty cell that `drawn` picks among the `empty` cells of `board`,
/// listed in reading order: the one with exactly `drawn` empty cells before
/// it.
pub fn drawn_empty_cell(board: &Board, empty: &Vec<PositionId>, drawn: usize) -> (result: PositionId)
    requires
        board.wf(),
        drawn < empty@.len(),
        forall|i: int| 0 <= i < empty@.len() ==> board.at(#[trigger] empty@[i]) == Stone::Empty,
        forall|p: PositionId| p.valid() && board.at(p) == Stone::Empty ==> #[trigger] empty@.contains(p),
        forall|i: int| 0 <= i < empty@.len() ==> (#[trigger] empty@[i]).valid(),
        forall|i: int, j: int|
            0 <= i < j < empty@.len() ==> (#[trigger] empty@[i]).idx() < (#[trigger] empty@[j]).idx(),
    ensures
        result.valid(),
        board@[result.idx()] == Stone::Empty,
        crate::board::empties_before(board@, result.idx() as int) == drawn,
        empty@.len() == crate::board::empties_before(board@, 225),
{
    proof {
        board.lemma_wf();
        assert forall|i: int| 0 <= i < empty@.len() implies (#[trigger] empty@[i]).valid() && board@[empty@[i].idx()]
            == Stone::Empty by {
            assert(board.at(empty@[i]) == Stone::Empty);
        }
        crate::board::lemma_kth_empty(board@, empty@, drawn as int);
    }
    empty[drawn]
}

/// Places `moves` stones on random empty cells, alternating colours from
/// the side to move, stopping early if the game ends.
pub fn place_opening(board: &mut Board, moves: u32, rng: &mut fastrand::Rng)
    requires
        old(board).wf(),
    ensures
        final(board).wf(),
        extends(old(board)@, final(board)@),
        final(board).spec_move_count() <= old(board).spec_move_count() + moves,
        outcome_of(final(board)@).is_none() ==> final(board).spec_move_count() == old(board).spec_move_count()
            + moves,
        exists|opening: Seq<PositionId>| #[trigger] opened_with(old(board)@, moves as nat, opening, final(board)@),
{
    let mut placed: u32 = 0;
    let ghost mut opening: Seq<PositionId> = Seq::empty();
    proof {
        assert(replay(old(board)@, opening) == old(board)@);
    }
    while placed < moves
        invariant
            placed <= moves,
            board.wf(),
            extends(old(board)@, board@),
            board.spec_move_count() == old(board).spec_move_count() + placed,
            opening.len() == placed,
            legal_moves(old(board)@, opening),
            replay(old(board)@, opening) == board@,
        ensures
            board.wf(),
            extends(old(board)@, board@),
            board.spec_move_count() <= old(board).spec_move_count() + moves,
            outcome_of(board@).is_none() ==> board.spec_move_count() == old(board).spec_move_count() + moves,
            opened_with(old(board)@, moves as nat, opening, board@),
        decreases moves - placed,
    {
        if board.is_finished() {
            break;
        }
        let empty = board.empty_position_ids();
        proof {
            board.lemma_wf();
            crate::board::lemma_stone_count_full(board@);
            let i = choose|i: int| 0 <= i < board@.len() && board@[i] == Stone::Empty;
            crate::position_id::lemma_index_has_cell(i);
            let p = choose|p: PositionId| p.valid() && #[trigger] p.idx() == i;
            assert(empty@.contains(p));
        }
        let drawn = rng_below(rng, empty.len());
        let position = drawn_empty_cell(board, &empty, drawn);
        let stone = board.stone_to_move();
        let result = board.place(position, stone);
        assert(result.is_ok());
        proof {
            lemma_push_legal(old(board)@, opening, position);
            opening = opening.push(position);
        }
        placed = placed + 1;
    }
}

/// A game that plays nothing: every call ends before the first move.
#[derive(Debug, Clone, Copy, Default)]
pub struct Stub;

/// A game whose outcomes are written down in advance, by the labels of the
/// two strategies: `Some(label)` means that strategy wins, `None` a draw.
#[derive(Debug, Clone, Default)]
pub struct Scripted {
    outcomes: Vec<(String, String, Option<String>)>,
}

impl Scripted {
    /// The outcomes written down so far, in order.
    pub closed spec fn entries(&self) -> Seq<(Seq<char>, Seq<char>, Option<Seq<char>>)> {
        self.outcomes@.map_values(
            |e: (String, String, Option<String>)|
                (
                    e.0@,
                    e.1@,
                    match e.2 {
                        Some(w) => Some(w@),
                        None => None,
                    },
                ),
        )
    }

    pub fn new() -> (result: Self)
        ensures
            result.entries() == Seq::<(Seq<char>, Seq<char>, Option<Seq<char>>)>::empty(),
    {
        let result = Scripted { outcomes: Vec::new() };
        assert(result.entries() =~= Seq::<(Seq<char>, Seq<char>, Option<Seq<char>>)>::empty());
        result
    }

    /// Adds a game outcome; a later outcome for the same two labels, in
    /// either order, replaces an earlier one.
    pub fn add(self, label1: &str, label2: &str, winner: Option<&str>) -> (result: Self)
        ensures
            result.entries() == self.entries().push(
                (
                    label1@,
                    label2@,
                    match winner {
                        Some(w) => Some(w@),
                        None => None,
                    },
                ),
            ),
    {
        let mut outcomes = self.outcomes;
        let winner = match winner {
            Some(w) => Some(w.to_owned()),
            None => None,
        };
        let ghost before = outcomes@;
        outcomes.push((label1.to_owned(), label2.to_owned(), winner));
        let result = Scripted { outcomes };
        proof {
            assert(result.entries() =~= self.entries().push(
                (
                    label1@,
                    label2@,
                    match winner {
                        Some(w) => Some(w@),
                        None => None,
                    },
                ),
            ));
        }
        result
    }

    /// The outcome written down for a game between these labels, the latest
    /// entry first; `None` when there is none or the winner names neither.
    pub fn outcome_for(&self, black_label: &str, white_label: &str) -> (result: Option<Outcome>)
        ensures
            result == scripted_outcome(self.entries(), black_label@, white_label@),
    {
        let black = black_label.to_owned();
        let white = white_label.to_owned();
        let ghost entries = self.entries();
        let mut i = self.outcomes.len();
        proof {
            assert(entries.subrange(0, i as int) == entries);
        }
        while i > 0
            invariant
                i <= self.outcomes@.len(),
                entries == self.entries(),
                black@ == black_label@,
                white@ == white_label@,
                scripted_outcome(entries, black@, white@) == scripted_outcome(
                    entries.subrange(0, i as int),
                    black@,
                    white@,
                ),
            decreases i,
        {
            i = i - 1;
            let ghost prefix = entries.subrange(0, i + 1);
            proof {
                assert(prefix.drop_last() == entries.subrange(0, i as int));
                assert(prefix.last() == entries[i as int]);
            }
            let entry = &self.outcomes[i];
            let same = (entry.0 == black && entry.1 == white) || (entry.0 == white && entry.1 == black);
            if same {
                return match &entry.2 {
                    None => Some(Outcome::Draw),
                    Some(label) => {
                        if *label == black {
                            Some(Outcome::BlackWins)
                        } else if *label == white {
                            Some(Outcome::WhiteWins)
                        } else {
                            None
                        }
                    },
                };
            }
        }
        None
    }
}

/// The outcome `entries` hold for a game between `black` and `white`: the
/// latest entry for the two labels, in either order, decides; a winner that
/// is neither label gives nothing.
pub open spec fn scripted_outcome(
    entries: Seq<(Seq<char>, Seq<char>, Option<Seq<char>>)>,
    black: Seq<char>,
    white: Seq<char>,
) -> Option<Outcome>
    decreases entries.len(),
{
    if entries.len() == 0 {
        None
    } else {
        let entry = entries.last();
        if (entry.0 == black && entry.1 == white) || (entry.0 == white && entry.1 == black) {
            match entry.2 {
                None => Some(Outcome::Draw),
                Some(winner) => if winner == black {
                    Some(Outcome::BlackWins)
                } else if winner == white {
                    Some(Outcome::WhiteWins)
                } else {
                    None
                },
            }
        } else {
            scripted_outcome(entries.drop_last(), black, white)
        }
    }
}

/// The games strategies can play.
#[derive(Debug, Clone)]
pub enum Game {
    /// Five or more in a row wins, after an optional random opening.
    Freestyle(Freestyle),
    /// Freestyle after a random opening of a given length.
    RandomOpening(RandomOpening),
    /// Ends before the first move.
    Stub(Stub),
    /// Outcomes written down in advance.
    Scripted(Scripted),
}

impl From<Freestyle> for Game {
    fn from(game: Freestyle) -> (result: Self) {
        Game::Freestyle(game)
    }
}

impl vstd::std_specs::convert::FromSpecImpl<Freestyle> for Game {
    open spec fn obeys_from_spec() -> bool {
        true
    }

    open spec fn from_spec(game: Freestyle) -> Self {
        Game::Freestyle(game)
    }
}

impl Game {
    /// Freestyle from an empty board.
    pub fn new() -> (result: Self)
        ensures
            result == Game::Freestyle(Freestyle { opening_moves: 0 }),
    {
        Game::Freestyle(Freestyle { opening_moves: 0 })
    }

    /// Plays a game starting from `board`; `None` when the observer stopped
    /// it early, a stub game was played, or a scripted game has no outcome
    /// for the pair.
    pub fn play_from<B: Strategy, W: Strategy, O: GameObserver>(
        &self,
        board: &mut Board,
        black_strategy: &B,
        white_strategy: &W,
        observer: &mut O,
        rng: &mut fastrand::Rng,
    ) -> (result: Option<Outcome>)
        requires
            old(board).wf(),
        ensures
            final(board).wf(),
            extends(old(board)@, final(board)@),
            match *self {
                Game::Freestyle(game) => {
                    &&& result == outcome_of(final(board)@)
                    &&& old(observer).never_stops() ==> result is Some
                    &&& exists|opening: Seq<PositionId>, moves: Seq<PositionId>|
                        #[trigger] game_played(
                            black_strategy,
                            white_strategy,
                            old(board)@,
                            game.opening_moves as nat,
                            opening,
                            moves,
                            final(board)@,
                        )
                    &&& exists|opening: Seq<PositionId>, moves: Seq<PositionId>, states: Seq<O>, boards: Seq<Board>|
                        #[trigger] watched_game(
                            *old(observer),
                            old(board)@,
                            game.opening_moves as nat,
                            opening,
                            moves,
                            states,
                            boards,
                            *final(board),
                            *final(observer),
                            result,
                        )
                },
                Game::RandomOpening(game) => {
                    &&& result == outcome_of(final(board)@)
                    &&& old(observer).never_stops() ==> result is Some
                    &&& exists|opening: Seq<PositionId>, moves: Seq<PositionId>|
                        #[trigger] game_played(
                            black_strategy,
                            white_strategy,
                            old(board)@,
                            game.moves as nat,
                            opening,
                            moves,
                            final(board)@,
                        )
                    &&& exists|opening: Seq<PositionId>, moves: Seq<PositionId>, states: Seq<O>, boards: Seq<Board>|
                        #[trigger] watched_game(
                            *old(observer),
                            old(board)@,
                            game.moves as nat,
                            opening,
                            moves,
                            states,
                            boards,
                            *final(board),
                            *final(observer),
                            result,
                        )
                },
                Game::Stub(_) => result is None && final(board)@ == old(board)@,
                Game::Scripted(script) => {
                    &&& final(board)@ == old(board)@
                    &&& exists|black_label: Seq<char>, white_label: Seq<char>|
                        black_strategy.names(black_label) && white_strategy.names(white_label) && result
                            == #[trigger] scripted_outcome(script.entries(), black_label, white_label)
                },
            },
    {
        match self {
            Game::Freestyle(game) => game.play_from(board, black_strategy, white_strategy, observer, rng),
            Game::RandomOpening(game) => game.play_from(board, black_strategy, white_strategy, observer, rng),
            Game::Stub(_) => None,
            Game::Scripted(script) => script.outcome_for(black_strategy.label(), white_strategy.label()),
        }
    }

    /// Plays a whole game from an empty board, both strategies' caches kept
    /// up to date, and reports it.
    pub fn run<B: Strategy, W: Strategy>(
        &self,
        black_strategy: &B,
        white_strategy: &W,
        rng: &mut fastrand::Rng,
    ) -> (result: MatchResult)
        ensures
            exists|cells: Seq<Stone>|
                outcome_of(cells) == Some(result.spec_outcome()) && result.spec_board_state()
                    == crate::board::board_text(cells, 225) && stone_count(cells) == result.spec_turn_count(),
            black_strategy.names(result.spec_black_label()),
            white_strategy.names(result.spec_white_label()),
            exists|moves: Seq<PositionId>|
                {
                    let cells = #[trigger] replay(empty_board(), moves);
                    &&& legal_moves(empty_board(), moves)
                    &&& chosen_by(black_strategy, white_strategy, empty_board(), moves)
                    &&& outcome_of(cells) == Some(result.spec_outcome())
                    &&& result.spec_board_state() == crate::board::board_text(cells, 225)
                    &&& result.spec_turn_count() == moves.len()
                },
    {
        let mut state = crate::game_state::GameState::new();
        state.activate_for(black_strategy);
        state.activate_for(white_strategy);
        let mut turn_count: usize = 0;
        let ghost empty = empty_board();
        let ghost mut moves: Seq<PositionId> = Seq::empty();
        proof {
            crate::board::lemma_empty_count(225);
            assert(replay(empty, moves) == state.cells());
        }
        loop
            invariant
                state.wf(),
                turn_count <= 225,
                stone_count(state.cells()) == turn_count,
                empty == empty_board(),
                moves.len() == turn_count,
                legal_moves(empty, moves),
                chosen_by(black_strategy, white_strategy, empty, moves),
                replay(empty, moves) == state.cells(),
            ensures
                state.wf(),
                outcome_of(state.cells()).is_some(),
                turn_count <= 225,
                moves.len() == turn_count,
                legal_moves(empty, moves),
                chosen_by(black_strategy, white_strategy, empty, moves),
                replay(empty, moves) == state.cells(),
            decreases 225 - turn_count,
        {
            if state.is_finished() {
                break;
            }
            let stone = if turn_count % 2 == 0 {
                Stone::Black
            } else {
                Stone::White
            };
            let position = if stone == Stone::Black {
                black_strategy.choose_move(stone, state.board(), rng)
            } else {
                white_strategy.choose_move(stone, state.board(), rng)
            };
            proof {
                state.lemma_cells();
                crate::board::lemma_stone_count_update(state.cells(), position.idx(), stone);
                crate::board::lemma_stone_count_full(state.cells().update(position.idx(), stone));
            }
            let placed = state.place(position, stone);
            assert(placed.is_ok());
            proof {
                lemma_push_legal(empty, moves, position);
                lemma_push_chosen(black_strategy, white_strategy, empty, moves, position);
                moves = moves.push(position);
            }
            turn_count = turn_count + 1;
        }
        let outcome = match state.outcome() {
            Some(o) => o,
            None => Outcome::Draw,
        };
        let board_text = state.to_string();
        let ghost cells = state.cells();
        MatchResult::new(
            outcome,
            black_strategy.label().to_owned(),
            white_strategy.label().to_owned(),
            turn_count,
            board_text,
        )
    }
}

} // verus!
