//! A board together with the caches that follow it.

use vstd::prelude::*;

use crate::board::{outcome_of, all_occupied, board_text, Board, PlaceError};
use crate::cache_repository::{CacheKind, CacheRepository};
use crate::outcome::Outcome;
use crate::position_id::PositionId;
use crate::stone::Stone;
use crate::strategy::Strategy;

verus! {

/// Combined board and cache state for a Gomoku game.
///
/// Ensures board and cache stay synchronized: every placement
/// atomically updates both.
pub struct GameState {
    board: Board,
    cache_repo: CacheRepository,
}

impl GameState {
    /// The board is well formed and every cache follows its stones.
    pub closed spec fn wf(&self) -> bool {
        &&& self.board.wf()
        &&& self.cache_repo.wf()
        &&& self.cache_repo.spec_cells() == self.board@
    }

    /// The stones on the board.
    pub closed spec fn cells(&self) -> Seq<Stone> {
        self.board@
    }

    /// The kinds of the caches kept up to date, in the order they were
    /// activated.
    pub closed spec fn active_caches(&self) -> Seq<CacheKind> {
        self.cache_repo.kinds()
    }

    /// A well-formed state has a cell for every position.
    pub proof fn lemma_cells(&self)
        requires
            self.wf(),
        ensures
            self.cells().len() == 225,
    {
        self.board.lemma_wf();
    }

    pub fn new() -> (result: Self)
        ensures
            result.wf(),
            result.cells() == Seq::new(225, |i: int| Stone::Empty),
            result.active_caches() == Seq::<CacheKind>::empty(),
    {
        let board = Board::new();
        let cache_repo = CacheRepository::new();
        GameState { board, cache_repo }
    }

    /// Activates all cache dependencies required by the given strategy:
    /// the caches it lists are kept from now on, besides those kept already.
    pub fn activate_for<S: Strategy>(&mut self, strategy: &S)
        requires
            old(self).wf(),
        ensures
            final(self).wf(),
            final(self).cells() == old(self).cells(),
            exists|kinds: Seq<CacheKind>|
                strategy.reads(kinds) && #[trigger] caches_after_activating(
                    old(self).active_caches(),
                    kinds,
                    final(self).active_caches(),
                ),
    {
        let dependencies = strategy.cache_dependencies();
        self.activate_caches(&dependencies);
    }

    /// Starts keeping each cache of `kinds`; those kept already stay.
    pub fn activate_caches(&mut self, kinds: &Vec<CacheKind>)
        requires
            old(self).wf(),
        ensures
            final(self).wf(),
            final(self).cells() == old(self).cells(),
            caches_after_activating(old(self).active_caches(), kinds@, final(self).active_caches()),
    {
        let mut i: usize = 0;
        while i < kinds.len()
            invariant
                i <= kinds@.len(),
                self.wf(),
                self.cells() == old(self).cells(),
                forall|kind: CacheKind|
                    #[trigger] self.active_caches().contains(kind) <==> old(self).active_caches().contains(kind)
                        || kinds@.subrange(0, i as int).contains(kind),
            decreases kinds@.len() - i,
        {
            let ghost before = self.active_caches();
            self.cache_repo.activate(kinds[i], &self.board);
            proof {
                let next = kinds@.subrange(0, i + 1);
                assert(next == kinds@.subrange(0, i as int).push(kinds@[i as int]));
                assert forall|kind: CacheKind| #[trigger] self.active_caches().contains(kind) <==> old(self).active_caches().contains(kind)
                    || next.contains(kind) by {
                    if next.contains(kind) && kind != kinds@[i as int] {
                        let j = choose|j: int| 0 <= j < next.len() && next[j] == kind;
                        assert(kinds@.subrange(0, i as int)[j] == kind);
                    }
                    if kinds@.subrange(0, i as int).contains(kind) {
                        let j = choose|j: int| 0 <= j < i && kinds@.subrange(0, i as int)[j] == kind;
                        assert(next[j] == kind);
                    }
                    if kind == kinds@[i as int] {
                        assert(next[i as int] == kind);
                    }
                    lemma_push_contains(before, kinds@[i as int], kind);
                }
            }
            i = i + 1;
        }
        assert(kinds@.subrange(0, i as int) == kinds@);
    }

    /// Places a stone, updating both the board and cache atomically.
    pub fn place(&mut self, position_id: PositionId, stone: Stone) -> (result: Result<(), PlaceError>)
        requires
            old(self).wf(),
        ensures
            final(self).wf(),
            match result {
                Ok(()) => final(self).cells() == old(self).cells().update(position_id.idx(), stone),
                Err(e) => final(self).cells() == old(self).cells(),
            },
            result == (if stone == Stone::Empty {
                Err::<(), PlaceError>(PlaceError::NoStone)
            } else if old(self).cells()[position_id.idx()] != Stone::Empty {
                Err(PlaceError::Occupied)
            } else if outcome_of(old(self).cells()).is_some() {
                Err(PlaceError::GameOver)
            } else {
                Ok(())
            }),
    {
        position_id.check_valid();
        let placed = self.board.place(position_id, stone);
        match placed {
            Ok(()) => {
                self.cache_repo.place(position_id, stone);
                Ok(())
            },
            Err(e) => Err(e),
        }
    }

    pub fn board(&self) -> (result: &Board)
        requires
            self.wf(),
        ensures
            result.wf(),
            result@ == self.cells(),
    {
        &self.board
    }

    pub fn cache(&self) -> (result: &CacheRepository)
        requires
            self.wf(),
        ensures
            result.wf(),
            result.spec_cells() == self.cells(),
    {
        &self.cache_repo
    }

    pub fn stone(&self, position_id: PositionId) -> (result: Stone)
        requires
            self.wf(),
        ensures
            result == self.cells()[position_id.idx()],
    {
        self.board.stone_at(position_id)
    }

    /// The empty cells, in row-major order.
    pub fn empty_position_ids(&self) -> (result: Vec<PositionId>)
        requires
            self.wf(),
        ensures
            forall|i: int| 0 <= i < result@.len() ==> self.cells()[(#[trigger] result@[i]).idx()] == Stone::Empty,
            forall|p: PositionId| p.valid() && self.cells()[p.idx()] == Stone::Empty ==> #[trigger] result@.contains(p),
            forall|i: int, j: int|
                0 <= i < j < result@.len() ==> (#[trigger] result@[i]).idx() < (#[trigger] result@[j]).idx(),
    {
        self.board.empty_position_ids()
    }

    pub fn is_finished(&self) -> (result: bool)
        requires
            self.wf(),
        ensures
            result == outcome_of(self.cells()).is_some(),
    {
        self.board.is_finished()
    }

    pub fn outcome(&self) -> (result: Option<Outcome>)
        requires
            self.wf(),
        ensures
            result == outcome_of(self.cells()),
    {
        self.board.outcome()
    }

    pub fn is_full(&self) -> (result: bool)
        requires
            self.wf(),
        ensures
            result == all_occupied(self.cells()),
    {
        self.board.is_full()
    }

    /// The board as text.
    pub fn to_string(&self) -> (result: String)
        requires
            self.wf(),
        ensures
            result@ == board_text(self.cells(), 225),
    {
        self.board.to_string()
    }
}

/// `after` keeps a cache of every kind that `before` or `kinds` holds, and
/// of no other.
pub open spec fn caches_after_activating(before: Seq<CacheKind>, kinds: Seq<CacheKind>, after: Seq<CacheKind>) -> bool {
    forall|kind: CacheKind| #[trigger] after.contains(kind) <==> before.contains(kind) || kinds.contains(kind)
}

/// What a sequence holds after `x` is pushed onto it unless it holds `x`
/// already.
proof fn lemma_push_contains(before: Seq<CacheKind>, x: CacheKind, kind: CacheKind)
    ensures
        (if before.contains(x) {
            before
        } else {
            before.push(x)
        }).contains(kind) <==> before.contains(kind) || kind == x,
{
    if !before.contains(x) {
        let after = before.push(x);
        if before.contains(kind) {
            let j = choose|j: int| 0 <= j < before.len() && before[j] == kind;
            assert(after[j] == kind);
        }
        if kind == x {
            assert(after[before.len() as int] == kind);
        }
        if after.contains(kind) && kind != x {
            let j = choose|j: int| 0 <= j < after.len() && after[j] == kind;
            assert(before[j] == kind);
        }
    }
}

impl Default for GameState {
    fn default() -> (result: Self)
        ensures
            result.wf(),
            result.cells() == Seq::new(225, |i: int| Stone::Empty),
    {
        Self::new()
    }
}

} // verus!
