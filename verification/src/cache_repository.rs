//! The neighbour-count caches a game keeps for its strategies.

use vstd::prelude::*;

use crate::board::Board;
use crate::neighbor_cache::NeighborCache;
use crate::neighbor_counts_cache::NeighborCountsCache;
use crate::position_id::PositionId;
use crate::stone::Stone;

verus! {

/// A neighbour-count cache a strategy can ask for, by the kind of step
/// between neighbours.
#[derive(Debug, Clone, Copy, PartialEq, Eq, Hash, Structural)]
pub enum CacheKind {
    /// One cell up, down, left or right.
    Nn1,
    /// One cell diagonally.
    Nn2,
    /// Two cells up, down, left or right.
    Nn3,
    /// A knight's move.
    Nn4,
}

/// The caches that have been asked for, each following the same stones.
pub struct CacheRepository {
    caches: Vec<(CacheKind, NeighborCountsCache)>,
    cells: Ghost<Seq<Stone>>,
}

impl CacheRepository {
    /// The stones every cache follows.
    pub closed spec fn spec_cells(&self) -> Seq<Stone> {
        self.cells@
    }

    /// The kinds of the active caches, in the order they were activated.
    pub closed spec fn kinds(&self) -> Seq<CacheKind> {
        self.caches@.map_values(|entry: (CacheKind, NeighborCountsCache)| entry.0)
    }

    /// Every cache is well formed and follows the repository's stones.
    pub closed spec fn wf(&self) -> bool {
        &&& self.cells@.len() == 225
        &&& forall|i: int|
            0 <= i < self.caches@.len() ==> (#[trigger] self.caches@[i]).1.wf() && self.caches@[i].1.spec_cells()
                == self.cells@
        &&& forall|i: int, j: int|
            0 <= i < j < self.caches@.len() ==> (#[trigger] self.caches@[i]).0 != (#[trigger] self.caches@[j]).0
    }

    /// No cache yet, on an empty board.
    pub fn new() -> (result: Self)
        ensures
            result.wf(),
            result.spec_cells() == Seq::new(225, |i: int| Stone::Empty),
            result.kinds() == Seq::<CacheKind>::empty(),
    {
        let result = CacheRepository { caches: Vec::new(), cells: Ghost(Seq::new(225, |i: int| Stone::Empty)) };
        assert(result.kinds() =~= Seq::<CacheKind>::empty());
        result
    }

    /// Whether a cache of `kind` is active.
    pub fn is_active(&self, kind: CacheKind) -> (result: bool)
        ensures
            result == self.kinds().contains(kind),
    {
        let mut i: usize = 0;
        while i < self.caches.len()
            invariant
                i <= self.caches@.len(),
                forall|j: int| 0 <= j < i ==> #[trigger] self.caches@[j].0 != kind,
            decreases self.caches@.len() - i,
        {
            if self.caches[i].0 == kind {
                proof {
                    assert(self.kinds()[i as int] == kind);
                }
                return true;
            }
            i = i + 1;
        }
        proof {
            if self.kinds().contains(kind) {
                let j = choose|j: int| 0 <= j < self.kinds().len() && self.kinds()[j] == kind;
                assert(self.caches@[j].0 == kind);
            }
        }
        false
    }

    /// The active cache of `kind`, if there is one.
    pub fn counts(&self, kind: CacheKind) -> (result: Option<&NeighborCountsCache>)
        requires
            self.wf(),
        ensures
            result.is_some() == self.kinds().contains(kind),
            result matches Some(cache) ==> cache.wf() && cache.spec_cells() == self.spec_cells(),
    {
        let mut i: usize = 0;
        while i < self.caches.len()
            invariant
                i <= self.caches@.len(),
                self.wf(),
                forall|j: int| 0 <= j < i ==> #[trigger] self.caches@[j].0 != kind,
            decreases self.caches@.len() - i,
        {
            if self.caches[i].0 == kind {
                proof {
                    assert(self.kinds()[i as int] == kind);
                    assert(self.caches@[i as int].1.wf());
                }
                return Some(&self.caches[i].1);
            }
            i = i + 1;
        }
        proof {
            if self.kinds().contains(kind) {
                let j = choose|j: int| 0 <= j < self.kinds().len() && self.kinds()[j] == kind;
                assert(self.caches@[j].0 == kind);
            }
        }
        None
    }

    /// Starts keeping a cache of `kind`, counting the stones already on
    /// `board`; a cache that is already active stays as it is.
    pub fn activate(&mut self, kind: CacheKind, board: &Board)
        requires
            old(self).wf(),
            board.wf(),
            board@ == old(self).spec_cells(),
        ensures
            final(self).wf(),
            final(self).spec_cells() == old(self).spec_cells(),
            final(self).kinds() == if old(self).kinds().contains(kind) {
                old(self).kinds()
            } else {
                old(self).kinds().push(kind)
            },
    {
        if self.is_active(kind) {
            return;
        }
        let neighbors = match kind {
            CacheKind::Nn1 => NeighborCache::nn1(),
            CacheKind::Nn2 => NeighborCache::nn2(),
            CacheKind::Nn3 => NeighborCache::nn3(),
            CacheKind::Nn4 => NeighborCache::nn4(),
        };
        let mut cache = NeighborCountsCache::new(neighbors);
        proof {
            board.lemma_wf();
        }
        let mut index: usize = 0;
        while index < 225
            invariant
                index <= 225,
                board.wf(),
                board@.len() == 225,
                cache.wf(),
                cache.spec_cells() == Seq::new(
                    225,
                    |i: int| if i < index { board@[i] } else { Stone::Empty },
                ),
            decreases 225 - index,
        {
            let position = PositionId::from_index(index);
            let stone = board.stone_at(position);
            if stone != Stone::Empty {
                cache.place(position, stone);
            }
            proof {
                assert(cache.spec_cells() =~= Seq::new(
                    225,
                    |i: int| if i < index + 1 { board@[i] } else { Stone::Empty },
                ));
            }
            index = index + 1;
        }
        proof {
            assert(cache.spec_cells() =~= board@);
            assert forall|i: int, j: int| 0 <= i < j < self.caches@.len() + 1 implies
                (#[trigger] self.caches@.push((kind, cache))[i]).0 != (#[trigger] self.caches@.push((kind, cache))[j]).0 by {
                if j == self.caches@.len() {
                    assert(self.kinds()[i] == self.caches@[i].0);
                }
            }
        }
        let ghost before = self.caches@;
        self.caches.push((kind, cache));
        proof {
            assert(self.kinds() =~= old(self).kinds().push(kind));
            assert forall|i: int| 0 <= i < self.caches@.len() implies (#[trigger] self.caches@[i]).1.wf()
                && self.caches@[i].1.spec_cells() == self.cells@ by {
                if i < before.len() {
                    assert(self.caches@[i] == before[i]);
                }
            }
        }
    }

    /// Records `stone` on the empty cell `position_id` in every cache.
    pub fn place(&mut self, position_id: PositionId, stone: Stone)
        requires
            old(self).wf(),
            stone.is_colour(),
            old(self).spec_cells()[position_id.idx()] == Stone::Empty,
        ensures
            final(self).wf(),
            final(self).spec_cells() == old(self).spec_cells().update(position_id.idx(), stone),
            final(self).kinds() == old(self).kinds(),
    {
        position_id.check_valid();
        let ghost new_cells = self.cells@.update(position_id.idx(), stone);
        let mut caches: Vec<(CacheKind, NeighborCountsCache)> = Vec::new();
        let mut old_caches: Vec<(CacheKind, NeighborCountsCache)> = Vec::new();
        std::mem::swap(&mut old_caches, &mut self.caches);
        let ghost initial = old_caches@;
        while old_caches.len() > 0
            invariant
                old_caches@.len() + caches@.len() == initial.len(),
                forall|j: int| 0 <= j < old_caches@.len() ==> #[trigger] old_caches@[j] == initial[j],
                forall|j: int| 0 <= j < initial.len() ==> (#[trigger] initial[j]).1.wf() && initial[j].1.spec_cells()
                    == old(self).spec_cells(),
                forall|j: int|
                    0 <= j < caches@.len() ==> (#[trigger] caches@[j]).1.wf() && caches@[j].1.spec_cells() == new_cells
                        && caches@[j].0 == initial[initial.len() - 1 - j].0,
                stone.is_colour(),
                old(self).spec_cells()[position_id.idx()] == Stone::Empty,
                new_cells == old(self).spec_cells().update(position_id.idx(), stone),
            decreases old_caches@.len(),
        {
            let ghost last_index = old_caches@.len() - 1;
            let (kind, mut cache) = old_caches.pop().unwrap();
            proof {
                assert(kind == initial[last_index].0);
                assert(cache == initial[last_index].1);
            }
            cache.place(position_id, stone);
            caches.push((kind, cache));
        }
        let mut restored: Vec<(CacheKind, NeighborCountsCache)> = Vec::new();
        let ghost reversed = caches@;
        while caches.len() > 0
            invariant
                caches@.len() + restored@.len() == initial.len(),
                reversed.len() == initial.len(),
                forall|j: int| 0 <= j < caches@.len() ==> #[trigger] caches@[j] == reversed[j],
                forall|j: int|
                    0 <= j < initial.len() ==> (#[trigger] reversed[j]).1.wf() && reversed[j].1.spec_cells() == new_cells
                        && reversed[j].0 == initial[initial.len() - 1 - j].0,
                forall|j: int|
                    0 <= j < restored@.len() ==> (#[trigger] restored@[j]).1.wf() && restored@[j].1.spec_cells()
                        == new_cells && restored@[j].0 == initial[j].0,
            decreases caches@.len(),
        {
            let ghost k = caches@.len() - 1;
            let entry = caches.pop().unwrap();
            proof {
                assert(entry == reversed[k]);
            }
            restored.push(entry);
        }
        let ghost final_caches = restored@;
        self.caches = restored;
        self.cells = Ghost(new_cells);
        proof {
            assert(initial == old(self).caches@);
            assert(self.kinds() =~= old(self).kinds());
            assert forall|i: int| 0 <= i < self.caches@.len() implies (#[trigger] self.caches@[i]).1.wf()
                && self.caches@[i].1.spec_cells() == self.cells@ by {
                assert(final_caches[i].1.wf());
            }
            assert forall|i: int, j: int| 0 <= i < j < self.caches@.len() implies
                (#[trigger] self.caches@[i]).0 != (#[trigger] self.caches@[j]).0 by {
                assert(final_caches[i].0 == initial[i].0);
                assert(final_caches[j].0 == initial[j].0);
            }
        }
    }
}

} // verus!
