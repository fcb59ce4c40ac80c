//! How many own, opponent and empty neighbours every cell has, kept up to
//! date as stones are placed.

use vstd::prelude::*;

use crate::neighbor_cache::{is_neighbor, neighbors_are_mutual, NeighborCache, NeighborKind};
use crate::position_id::PositionId;
use crate::stone::Stone;

verus! {

/// What a cell's neighbours hold, from one side's point of view.
#[derive(Debug, Clone, Copy, PartialEq, Eq, Hash, Default, Structural)]
pub struct NeighborCounts {
    player: u8,
    opponent: u8,
    empty: u8,
}

impl NeighborCounts {
    pub closed spec fn spec_player(self) -> u8 {
        self.player
    }

    pub closed spec fn spec_opponent(self) -> u8 {
        self.opponent
    }

    pub closed spec fn spec_empty(self) -> u8 {
        self.empty
    }

    pub fn new(player: u8, opponent: u8, empty: u8) -> (result: Self)
        ensures
            result.spec_player() == player,
            result.spec_opponent() == opponent,
            result.spec_empty() == empty,
    {
        NeighborCounts { player, opponent, empty }
    }

    pub fn player(&self) -> (result: u8)
        ensures
            result == self.spec_player(),
    {
        self.player
    }

    pub fn opponent(&self) -> (result: u8)
        ensures
            result == self.spec_opponent(),
    {
        self.opponent
    }

    pub fn empty(&self) -> (result: u8)
        ensures
            result == self.spec_empty(),
    {
        self.empty
    }
}

/// How many of the cells listed in `neighbors` hold `stone`.
pub open spec fn count_in(cells: Seq<Stone>, neighbors: Seq<PositionId>, stone: Stone) -> nat
    decreases neighbors.len(),
{
    if neighbors.len() == 0 {
        0
    } else {
        count_in(cells, neighbors.drop_last(), stone) + if cells[neighbors.last().idx()] == stone {
            1nat
        } else {
            0nat
        }
    }
}

/// The counts of the cells in `neighbors` from `side`'s point of view.
pub closed spec fn counts_view(cells: Seq<Stone>, neighbors: Seq<PositionId>, side: Stone) -> NeighborCounts {
    NeighborCounts {
        player: count_in(cells, neighbors, side) as u8,
        opponent: count_in(cells, neighbors, side.spec_opponent()) as u8,
        empty: count_in(cells, neighbors, Stone::Empty) as u8,
    }
}

proof fn lemma_count_bound(cells: Seq<Stone>, neighbors: Seq<PositionId>, stone: Stone)
    ensures
        count_in(cells, neighbors, stone) <= neighbors.len(),
    decreases neighbors.len(),
{
    if neighbors.len() > 0 {
        lemma_count_bound(cells, neighbors.drop_last(), stone);
    }
}

/// Every neighbour holds a black stone, a white stone or nothing.
proof fn lemma_count_sum(cells: Seq<Stone>, neighbors: Seq<PositionId>)
    ensures
        count_in(cells, neighbors, Stone::Black) + count_in(cells, neighbors, Stone::White) + count_in(
            cells,
            neighbors,
            Stone::Empty,
        ) == neighbors.len(),
    decreases neighbors.len(),
{
    if neighbors.len() > 0 {
        lemma_count_sum(cells, neighbors.drop_last());
    }
}

proof fn lemma_count_all_empty(cells: Seq<Stone>, neighbors: Seq<PositionId>)
    requires
        forall|i: int| 0 <= i < cells.len() ==> #[trigger] cells[i] == Stone::Empty,
        forall|i: int| 0 <= i < neighbors.len() ==> 0 <= (#[trigger] neighbors[i]).idx() < cells.len(),
    ensures
        count_in(cells, neighbors, Stone::Empty) == neighbors.len(),
        count_in(cells, neighbors, Stone::Black) == 0,
        count_in(cells, neighbors, Stone::White) == 0,
    decreases neighbors.len(),
{
    if neighbors.len() > 0 {
        lemma_count_all_empty(cells, neighbors.drop_last());
        let _ = neighbors[neighbors.len() - 1];
    }
}

/// A cell found among the neighbours counts once; a cell not among them
/// does not count.
proof fn lemma_count_update(cells: Seq<Stone>, neighbors: Seq<PositionId>, p: PositionId, value: Stone, stone: Stone)
    requires
        p.valid(),
        cells.len() == 225,
        neighbors.no_duplicates(),
        forall|i: int| 0 <= i < neighbors.len() ==> (#[trigger] neighbors[i]).valid(),
    ensures
        count_in(cells.update(p.idx(), value), neighbors, stone) as int == count_in(cells, neighbors, stone) + if neighbors.contains(p) {
            (if value == stone { 1int } else { 0int }) - (if cells[p.idx()] == stone { 1int } else { 0int })
        } else {
            0int
        },
    decreases neighbors.len(),
{
    if neighbors.len() > 0 {
        let rest = neighbors.drop_last();
        let last = neighbors.last();
        assert(rest.no_duplicates());
        assert forall|i: int| 0 <= i < rest.len() implies (#[trigger] rest[i]).valid() by {
            assert(rest[i] == neighbors[i]);
        }
        lemma_count_update(cells, rest, p, value, stone);
        last.idx_determines(p);
        if last == p {
            assert(neighbors.contains(p));
            assert(!rest.contains(p)) by {
                if rest.contains(p) {
                    let k = choose|k: int| 0 <= k < rest.len() && rest[k] == p;
                    assert(neighbors[k] == neighbors[neighbors.len() - 1]);
                }
            }
        } else {
            assert(neighbors.contains(p) == rest.contains(p)) by {
                if neighbors.contains(p) {
                    let k = choose|k: int| 0 <= k < neighbors.len() && neighbors[k] == p;
                    assert(k < neighbors.len() - 1);
                    assert(rest[k] == p);
                }
                if rest.contains(p) {
                    let k = choose|k: int| 0 <= k < rest.len() && rest[k] == p;
                    assert(neighbors[k] == p);
                }
            }
        }
    }
}

/// A listed cell holding `stone` is counted.
proof fn lemma_count_positive(cells: Seq<Stone>, neighbors: Seq<PositionId>, p: PositionId, stone: Stone)
    requires
        p.valid(),
        cells.len() == 225,
        neighbors.no_duplicates(),
        forall|i: int| 0 <= i < neighbors.len() ==> (#[trigger] neighbors[i]).valid(),
        neighbors.contains(p),
        cells[p.idx()] == stone,
    ensures
        count_in(cells, neighbors, stone) >= 1,
{
    let other = if stone == Stone::Empty { Stone::Black } else { Stone::Empty };
    lemma_count_update(cells, neighbors, p, other, stone);
}

/// Tracks neighbor counts for each position, updated as stones are placed.
pub struct NeighborCountsCache {
    neighbor_cache: NeighborCache,
    black_counts: Vec<NeighborCounts>,
    white_counts: Vec<NeighborCounts>,
    cells: Ghost<Seq<Stone>>,
}

impl NeighborCountsCache {
    /// The stones placed so far.
    pub closed spec fn spec_cells(&self) -> Seq<Stone> {
        self.cells@
    }

    /// The neighbours of `p` the cache counts.
    pub closed spec fn neighbors(&self, p: PositionId) -> Seq<PositionId> {
        self.neighbor_cache.neighbors(p)
    }

    pub closed spec fn spec_kind(&self) -> NeighborKind {
        self.neighbor_cache.spec_kind()
    }

    /// Placing `stone` on the empty cell `p` adds one to that colour's count
    /// and takes one from the empty count of every cell `p` neighbours, and
    /// changes no other count.
    pub proof fn placing_counts_at_neighbors(&self, p: PositionId, q: PositionId, stone: Stone, counted: Stone)
        requires
            self.wf(),
            p.valid(),
            q.valid(),
            stone.is_colour(),
            self.spec_cells()[p.idx()] == Stone::Empty,
        ensures
            count_in(self.spec_cells().update(p.idx(), stone), self.neighbors(q), counted) as int == count_in(
                self.spec_cells(),
                self.neighbors(q),
                counted,
            ) + if self.neighbors(q).contains(p) {
                (if counted == stone {
                    1int
                } else {
                    0int
                }) - (if counted == Stone::Empty {
                    1int
                } else {
                    0int
                })
            } else {
                0int
            },
    {
        self.neighbor_cache.lemma_wf(q);
        let neighbors = self.neighbors(q);
        assert forall|i: int| 0 <= i < neighbors.len() implies (#[trigger] neighbors[i]).valid() by {
            assert(neighbors.contains(neighbors[i]));
        }
        lemma_count_update(self.spec_cells(), neighbors, p, stone, counted);
    }

    /// Every cell's counts are those of the stones placed around it.
    pub closed spec fn wf(&self) -> bool {
        &&& self.neighbor_cache.wf()
        &&& self.black_counts@.len() == 225
        &&& self.white_counts@.len() == 225
        &&& self.cells@.len() == 225
        &&& forall|p: PositionId|
            p.valid() ==> #[trigger] self.black_counts@[p.idx()] == counts_view(self.cells@, self.neighbor_cache.neighbors(p), Stone::Black)
        &&& forall|p: PositionId|
            p.valid() ==> #[trigger] self.white_counts@[p.idx()] == counts_view(self.cells@, self.neighbor_cache.neighbors(p), Stone::White)
    }

    /// Creates a new cache initialized with empty neighbor counts.
    pub fn new(neighbor_cache: NeighborCache) -> (result: Self)
        requires
            neighbor_cache.wf(),
        ensures
            result.wf(),
            result.spec_cells() == Seq::new(225, |i: int| Stone::Empty),
            result.spec_kind() == neighbor_cache.spec_kind(),
            forall|p: PositionId| #[trigger] result.neighbors(p) == neighbor_cache.neighbors(p),
    {
        let ghost cells = Seq::new(225, |i: int| Stone::Empty);
        let mut black_counts: Vec<NeighborCounts> = Vec::new();
        let mut white_counts: Vec<NeighborCounts> = Vec::new();
        let mut index: usize = 0;
        while index < 225
            invariant
                index <= 225,
                neighbor_cache.wf(),
                cells == Seq::new(225, |i: int| Stone::Empty),
                black_counts@.len() == index,
                white_counts@.len() == index,
                forall|p: PositionId|
                    p.valid() && p.idx() < index ==> #[trigger] black_counts@[p.idx()] == counts_view(cells, neighbor_cache.neighbors(p), Stone::Black),
                forall|p: PositionId|
                    p.valid() && p.idx() < index ==> #[trigger] white_counts@[p.idx()] == counts_view(cells, neighbor_cache.neighbors(p), Stone::White),
            decreases 225 - index,
        {
            let position = PositionId::from_index(index);
            let total = neighbor_cache.neighbors_for(position).len();
            proof {
                neighbor_cache.lemma_wf(position);
                let list = neighbor_cache.neighbors(position);
                assert forall|i: int| 0 <= i < list.len() implies 0 <= (#[trigger] list[i]).idx() < cells.len() by {
                    assert(list.contains(list[i]));
                }
                lemma_count_all_empty(cells, list);
            }
            black_counts.push(NeighborCounts::new(0, 0, total as u8));
            white_counts.push(NeighborCounts::new(0, 0, total as u8));
            proof {
                assert forall|p: PositionId| p.valid() && p.idx() < index + 1 implies #[trigger] black_counts@[p.idx()] == counts_view(cells, neighbor_cache.neighbors(p), Stone::Black) by {
                    if p.idx() == index {
                        p.idx_determines(position);
                    }
                }
                assert forall|p: PositionId| p.valid() && p.idx() < index + 1 implies #[trigger] white_counts@[p.idx()] == counts_view(cells, neighbor_cache.neighbors(p), Stone::White) by {
                    if p.idx() == index {
                        p.idx_determines(position);
                    }
                }
            }
            index = index + 1;
        }
        NeighborCountsCache { neighbor_cache, black_counts, white_counts, cells: Ghost(cells) }
    }

    /// Returns the neighbor counts for a position from the given stone's perspective.
    pub fn counts_for(&self, position_id: PositionId, current_stone: Stone) -> (result: NeighborCounts)
        requires
            self.wf(),
            current_stone.is_colour(),
        ensures
            result.spec_player() == count_in(self.spec_cells(), self.neighbors(position_id), current_stone),
            result.spec_opponent() == count_in(
                self.spec_cells(),
                self.neighbors(position_id),
                current_stone.spec_opponent(),
            ),
            result.spec_empty() == count_in(self.spec_cells(), self.neighbors(position_id), Stone::Empty),
            result.spec_player() + result.spec_opponent() + result.spec_empty() == self.neighbors(position_id).len(),
    {
        position_id.check_valid();
        proof {
            self.neighbor_cache.lemma_wf(position_id);
            let list = self.neighbors(position_id);
            lemma_count_bound(self.cells@, list, Stone::Black);
            lemma_count_bound(self.cells@, list, Stone::White);
            lemma_count_bound(self.cells@, list, Stone::Empty);
            lemma_count_sum(self.cells@, list);
        }
        if current_stone == Stone::Black {
            self.black_counts[position_id.to_index()]
        } else {
            self.white_counts[position_id.to_index()]
        }
    }

    /// Returns the positions affected when a stone is placed at `position_id`.
    ///
    /// These are the positions that have `position_id` as a neighbor.
    pub fn affected_positions(&self, position_id: PositionId) -> (result: &Vec<PositionId>)
        requires
            self.wf(),
        ensures
            result@ == self.neighbors(position_id),
            forall|q: PositionId| #[trigger] result@.contains(q) <==> q.valid() && is_neighbor(self.spec_kind(), q, position_id),
    {
        position_id.check_valid();
        proof {
            self.neighbor_cache.lemma_wf(position_id);
            assert forall|q: PositionId| #[trigger] self.neighbors(position_id).contains(q) <==> q.valid()
                && is_neighbor(self.spec_kind(), q, position_id) by {
                if q.valid() {
                    neighbors_are_mutual(self.spec_kind(), q, position_id);
                }
            }
        }
        self.neighbor_cache.neighbors_for(position_id)
    }

    /// Records `stone` placed on the empty cell `position_id`.
    pub fn place(&mut self, position_id: PositionId, stone: Stone)
        requires
            old(self).wf(),
            stone.is_colour(),
            old(self).spec_cells()[position_id.idx()] == Stone::Empty,
        ensures
            final(self).wf(),
            final(self).spec_cells() == old(self).spec_cells().update(position_id.idx(), stone),
            final(self).spec_kind() == old(self).spec_kind(),
            forall|p: PositionId| #[trigger] final(self).neighbors(p) == old(self).neighbors(p),
    {
        position_id.check_valid();
        let ghost old_cells = self.cells@;
        let ghost new_cells = old_cells.update(position_id.idx(), stone);
        let ghost kind = self.neighbor_cache.spec_kind();
        proof {
            self.neighbor_cache.lemma_wf(position_id);
        }
        let affected = self.neighbor_cache.neighbors_for(position_id);
        let ghost list = affected@;
        let mut j: usize = 0;
        while j < affected.len()
            invariant
                j <= list.len(),
                affected@ == list,
                position_id.valid(),
                old_cells.len() == 225,
                old_cells[position_id.idx()] == Stone::Empty,
                stone.is_colour(),
                new_cells == old_cells.update(position_id.idx(), stone),
                self.neighbor_cache.wf(),
                self.neighbor_cache.spec_kind() == kind,
                self.neighbor_cache == old(self).neighbor_cache,
                list == self.neighbor_cache.neighbors(position_id),
                list.no_duplicates(),
                list.len() <= 8,
                forall|q: PositionId| #[trigger] list.contains(q) <==> is_neighbor(kind, position_id, q),
                self.black_counts@.len() == 225,
                self.white_counts@.len() == 225,
                self.cells@ == old_cells,
                forall|p: PositionId|
                    p.valid() ==> #[trigger] self.black_counts@[p.idx()] == if list.subrange(0, j as int).contains(p) {
                        counts_view(new_cells, self.neighbor_cache.neighbors(p), Stone::Black)
                    } else {
                        counts_view(old_cells, self.neighbor_cache.neighbors(p), Stone::Black)
                    },
                forall|p: PositionId|
                    p.valid() ==> #[trigger] self.white_counts@[p.idx()] == if list.subrange(0, j as int).contains(p) {
                        counts_view(new_cells, self.neighbor_cache.neighbors(p), Stone::White)
                    } else {
                        counts_view(old_cells, self.neighbor_cache.neighbors(p), Stone::White)
                    },
            decreases list.len() - j,
        {
            let q = affected[j];
            let ghost before_black = self.black_counts@;
            let ghost before_white = self.white_counts@;
            proof {
                assert(list.contains(q));
                self.neighbor_cache.lemma_wf(q);
                neighbors_are_mutual(kind, position_id, q);
                let around = self.neighbor_cache.neighbors(q);
                assert(around.contains(position_id));
                assert forall|i: int| 0 <= i < around.len() implies (#[trigger] around[i]).valid() by {
                    assert(around.contains(around[i]));
                }
                lemma_count_update(old_cells, around, position_id, stone, Stone::Black);
                lemma_count_update(old_cells, around, position_id, stone, Stone::White);
                lemma_count_update(old_cells, around, position_id, stone, Stone::Empty);
                lemma_count_positive(old_cells, around, position_id, Stone::Empty);
                lemma_count_bound(old_cells, around, Stone::Black);
                lemma_count_bound(old_cells, around, Stone::White);
                lemma_count_bound(old_cells, around, Stone::Empty);
                lemma_count_bound(new_cells, around, Stone::Black);
                lemma_count_bound(new_cells, around, Stone::White);
                lemma_count_bound(new_cells, around, Stone::Empty);
                assert(!list.subrange(0, j as int).contains(q)) by {
                    if list.subrange(0, j as int).contains(q) {
                        let k = choose|k: int| 0 <= k < j && list.subrange(0, j as int)[k] == q;
                        assert(list[k] == list[j as int]);
                    }
                }
            }
            let black = self.black_counts[q.to_index()];
            let new_black = if stone == Stone::Black {
                NeighborCounts::new(black.player() + 1, black.opponent(), black.empty() - 1)
            } else {
                NeighborCounts::new(black.player(), black.opponent() + 1, black.empty() - 1)
            };
            self.black_counts.set(q.to_index(), new_black);
            let white = self.white_counts[q.to_index()];
            let new_white = if stone == Stone::Black {
                NeighborCounts::new(white.player(), white.opponent() + 1, white.empty() - 1)
            } else {
                NeighborCounts::new(white.player() + 1, white.opponent(), white.empty() - 1)
            };
            self.white_counts.set(q.to_index(), new_white);
            proof {
                let around = self.neighbor_cache.neighbors(q);
                assert(white == counts_view(old_cells, around, Stone::White));
                assert(new_white == counts_view(new_cells, around, Stone::White));
                assert(new_black == counts_view(new_cells, around, Stone::Black));
                assert(list.subrange(0, j + 1) == list.subrange(0, j as int).push(q));
                assert forall|p: PositionId| #[trigger] list.subrange(0, j + 1).contains(p) <==> (list.subrange(0, j as int).contains(p) || p == q) by {
                    let s = list.subrange(0, j as int);
                    if s.push(q).contains(p) && p != q {
                        let k = choose|k: int| 0 <= k < s.len() + 1 && s.push(q)[k] == p;
                        assert(s[k] == p);
                    }
                    if s.contains(p) {
                        let k = choose|k: int| 0 <= k < s.len() && s[k] == p;
                        assert(s.push(q)[k] == p);
                    }
                    if p == q {
                        assert(s.push(q)[s.len() as int] == q);
                    }
                }
                assert forall|p: PositionId| p.valid() && p != q implies #[trigger] self.black_counts@[p.idx()] == before_black[p.idx()] by {
                    p.idx_determines(q);
                }
                assert forall|p: PositionId| p.valid() implies #[trigger] self.white_counts@[p.idx()] == if list.subrange(0, j + 1).contains(p) {
                    counts_view(new_cells, self.neighbor_cache.neighbors(p), Stone::White)
                } else {
                    counts_view(old_cells, self.neighbor_cache.neighbors(p), Stone::White)
                } by {
                    p.idx_determines(q);
                    if p != q {
                        assert(self.white_counts@[p.idx()] == before_white[p.idx()]);
                    }
                }
            }
            j = j + 1;
        }
        proof {
            self.cells = Ghost(new_cells);
            assert(list.subrange(0, list.len() as int) == list);
            assert forall|p: PositionId| p.valid() && !list.contains(p) implies
                #[trigger] count_in(new_cells, self.neighbor_cache.neighbors(p), Stone::Black) == count_in(old_cells, self.neighbor_cache.neighbors(p), Stone::Black)
                && count_in(new_cells, self.neighbor_cache.neighbors(p), Stone::White) == count_in(old_cells, self.neighbor_cache.neighbors(p), Stone::White)
                && count_in(new_cells, self.neighbor_cache.neighbors(p), Stone::Empty) == count_in(old_cells, self.neighbor_cache.neighbors(p), Stone::Empty) by {
                self.neighbor_cache.lemma_wf(p);
                neighbors_are_mutual(kind, position_id, p);
                let around = self.neighbor_cache.neighbors(p);
                assert(!around.contains(position_id));
                assert forall|i: int| 0 <= i < around.len() implies (#[trigger] around[i]).valid() by {
                    assert(around.contains(around[i]));
                }
                lemma_count_update(old_cells, around, position_id, stone, Stone::Black);
                lemma_count_update(old_cells, around, position_id, stone, Stone::White);
                lemma_count_update(old_cells, around, position_id, stone, Stone::Empty);
            }
        }
    }
}

} // verus!
