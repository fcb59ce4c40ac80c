//! Negamax with alpha-beta pruning over a board evaluated line by line,
//! with the forcing moves of gomoku searched beyond the horizon.

use vstd::prelude::*;

use crate::board::{dir_col, dir_row, has_five, stone_count, Board};
use crate::outcome::Outcome;
use crate::position_id::{index_of, on_board, PositionId};
use crate::rng::rng_shuffle;
use crate::stone::Stone;

use super::patterns::{line_pattern_table, LinePatternTable, Threat};
use super::score::{clamp_points, win_points, Score};
use super::search_state::{evaluation_of, hash_of, outcome_after, place_then_undo_restores, zobrist_keys, SearchState};
use super::threats::{
    can_win_at_once, cell_at_index, cell_threat, has_threat, lemma_cell_at_index, lemma_five_threats_are_wins,
    lemma_map_has, map_has, threat_at, threat_map, threat_map_of, wins_at,
};
use super::tt::{entry_for, probe_entry, probe_view, slot_of, Bound, TranspositionTable, TtEntry, TT_SIZE};

verus! {

/// The default number of developing moves searched along each line of play.
pub const DEFAULT_DEPTH: u32 = 4;

/// How many stones a victory by continuous fours may run at the horizon
/// before it is given up.
pub const VCF_PLIES: u32 = 36;

/// Search depth left, in thirds of a move.
///
/// A move with few possible replies costs less depth than one with many: the
/// one block of a four costs nothing, the handful of defences against an
/// unstoppable four in the making a third of a move, any other move a whole
/// one.
#[derive(Debug, Clone, Copy, PartialEq, Eq, PartialOrd, Ord, Structural)]
pub struct Depth(pub u32);

#[allow(non_snake_case)]
impl Depth {
    pub fn ZERO() -> (result: Self)
        ensures
            result.0 == 0,
    {
        Depth(0)
    }

    pub fn THIRD() -> (result: Self)
        ensures
            result.0 == 1,
    {
        Depth(1)
    }

    pub fn MOVE() -> (result: Self)
        ensures
            result.0 == 3,
    {
        Depth(3)
    }

    /// `count` whole moves.
    pub fn moves(count: u32) -> (result: Self)
        requires
            count <= 86,
        ensures
            result.0 == 3 * count,
    {
        Depth(count * 3)
    }

    /// What is left after spending `cost`, never below zero.
    pub fn minus(self, cost: Self) -> (result: Self)
        ensures
            result.0 == if self.0 >= cost.0 {
                self.0 - cost.0
            } else {
                0
            },
    {
        if self.0 >= cost.0 {
            Depth(self.0 - cost.0)
        } else {
            Depth(0)
        }
    }

    /// The count of thirds, for tables indexed by depth.
    pub fn thirds(self) -> (result: u32)
        ensures
            result == self.0,
    {
        self.0
    }
}

/// Two moves per depth that caused a cutoff, most recent first.
pub struct KillerTable {
    slots: Vec<[Option<PositionId>; 2]>,
}

impl View for KillerTable {
    type V = Seq<[Option<PositionId>; 2]>;

    closed spec fn view(&self) -> Seq<[Option<PositionId>; 2]> {
        self.slots@
    }
}

impl KillerTable {
    /// A slot for every depth below `depth`, all empty.
    pub fn new(depth: Depth) -> (result: Self)
        ensures
            result@.len() == depth.0,
            forall|i: int| 0 <= i < depth.0 ==> (#[trigger] result@[i])@ == seq![None::<PositionId>, None],
    {
        let mut slots: Vec<[Option<PositionId>; 2]> = Vec::new();
        let mut i: u32 = 0;
        while i < depth.0
            invariant
                i <= depth.0,
                slots@.len() == i,
                forall|k: int| 0 <= k < i ==> (#[trigger] slots@[k])@ == seq![None::<PositionId>, None],
            decreases depth.0 - i,
        {
            let empty: [Option<PositionId>; 2] = [None, None];
            assert(empty@ =~= seq![None::<PositionId>, None]);
            slots.push(empty);
            i = i + 1;
        }
        KillerTable { slots }
    }

    /// The killers of `depth`.
    pub fn get(&self, depth: Depth) -> (result: &[Option<PositionId>; 2])
        requires
            depth.0 < self@.len(),
        ensures
            *result == self@[depth.0 as int],
    {
        &self.slots[depth.0 as usize]
    }

    /// Records a cutoff move at `depth`: it becomes the first killer and the
    /// previous first moves to second, unless it is the first already.
    pub fn put(&mut self, depth: Depth, position: PositionId)
        requires
            depth.0 < old(self)@.len(),
        ensures
            final(self)@.len() == old(self)@.len(),
            forall|i: int| 0 <= i < old(self)@.len() && i != depth.0 ==> #[trigger] final(self)@[i] == old(self)@[i],
            final(self)@[depth.0 as int][0] == Some(position),
            final(self)@[depth.0 as int][1] == if old(self)@[depth.0 as int][0] == Some(position) {
                old(self)@[depth.0 as int][1]
            } else {
                old(self)@[depth.0 as int][0]
            },
    {
        let idx = depth.0 as usize;
        let entry = self.slots[idx];
        if entry[0] == Some(position) {
            return;
        }
        let updated: [Option<PositionId>; 2] = [Some(position), entry[0]];
        self.slots.set(idx, updated);
    }
}

/// What the side to move faces, the most urgent first.
#[derive(Debug, Clone, Copy, PartialEq, Eq, Structural)]
pub enum Situation {
    /// It has a four: one more stone completes five.
    CompleteFive,
    /// The opponent has a four that must be blocked.
    BlockFour,
    /// It can make an open four or two fours at once, which no reply stops.
    MakeUnstoppableFour,
    /// The opponent can make such a four and must be kept from it.
    PreventUnstoppableFour,
    /// Nothing is forced.
    Develop,
}

/// The situation of `stone`, about to move on `cells`.
pub open spec fn situation_of(cells: Seq<Stone>, stone: Stone) -> Situation {
    if has_threat(cells, stone, Threat::Five) {
        Situation::CompleteFive
    } else if has_threat(cells, stone.spec_opponent(), Threat::Five) {
        Situation::BlockFour
    } else if has_threat(cells, stone, Threat::UnstoppableFour) {
        Situation::MakeUnstoppableFour
    } else if has_threat(cells, stone.spec_opponent(), Threat::UnstoppableFour) {
        Situation::PreventUnstoppableFour
    } else {
        Situation::Develop
    }
}

/// A cell whose stone makes a four but not five or an unstoppable four.
pub open spec fn makes_a_four(threat: Threat) -> bool {
    8 <= threat.rank() <= 10
}

/// `a` and `b` lie on one line of the board, at most four cells apart.
pub open spec fn within_reach(a: PositionId, b: PositionId) -> bool {
    let dr = b.spec_row() - a.spec_row();
    let dc = b.spec_col() - a.spec_col();
    &&& -4 <= dr <= 4
    &&& -4 <= dc <= 4
    &&& (dr == 0 || dc == 0 || dr == dc || dr == -dc)
}

fn within_reach_exec(a: PositionId, b: PositionId) -> (result: bool)
    ensures
        result == within_reach(a, b),
{
    let dr = b.row() as i32 - a.row() as i32;
    let dc = b.col() as i32 - a.col() as i32;
    -4 <= dr && dr <= 4 && -4 <= dc && dc <= 4 && (dr == 0 || dc == 0 || dr == dc || dr == -dc)
}

/// The cell of index `index`, as a position.
fn cell(index: usize) -> (result: PositionId)
    requires
        index < 225,
    ensures
        result.valid(),
        result.idx() == index,
        result == cell_at_index(index as int),
{
    let p = PositionId::from_index(index);
    proof {
        lemma_cell_at_index(p);
    }
    p
}

/// `score` negated, for the other side.
fn negate(score: Score) -> (result: Score)
    requires
        in_range(score),
    ensures
        result.0 == -score.0,
        in_range(result),
{
    Score(-score.0)
}

/// A score the search hands around: never `i32::MIN`, so it can be negated.
pub open spec fn in_range(score: Score) -> bool {
    -i32::MAX <= score.0
}

/// The situation of `stone`, from both sides' threat maps.
fn situation(own: &Vec<Threat>, opponent: &Vec<Threat>, cells: Ghost<Seq<Stone>>, stone: Stone) -> (result: Situation)
    requires
        own@ == threat_map_of(cells@, stone),
        opponent@ == threat_map_of(cells@, stone.spec_opponent()),
    ensures
        result == situation_of(cells@, stone),
{
    proof {
        lemma_map_has(cells@, stone, Threat::Five);
        lemma_map_has(cells@, stone.spec_opponent(), Threat::Five);
        lemma_map_has(cells@, stone, Threat::UnstoppableFour);
        lemma_map_has(cells@, stone.spec_opponent(), Threat::UnstoppableFour);
    }
    if map_has(own, Threat::Five) {
        Situation::CompleteFive
    } else if map_has(opponent, Threat::Five) {
        Situation::BlockFour
    } else if map_has(own, Threat::UnstoppableFour) {
        Situation::MakeUnstoppableFour
    } else if map_has(opponent, Threat::UnstoppableFour) {
        Situation::PreventUnstoppableFour
    } else {
        Situation::Develop
    }
}

/// The cells among the first `n` of `map` that hold `threat`, in index
/// order.
pub open spec fn cells_with_threat(map: Seq<Threat>, threat: Threat, n: int) -> Seq<PositionId>
    decreases n,
{
    if n <= 0 {
        Seq::empty()
    } else if map[n - 1] == threat {
        cells_with_threat(map, threat, n - 1).push(cell_at_index(n - 1))
    } else {
        cells_with_threat(map, threat, n - 1)
    }
}

/// The cells among the first `n` of `map` where a stone makes a four, in
/// index order.
pub open spec fn four_cells(map: Seq<Threat>, n: int) -> Seq<PositionId>
    decreases n,
{
    if n <= 0 {
        Seq::empty()
    } else if makes_a_four(map[n - 1]) {
        four_cells(map, n - 1).push(cell_at_index(n - 1))
    } else {
        four_cells(map, n - 1)
    }
}

/// The cells of `map` holding `threat`, in index order.
fn cells_with(map: &Vec<Threat>, threat: Threat) -> (result: Vec<PositionId>)
    requires
        map@.len() == 225,
    ensures
        result@ == cells_with_threat(map@, threat, 225),
        forall|i: int| 0 <= i < result@.len() ==> (#[trigger] result@[i]).valid() && map@[result@[i].idx()] == threat,
        forall|p: PositionId| p.valid() && map@[p.idx()] == threat ==> #[trigger] result@.contains(p),
{
    let mut result: Vec<PositionId> = Vec::new();
    let mut index: usize = 0;
    while index < 225
        invariant
            index <= 225,
            map@.len() == 225,
            forall|i: int| 0 <= i < result@.len() ==> (#[trigger] result@[i]).valid() && map@[result@[i].idx()] == threat,
            forall|p: PositionId| p.valid() && p.idx() < index && map@[p.idx()] == threat ==> #[trigger] result@.contains(p),
            result@ == cells_with_threat(map@, threat, index as int),
        decreases 225 - index,
    {
        if map[index] == threat {
            let p = cell(index);
            let ghost before = result@;
            result.push(p);
            proof {
                assert(result@[result@.len() - 1] == p);
                assert forall|q: PositionId| q.valid() && q.idx() < index + 1 && map@[q.idx()] == threat implies #[trigger] result@.contains(q) by {
                    if q.idx() == index {
                        q.idx_determines(p);
                    } else {
                        assert(before.contains(q));
                        let k = choose|k: int| 0 <= k < before.len() && before[k] == q;
                        assert(result@[k] == q);
                    }
                }
            }
        }
        index = index + 1;
    }
    result
}

/// Every listed cell is an empty cell of `cells`.
pub open spec fn playable(cells: Seq<Stone>, list: Seq<PositionId>) -> bool {
    forall|i: int| 0 <= i < list.len() ==> (#[trigger] list[i]).valid() && cells[list[i].idx()] == Stone::Empty
}

/// The cells a quiet position's search tries: the centre on an empty
/// board; otherwise the empty cells with a stone at most two rows and two
/// columns away, or every empty cell when no empty cell has one.
pub open spec fn developing_cell(cells: Seq<Stone>, p: PositionId) -> bool {
    let near = |q: PositionId|
        q.valid() && cells[q.idx()] == Stone::Empty && crate::board::stone_near(cells, q.spec_row(), q.spec_col());
    if stone_count(cells) == 0 {
        p.valid() && p.spec_row() == 7 && p.spec_col() == 7
    } else if exists|q: PositionId| #[trigger] near(q) {
        near(p)
    } else {
        p.valid() && cells[p.idx()] == Stone::Empty
    }
}

/// `p` makes five in a row when `stone` can do so with one move, and
/// otherwise, when the opponent could, takes a cell where the opponent's
/// stone would have made five.
pub open spec fn tactical(cells: Seq<Stone>, stone: Stone, p: PositionId) -> bool {
    &&& can_win_at_once(cells, stone) ==> wins_at(cells, p, stone)
    &&& !can_win_at_once(cells, stone) && can_win_at_once(cells, stone.spec_opponent()) ==> wins_at(
        cells,
        p,
        stone.spec_opponent(),
    )
}

/// A cell that offers some threat is empty.
proof fn lemma_threat_cell_is_empty(cells: Seq<Stone>, stone: Stone, p: PositionId)
    requires
        p.valid(),
        threat_map_of(cells, stone)[p.idx()] != Threat::Nothing,
    ensures
        cells[p.idx()] == Stone::Empty,
        threat_map_of(cells, stone)[p.idx()] == cell_threat(cells, p, stone),
{
    lemma_cell_at_index(p);
}

/// Some side can make a four: one of its cells makes a four or better, short
/// of five.
pub open spec fn can_make_a_four(cells: Seq<Stone>, stone: Stone) -> bool {
    exists|p: PositionId| p.valid() && 8 <= #[trigger] cell_threat(cells, p, stone).rank() <= 11
}

/// Whether `map` holds a threat ranked from `low` to `high`.
fn map_has_rank(map: &Vec<Threat>, low: usize, high: usize) -> (result: bool)
    ensures
        result == exists|i: int| 0 <= i < map@.len() && low <= (#[trigger] map@[i]).rank() <= high,
{
    let mut i: usize = 0;
    while i < map.len()
        invariant
            i <= map@.len(),
            forall|j: int| 0 <= j < i ==> !(low <= (#[trigger] map@[j]).rank() <= high),
        decreases map@.len() - i,
    {
        let rank = map[i].index();
        if low <= rank && rank <= high {
            return true;
        }
        i = i + 1;
    }
    false
}

proof fn lemma_can_make_a_four(cells: Seq<Stone>, stone: Stone)
    ensures
        can_make_a_four(cells, stone) <==> exists|i: int|
            0 <= i < threat_map_of(cells, stone).len() && 8 <= (#[trigger] threat_map_of(cells, stone)[i]).rank() <= 11,
{
    let map = threat_map_of(cells, stone);
    if can_make_a_four(cells, stone) {
        let p = choose|p: PositionId| p.valid() && 8 <= #[trigger] cell_threat(cells, p, stone).rank() <= 11;
        lemma_cell_at_index(p);
        assert(8 <= map[p.idx()].rank() <= 11);
    }
    if exists|i: int| 0 <= i < map.len() && 8 <= (#[trigger] map[i]).rank() <= 11 {
        let i = choose|i: int| 0 <= i < map.len() && 8 <= (#[trigger] map[i]).rank() <= 11;
        crate::position_id::lemma_index_has_cell(i);
        let p = cell_at_index(i);
        assert(8 <= cell_threat(cells, p, stone).rank() <= 11);
    }
}

/// One search from one root position: the move-ordering tables and a node
/// count for diagnostics.
pub struct Search {
    killers: KillerTable,
    nodes: u64,
    table: LinePatternTable,
}

impl Search {
    pub closed spec fn wf(&self) -> bool {
        self.table.wf()
    }

    /// Depths the killer table has room for.
    pub closed spec fn killer_depths(&self) -> nat {
        self.killers@.len()
    }

    pub fn new(depth: Depth) -> (result: Self)
        ensures
            result.wf(),
            result.killer_depths() == depth.0,
            result.spec_nodes() == 0,
    {
        Search { killers: KillerTable::new(depth), nodes: 0, table: line_pattern_table() }
    }

    /// The number of positions visited, as a spec value.
    pub closed spec fn spec_nodes(&self) -> u64 {
        self.nodes
    }

    /// How many positions the search has visited.
    pub fn nodes(&self) -> (result: u64)
        ensures
            result == self.spec_nodes(),
    {
        self.nodes
    }

    fn count_node(&mut self)
        ensures
            final(self).wf() == old(self).wf(),
            final(self).killer_depths() == old(self).killer_depths(),
            final(self).table == old(self).table,
            final(self).spec_nodes() == if old(self).spec_nodes() < u64::MAX {
                old(self).spec_nodes() + 1
            } else {
                old(self).spec_nodes() as int
            },
    {
        if self.nodes < u64::MAX {
            self.nodes = self.nodes + 1;
        }
    }

    /// The empty cells near stones, those offering the strongest threats to
    /// either side first; the centre on an empty board, and every empty
    /// cell when none is near a stone.
    fn developing_moves(state: &SearchState, own: &Vec<Threat>, opponent: &Vec<Threat>) -> (result: Vec<PositionId>)
        requires
            state.wf(),
            own@.len() == 225,
            opponent@.len() == 225,
        ensures
            playable(state.cells(), result@),
            !crate::board::all_occupied(state.cells()) ==> result@.len() > 0,
            forall|p: PositionId| #[trigger] result@.contains(p) <==> developing_cell(state.cells(), p),
    {
        proof {
            state.lemma_cells();
        }
        let ghost cells = state.cells();
        let ghost near = |q: PositionId|
            q.valid() && cells[q.idx()] == Stone::Empty && crate::board::stone_near(cells, q.spec_row(), q.spec_col());
        if state.move_count() == 0 {
            let centre = PositionId::center();
            proof {
                crate::board::lemma_stone_count_update(state.cells(), centre.idx(), Stone::Empty);
            }
            let result = vec![centre];
            proof {
                assert forall|p: PositionId| #[trigger] result@.contains(p) <==> developing_cell(cells, p) by {
                    if developing_cell(cells, p) {
                        crate::position_id::same_row_col_same_cell(p, centre);
                        assert(result@[0] == p);
                    }
                }
            }
            return result;
        }
        let mut ranked: Vec<(PositionId, i32)> = Vec::new();
        let mut index: usize = 0;
        while index < 225
            invariant
                index <= 225,
                state.wf(),
                own@.len() == 225,
                opponent@.len() == 225,
                forall|i: int|
                    0 <= i < ranked@.len() ==> (#[trigger] ranked@[i]).0.valid() && state.cells()[ranked@[i].0.idx()]
                        == Stone::Empty,
                cells == state.cells(),
                near == (|q: PositionId|
                    q.valid() && cells[q.idx()] == Stone::Empty && crate::board::stone_near(
                        cells,
                        q.spec_row(),
                        q.spec_col(),
                    )),
                forall|k: int| 0 <= k < ranked@.len() ==> near(#[trigger] ranked@[k].0) && ranked@[k].0.idx() < index,
                forall|q: PositionId|
                    #[trigger] near(q) && q.idx() < index ==> exists|k: int| 0 <= k < ranked@.len() && ranked@[k].0 == q,
            decreases 225 - index,
        {
            let p = cell(index);
            let ghost before = ranked@;
            let took = state.stone(p) == Stone::Empty && Self::near_a_stone(state, p);
            if took {
                let priority = own[index].value().0 + opponent[index].value().0;
                ranked.push((p, priority));
            }
            proof {
                assert(took == near(p));
                assert(took ==> ranked@.len() == before.len() + 1 && ranked@[before.len() as int].0 == p);
                assert(!took ==> ranked@ == before);
                assert forall|k: int| 0 <= k < ranked@.len() implies near(#[trigger] ranked@[k].0) && ranked@[k].0.idx()
                    < index + 1 by {
                    if k < before.len() {
                        assert(ranked@[k] == before[k]);
                    }
                }
                assert forall|q: PositionId| #[trigger] near(q) && q.idx() < index + 1 implies exists|k: int|
                    0 <= k < ranked@.len() && ranked@[k].0 == q by {
                    if q.idx() < index {
                        let k = choose|k: int| 0 <= k < before.len() && before[k].0 == q;
                        assert(ranked@[k] == before[k]);
                    } else {
                        q.idx_determines(p);
                        assert(ranked@[before.len() as int].0 == q);
                    }
                }
            }
            index = index + 1;
        }
        proof {
            assert forall|q: PositionId| #[trigger] near(q) implies q.idx() < 225 by {}
        }
        if ranked.len() == 0 {
            let empty = state.board().empty_position_ids();
            proof {
                if !crate::board::all_occupied(state.cells()) {
                    let i = choose|i: int| 0 <= i < state.cells().len() && state.cells()[i] == Stone::Empty;
                    crate::position_id::lemma_index_has_cell(i);
                    let p = cell_at_index(i);
                    assert(empty@.contains(p));
                }
                assert(!exists|q: PositionId| #[trigger] near(q)) by {
                    if exists|q: PositionId| #[trigger] near(q) {
                        let q = choose|q: PositionId| #[trigger] near(q);
                        assert(q.idx() < 225);
                    }
                }
                assert forall|p: PositionId| #[trigger] empty@.contains(p) <==> developing_cell(cells, p) by {
                    if empty@.contains(p) {
                        let k = choose|k: int| 0 <= k < empty@.len() && empty@[k] == p;
                        assert(empty@[k].valid());
                    }
                }
            }
            return empty;
        }
        let n = ranked.len();
        let mut i: usize = 0;
        while i < n
            invariant
                i <= n,
                n == ranked@.len(),
                state.wf(),
                forall|k: int|
                    0 <= k < ranked@.len() ==> (#[trigger] ranked@[k]).0.valid() && state.cells()[ranked@[k].0.idx()]
                        == Stone::Empty,
                forall|k: int| 0 <= k < ranked@.len() ==> near(#[trigger] ranked@[k].0),
                forall|q: PositionId| #[trigger] near(q) ==> exists|k: int| 0 <= k < ranked@.len() && ranked@[k].0 == q,
            decreases n - i,
        {
            let mut best = i;
            let mut j = i + 1;
            while j < n
                invariant
                    i < n,
                    i <= best < n,
                    i + 1 <= j <= n,
                    n == ranked@.len(),
                decreases n - j,
            {
                if ranked[j].1 > ranked[best].1 {
                    best = j;
                }
                j = j + 1;
            }
            let a = ranked[i];
            let b = ranked[best];
            let ghost before = ranked@;
            ranked.set(i, b);
            ranked.set(best, a);
            proof {
                assert forall|k: int| 0 <= k < ranked@.len() implies near(#[trigger] ranked@[k].0) by {
                    let j = if k == i { best as int } else if k == best { i as int } else { k };
                    assert(ranked@[k] == before[j]);
                }
                assert forall|q: PositionId| #[trigger] near(q) implies exists|k: int|
                    0 <= k < ranked@.len() && ranked@[k].0 == q by {
                    let k = choose|k: int| 0 <= k < before.len() && before[k].0 == q;
                    let j = if k == i { best as int } else if k == best { i as int } else { k };
                    assert(ranked@[j] == before[k]);
                }
            }
            i = i + 1;
        }
        let mut result: Vec<PositionId> = Vec::new();
        let mut k: usize = 0;
        while k < n
            invariant
                k <= n,
                n == ranked@.len(),
                n > 0,
                result@.len() == k,
                forall|m: int|
                    0 <= m < ranked@.len() ==> (#[trigger] ranked@[m]).0.valid() && state.cells()[ranked@[m].0.idx()]
                        == Stone::Empty,
                forall|m: int| 0 <= m < k ==> #[trigger] result@[m] == ranked@[m].0,
            decreases n - k,
        {
            result.push(ranked[k].0);
            k = k + 1;
        }
        proof {
            assert(near(ranked@[0].0));
            assert forall|p: PositionId| #[trigger] result@.contains(p) <==> developing_cell(cells, p) by {
                if result@.contains(p) {
                    let m = choose|m: int| 0 <= m < result@.len() && result@[m] == p;
                    assert(ranked@[m].0 == p);
                }
                if developing_cell(cells, p) {
                    assert(near(p));
                    let m = choose|m: int| 0 <= m < ranked@.len() && ranked@[m].0 == p;
                    assert(result@[m] == p);
                }
            }
        }
        result
    }

    /// Whether a stone lies at most two rows and two columns from `p`.
    fn near_a_stone(state: &SearchState, p: PositionId) -> (result: bool)
        requires
            state.wf(),
        ensures
            result == crate::board::stone_near(state.cells(), p.spec_row(), p.spec_col()),
    {
        proof {
            state.lemma_cells();
        }
        let r = p.row() as i32;
        let c = p.col() as i32;
        let mut dr: i32 = -2;
        while dr <= 2
            invariant
                -2 <= dr <= 3,
                0 <= r < 15,
                0 <= c < 15,
                r == p.spec_row(),
                c == p.spec_col(),
                state.wf(),
                state.cells().len() == 225,
                forall|row: int, col: int|
                    r - 2 <= row < r + dr && c - 2 <= col <= c + 2 && on_board(row, col)
                        ==> #[trigger] state.cells()[index_of(row, col)] == Stone::Empty,
            decreases 3 - dr,
        {
            let mut dc: i32 = -2;
            while dc <= 2
                invariant
                    -2 <= dr <= 2,
                    -2 <= dc <= 3,
                    0 <= r < 15,
                    0 <= c < 15,
                    r == p.spec_row(),
                    c == p.spec_col(),
                    state.wf(),
                    state.cells().len() == 225,
                    forall|row: int, col: int|
                        r - 2 <= row < r + dr && c - 2 <= col <= c + 2 && on_board(row, col)
                            ==> #[trigger] state.cells()[index_of(row, col)] == Stone::Empty,
                    forall|col: int|
                        c - 2 <= col < c + dc && on_board(r + dr, col) ==> #[trigger] state.cells()[index_of(
                            r + dr,
                            col,
                        )] == Stone::Empty,
                decreases 3 - dc,
            {
                let row = r + dr;
                let col = c + dc;
                if 0 <= row && row < 15 && 0 <= col && col < 15 {
                    let q = PositionId::from_row_col(row as usize, col as usize);
                    if state.stone(q) != Stone::Empty {
                        assert(state.cells()[index_of(row as int, col as int)] != Stone::Empty);
                        return true;
                    }
                }
                dc = dc + 1;
            }
            dr = dr + 1;
        }
        false
    }

    /// The moves to search for `stone` in `situation`, and how many of them,
    /// from the start, are forced replies.
    fn candidates(
        &self,
        state: &mut SearchState,
        stone: Stone,
        situation: Situation,
        own: &Vec<Threat>,
        opponent: &Vec<Threat>,
    ) -> (result: (Vec<PositionId>, usize))
        requires
            self.wf(),
            old(state).wf(),
            old(state).spec_outcome().is_none(),
            stone.is_colour(),
            own@ == threat_map_of(old(state).cells(), stone),
            opponent@ == threat_map_of(old(state).cells(), stone.spec_opponent()),
            situation == situation_of(old(state).cells(), stone),
        ensures
            final(state).same_position(old(state)),
            result.1 <= result.0@.len(),
            playable(old(state).cells(), result.0@),
            situation == Situation::BlockFour ==> result.1 == result.0@.len() && forall|i: int|
                0 <= i < result.0@.len() ==> opponent@[(#[trigger] result.0@[i]).idx()] == Threat::Five,
            situation == Situation::CompleteFive ==> forall|i: int|
                0 <= i < result.0@.len() ==> own@[(#[trigger] result.0@[i]).idx()] == Threat::Five,
            !crate::board::all_occupied(old(state).cells()) ==> result.0@.len() > 0,
            situation == Situation::PreventUnstoppableFour ==> result.1 > 0,
            situation == Situation::BlockFour ==> result.0@ == cells_with_threat(opponent@, Threat::Five, 225),
            situation == Situation::Develop ==> forall|p: PositionId|
                #[trigger] result.0@.contains(p) <==> developing_cell(old(state).cells(), p),
    {
        let ghost cells = state.cells();
        let wanted = match situation {
            Situation::CompleteFive => Some((true, Threat::Five)),
            Situation::BlockFour => Some((false, Threat::Five)),
            Situation::MakeUnstoppableFour => Some((true, Threat::UnstoppableFour)),
            _ => None,
        };
        if let Some((mine, threat)) = wanted {
            let list = if mine {
                cells_with(own, threat)
            } else {
                cells_with(opponent, threat)
            };
            proof {
                let side = if mine { stone } else { stone.spec_opponent() };
                assert forall|i: int| 0 <= i < list@.len() implies (#[trigger] list@[i]).valid() && cells[list@[i].idx()] == Stone::Empty by {
                    lemma_threat_cell_is_empty(cells, side, list@[i]);
                }
                let p = choose|p: PositionId| p.valid() && #[trigger] cell_threat(cells, p, side) == threat;
                lemma_cell_at_index(p);
                assert(list@.contains(p));
            }
            let count = list.len();
            return (list, count);
        }
        if situation == Situation::Develop {
            let list = Self::developing_moves(state, own, opponent);
            return (list, 0);
        }
        // The opponent can make an unstoppable four: first the cells that
        // stop every such four at once, then the fours that force it to
        // answer first.
        let unstoppable = cells_with(opponent, Threat::UnstoppableFour);
        let opponent_stone = stone.opponent();
        let mut forced: Vec<PositionId> = Vec::new();
        let mut chosen: Vec<bool> = Vec::new();
        let mut index: usize = 0;
        while index < 225
            invariant
                index <= 225,
                self.wf(),
                state.same_position(old(state)),
                cells == old(state).cells(),
                old(state).spec_outcome().is_none(),
                stone.is_colour(),
                opponent_stone == stone.spec_opponent(),
                chosen@.len() == index,
                forall|i: int| 0 <= i < unstoppable@.len() ==> (#[trigger] unstoppable@[i]).valid(),
                playable(cells, forced@),
            decreases 225 - index,
        {
            let d = cell(index);
            let mut reaches = false;
            if state.stone(d) == Stone::Empty {
                let mut k: usize = 0;
                while k < unstoppable.len()
                    invariant
                        k <= unstoppable@.len(),
                    decreases unstoppable@.len() - k,
                {
                    if within_reach_exec(unstoppable[k], d) {
                        reaches = true;
                    }
                    k = k + 1;
                }
            }
            let mut stops = false;
            if reaches {
                let ghost before = *state;
                proof {
                    state.lemma_cells();
                }
                state.place(d, stone);
                let ghost placed = *state;
                stops = true;
                let mut k: usize = 0;
                while k < unstoppable.len()
                    invariant
                        k <= unstoppable@.len(),
                        self.wf(),
                        state.wf(),
                        *state == placed,
                        opponent_stone.is_colour(),
                    decreases unstoppable@.len() - k,
                {
                    let u = unstoppable[k];
                    if u != d && threat_at(&self.table, state, u, opponent_stone) == Threat::UnstoppableFour {
                        stops = false;
                    }
                    k = k + 1;
                }
                state.undo(d, stone);
                proof {
                    place_then_undo_restores(before.cells(), before.spec_hash(), before.spec_keys()[2 * d.idx() + stone.spec_side()], d, stone);
                }
            }
            chosen.push(stops);
            if stops {
                forced.push(d);
            }
            index = index + 1;
        }
        if forced.len() == 0 {
            forced = cells_with(opponent, Threat::UnstoppableFour);
            proof {
                assert forall|i: int| 0 <= i < forced@.len() implies (#[trigger] forced@[i]).valid() && cells[forced@[i].idx()] == Stone::Empty by {
                    lemma_threat_cell_is_empty(cells, stone.spec_opponent(), forced@[i]);
                }
                let p = choose|p: PositionId| p.valid() && #[trigger] cell_threat(cells, p, stone.spec_opponent()) == Threat::UnstoppableFour;
                lemma_cell_at_index(p);
                assert(forced@.contains(p));
            }
            let mut k: usize = 0;
            while k < forced.len()
                invariant
                    k <= forced@.len(),
                    chosen@.len() == 225,
                    playable(cells, forced@),
                decreases forced@.len() - k,
            {
                let index = forced[k].to_index();
                chosen.set(index, true);
                k = k + 1;
            }
        }
        let count_forced = forced.len();
        assert(count_forced > 0);
        let mut list = forced;
        let mut index: usize = 0;
        while index < 225
            invariant
                index <= 225,
                count_forced <= list@.len(),
                chosen@.len() == 225,
                own@ == threat_map_of(cells, stone),
                playable(cells, list@),
            decreases 225 - index,
        {
            if !chosen[index] {
                let rank = own[index].index();
                if 8 <= rank && rank <= 10 {
                    let p = cell(index);
                    proof {
                        lemma_threat_cell_is_empty(cells, stone, p);
                    }
                    list.push(p);
                }
            }
            index = index + 1;
        }
        (list, count_forced)
    }
}

impl Search {
    /// A win in five stones for `stone`, about to move with no four on the
    /// board on either side, that needs no search to see.
    ///
    /// A stone making a four and an open three at once wins: the four must
    /// be blocked, then the open three becomes an open four. The block can
    /// only break the sequence by making a four of its own, so it is played
    /// out unless the opponent has no cell that makes a four at all. A stone
    /// making two open threes wins the same way as long as the opponent has
    /// no cell that makes a four, since any of its defences could then be a
    /// counter-four instead.
    fn win_by_threats_with(
        &self,
        state: &mut SearchState,
        stone: Stone,
        own: &Vec<Threat>,
        opponent: &Vec<Threat>,
    ) -> (result: Option<Score>)
        requires
            self.wf(),
            old(state).wf(),
            old(state).spec_outcome().is_none(),
            stone.is_colour(),
            own@ == threat_map_of(old(state).cells(), stone),
            opponent@ == threat_map_of(old(state).cells(), stone.spec_opponent()),
        ensures
            final(state).same_position(old(state)),
            result matches Some(s) ==> s.0 == win_points() - (old(state).spec_move_count() + 5) && (has_threat(
                old(state).cells(),
                stone,
                Threat::FourAndOpenThree,
            ) || has_threat(old(state).cells(), stone, Threat::TwoOpenThrees)),
            !can_make_a_four(old(state).cells(), stone.spec_opponent()) && (has_threat(
                old(state).cells(),
                stone,
                Threat::FourAndOpenThree,
            ) || has_threat(old(state).cells(), stone, Threat::TwoOpenThrees)) ==> result is Some,
            result is Some <==> threat_win(old(state).cells(), stone),
    {
        let ghost cells = state.cells();
        proof {
            state.lemma_cells();
            lemma_can_make_a_four(cells, stone.spec_opponent());
            lemma_map_has(cells, stone, Threat::FourAndOpenThree);
            lemma_map_has(cells, stone, Threat::TwoOpenThrees);
        }
        let opponent_stone = stone.opponent();
        let opponent_can_make_a_four = map_has_rank(opponent, 8, 11);
        let win = Score::win_at_depth(state.move_count() + 5);
        let four_threes = cells_with(own, Threat::FourAndOpenThree);
        let has_four_three = map_has(own, Threat::FourAndOpenThree);
        if has_four_three && !opponent_can_make_a_four {
            return Some(win);
        }
        let mut k: usize = 0;
        while k < four_threes.len()
            invariant
                k <= four_threes@.len(),
                self.wf(),
                state.same_position(old(state)),
                cells == old(state).cells(),
                old(state).spec_outcome().is_none(),
                stone.is_colour(),
                opponent_stone == stone.spec_opponent(),
                forall|i: int|
                    0 <= i < four_threes@.len() ==> (#[trigger] four_threes@[i]).valid() && own@[four_threes@[i].idx()]
                        == Threat::FourAndOpenThree,
                own@ == threat_map_of(cells, stone),
                win.0 == win_points() - (old(state).spec_move_count() + 5),
                four_threes@ == cells_with_threat(own@, Threat::FourAndOpenThree, 225),
                forall|p: PositionId| p.valid() && own@[p.idx()] == Threat::FourAndOpenThree ==> #[trigger] four_threes@.contains(p),
                forall|i: int| 0 <= i < k ==> !block_gives_no_four(
                    cells.update((#[trigger] four_threes@[i]).idx(), stone),
                    outcome_after(cells.update(four_threes@[i].idx(), stone), four_threes@[i], stone),
                    stone,
                ),
            decreases four_threes@.len() - k,
        {
            let p = four_threes[k];
            let ghost before = *state;
            proof {
                lemma_threat_cell_is_empty(cells, stone, p);
                state.lemma_cells();
                lemma_map_has(cells, stone, Threat::FourAndOpenThree);
            }
            state.place(p, stone);
            let block_makes_no_four = self.block_makes_no_four(state, stone);
            let ghost placed = *state;
            proof {
                assert(state.cells() == cells.update(p.idx(), stone));
            }
            state.undo(p, stone);
            proof {
                place_then_undo_restores(before.cells(), before.spec_hash(), before.spec_keys()[2 * p.idx() + stone.spec_side()], p, stone);
            }
            if block_makes_no_four {
                proof {
                    assert(has_threat(cells, stone, Threat::FourAndOpenThree)) by {
                        lemma_cell_at_index(p);
                    }
                    lemma_cell_at_index(p);
                    assert(cell_threat(cells, p, stone) == Threat::FourAndOpenThree);
                    assert(placed.cells() == cells.update(p.idx(), stone));
                    assert(block_gives_no_four(
                        cells.update(p.idx(), stone),
                        outcome_after(cells.update(p.idx(), stone), p, stone),
                        stone,
                    ));
                }
                return Some(win);
            }
            k = k + 1;
        }
        if !opponent_can_make_a_four && map_has(own, Threat::TwoOpenThrees) {
            return Some(win);
        }
        proof {
            assert forall|p: PositionId| p.valid() && #[trigger] cell_threat(cells, p, stone) == Threat::FourAndOpenThree
                implies !block_gives_no_four(
                cells.update(p.idx(), stone),
                outcome_after(cells.update(p.idx(), stone), p, stone),
                stone,
            ) by {
                lemma_cell_at_index(p);
                assert(own@[p.idx()] == Threat::FourAndOpenThree);
                assert(four_threes@.contains(p));
                let i = choose|i: int| 0 <= i < four_threes@.len() && four_threes@[i] == p;
                assert(four_threes@[i] == p);
            }
        }
        None
    }

    /// A win in five stones for `stone`, about to move, that needs no search
    /// to see: see [`Self::win_by_threats_with`].
    pub fn win_by_threats(state: &mut SearchState, stone: Stone) -> (result: Option<Score>)
        requires
            old(state).wf(),
            old(state).spec_outcome().is_none(),
            stone.is_colour(),
        ensures
            final(state).same_position(old(state)),
            result matches Some(s) ==> s.0 == win_points() - (old(state).spec_move_count() + 5) && (has_threat(
                old(state).cells(),
                stone,
                Threat::FourAndOpenThree,
            ) || has_threat(old(state).cells(), stone, Threat::TwoOpenThrees)),
            !can_make_a_four(old(state).cells(), stone.spec_opponent()) && (has_threat(
                old(state).cells(),
                stone,
                Threat::FourAndOpenThree,
            ) || has_threat(old(state).cells(), stone, Threat::TwoOpenThrees)) ==> result is Some,
            result is Some <==> threat_win(old(state).cells(), stone),
    {
        let search = Search::new(Depth::MOVE());
        let own = threat_map(&search.table, state, stone);
        let opponent = threat_map(&search.table, state, stone.opponent());
        search.win_by_threats_with(state, stone, &own, &opponent)
    }

    /// After `stone` made a four, whether the cell that blocks it gives the
    /// opponent no four of its own.
    fn block_makes_no_four(&self, state: &SearchState, stone: Stone) -> (result: bool)
        requires
            self.wf(),
            state.wf(),
            stone.is_colour(),
        ensures
            result == block_gives_no_four(state.cells(), state.spec_outcome(), stone),
    {
        if state.outcome().is_some() {
            return false;
        }
        let after = threat_map(&self.table, state, stone);
        let blocks = cells_with(&after, Threat::Five);
        if blocks.len() == 0 {
            return false;
        }
        let rank = threat_at(&self.table, state, blocks[0], stone.opponent()).index();
        rank < 8
    }

    /// The static value of a quiet leaf for `stone`: its own evaluation
    /// averaged with the parent's, `parent_raw`, seen from `stone`'s side.
    /// Whoever placed the last stone always looks ahead, since that stone's
    /// threats are unanswered; averaging over the last move takes half of
    /// that swing out.
    fn leaf_value(state: &SearchState, stone: Stone, parent_raw: Score) -> (result: Score)
        requires
            state.wf(),
            stone.is_colour(),
            in_range(parent_raw),
        ensures
            in_range(result),
            result.0 == half_toward_zero(state.evaluation(stone) - parent_raw.0),
            result.0 == half_toward_zero(evaluation_of(state.cells(), stone) - parent_raw.0),
    {
        proof {
            state.lemma_cells();
            state.lemma_evaluation_from_stones(stone);
        }
        let own = state.evaluate(stone);
        let difference: i64 = own.0 as i64 - parent_raw.0 as i64;
        let half: i64 = if difference >= 0 {
            difference / 2
        } else {
            -((-difference) / 2)
        };
        Score(half as i32)
    }
}

/// Half of `d`, rounded toward zero.
pub open spec fn half_toward_zero(d: int) -> int {
    if d >= 0 {
        d / 2
    } else {
        -((-d) / 2)
    }
}

/// After `stone` made a four on `cells`, whether the game goes on and the
/// first cell completing that four (in index order) would give the
/// opponent no four of its own.
pub open spec fn block_gives_no_four(cells: Seq<Stone>, outcome: Option<Outcome>, stone: Stone) -> bool {
    let blocks = cells_with_threat(threat_map_of(cells, stone), Threat::Five, 225);
    &&& outcome.is_none()
    &&& blocks.len() > 0
    &&& cell_threat(cells, blocks[0], stone.spec_opponent()).rank() < 8
}

/// Whether `stone`, about to move with no four on the board, wins by
/// threats in five stones as the search sees it without searching: with a
/// four and an open three while the opponent has no cell that makes a four;
/// with a four and an open three at a cell whose block leaves the opponent
/// no four; or with two open threes while the opponent has no cell that
/// makes a four.
pub open spec fn threat_win(cells: Seq<Stone>, stone: Stone) -> bool {
    let opponent_four = can_make_a_four(cells, stone.spec_opponent());
    ||| has_threat(cells, stone, Threat::FourAndOpenThree) && !opponent_four
    ||| exists|p: PositionId|
        p.valid() && #[trigger] cell_threat(cells, p, stone) == Threat::FourAndOpenThree && block_gives_no_four(
            cells.update(p.idx(), stone),
            outcome_after(cells.update(p.idx(), stone), p, stone),
            stone,
        )
    ||| has_threat(cells, stone, Threat::TwoOpenThrees) && !opponent_four
}

/// The value of a quiet position at the horizon for `stone`, whose static
/// value is `leaf`: a win by continuous fours when the static value lies
/// below `beta` and one exists, otherwise the static value.
pub open spec fn horizon_value(cells: Seq<Stone>, stone: Stone, leaf: int, beta: Score) -> int {
    if leaf < beta.0 && fours_search(cells, stone, None, VCF_PLIES as nat) is Some {
        fours_search(cells, stone, None, VCF_PLIES as nat).unwrap().0 as int
    } else {
        leaf
    }
}

/// On an empty board nobody can win with one stone.
proof fn lemma_no_win_on_empty_board(cells: Seq<Stone>, stone: Stone)
    requires
        cells == Seq::new(225, |i: int| Stone::Empty),
        stone.is_colour(),
    ensures
        !can_win_at_once(cells, stone),
{
    assert forall|p: PositionId| p.valid() implies !#[trigger] wins_at(cells, p, stone) by {
        let placed = cells.update(p.idx(), stone);
        if has_five(placed, stone) {
            let (row, col, d) = choose|row: int, col: int, d: int|
                on_board(row, col) && #[trigger] crate::board::five_at(placed, stone, row, col, d);
            let r1 = row + dir_row(d);
            let c1 = col + dir_col(d);
            assert(on_board(row + 0 * dir_row(d), col + 0 * dir_col(d)) && crate::board::cell_at(
                placed,
                row + 0 * dir_row(d),
                col + 0 * dir_col(d),
            ) == stone);
            assert(on_board(row + 1 * dir_row(d), col + 1 * dir_col(d)) && crate::board::cell_at(
                placed,
                row + 1 * dir_row(d),
                col + 1 * dir_col(d),
            ) == stone);
            assert(index_of(row, col) != index_of(r1, c1));
            assert(false);
        }
    }
}

/// `stone` must block the opponent's five on `cells`, and every cell that
/// blocks it leaves the game going with another five for the opponent to
/// complete.
pub open spec fn every_block_loses(cells: Seq<Stone>, stone: Stone) -> bool {
    forall|p: PositionId|
        p.valid() && #[trigger] threat_map_of(cells, stone.spec_opponent())[p.idx()] == Threat::Five ==> {
            &&& outcome_after(cells.update(p.idx(), stone), p, stone) is None
            &&& situation_of(cells.update(p.idx(), stone), stone.spec_opponent()) == Situation::CompleteFive
        }
}

/// `value` seen through the window `alpha..beta` of a search that fails
/// hard: `beta` at or above it, `alpha` at or below it.
pub open spec fn within_window(value: int, alpha: int, beta: int) -> int {
    if value >= beta {
        beta
    } else if value > alpha {
        value
    } else {
        alpha
    }
}

/// What `score_move` is known to give for `stone` at `position` on
/// `cells`, searched `depth` moves deep: a win when the move completes
/// five, nothing when it fills the board, a loss when the opponent then
/// completes five or makes an unstoppable four, and, one move deep, a win
/// when the opponent must block a four and every block leaves another.
pub open spec fn move_score_facts(cells: Seq<Stone>, position: PositionId, stone: Stone, depth: u32, value: int) -> bool {
    let after = cells.update(position.idx(), stone);
    let count = stone_count(cells);
    &&& wins_at(cells, position, stone) ==> value == win_points() - (count + 1)
    &&& outcome_after(after, position, stone) == Some(Outcome::Draw) ==> value == 0
    &&& outcome_after(after, position, stone) is None && situation_of(after, stone.spec_opponent())
        == Situation::CompleteFive ==> value == -(win_points() - (count + 2))
    &&& outcome_after(after, position, stone) is None && situation_of(after, stone.spec_opponent())
        == Situation::MakeUnstoppableFour ==> value == -(win_points() - (count + 4))
    &&& depth == 1 && outcome_after(after, position, stone) is None && situation_of(after, stone.spec_opponent())
        == Situation::BlockFour && every_block_loses(after, stone.spec_opponent()) ==> value == win_points() - (count
        + 3)
}

/// `values[i]` is the first of the highest of `values`.
pub open spec fn first_best(values: Seq<int>, i: int) -> bool {
    &&& 0 <= i < values.len()
    &&& forall|j: int| 0 <= j < i ==> #[trigger] values[j] < values[i]
    &&& forall|j: int| i < j < values.len() ==> #[trigger] values[j] <= values[i]
}

/// A table as `TranspositionTable::new` makes it: nothing stored.
pub open spec fn fresh_table(table: Seq<TtEntry>) -> bool {
    forall|i: int| 0 <= i < TT_SIZE ==> (#[trigger] table[i]).bound.is_none()
}

/// `p` is the move the search picks for `stone` on `cells`, searched to
/// `depth` with a fresh table: see `picked`.
pub open spec fn best_of_searched(cells: Seq<Stone>, stone: Stone, depth: u32, p: PositionId) -> bool {
    exists|trace: SearchTrace, i: int|
        #[trigger] picked((225 - stone_count(cells)) as nat, trace, cells, stone, depth, i, p) && fresh_table(
            trace.tables[0],
        )
}

/// Each of the first `n` moves of the trace, its reply searched to `depth`
/// less a move in the window from the best of the values before it to
/// `i32::MAX`, gave its value.
pub open spec fn root_searched(
    room: nat,
    trace: SearchTrace,
    cells: Seq<Stone>,
    stone: Stone,
    depth: u32,
    n: int,
) -> bool
    decreases n,
{
    if n <= 0 {
        true
    } else {
        &&& root_searched(room, trace, cells, stone, depth, n - 1)
        &&& child_reply(
            room,
            trace.replies[n - 1],
            trace.tables[n - 1],
            trace.tables[n],
            cells,
            stone,
            depth_after(depth, 3),
            trace.moves[n - 1],
            best_after(-i32::MAX, trace.values.take(n - 1)),
            i32::MAX as int,
            trace.values[n - 1],
        )
    }
}

/// Extending a trace keeps what its first `n` moves gave.
proof fn lemma_root_extend(
    room: nat,
    trace: SearchTrace,
    longer: SearchTrace,
    cells: Seq<Stone>,
    stone: Stone,
    depth: u32,
    n: int,
)
    requires
        root_searched(room, trace, cells, stone, depth, n),
        0 <= n <= trace.values.len() <= longer.values.len(),
        trace.replies.len() >= n,
        trace.tables.len() > n,
        longer.moves == trace.moves,
        longer.values.take(trace.values.len() as int) == trace.values,
        longer.tables.len() > n,
        forall|k: int| 0 <= k <= n ==> #[trigger] longer.tables[k] == trace.tables[k],
        longer.replies.len() >= n,
        forall|k: int| 0 <= k < n ==> #[trigger] longer.replies[k] == trace.replies[k],
    ensures
        root_searched(room, longer, cells, stone, depth, n),
    decreases n,
{
    if n > 0 {
        lemma_root_extend(room, trace, longer, cells, stone, depth, n - 1);
        assert(longer.values.take(n - 1) =~= trace.values.take(n - 1)) by {
            assert forall|j: int| 0 <= j < n - 1 implies longer.values[j] == trace.values[j] by {
                assert(longer.values.take(trace.values.len() as int)[j] == longer.values[j]);
            }
        }
        assert(longer.values[n - 1] == trace.values[n - 1]) by {
            assert(longer.values.take(trace.values.len() as int)[n - 1] == longer.values[n - 1]);
        }
        assert(longer.tables[n - 1] == trace.tables[n - 1]);
        assert(longer.tables[n] == trace.tables[n]);
        assert(longer.replies[n - 1] == trace.replies[n - 1]);
    }
}

/// `p`, the `i`th of the moves of `trace`, is the move the search picks for
/// `stone` on `cells` with `depth` to search: the candidates, in the order
/// tried (each an empty cell that completes five when `stone` can, and
/// otherwise blocks the opponent's five when it must), were all searched as
/// `root_searched` says, and `p` is the first whose value is highest.
pub open spec fn picked(
    room: nat,
    trace: SearchTrace,
    cells: Seq<Stone>,
    stone: Stone,
    depth: u32,
    i: int,
    p: PositionId,
) -> bool {
    let n = trace.values.len() as int;
    &&& trace.moves.len() == n
    &&& trace.tables.len() == n + 1
    &&& trace.replies.len() == n
    &&& playable(cells, trace.moves)
    &&& forall|k: int| 0 <= k < n ==> tactical(cells, stone, #[trigger] trace.moves[k])
    &&& situation_of(cells, stone) == Situation::Develop ==> forall|q: PositionId|
        #[trigger] trace.moves.contains(q) <==> developing_cell(cells, q)
    &&& root_searched(room, trace, cells, stone, depth, n)
    &&& first_best(trace.values, i)
    &&& p == trace.moves[i]
}

/// The best of `start` and `values`.
pub open spec fn best_after(start: int, values: Seq<int>) -> int
    decreases values.len(),
{
    if values.len() == 0 {
        start
    } else {
        let prior = best_after(start, values.drop_last());
        if values.last() > prior {
            values.last()
        } else {
            prior
        }
    }
}

/// What `table` holds for `hash` searched to at least `depth`: a stored
/// value and how it bounds the true one.
pub open spec fn table_word(table: Seq<TtEntry>, hash: u64, depth: u32) -> Option<(Score, Bound)> {
    match probe_entry(table[slot_of(hash)], hash, depth) {
        Some((_, word)) => word,
        None => None,
    }
}

/// A stored value, kept negatable.
pub open spec fn stored_points(score: Score) -> int {
    if score.0 < -i32::MAX {
        -i32::MAX
    } else {
        score.0 as int
    }
}

/// The lower end of the window `alpha..` once the table's word is taken in.
pub open spec fn narrowed_low(word: Option<(Score, Bound)>, alpha: Score) -> int {
    match word {
        Some((s, Bound::Lower)) => if stored_points(s) > alpha.0 {
            stored_points(s)
        } else {
            alpha.0 as int
        },
        _ => alpha.0 as int,
    }
}

/// The upper end of the window `..beta` once the table's word is taken in.
pub open spec fn narrowed_high(word: Option<(Score, Bound)>, beta: Score) -> int {
    match word {
        Some((s, Bound::Upper)) => if stored_points(s) < beta.0 {
            stored_points(s)
        } else {
            beta.0 as int
        },
        _ => beta.0 as int,
    }
}

/// The depth a move costs the side to move in `situation`: nothing for a
/// block of a four, a third of a move for a forced answer to an unstoppable
/// four in the making, a whole move otherwise.
pub open spec fn move_cost(situation: Situation, forced: bool) -> u32 {
    if situation == Situation::BlockFour {
        0
    } else if situation == Situation::PreventUnstoppableFour && forced {
        1
    } else {
        3
    }
}

/// What is left of `depth` after spending `cost`, never below zero.
pub open spec fn depth_after(depth: u32, cost: u32) -> u32 {
    if depth >= cost {
        (depth - cost) as u32
    } else {
        0
    }
}

/// `table` once a search with `depth` left has recorded `score` for `hash`,
/// with its bound and best move; a search with no depth left records
/// nothing.
pub open spec fn recorded(
    table: Seq<TtEntry>,
    depth: u32,
    hash: u64,
    score: int,
    bound: Bound,
    best_move: Option<PositionId>,
) -> Seq<TtEntry> {
    if depth > 0 {
        table.update(slot_of(hash), entry_for(hash, depth, Score(score as i32), bound, best_move))
    } else {
        table
    }
}

/// The move of `moves` that last raised the best of `values` above `low`.
pub open spec fn raising_move(low: int, moves: Seq<PositionId>, values: Seq<int>) -> Option<PositionId>
    decreases values.len(),
{
    if values.len() == 0 {
        None
    } else if values.last() > best_after(low, values.drop_last()) {
        Some(moves[values.len() - 1])
    } else {
        raising_move(low, moves, values.drop_last())
    }
}

/// How a search went, as far as its value needs: the moves it tried, in
/// order, of which the first `forced` answered a four or an unstoppable
/// four; the value each gave; the table before each and after the last; and
/// how the search of each reply went.
pub struct SearchTrace {
    pub moves: Seq<PositionId>,
    pub forced: int,
    pub values: Seq<int>,
    pub tables: Seq<Seq<TtEntry>>,
    pub replies: Seq<SearchTrace>,
}

/// A trace of no moves, for a search decided before any is tried.
pub open spec fn no_trace() -> SearchTrace {
    SearchTrace { moves: Seq::empty(), forced: 0, values: Seq::empty(), tables: Seq::empty(), replies: Seq::empty() }
}

/// What the search gives `stone` for the position `placed` it just made,
/// with `outcome` the outcome its stone brought, `depth` left for the
/// opponent's reply, and the table going from `before` to `after`: nothing
/// for a draw, a win for a five, otherwise the opponent's search of `placed`
/// in the window `-beta..-alpha`, going as `trace` says, negated. `room` is
/// the empty cells left on `placed`.
pub open spec fn reply_value(
    room: nat,
    trace: SearchTrace,
    before: Seq<TtEntry>,
    placed: Seq<Stone>,
    outcome: Option<Outcome>,
    stone: Stone,
    depth: u32,
    raw: Score,
    alpha: int,
    beta: int,
    value: int,
    after: Seq<TtEntry>,
) -> bool
    decreases room, 4int, 0int,
{
    match outcome {
        Some(Outcome::Draw) => value == 0 && after == before,
        Some(_) => value == win_points() - stone_count(placed) && after == before,
        None => search_value(
            room,
            trace,
            before,
            placed,
            stone.spec_opponent(),
            depth,
            raw,
            Score((-beta) as i32),
            Score((-alpha) as i32),
            -value,
            after,
        ),
    }
}

/// What `table` says of `cells` searched to `depth`: nothing when no depth
/// is left, since a leaf's value depends on the position before it.
pub open spec fn probe_word(table: Seq<TtEntry>, cells: Seq<Stone>, depth: u32) -> Option<(Score, Bound)> {
    if depth > 0 {
        table_word(table, hash_of(cells, zobrist_keys(), 225), depth)
    } else {
        None
    }
}

/// What the search gives `stone`, about to move on `cells` with `depth`
/// left, in the window `alpha..beta`, with the table going from `before` to
/// `after`, when it goes as `trace` says; `parent_raw` is the static value of
/// the position before, for `stone`'s opponent, and `room` the empty cells
/// left.
///
/// A five to complete, an unstoppable four to make or a win by threats
/// (`threat_win`) decide at once. With no depth left, a quiet position has
/// its static value averaged with `parent_raw`, or a win by continuous fours
/// below `beta` (`horizon_value`), and a side facing an unstoppable four wins
/// if it has a win by continuous fours. Otherwise, with depth left, the
/// table's word for the position is taken in: an exact value is returned,
/// and bounds that close the window return its high end. What is left is
/// searched: see `moves_searched`.
pub open spec fn search_value(
    room: nat,
    trace: SearchTrace,
    before: Seq<TtEntry>,
    cells: Seq<Stone>,
    stone: Stone,
    depth: u32,
    parent_raw: Score,
    alpha: Score,
    beta: Score,
    value: int,
    after: Seq<TtEntry>,
) -> bool
    decreases room, 3int, 0int,
{
    let count = stone_count(cells);
    let situation = situation_of(cells, stone);
    let leaf = half_toward_zero(evaluation_of(cells, stone) - parent_raw.0);
    let fours = fours_search(cells, stone, None, VCF_PLIES as nat);
    let word = probe_word(before, cells, depth);
    let low = narrowed_low(word, alpha);
    let high = narrowed_high(word, beta);
    if situation == Situation::CompleteFive {
        value == win_points() - (count + 1) && after == before
    } else if situation == Situation::MakeUnstoppableFour {
        value == win_points() - (count + 3) && after == before
    } else if (situation == Situation::Develop || situation == Situation::PreventUnstoppableFour) && threat_win(
        cells,
        stone,
    ) {
        value == win_points() - (count + 5) && after == before
    } else if depth == 0 && situation == Situation::Develop {
        value == horizon_value(cells, stone, leaf, beta) && after == before
    } else if depth == 0 && situation == Situation::PreventUnstoppableFour && fours is Some {
        value == fours.unwrap().0 && after == before
    } else if word is Some && word.unwrap().1 == Bound::Exact {
        value == stored_points(word.unwrap().0) && after == before
    } else if word is Some && low >= high {
        value == high && after == before
    } else {
        moves_searched(room, trace, before, cells, stone, depth, parent_raw, alpha, low, high, value, after)
    }
}

/// `stone`'s move `m` on `cells`, its reply searched to `depth` as `reply`
/// says from the table `before` to the table `after` in the window
/// `alpha..beta`, gave `value`.
pub open spec fn child_reply(
    room: nat,
    reply: SearchTrace,
    before: Seq<TtEntry>,
    after: Seq<TtEntry>,
    cells: Seq<Stone>,
    stone: Stone,
    depth: u32,
    m: PositionId,
    alpha: int,
    beta: int,
    value: int,
) -> bool
    decreases room, 0int, 0int,
{
    let placed = cells.update(m.idx(), stone);
    room > 0 && reply_value(
        (room - 1) as nat,
        reply,
        before,
        placed,
        outcome_after(placed, m, stone),
        stone,
        depth,
        Score(evaluation_of(cells, stone) as i32),
        alpha,
        beta,
        value,
        after,
    )
}

/// Each of the first `n` moves of the trace, searched in the window from
/// the best of the values before it (from `low`) to `high`, gave its value.
pub open spec fn children_searched(
    room: nat,
    trace: SearchTrace,
    cells: Seq<Stone>,
    stone: Stone,
    depth: u32,
    low: int,
    high: int,
    n: int,
) -> bool
    decreases room, 1int, n,
{
    if n <= 0 {
        true
    } else {
        &&& children_searched(room, trace, cells, stone, depth, low, high, n - 1)
        &&& child_reply(
            room,
            trace.replies[n - 1],
            trace.tables[n - 1],
            trace.tables[n],
            cells,
            stone,
            depth_after(depth, move_cost(situation_of(cells, stone), n - 1 < trace.forced)),
            trace.moves[n - 1],
            best_after(low, trace.values.take(n - 1)),
            high,
            trace.values[n - 1],
        )
    }
}

/// The moves searched for `stone` on `cells` in the window `low..high`
/// (narrowed from `alpha..`), as `trace` says: empty cells, of which the
/// first `forced` answer a four or an unstoppable four; with no depth left
/// only those are searched. The search stops at the first value that reaches
/// `high`, which it returns and records as a lower bound; else it returns the
/// best value from `low` and records it as exact when it rose above `alpha`,
/// as an upper bound when it did not. With nothing to search the position's
/// static value averaged with `parent_raw` is returned.
pub open spec fn moves_searched(
    room: nat,
    trace: SearchTrace,
    before: Seq<TtEntry>,
    cells: Seq<Stone>,
    stone: Stone,
    depth: u32,
    parent_raw: Score,
    alpha: Score,
    low: int,
    high: int,
    value: int,
    after: Seq<TtEntry>,
) -> bool
    decreases room, 2int, 0int,
{
    let situation = situation_of(cells, stone);
    let moves = trace.moves;
    let forced = trace.forced;
    let values = trace.values;
    let tables = trace.tables;
    let searched = if depth == 0 {
        forced
    } else {
        moves.len() as int
    };
    let hash = hash_of(cells, zobrist_keys(), 225);
    let n = values.len() as int;
    &&& playable(cells, moves)
    &&& 0 <= forced <= moves.len()
    &&& situation == Situation::BlockFour ==> forced == moves.len() && moves == cells_with_threat(
        threat_map_of(cells, stone.spec_opponent()),
        Threat::Five,
        225,
    )
    &&& situation == Situation::PreventUnstoppableFour ==> forced > 0
    &&& situation == Situation::Develop ==> forall|p: PositionId| #[trigger] moves.contains(p) <==> developing_cell(cells, p)
    &&& !crate::board::all_occupied(cells) ==> moves.len() > 0
    &&& tables.len() == n + 1
    &&& trace.replies.len() == n
    &&& tables[0] == before
    &&& n <= searched
    &&& forall|k: int| 0 <= k < n - 1 ==> #[trigger] values[k] < high
    &&& children_searched(room, trace, cells, stone, depth, low, high, n)
    &&& if searched == 0 {
        value == half_toward_zero(evaluation_of(cells, stone) - parent_raw.0) && after == before
    } else if n > 0 && values[n - 1] >= high {
        value == high && after == recorded(tables[n], depth, hash, high, Bound::Lower, Some(moves[n - 1]))
    } else {
        &&& n == searched
        &&& value == best_after(low, values)
        &&& after == recorded(
            tables[n],
            depth,
            hash,
            value,
            if value > alpha.0 {
                Bound::Exact
            } else {
                Bound::Upper
            },
            raising_move(low, moves, values),
        )
    }
}

/// Extending a trace keeps what its first `n` moves gave.
proof fn lemma_children_extend(
    room: nat,
    trace: SearchTrace,
    longer: SearchTrace,
    cells: Seq<Stone>,
    stone: Stone,
    depth: u32,
    low: int,
    high: int,
    n: int,
)
    requires
        children_searched(room, trace, cells, stone, depth, low, high, n),
        0 <= n <= trace.values.len() <= longer.values.len(),
        trace.replies.len() >= n,
        trace.tables.len() > n,
        longer.moves == trace.moves,
        longer.forced == trace.forced,
        longer.values.take(trace.values.len() as int) == trace.values,
        longer.tables.len() > n,
        forall|k: int| 0 <= k <= n ==> #[trigger] longer.tables[k] == trace.tables[k],
        longer.replies.len() >= n,
        forall|k: int| 0 <= k < n ==> #[trigger] longer.replies[k] == trace.replies[k],
    ensures
        children_searched(room, longer, cells, stone, depth, low, high, n),
    decreases n,
{
    if n > 0 {
        lemma_children_extend(room, trace, longer, cells, stone, depth, low, high, n - 1);
        assert(longer.values.take(n - 1) =~= trace.values.take(n - 1)) by {
            assert forall|j: int| 0 <= j < n - 1 implies longer.values[j] == trace.values[j] by {
                assert(longer.values.take(trace.values.len() as int)[j] == longer.values[j]);
            }
        }
        assert(longer.values[n - 1] == trace.values[n - 1]) by {
            assert(longer.values.take(trace.values.len() as int)[n - 1] == longer.values[n - 1]);
        }
        assert(longer.tables[n - 1] == trace.tables[n - 1]);
        assert(longer.tables[n] == trace.tables[n]);
        assert(longer.replies[n - 1] == trace.replies[n - 1]);
    }
}

/// A search that neither decides at once nor stops at the table gives what
/// its moves give.
proof fn lemma_searched_gives(
    room: nat,
    trace: SearchTrace,
    before: Seq<TtEntry>,
    cells: Seq<Stone>,
    stone: Stone,
    depth: u32,
    parent_raw: Score,
    alpha: Score,
    beta: Score,
    value: int,
    after: Seq<TtEntry>,
)
    requires
        situation_of(cells, stone) != Situation::CompleteFive,
        situation_of(cells, stone) != Situation::MakeUnstoppableFour,
        situation_of(cells, stone) == Situation::Develop || situation_of(cells, stone)
            == Situation::PreventUnstoppableFour ==> !threat_win(cells, stone),
        depth == 0 ==> situation_of(cells, stone) != Situation::Develop,
        depth == 0 && situation_of(cells, stone) == Situation::PreventUnstoppableFour ==> fours_search(
            cells,
            stone,
            None,
            VCF_PLIES as nat,
        ) is None,
        !(probe_word(before, cells, depth) is Some && probe_word(before, cells, depth).unwrap().1 == Bound::Exact),
        !(probe_word(before, cells, depth) is Some && narrowed_low(probe_word(before, cells, depth), alpha)
            >= narrowed_high(probe_word(before, cells, depth), beta)),
        moves_searched(
            room,
            trace,
            before,
            cells,
            stone,
            depth,
            parent_raw,
            alpha,
            narrowed_low(probe_word(before, cells, depth), alpha),
            narrowed_high(probe_word(before, cells, depth), beta),
            value,
            after,
        ),
    ensures
        search_value(room, trace, before, cells, stone, depth, parent_raw, alpha, beta, value, after),
{
}

/// A score a search finds for a won position: within a few moves of the
/// win score.
pub open spec fn is_win(score: Score) -> bool {
    win_points() - 230 <= score.0 <= win_points()
}

/// The win score for a five completed with the stone after `count` stones.
pub open spec fn win_score_at(count: nat) -> Score {
    Score((win_points() - count) as i32)
}

/// What a search for a win by fours alone finds for `attacker`, about to
/// move on `cells`, within `plies` stones; `previous` is the attacker's last
/// four, whose reach bounds the next one. A five to complete or an
/// unstoppable four wins outright; a four of the defender must be blocked
/// by a four; otherwise each four-making cell in index order is tried.
pub open spec fn fours_search(cells: Seq<Stone>, attacker: Stone, previous: Option<PositionId>, plies: nat) -> Option<Score>
    decreases 225 - stone_count(cells), 2int, 0int,
{
    let own = threat_map_of(cells, attacker);
    let opponent = threat_map_of(cells, attacker.spec_opponent());
    match situation_of(cells, attacker) {
        Situation::CompleteFive => Some(win_score_at(stone_count(cells) + 1)),
        Situation::MakeUnstoppableFour => Some(win_score_at(stone_count(cells) + 3)),
        Situation::BlockFour => {
            let blocks = cells_with_threat(opponent, Threat::Five, 225);
            if blocks.len() == 1 && makes_a_four(own[blocks[0].idx()]) {
                fours_after(cells, attacker, blocks[0], plies)
            } else {
                None
            }
        },
        _ => if plies == 0 {
            None
        } else {
            fours_try(cells, attacker, previous, plies, four_cells(own, 225), 0)
        },
    }
}

/// The first win `fours_after` finds from the cells of `fours` starting at
/// the `k`th, skipping those out of reach of `previous`.
pub open spec fn fours_try(
    cells: Seq<Stone>,
    attacker: Stone,
    previous: Option<PositionId>,
    plies: nat,
    fours: Seq<PositionId>,
    k: int,
) -> Option<Score>
    decreases 225 - stone_count(cells), 1int, fours.len() - k,
{
    if k < 0 || k >= fours.len() {
        None
    } else {
        let cell = fours[k];
        let nearby = match previous {
            Some(p) => within_reach(p, cell),
            None => true,
        };
        if nearby && fours_after(cells, attacker, cell, plies) is Some {
            fours_after(cells, attacker, cell, plies)
        } else {
            fours_try(cells, attacker, previous, plies, fours, k + 1)
        }
    }
}

/// What the search finds after `attacker` plays its four at `cell` and the
/// defender takes the first cell that completes it: nothing if the four
/// ended the game, fewer than two stones remain, or the block ended it.
pub open spec fn fours_after(cells: Seq<Stone>, attacker: Stone, cell: PositionId, plies: nat) -> Option<Score>
    decreases 225 - stone_count(cells), 0int, 0int,
{
    let defender = attacker.spec_opponent();
    if !(cells.len() == 225 && attacker.is_colour() && cell.valid() && cells[cell.idx()] == Stone::Empty) {
        None
    } else {
        let placed = cells.update(cell.idx(), attacker);
        if outcome_after(placed, cell, attacker).is_some() || plies < 2 {
            None
        } else {
            let blocks = cells_with_threat(threat_map_of(placed, attacker), Threat::Five, 225);
            if blocks.len() == 0 || !(blocks[0].valid() && placed[blocks[0].idx()] == Stone::Empty) {
                None
            } else {
                let block = blocks[0];
                let blocked = placed.update(block.idx(), defender);
                if outcome_after(blocked, block, defender).is_some() {
                    None
                } else {
                    proof {
                        crate::board::lemma_stone_count_update(cells, cell.idx(), attacker);
                        crate::board::lemma_stone_count_update(placed, block.idx(), defender);
                        crate::board::lemma_stone_count_full(blocked);
                    }
                    fours_search(blocked, attacker, Some(cell), (plies - 2) as nat)
                }
            }
        }
    }
}

impl Search {
    /// Whether `attacker`, about to move, wins by fours alone within `plies`
    /// stones. Every attacking stone must make a four; the defender's block
    /// is forced; a block that makes a four back must itself be answered
    /// with a four. After the first stone only fours within reach of the
    /// previous attacking stone are tried.
    fn continuous_fours(
        &mut self,
        state: &mut SearchState,
        attacker: Stone,
        previous: Option<PositionId>,
        plies: u32,
    ) -> (result: Option<Score>)
        requires
            old(self).wf(),
            old(state).wf(),
            old(state).spec_outcome().is_none(),
            attacker.is_colour(),
        ensures
            final(self).wf(),
            final(self).killer_depths() == old(self).killer_depths(),
            final(state).same_position(old(state)),
            result matches Some(s) ==> is_win(s),
            result == fours_search(old(state).cells(), attacker, previous, plies as nat),
        decreases 225 - old(state).spec_move_count(), 1nat,
    {
        proof {
            state.lemma_cells();
        }
        self.count_node();
        let defender = attacker.opponent();
        let own = threat_map(&self.table, state, attacker);
        let opponent = threat_map(&self.table, state, defender);
        let situation = situation(&own, &opponent, Ghost(state.cells()), attacker);
        match situation {
            Situation::CompleteFive => {
                return Some(Score::win_at_depth(state.move_count() + 1));
            },
            Situation::MakeUnstoppableFour => {
                return Some(Score::win_at_depth(state.move_count() + 3));
            },
            Situation::BlockFour => {
                // The last block made a four back: only a four of our own
                // that blocks it keeps the sequence going.
                let blocks = cells_with(&opponent, Threat::Five);
                if blocks.len() != 1 {
                    return None;
                }
                let block = blocks[0];
                proof {
                    lemma_threat_cell_is_empty(state.cells(), defender, block);
                }
                if !makes_a_four_exec(own[block.to_index()]) {
                    return None;
                }
                proof {
                    crate::board::lemma_stone_count_full(state.cells());
                }
                return self.continuous_fours_after(state, attacker, block, plies);
            },
            _ => {},
        }
        if plies == 0 {
            return None;
        }
        let fours = four_making_cells(&own);
        let mut k: usize = 0;
        while k < fours.len()
            invariant
                k <= fours@.len(),
                self.wf(),
                self.killer_depths() == old(self).killer_depths(),
                state.same_position(old(state)),
                old(state).wf(),
                old(state).spec_outcome().is_none(),
                attacker.is_colour(),
                own@ == threat_map_of(old(state).cells(), attacker),
                forall|i: int|
                    0 <= i < fours@.len() ==> (#[trigger] fours@[i]).valid() && makes_a_four(own@[fours@[i].idx()]),
                plies > 0,
                fours@ == four_cells(own@, 225),
                fours_search(old(state).cells(), attacker, previous, plies as nat) == fours_try(
                    old(state).cells(),
                    attacker,
                    previous,
                    plies as nat,
                    fours@,
                    k as int,
                ),
            decreases fours@.len() - k,
        {
            let cell = fours[k];
            let nearby = match previous {
                Some(p) => within_reach_exec(p, cell),
                None => true,
            };
            if nearby {
                proof {
                    lemma_threat_cell_is_empty(state.cells(), attacker, cell);
                    state.lemma_cells();
                    old(state).lemma_cells();
                    crate::board::lemma_stone_count_full(state.cells());
                }
                let found = self.continuous_fours_after(state, attacker, cell, plies);
                if found.is_some() {
                    return found;
                }
            }
            k = k + 1;
        }
        None
    }

    /// Plays the attacker's four at `cell` and the defender's forced block,
    /// then carries the search on.
    fn continuous_fours_after(
        &mut self,
        state: &mut SearchState,
        attacker: Stone,
        cell: PositionId,
        plies: u32,
    ) -> (result: Option<Score>)
        requires
            old(self).wf(),
            old(state).wf(),
            old(state).spec_outcome().is_none(),
            attacker.is_colour(),
            cell.valid(),
            old(state).cells()[cell.idx()] == Stone::Empty,
        ensures
            final(self).wf(),
            final(self).killer_depths() == old(self).killer_depths(),
            final(state).same_position(old(state)),
            result matches Some(s) ==> is_win(s),
            result == fours_after(old(state).cells(), attacker, cell, plies as nat),
        decreases 225 - old(state).spec_move_count(), 0nat,
    {
        let defender = attacker.opponent();
        let ghost before = *state;
        proof {
            state.lemma_cells();
            crate::board::lemma_stone_count_update(state.cells(), cell.idx(), attacker);
        }
        state.place(cell, attacker);
        let mut result: Option<Score> = None;
        if state.outcome().is_none() && plies >= 2 {
            let own = threat_map(&self.table, state, attacker);
            let blocks = cells_with(&own, Threat::Five);
            if blocks.len() > 0 {
                let block = blocks[0];
                let ghost placed = *state;
                proof {
                    state.lemma_cells();
                    lemma_threat_cell_is_empty(state.cells(), attacker, block);
                    crate::board::lemma_stone_count_update(state.cells(), block.idx(), defender);
                }
                state.place(block, defender);
                if state.outcome().is_none() {
                    proof {
                        state.lemma_cells();
                        crate::board::lemma_stone_count_full(state.cells());
                    }
                    result = self.continuous_fours(state, attacker, Some(cell), plies - 2);
                }
                state.undo(block, defender);
                proof {
                    place_then_undo_restores(placed.cells(), placed.spec_hash(), placed.spec_keys()[2 * block.idx() + defender.spec_side()], block, defender);
                }
            }
        }
        state.undo(cell, attacker);
        proof {
            place_then_undo_restores(before.cells(), before.spec_hash(), before.spec_keys()[2 * cell.idx() + attacker.spec_side()], cell, attacker);
        }
        result
    }
}

fn makes_a_four_exec(threat: Threat) -> (result: bool)
    ensures
        result == makes_a_four(threat),
{
    let rank = threat.index();
    8 <= rank && rank <= 10
}

/// The cells where a stone makes a four, short of five or an unstoppable
/// four.
fn four_making_cells(map: &Vec<Threat>) -> (result: Vec<PositionId>)
    requires
        map@.len() == 225,
    ensures
        result@ == four_cells(map@, 225),
        forall|i: int| 0 <= i < result@.len() ==> (#[trigger] result@[i]).valid() && makes_a_four(map@[result@[i].idx()]),
{
    let mut result: Vec<PositionId> = Vec::new();
    let mut index: usize = 0;
    while index < 225
        invariant
            index <= 225,
            map@.len() == 225,
            forall|i: int| 0 <= i < result@.len() ==> (#[trigger] result@[i]).valid() && makes_a_four(map@[result@[i].idx()]),
            result@ == four_cells(map@, index as int),
        decreases 225 - index,
    {
        if makes_a_four_exec(map[index]) {
            result.push(cell(index));
        }
        index = index + 1;
    }
    result
}

impl Search {
    /// Scores the current `state`, where `stone` just played, from `stone`'s
    /// perspective: a finished game by its outcome, anything else by searching
    /// the opponent's reply to `child_depth` inside the window `alpha..beta`.
    /// `raw` is the static evaluation for `stone` before it played, which a
    /// leaf averages with its own.
    fn score_after_place(
        &mut self,
        tt: &mut TranspositionTable,
        state: &mut SearchState,
        stone: Stone,
        child_depth: Depth,
        raw: Score,
        alpha: Score,
        beta: Score,
    ) -> (result: Score)
        requires
            old(self).wf(),
            old(tt).wf(),
            old(state).wf(),
            stone.is_colour(),
            child_depth.0 < old(self).killer_depths(),
            child_depth.0 <= 255,
            in_range(raw),
            in_range(alpha),
            in_range(beta),
        ensures
            final(self).wf(),
            final(self).killer_depths() == old(self).killer_depths(),
            final(tt).wf(),
            final(state).same_position(old(state)),
            in_range(result),
            old(state).spec_outcome() == Some(Outcome::Draw) ==> result.0 == 0,
            old(state).spec_outcome() matches Some(o) && o != Outcome::Draw ==> result.0 == win_points()
                - old(state).spec_move_count(),
            old(state).spec_outcome() is None && situation_of(old(state).cells(), stone.spec_opponent())
                == Situation::CompleteFive ==> result.0 == -(win_points() - (old(state).spec_move_count() + 1)),
            old(state).spec_outcome() is None && situation_of(old(state).cells(), stone.spec_opponent())
                == Situation::MakeUnstoppableFour ==> result.0 == -(win_points() - (old(state).spec_move_count() + 3)),
            exists|trace: SearchTrace| #[trigger] reply_value(
                (225 - stone_count(old(state).cells())) as nat,
                trace,
                old(tt)@,
                old(state).cells(),
                old(state).spec_outcome(),
                stone,
                child_depth.0,
                raw,
                alpha.0 as int,
                beta.0 as int,
                result.0 as int,
                final(tt)@,
            ),
            child_depth.0 == 0 && old(state).spec_outcome() is None && situation_of(
                old(state).cells(),
                stone.spec_opponent(),
            ) == Situation::BlockFour && every_block_loses(old(state).cells(), stone.spec_opponent()) ==> result.0
                == -within_window(
                -(win_points() - (old(state).spec_move_count() + 2)),
                -beta.0,
                -alpha.0,
            ),
        decreases 225 - old(state).spec_move_count(), 1nat,
    {
        proof {
            state.lemma_cells();
            crate::board::lemma_stone_count_full(state.cells());
        }
        let ghost room: nat = (225 - stone_count(old(state).cells())) as nat;
        match state.outcome() {
            Some(Outcome::Draw) => {
                let draw = Score::DRAW();
                proof {
                    assert(reply_value(room, no_trace(), old(tt)@, old(state).cells(), old(state).spec_outcome(), stone, child_depth.0, raw, alpha.0 as int, beta.0 as int, draw.0 as int, tt@));
                }
                draw
            },
            Some(_) => {
                let win = Score::win_at_depth(state.move_count());
                proof {
                    assert(reply_value(room, no_trace(), old(tt)@, old(state).cells(), old(state).spec_outcome(), stone, child_depth.0, raw, alpha.0 as int, beta.0 as int, win.0 as int, tt@));
                }
                win
            },
            None => {
                let low = negate(beta);
                let high = negate(alpha);
                proof {
                    assert(low == Score((-(beta.0 as int)) as i32));
                    assert(high == Score((-(alpha.0 as int)) as i32));
                }
                let reply = self.negamax(tt, state, child_depth, raw, low, high, stone.opponent());
                let result = negate(reply);
                proof {
                    let trace = choose|trace: SearchTrace| #[trigger] search_value(room, trace, old(tt)@, old(state).cells(), stone.spec_opponent(), child_depth.0, raw, low, high, reply.0 as int, tt@);
                    assert(reply_value(room, trace, old(tt)@, old(state).cells(), old(state).spec_outcome(), stone, child_depth.0, raw, alpha.0 as int, beta.0 as int, result.0 as int, tt@));
                }
                result
            },
        }
    }

    /// Scores the position for `stone`, who is about to move, with `depth`
    /// left to search.
    ///
    /// A four on the board, or a cell that makes an unstoppable four, decides
    /// what happens next, so such positions are never scored statically: a
    /// side that can complete five or make an unstoppable four has already
    /// won, and a side that must block or prevent one gets its forced replies
    /// searched even when the depth has run out. Only a position with nothing
    /// forced is a leaf then.
    #[verifier::rlimit(50)]
    fn negamax(
        &mut self,
        tt: &mut TranspositionTable,
        state: &mut SearchState,
        depth: Depth,
        parent_raw: Score,
        alpha: Score,
        beta: Score,
        stone: Stone,
    ) -> (result: Score)
        requires
            old(self).wf(),
            old(tt).wf(),
            old(state).wf(),
            old(state).spec_outcome().is_none(),
            stone.is_colour(),
            depth.0 < old(self).killer_depths(),
            depth.0 <= 255,
            in_range(parent_raw),
            in_range(alpha),
            in_range(beta),
        ensures
            final(self).wf(),
            final(self).killer_depths() == old(self).killer_depths(),
            final(tt).wf(),
            final(state).same_position(old(state)),
            in_range(result),
            situation_of(old(state).cells(), stone) == Situation::CompleteFive ==> result.0 == win_points() - (
            old(state).spec_move_count() + 1),
            situation_of(old(state).cells(), stone) == Situation::MakeUnstoppableFour ==> result.0 == win_points()
                - (old(state).spec_move_count() + 3),
            depth.0 == 0 && situation_of(old(state).cells(), stone) == Situation::Develop ==> is_win(result)
                || result.0 == half_toward_zero(evaluation_of(old(state).cells(), stone) - parent_raw.0),
            depth.0 == 0 && situation_of(old(state).cells(), stone) == Situation::Develop && !has_threat(
                old(state).cells(),
                stone,
                Threat::FourAndOpenThree,
            ) && !has_threat(old(state).cells(), stone, Threat::TwoOpenThrees) ==> result.0 == horizon_value(
                old(state).cells(),
                stone,
                half_toward_zero(evaluation_of(old(state).cells(), stone) - parent_raw.0),
                beta,
            ),
            exists|trace: SearchTrace| #[trigger] search_value(
                (225 - stone_count(old(state).cells())) as nat,
                trace,
                old(tt)@,
                old(state).cells(),
                stone,
                depth.0,
                parent_raw,
                alpha,
                beta,
                result.0 as int,
                final(tt)@,
            ),
            depth.0 == 0 && situation_of(old(state).cells(), stone) == Situation::BlockFour && every_block_loses(
                old(state).cells(),
                stone,
            ) ==> result.0 == within_window(
                -(win_points() - (old(state).spec_move_count() + 2)),
                alpha.0 as int,
                beta.0 as int,
            ),
        decreases 225 - old(state).spec_move_count(), 0nat,
    {
        proof {
            state.lemma_cells();
            crate::board::lemma_stone_count_full(state.cells());
        }
        let ghost cells = old(state).cells();
        let ghost room: nat = (225 - stone_count(cells)) as nat;
        self.count_node();
        let opponent_stone = stone.opponent();
        let own = threat_map(&self.table, state, stone);
        let opponent = threat_map(&self.table, state, opponent_stone);
        let situation = situation(&own, &opponent, Ghost(state.cells()), stone);
        if situation == Situation::CompleteFive {
            let decided = Score::win_at_depth(state.move_count() + 1);
            proof {
                assert(search_value(room, no_trace(), old(tt)@, cells, stone, depth.0, parent_raw, alpha, beta, decided.0 as int, tt@));
            }
            return decided;
        }
        // An unstoppable four now, any reply, then five: nothing the
        // opponent does matters because it has no four to complete first.
        if situation == Situation::MakeUnstoppableFour {
            let decided = Score::win_at_depth(state.move_count() + 3);
            proof {
                assert(search_value(room, no_trace(), old(tt)@, cells, stone, depth.0, parent_raw, alpha, beta, decided.0 as int, tt@));
            }
            return decided;
        }
        if situation == Situation::Develop || situation == Situation::PreventUnstoppableFour {
            let win = self.win_by_threats_with(state, stone, &own, &opponent);
            if let Some(win) = win {
                let decided = win;
                proof {
                    assert(search_value(room, no_trace(), old(tt)@, cells, stone, depth.0, parent_raw, alpha, beta, decided.0 as int, tt@));
                }
                return decided;
            }
        }
        if depth.0 == 0 {
            if situation == Situation::Develop {
                // Below beta the side to move first gets to try a victory by
                // continuous fours, which no static value sees.
                let value = Self::leaf_value(state, stone, parent_raw);
                if value.0 < beta.0 {
                    let win = self.continuous_fours(state, stone, None, VCF_PLIES);
                    if let Some(win) = win {
                        let decided = win;
                        proof {
                            assert(search_value(room, no_trace(), old(tt)@, cells, stone, depth.0, parent_raw, alpha, beta, decided.0 as int, tt@));
                        }
                        return decided;
                    }
                }
                let decided = value;
                proof {
                    assert(search_value(room, no_trace(), old(tt)@, cells, stone, depth.0, parent_raw, alpha, beta, decided.0 as int, tt@));
                }
                return decided;
            }
            // At the horizon a threatened side may still win by fours of its
            // own: each forces a block, so the threat never gets carried out.
            if situation == Situation::PreventUnstoppableFour {
                let win = self.continuous_fours(state, stone, None, VCF_PLIES);
                if let Some(win) = win {
                    let decided = win;
                    proof {
                        assert(search_value(room, no_trace(), old(tt)@, cells, stone, depth.0, parent_raw, alpha, beta, decided.0 as int, tt@));
                    }
                    return decided;
                }
            }
        }
        let alpha_orig = alpha;
        let beta_orig = beta;
        let mut low = alpha;
        let mut high = beta;
        let ghost word = table_word(old(tt)@, old(state).spec_hash(), depth.0);
        let ghost table_low = if depth.0 > 0 {
            narrowed_low(word, alpha)
        } else {
            alpha.0 as int
        };
        let ghost table_high = if depth.0 > 0 {
            narrowed_high(word, beta)
        } else {
            beta.0 as int
        };
        // A leaf's value depends on its parent, so only nodes with depth to
        // search below them, whose value is the position's own, use the
        // table. A shallower entry's best move is still the first to try.
        let mut hash_move: Option<PositionId> = None;
        if depth.0 > 0 {
            let probe = tt.probe(state.hash(), depth.0);
            proof {
                assert(probe_view(probe) == probe_entry(old(tt)@[slot_of(old(state).spec_hash())], old(state).spec_hash(), depth.0));
                assert(old(state).spec_hash() == hash_of(cells, zobrist_keys(), 225));
            }
            if let Some(probe) = probe {
                hash_move = probe.best_move;
                if let Some((stored, bound)) = probe.value {
                    let stored = if stored.0 < -i32::MAX {
                        Score(-i32::MAX)
                    } else {
                        stored
                    };
                    match bound {
                        Bound::Exact => {
                            proof {
                                assert(search_value(room, no_trace(), old(tt)@, cells, stone, depth.0, parent_raw, alpha, beta, stored.0 as int, tt@));
                            }
                            return stored;
                        },
                        Bound::Lower => {
                            if stored.0 > low.0 {
                                low = stored;
                            }
                        },
                        Bound::Upper => {
                            if stored.0 < high.0 {
                                high = stored;
                            }
                        },
                    }
                    if low.0 >= high.0 {
                        proof {
                            assert(search_value(room, no_trace(), old(tt)@, cells, stone, depth.0, parent_raw, alpha, beta, high.0 as int, tt@));
                        }
                        return high;
                    }
                }
            }
        }
        assert(low.0 == table_low && high.0 == table_high);
        assert(depth.0 > 0 ==> !(word is Some && word.unwrap().1 == Bound::Exact));
        let hash = state.hash();
        let (mut moves, forced) = self.candidates(state, stone, situation, &own, &opponent);
        // The horizon never cuts off a forced reply, so a position with a
        // four or an unstoppable four in the making is never scored
        // statically.
        let searched = if depth.0 == 0 {
            forced
        } else {
            moves.len()
        };
        proof {
            state.lemma_cells();
            crate::board::lemma_stone_count_full(state.cells());
        }
        if searched == 0 {
            let leaf = Self::leaf_value(state, stone, parent_raw);
            proof {
                let trace = SearchTrace {
                    moves: moves@,
                    forced: forced as int,
                    values: Seq::empty(),
                    tables: seq![old(tt)@],
                    replies: Seq::empty(),
                };
                assert(hash == hash_of(cells, zobrist_keys(), 225));
                assert(moves_searched(room, trace, old(tt)@, cells, stone, depth.0, parent_raw, alpha, table_low, table_high, leaf.0 as int, tt@));
                lemma_searched_gives(room, trace, old(tt)@, cells, stone, depth.0, parent_raw, alpha, beta, leaf.0 as int, tt@);
            }
            return leaf;
        }
        let raw = state.evaluate(stone);
        // Among the chosen moves, try the table's best move first, then the
        // killer moves.
        let killers = *self.killers.get(depth);
        let preferred = [hash_move, killers[0], killers[1]];
        let mut priority_end = forced;
        let mut j: usize = 0;
        let ghost listed = moves@;
        while j < 3
            invariant
                j <= 3,
                forced <= priority_end <= searched,
                searched <= moves@.len(),
                playable(old(state).cells(), moves@),
                moves@.len() == listed.len(),
                forall|k: int| 0 <= k < forced ==> #[trigger] moves@[k] == listed[k],
                forall|p: PositionId| #[trigger] moves@.contains(p) <==> listed.contains(p),
            decreases 3 - j,
        {
            if let Some(wanted) = preferred[j] {
                let mut idx = priority_end;
                let mut found = false;
                while idx < searched && !found
                    invariant
                        priority_end <= idx <= searched,
                        searched <= moves@.len(),
                        found ==> idx < searched,
                    decreases searched - idx + if found { 0int } else { 1int },
                {
                    if moves[idx] == wanted {
                        found = true;
                    } else {
                        idx = idx + 1;
                    }
                }
                if found && priority_end < searched {
                    let a = moves[priority_end];
                    let b = moves[idx];
                    let ghost before = moves@;
                    moves.set(priority_end, b);
                    moves.set(idx, a);
                    proof {
                        assert forall|p: PositionId| #[trigger] moves@.contains(p) <==> before.contains(p) by {
                            if moves@.contains(p) {
                                let k = choose|k: int| 0 <= k < moves@.len() && moves@[k] == p;
                                let m = if k == priority_end { idx as int } else if k == idx { priority_end as int } else { k };
                                assert(before[m] == p);
                            }
                            if before.contains(p) {
                                let k = choose|k: int| 0 <= k < before.len() && before[k] == p;
                                let m = if k == priority_end { idx as int } else if k == idx { priority_end as int } else { k };
                                assert(moves@[m] == p);
                            }
                        }
                    }
                    priority_end = priority_end + 1;
                }
            }
            j = j + 1;
        }
        proof {
            if situation == Situation::BlockFour {
                assert(moves@ =~= listed);
            }
        }
        let mut best_move: Option<PositionId> = None;
        let mut i: usize = 0;
        let ghost forced_loss = depth.0 == 0 && situation == Situation::BlockFour && every_block_loses(
            old(state).cells(),
            stone,
        );
        let ghost loss = -(win_points() - (old(state).spec_move_count() + 2));
        let ghost mut values: Seq<int> = Seq::empty();
        let ghost mut tables: Seq<Seq<TtEntry>> = seq![old(tt)@];
        let ghost mut replies: Seq<SearchTrace> = Seq::empty();
        proof {
            assert(hash == hash_of(cells, zobrist_keys(), 225));
            assert(raw == Score(evaluation_of(cells, stone) as i32));
            assert(probe_word(old(tt)@, cells, depth.0) == if depth.0 > 0 { word } else { None });
            let empty_trace = SearchTrace { moves: moves@, forced: forced as int, values, tables, replies };
            assert(children_searched(room, empty_trace, cells, stone, depth.0, table_low, table_high, 0));
        }
        while i < searched
            invariant
                cells == old(state).cells(),
                room == (225 - stone_count(cells)) as nat,
                hash == hash_of(cells, zobrist_keys(), 225),
                raw == Score(evaluation_of(cells, stone) as i32),
                table_low == narrowed_low(probe_word(old(tt)@, cells, depth.0), alpha),
                table_high == narrowed_high(probe_word(old(tt)@, cells, depth.0), beta),
                !(probe_word(old(tt)@, cells, depth.0) is Some && probe_word(old(tt)@, cells, depth.0).unwrap().1
                    == Bound::Exact),
                !(probe_word(old(tt)@, cells, depth.0) is Some && table_low >= table_high),
                situation == Situation::Develop || situation == Situation::PreventUnstoppableFour ==> !threat_win(
                    cells,
                    stone,
                ),
                depth.0 == 0 && situation == Situation::PreventUnstoppableFour ==> fours_search(
                    cells,
                    stone,
                    None,
                    VCF_PLIES as nat,
                ) is None,
                situation == Situation::BlockFour ==> forced == moves@.len() && moves@ == cells_with_threat(
                    threat_map_of(cells, stone.spec_opponent()),
                    Threat::Five,
                    225,
                ),
                situation == Situation::PreventUnstoppableFour ==> forced > 0,
                situation == Situation::Develop ==> forall|p: PositionId|
                    #[trigger] moves@.contains(p) <==> developing_cell(cells, p),
                !crate::board::all_occupied(cells) ==> moves@.len() > 0,
                searched as int == if depth.0 == 0 {
                    forced as int
                } else {
                    moves@.len() as int
                },
                tables.len() == i + 1,
                replies.len() == i,
                tables[0] == old(tt)@,
                tables[i as int] == tt@,
                children_searched(
                    room,
                    SearchTrace { moves: moves@, forced: forced as int, values, tables, replies },
                    cells,
                    stone,
                    depth.0,
                    table_low,
                    table_high,
                    i as int,
                ),
                best_move == raising_move(table_low, moves@, values),
                high.0 == table_high,
                values.len() == i,
                low.0 == best_after(table_low, values),
                forall|k: int| 0 <= k < i ==> #[trigger] values[k] < high.0,
                forced_loss == (depth.0 == 0 && situation == Situation::BlockFour && every_block_loses(
                    old(state).cells(),
                    stone,
                )),
                loss == -(win_points() - (old(state).spec_move_count() + 2)),
                alpha_orig == alpha,
                beta_orig == beta,
                forced_loss ==> {
                    &&& searched == forced
                    &&& high == beta_orig
                    &&& forall|k: int|
                        0 <= k < forced ==> threat_map_of(old(state).cells(), stone.spec_opponent())[(
                        #[trigger] moves@[k]).idx()] == Threat::Five
                    &&& i > 0 ==> loss < high.0
                    &&& low.0 == if i == 0 {
                        alpha_orig.0 as int
                    } else if loss > alpha_orig.0 {
                        loss
                    } else {
                        alpha_orig.0 as int
                    }
                },
                i <= searched,
                forced <= searched,
                searched <= moves@.len(),
                playable(old(state).cells(), moves@),
                self.wf(),
                self.killer_depths() == old(self).killer_depths(),
                tt.wf(),
                state.same_position(old(state)),
                old(state).wf(),
                old(state).spec_outcome().is_none(),
                stone.is_colour(),
                depth.0 < self.killer_depths(),
                depth.0 <= 255,
                in_range(raw),
                in_range(low),
                in_range(high),
                best_move matches Some(p) ==> p.valid(),
                situation == situation_of(old(state).cells(), stone),
                situation != Situation::CompleteFive,
                situation != Situation::MakeUnstoppableFour,
                depth.0 == 0 ==> situation != Situation::Develop,
            decreases searched - i,
        {
            let candidate = moves[i];
            let is_forced = i < forced;
            // A counter-four against an unstoppable four in the making is
            // charged like any other move, or a side with many fours
            // available could keep the tree growing without bound.
            let cost = if situation == Situation::BlockFour {
                Depth::ZERO()
            } else if situation == Situation::PreventUnstoppableFour && is_forced {
                Depth::THIRD()
            } else {
                Depth::MOVE()
            };
            let ghost before = *state;
            proof {
                state.lemma_cells();
                old(state).lemma_cells();
                crate::board::lemma_stone_count_update(state.cells(), candidate.idx(), stone);
                crate::board::lemma_stone_count_full(state.cells());
            }
            state.place(candidate, stone);
            proof {
                state.lemma_cells();
            }
            let ghost placed = *state;
            let ghost table_before = tt@;
            let child_depth = depth.minus(cost);
            proof {
                placed.lemma_cells();
                assert(child_depth.0 == depth_after(depth.0, move_cost(situation, i < forced)));
            }
            let score = self.score_after_place(tt, state, stone, child_depth, raw, low, high);
            proof {
                old(state).lemma_cells();
                assert(placed.cells() == old(state).cells().update(candidate.idx(), stone));
            }
            let ghost earlier = values;
            let ghost earlier_tables = tables;
            let ghost earlier_replies = replies;
            proof {
                let reply = choose|t: SearchTrace| #[trigger] reply_value(
                    (225 - stone_count(placed.cells())) as nat,
                    t,
                    table_before,
                    placed.cells(),
                    placed.spec_outcome(),
                    stone,
                    child_depth.0,
                    raw,
                    low.0 as int,
                    high.0 as int,
                    score.0 as int,
                    tt@,
                );
                values = values.push(score.0 as int);
                tables = tables.push(tt@);
                replies = replies.push(reply);
                assert forall|k: int| 0 <= k < i implies #[trigger] values[k] == earlier[k] by {}
                let shorter = SearchTrace { moves: moves@, forced: forced as int, values: earlier, tables: earlier_tables, replies: earlier_replies };
                let longer = SearchTrace { moves: moves@, forced: forced as int, values, tables, replies };
                assert(values.take(i as int) =~= earlier);
                lemma_children_extend(room, shorter, longer, cells, stone, depth.0, table_low, table_high, i as int);
                assert(child_reply(
                    room,
                    reply,
                    table_before,
                    tt@,
                    cells,
                    stone,
                    child_depth.0,
                    candidate,
                    best_after(table_low, values.take(i as int)),
                    table_high,
                    score.0 as int,
                ));
                assert(children_searched(room, longer, cells, stone, depth.0, table_low, table_high, i + 1));
            }
            assert(forced_loss ==> score.0 == loss) by {
                if forced_loss {
                    state.lemma_cells();
                    old(state).lemma_cells();
                    assert(every_block_loses(old(state).cells(), stone));
                    assert(threat_map_of(old(state).cells(), stone.spec_opponent())[candidate.idx()] == Threat::Five);
                    assert(state.cells() == old(state).cells().update(candidate.idx(), stone));
                }
            }
            state.undo(candidate, stone);
            proof {
                place_then_undo_restores(before.cells(), before.spec_hash(), before.spec_keys()[2 * candidate.idx() + stone.spec_side()], candidate, stone);
            }
            if score.0 >= high.0 {
                if !is_forced {
                    self.killers.put(depth, candidate);
                }
                if depth.0 > 0 {
                    tt.store(hash, depth.0, high, Bound::Lower, Some(candidate));
                }
                proof {
                    let trace = SearchTrace { moves: moves@, forced: forced as int, values, tables, replies };
                    assert(Score(high.0 as int as i32) == high);
                    assert(moves_searched(room, trace, old(tt)@, cells, stone, depth.0, parent_raw, alpha, table_low, table_high, high.0 as int, tt@));
                    lemma_searched_gives(room, trace, old(tt)@, cells, stone, depth.0, parent_raw, alpha, beta, high.0 as int, tt@);
                }
                return high;
            }
            let ghost low_before = low.0 as int;
            if score.0 > low.0 {
                low = score;
                best_move = Some(candidate);
            }
            proof {
                assert(values.drop_last() == earlier);
                assert(raising_move(table_low, moves@, values) == if score.0 > low_before {
                    Some(moves@[i as int])
                } else {
                    raising_move(table_low, moves@, earlier)
                });
            }
            i = i + 1;
        }
        // Every move failing low leaves no move worth trying first.
        let bound = if low.0 > alpha_orig.0 {
            Bound::Exact
        } else {
            Bound::Upper
        };
        if depth.0 > 0 {
            tt.store(hash, depth.0, low, bound, best_move);
        }
        proof {
            let trace = SearchTrace { moves: moves@, forced: forced as int, values, tables, replies };
            assert(Score(low.0 as int as i32) == low);
            assert(moves_searched(room, trace, old(tt)@, cells, stone, depth.0, parent_raw, alpha, table_low, table_high, low.0 as int, tt@));
            lemma_searched_gives(room, trace, old(tt)@, cells, stone, depth.0, parent_raw, alpha, beta, low.0 as int, tt@);
        }
        low
    }
}

impl Search {
    /// Searches every candidate for `stone` to `depth` and returns the best.
    ///
    /// Candidates are shuffled first, so that among equally scored moves
    /// whichever comes first after the shuffle is chosen.
    #[verifier::rlimit(40)]
    pub fn best_move(
        &mut self,
        tt: &mut TranspositionTable,
        board: &Board,
        stone: Stone,
        depth: Depth,
        rng: &mut fastrand::Rng,
    ) -> (result: PositionId)
        requires
            old(self).wf(),
            old(tt).wf(),
            board.wf(),
            stone.is_colour(),
            crate::board::outcome_of(board@).is_none(),
            0 < depth.0 <= 258,
            depth.0 <= old(self).killer_depths(),
        ensures
            final(self).wf(),
            final(tt).wf(),
            result.valid(),
            board@[result.idx()] == Stone::Empty,
            tactical(board@, stone, result),
            stone_count(board@) == 0 ==> result.spec_row() == 7 && result.spec_col() == 7,
            stone_count(board@) > 0 ==> exists|trace: SearchTrace, i: int|
                #[trigger] picked((225 - stone_count(board@)) as nat, trace, board@, stone, depth.0, i, result)
                    && trace.tables[0] == old(tt)@ && trace.tables.last() == final(tt)@,
    {
        if board.move_count() == 0 {
            // The only move worth searching on an empty board is the centre.
            let centre = PositionId::center();
            proof {
                board.lemma_wf();
                crate::board::lemma_stone_count_full(board@);
                crate::board::lemma_empty_when_no_stones(board@);
                lemma_no_win_on_empty_board(board@, stone);
                lemma_no_win_on_empty_board(board@, stone.spec_opponent());
            }
            return centre;
        }
        let mut state = SearchState::from_board(board);
        let own = threat_map(&self.table, &state, stone);
        let opponent = threat_map(&self.table, &state, stone.opponent());
        let situation = situation(&own, &opponent, Ghost(state.cells()), stone);
        let ghost start = state;
        let (mut moves, _) = self.candidates(&mut state, stone, situation, &own, &opponent);
        proof {
            state.lemma_cells();
            assert(crate::board::outcome_of(board@).is_none());
            assert(!crate::board::all_occupied(board@));
            board.lemma_wf();
            lemma_five_threats_are_wins(board@, stone);
            lemma_five_threats_are_wins(board@, stone.spec_opponent());
            assert forall|k: int| 0 <= k < moves@.len() implies tactical(board@, stone, #[trigger] moves@[k]) by {
                lemma_cell_at_index(moves@[k]);
            }
        }
        // Randomize which equally scored move is encountered first.
        let ghost listed = moves@;
        rng_shuffle(rng, &mut moves);
        let n = moves.len();
        proof {
            crate::rng::lemma_shuffled_items(listed, moves@);
            assert forall|k: int| 0 <= k < moves@.len() implies (#[trigger] moves@[k]).valid() && board@[moves@[k].idx()]
                == Stone::Empty && tactical(board@, stone, moves@[k]) by {
                let m = choose|m: int| 0 <= m < listed.len() && listed[m] == moves@[k];
                assert(tactical(board@, stone, listed[m]));
            }
        }
        let mut best = moves[0];
        let mut best_score = Score::MIN();
        proof {
            state.lemma_cells();
            crate::board::lemma_stone_count_full(state.cells());
        }
        let raw = state.evaluate(stone);
        let mut k: usize = 0;
        let ghost mut values: Seq<int> = Seq::empty();
        let ghost mut best_k: int = 0;
        let ghost mut tables: Seq<Seq<TtEntry>> = seq![old(tt)@];
        let ghost mut replies: Seq<SearchTrace> = Seq::empty();
        let ghost room: nat = (225 - stone_count(board@)) as nat;
        proof {
            assert(raw == Score(evaluation_of(board@, stone) as i32));
        }
        while k < n
            invariant
                k <= n,
                n == moves@.len(),
                n > 0,
                playable(board@, moves@),
                values.len() == k,
                0 <= best_k < n,
                best == moves@[best_k],
                k > 0 ==> best_k < k && values[best_k] == best_score.0,
                k == 0 ==> best_k == 0 && best_score.0 == -i32::MAX,
                forall|j: int| 0 <= j < k ==> #[trigger] values[j] <= best_score.0,
                forall|j: int| 0 <= j < best_k ==> #[trigger] values[j] < best_score.0,
                best_score.0 == best_after(-i32::MAX, values),
                room == (225 - stone_count(board@)) as nat,
                raw == Score(evaluation_of(board@, stone) as i32),
                tables.len() == k + 1,
                replies.len() == k,
                tables[0] == old(tt)@,
                tables[k as int] == tt@,
                root_searched(
                    room,
                    SearchTrace { moves: moves@, forced: 0, values, tables, replies },
                    board@,
                    stone,
                    depth.0,
                    k as int,
                ),
                self.wf(),
                self.killer_depths() == old(self).killer_depths(),
                tt.wf(),
                state.same_position(&start),
                start.cells() == board@,
                start.spec_outcome().is_none(),
                stone.is_colour(),
                0 < depth.0 <= 258,
                depth.0 <= self.killer_depths(),
                in_range(raw),
                in_range(best_score),
                best.valid(),
                board@[best.idx()] == Stone::Empty,
                tactical(board@, stone, best),
                forall|i: int| 0 <= i < n ==> tactical(board@, stone, #[trigger] moves@[i]),
            decreases n - k,
        {
            let candidate = moves[k];
            let ghost before = state;
            proof {
                state.lemma_cells();
            }
            state.place(candidate, stone);
            let ghost placed = state;
            proof {
                placed.lemma_cells();
            }
            let ghost table_before = tt@;
            let child_depth = depth.minus(Depth::MOVE());
            let score = self.score_after_place(tt, &mut state, stone, child_depth, raw, best_score, Score::MAX());
            proof {
                crate::board::lemma_stone_count_update(before.cells(), candidate.idx(), stone);
                state.lemma_cells();
                before.lemma_cells();
                assert(before.cells() == board@);
                assert(state.cells() == board@.update(candidate.idx(), stone));
                assert(state.spec_outcome() == outcome_after(board@.update(candidate.idx(), stone), candidate, stone));
                assert(state.spec_move_count() == stone_count(board@) + 1);
            }
            state.undo(candidate, stone);
            proof {
                place_then_undo_restores(before.cells(), before.spec_hash(), before.spec_keys()[2 * candidate.idx() + stone.spec_side()], candidate, stone);
            }
            let ghost earlier = values;
            let ghost earlier_tables = tables;
            let ghost earlier_replies = replies;
            proof {
                let reply = choose|t: SearchTrace| #[trigger] reply_value(
                    (225 - stone_count(placed.cells())) as nat,
                    t,
                    table_before,
                    placed.cells(),
                    placed.spec_outcome(),
                    stone,
                    child_depth.0,
                    raw,
                    best_score.0 as int,
                    i32::MAX as int,
                    score.0 as int,
                    tt@,
                );
                values = values.push(score.0 as int);
                tables = tables.push(tt@);
                replies = replies.push(reply);
                assert(values.take(k as int) =~= earlier);
                let shorter = SearchTrace { moves: moves@, forced: 0, values: earlier, tables: earlier_tables, replies: earlier_replies };
                let longer = SearchTrace { moves: moves@, forced: 0, values, tables, replies };
                lemma_root_extend(room, shorter, longer, board@, stone, depth.0, k as int);
                assert(placed.cells() == board@.update(candidate.idx(), stone));
                assert(stone_count(placed.cells()) == stone_count(board@) + 1);
                crate::board::lemma_stone_count_full(placed.cells());
                assert(room > 0);
                assert(child_depth.0 == depth_after(depth.0, 3));
                assert(best_after(-i32::MAX, values.take(k as int)) == best_score.0);
                assert(placed.spec_outcome() == outcome_after(placed.cells(), candidate, stone));
                assert(child_reply(
                    room,
                    reply,
                    table_before,
                    tt@,
                    board@,
                    stone,
                    depth_after(depth.0, 3),
                    candidate,
                    best_after(-i32::MAX, values.take(k as int)),
                    i32::MAX as int,
                    score.0 as int,
                ));
                assert(root_searched(room, longer, board@, stone, depth.0, k + 1));
                assert(values.drop_last() == earlier);
            }
            if score.0 > best_score.0 {
                best_score = score;
                best = candidate;
                proof {
                    best_k = k as int;
                }
            }
            proof {
                assert forall|j: int| 0 <= j < k implies #[trigger] values[j] == earlier[j] by {
                }
            }
            k = k + 1;
        }
        proof {
            if best_score.0 == -i32::MAX {
                assert(values[0] <= best_score.0);
            }
            assert(first_best(values, best_k));
            if situation == Situation::Develop {
                crate::rng::lemma_shuffled_items(moves@, listed);
                assert forall|q: PositionId| #[trigger] moves@.contains(q) <==> developing_cell(board@, q) by {
                    if moves@.contains(q) {
                        let m = choose|m: int| 0 <= m < moves@.len() && moves@[m] == q;
                        assert(listed.contains(moves@[m]));
                    }
                    if developing_cell(board@, q) {
                        assert(listed.contains(q));
                        let m = choose|m: int| 0 <= m < listed.len() && listed[m] == q;
                        assert(moves@.contains(listed[m]));
                    }
                }
            }
            let trace = SearchTrace { moves: moves@, forced: 0, values, tables, replies };
            assert(picked(room, trace, board@, stone, depth.0, best_k, best));
        }
        best
    }
}

/// Finds the best move for `stone` using negamax with alpha-beta pruning.
///
/// `depth` is the number of developing moves searched along each line of
/// play; near-forced replies cost less, and a forced reply is searched even
/// when the depth has run out.
pub fn find_best_move(board: &Board, stone: Stone, depth: u32, rng: &mut fastrand::Rng) -> (result: PositionId)
    requires
        board.wf(),
        stone.is_colour(),
        crate::board::outcome_of(board@).is_none(),
        0 < depth <= 86,
    ensures
        result.valid(),
        board@[result.idx()] == Stone::Empty,
        tactical(board@, stone, result),
        stone_count(board@) == 0 ==> result.spec_row() == 7 && result.spec_col() == 7,
        stone_count(board@) > 0 ==> best_of_searched(board@, stone, (3 * depth) as u32, result),
{
    let mut tt = TranspositionTable::new();
    let ghost fresh = tt@;
    let mut search = Search::new(Depth::moves(depth));
    let result = search.best_move(&mut tt, board, stone, Depth::moves(depth), rng);
    proof {
        if stone_count(board@) > 0 {
            let (trace, i) = choose|trace: SearchTrace, i: int|
                #[trigger] picked((225 - stone_count(board@)) as nat, trace, board@, stone, (3 * depth) as u32, i, result)
                    && trace.tables[0] == fresh && trace.tables.last() == tt@;
            assert(fresh_table(trace.tables[0]));
        }
    }
    result
}

/// Scores `position` for `stone` on `board` using negamax to `depth`.
/// Returns the score from `stone`'s perspective.
pub fn score_move(
    board: &Board,
    stone: Stone,
    position: PositionId,
    depth: u32,
    tt: &mut TranspositionTable,
) -> (result: Score)
    requires
        board.wf(),
        stone.is_colour(),
        board@[position.idx()] == Stone::Empty,
        crate::board::outcome_of(board@).is_none(),
        0 < depth <= 86,
        old(tt).wf(),
    ensures
        final(tt).wf(),
        in_range(result),
        move_score_facts(board@, position, stone, depth, result.0 as int),
        exists|trace: SearchTrace| #[trigger] reply_value(
            (224 - stone_count(board@)) as nat,
            trace,
            old(tt)@,
            board@.update(position.idx(), stone),
            outcome_after(board@.update(position.idx(), stone), position, stone),
            stone,
            (3 * (depth - 1)) as u32,
            Score(evaluation_of(board@, stone) as i32),
            -i32::MAX,
            i32::MAX as int,
            result.0 as int,
            final(tt)@,
        ),
{
    position.check_valid();
    let mut state = SearchState::from_board(board);
    proof {
        board.lemma_wf();
        if wins_at(board@, position, stone) {
            super::threats::lemma_new_five_is_line_five(board@, position, stone);
        }
        state.lemma_cells();
        crate::board::lemma_stone_count_full(state.cells());
        crate::board::lemma_stone_count_update(state.cells(), position.idx(), stone);
    }
    let raw = state.evaluate(stone);
    state.place(position, stone);
    proof {
        state.lemma_cells();
    }
    let mut search = Search::new(Depth::moves(depth));
    let ghost placed = state;
    let ghost before = tt@;
    let result = search.score_after_place(tt, &mut state, stone, Depth::moves(depth - 1), raw, Score::MIN(), Score::MAX());
    proof {
        assert(placed.cells() == board@.update(position.idx(), stone));
        assert(raw == Score(evaluation_of(board@, stone) as i32));
        let trace = choose|trace: SearchTrace| #[trigger] reply_value(
            (225 - stone_count(placed.cells())) as nat,
            trace,
            before,
            placed.cells(),
            placed.spec_outcome(),
            stone,
            (3 * (depth - 1)) as u32,
            raw,
            -i32::MAX,
            i32::MAX as int,
            result.0 as int,
            tt@,
        );
        assert(reply_value(
            (224 - stone_count(board@)) as nat,
            trace,
            before,
            board@.update(position.idx(), stone),
            outcome_after(board@.update(position.idx(), stone), position, stone),
            stone,
            (3 * (depth - 1)) as u32,
            Score(evaluation_of(board@, stone) as i32),
            -i32::MAX,
            i32::MAX as int,
            result.0 as int,
            tt@,
        ));
    }
    result
}

} // verus!
