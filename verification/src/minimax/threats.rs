//! What one more stone at each empty cell would make, for either side.

use vstd::prelude::*;

use crate::board::{cell_at, dir_col, dir_row, five_at, has_five};
use crate::position_id::{index_of, on_board, PositionId};
use crate::stone::Stone;

use super::bits::{bit, five_in_a_row, has_bits, lemma_five_in_a_row_is_a_run, lemma_mask_exists, mask_of, run_at};
use super::lines::{
    bit_of, cell_col, cell_row, lemma_cell_of_line, lemma_line_geometry, line_kind, line_len, line_length,
    line_of, position_lines,
};
use super::patterns::{
    combine_spec, full_window, line_own_at, line_own_pred, line_pattern_from, line_pattern_of, window_five,
    LinePattern, LinePatternTable, Threat,
};
use super::search_state::{line_mask, makes_five, mask_matches, SearchState};

verus! {

/// The pattern `stone` would make on line `k` through `p`.
pub open spec fn cell_line_pattern(cells: Seq<Stone>, p: PositionId, stone: Stone, k: int) -> LinePattern {
    let line = line_of(p.spec_row(), p.spec_col(), k);
    line_pattern_of(
        line_mask(cells, line, stone),
        line_mask(cells, line, stone.spec_opponent()),
        line_len(line),
        bit_of(p.spec_row(), p.spec_col(), k),
    )
}

/// What one more `stone` at `p` would make: nothing on an occupied cell,
/// else its four line patterns combined.
pub open spec fn cell_threat(cells: Seq<Stone>, p: PositionId, stone: Stone) -> Threat {
    if cells[p.idx()] != Stone::Empty {
        Threat::Nothing
    } else {
        combine_spec(
            seq![
                cell_line_pattern(cells, p, stone, 0),
                cell_line_pattern(cells, p, stone, 1),
                cell_line_pattern(cells, p, stone, 2),
                cell_line_pattern(cells, p, stone, 3),
            ],
        )
    }
}

/// Some cell offers `stone` the threat `threat`.
pub open spec fn has_threat(cells: Seq<Stone>, stone: Stone, threat: Threat) -> bool {
    exists|p: PositionId| p.valid() && #[trigger] cell_threat(cells, p, stone) == threat
}

/// The threat of every cell, by index.
pub open spec fn threat_map_of(cells: Seq<Stone>, stone: Stone) -> Seq<Threat> {
    Seq::new(225, |i: int| cell_threat(cells, cell_at_index(i), stone))
}

/// The cell with index `i`.
pub open spec fn cell_at_index(i: int) -> PositionId {
    choose|p: PositionId| p.valid() && #[trigger] p.idx() == i
}

/// Every index of the board names one cell.
pub proof fn lemma_cell_at_index(p: PositionId)
    requires
        p.valid(),
    ensures
        cell_at_index(p.idx()) == p,
{
    let q = cell_at_index(p.idx());
    assert(p.valid() && p.idx() == p.idx());
    assert(q.valid() && q.idx() == p.idx());
    q.idx_determines(p);
}

/// What one more `stone` at `cell` would make.
pub fn threat_at(table: &LinePatternTable, state: &SearchState, cell: PositionId, stone: Stone) -> (result: Threat)
    requires
        table.wf(),
        state.wf(),
        stone.is_colour(),
    ensures
        result == cell_threat(state.cells(), cell, stone),
{
    if state.stone(cell) != Stone::Empty {
        return Threat::Nothing;
    }
    let lines = position_lines(cell);
    let mut patterns = [LinePattern::Nothing, LinePattern::Nothing, LinePattern::Nothing, LinePattern::Nothing];
    let mut k: usize = 0;
    while k < 4
        invariant
            k <= 4,
            table.wf(),
            state.wf(),
            stone.is_colour(),
            cell.valid(),
            forall|j: int|
                0 <= j < 4 ==> (#[trigger] lines@[j]).0 == line_of(cell.spec_row(), cell.spec_col(), j)
                    && lines@[j].1 == bit_of(cell.spec_row(), cell.spec_col(), j),
            forall|j: int| 0 <= j < k ==> #[trigger] patterns@[j] == cell_line_pattern(state.cells(), cell, stone, j),
        decreases 4 - k,
    {
        let (line, bit) = lines[k];
        proof {
            cell.lemma_row_col();
            lemma_line_geometry(cell.spec_row(), cell.spec_col(), k as int);
        }
        let (black, white) = state.line_masks(line as usize);
        let (own, opponent) = if stone == Stone::Black {
            (black, white)
        } else {
            (white, black)
        };
        let pattern = line_pattern_from(table, own, opponent, line_length(line as usize), bit);
        patterns[k] = pattern;
        k = k + 1;
    }
    proof {
        assert(patterns@ =~= seq![
            cell_line_pattern(state.cells(), cell, stone, 0),
            cell_line_pattern(state.cells(), cell, stone, 1),
            cell_line_pattern(state.cells(), cell, stone, 2),
            cell_line_pattern(state.cells(), cell, stone, 3),
        ]);
    }
    Threat::combine(patterns)
}

/// The threat of every cell for `stone`, indexed by cell.
pub fn threat_map(table: &LinePatternTable, state: &SearchState, stone: Stone) -> (result: Vec<Threat>)
    requires
        table.wf(),
        state.wf(),
        stone.is_colour(),
    ensures
        result@ == threat_map_of(state.cells(), stone),
{
    let mut map: Vec<Threat> = Vec::new();
    let mut index: usize = 0;
    while index < 225
        invariant
            index <= 225,
            table.wf(),
            state.wf(),
            stone.is_colour(),
            map@.len() == index,
            forall|i: int| 0 <= i < index ==> #[trigger] map@[i] == threat_map_of(state.cells(), stone)[i],
        decreases 225 - index,
    {
        let cell = PositionId::from_index(index);
        proof {
            lemma_cell_at_index(cell);
        }
        map.push(threat_at(table, state, cell, stone));
        index = index + 1;
    }
    proof {
        assert(map@ =~= threat_map_of(state.cells(), stone));
    }
    map
}

/// The map of a side's threats says whether it has a given one.
pub proof fn lemma_map_has(cells: Seq<Stone>, stone: Stone, threat: Threat)
    ensures
        has_threat(cells, stone, threat) <==> threat_map_of(cells, stone).contains(threat),
{
    if has_threat(cells, stone, threat) {
        let p = choose|p: PositionId| p.valid() && #[trigger] cell_threat(cells, p, stone) == threat;
        lemma_cell_at_index(p);
        assert(threat_map_of(cells, stone)[p.idx()] == threat);
    }
    if threat_map_of(cells, stone).contains(threat) {
        let i = choose|i: int| 0 <= i < 225 && threat_map_of(cells, stone)[i] == threat;
        let p = cell_at_index(i);
        crate::position_id::lemma_index_has_cell(i);
        assert(p.valid() && p.idx() == i);
        assert(cell_threat(cells, p, stone) == threat);
    }
}

/// Whether `map` holds `threat` somewhere.
pub fn map_has(map: &Vec<Threat>, threat: Threat) -> (result: bool)
    ensures
        result == map@.contains(threat),
{
    let mut i: usize = 0;
    while i < map.len()
        invariant
            i <= map@.len(),
            forall|j: int| 0 <= j < i ==> #[trigger] map@[j] != threat,
        decreases map@.len() - i,
    {
        if map[i] == threat {
            return true;
        }
        i = i + 1;
    }
    false
}

/// Five cells in a row of a line that all hold `stone` are five in a row
/// on the board.
pub proof fn lemma_run_is_five(cells: Seq<Stone>, line: int, stone: Stone, i: int)
    requires
        0 <= line < 88,
        0 <= i,
        i + 4 < line_len(line),
        forall|t: int| 0 <= t < 5 ==> #[trigger] cell_at(cells, cell_row(line, i + t), cell_col(line, i + t)) == stone,
    ensures
        has_five(cells, stone),
{
    let d = line_kind(line);
    let row = cell_row(line, i);
    let col = cell_col(line, i);
    lemma_cell_of_line(line, i);
    assert forall|k: int| 0 <= k < 5 implies on_board(row + k * dir_row(d), col + k * dir_col(d)) && #[trigger] cell_at(
        cells,
        row + k * dir_row(d),
        col + k * dir_col(d),
    ) == stone by {
        lemma_cell_of_line(line, i + k);
        if d == 0 {
            assert(k * dir_row(d) == 0 && k * dir_col(d) == k) by (nonlinear_arith)
                requires
                    dir_row(d) == 0 && dir_col(d) == 1,
            ;
        } else if d == 1 {
            assert(k * dir_row(d) == k && k * dir_col(d) == 0) by (nonlinear_arith)
                requires
                    dir_row(d) == 1 && dir_col(d) == 0,
            ;
        } else if d == 2 {
            assert(k * dir_row(d) == k && k * dir_col(d) == k) by (nonlinear_arith)
                requires
                    dir_row(d) == 1 && dir_col(d) == 1,
            ;
        } else {
            assert(k * dir_row(d) == k && k * dir_col(d) == -k) by (nonlinear_arith)
                requires
                    dir_row(d) == 1 && dir_col(d) == -1,
            ;
        }
        assert(cell_row(line, i + k) == row + k * dir_row(d));
        assert(cell_col(line, i + k) == col + k * dir_col(d));
        assert(cell_at(cells, cell_row(line, i + k), cell_col(line, i + k)) == stone);
    }
    assert(five_at(cells, stone, row, col, d));
}

/// A five in the window around `cell` gives five own cells in a row of the
/// window, counting the cell itself.
proof fn lemma_window_five(own: u16, opponent: u16, length: int, cell: int) -> (start: int)
    requires
        line_pattern_of(own, opponent, length, cell) == LinePattern::Five,
    ensures
        0 <= start <= 4,
        forall|t: int| 0 <= t < 5 ==> #[trigger] line_own_at(own, length, cell, start + t),
{
    let pred = line_own_pred(own, length, cell);
    lemma_mask_exists(pred);
    let window = mask_of(pred);
    assert(window_five(window));
    let start = choose|start: int| 0 <= start <= 4 && #[trigger] full_window(window, start);
    assert forall|t: int| 0 <= t < 5 implies #[trigger] line_own_at(own, length, cell, start + t) by {
        assert(bit(window, start + t));
        assert(pred(start + t));
    }
    start
}

/// The stones of `stone` on `line` have a mask.
proof fn lemma_line_mask_matches(cells: Seq<Stone>, line: int, stone: Stone)
    ensures
        mask_matches(line_mask(cells, line, stone), cells, line, stone),
{
    let on_line = |j: int| j < line_len(line) && cell_at(cells, cell_row(line, j), cell_col(line, j)) == stone;
    lemma_mask_exists(on_line);
    assert(mask_matches(mask_of(on_line), cells, line, stone));
}

/// A cell where `stone`'s threat is five is a cell where one more `stone`
/// makes five in a row on the board.
pub proof fn lemma_five_threat_completes_five(cells: Seq<Stone>, p: PositionId, stone: Stone)
    requires
        cells.len() == 225,
        p.valid(),
        stone.is_colour(),
        cell_threat(cells, p, stone) == Threat::Five,
    ensures
        has_five(cells.update(p.idx(), stone), stone),
{
    let r = p.spec_row();
    let c = p.spec_col();
    p.lemma_row_col();
    let after = cells.update(p.idx(), stone);
    let k = if cell_line_pattern(cells, p, stone, 0) == LinePattern::Five {
        0int
    } else if cell_line_pattern(cells, p, stone, 1) == LinePattern::Five {
        1int
    } else if cell_line_pattern(cells, p, stone, 2) == LinePattern::Five {
        2int
    } else {
        3int
    };
    assert(cell_line_pattern(cells, p, stone, k) == LinePattern::Five);
    lemma_line_geometry(r, c, k);
    let line = line_of(r, c, k);
    let cell = bit_of(r, c, k);
    let length = line_len(line);
    let own = line_mask(cells, line, stone);
    lemma_line_mask_matches(cells, line, stone);
    let start = lemma_window_five(own, line_mask(cells, line, stone.spec_opponent()), length, cell);
    let i = cell + start - 4;
    assert forall|t: int| 0 <= t < 5 implies 0 <= i + t < length && #[trigger] cell_at(
        after,
        cell_row(line, i + t),
        cell_col(line, i + t),
    ) == stone by {
        let j = start + t;
        assert(line_own_at(own, length, cell, j));
        if j == 4 {
            assert(i + t == cell);
            assert(index_of(r, c) == p.idx());
        } else {
            assert(bit(own, i + t));
            lemma_cell_of_line(line, i + t);
            let q = index_of(cell_row(line, i + t), cell_col(line, i + t));
            assert(cell_at(cells, cell_row(line, i + t), cell_col(line, i + t)) == stone);
            if q != p.idx() {
                assert(after[q] == cells[q]);
            }
        }
    }
    let _ = cell_at(after, cell_row(line, i + 0), cell_col(line, i + 0));
    let _ = cell_at(after, cell_row(line, i + 4), cell_col(line, i + 4));
    lemma_run_is_five(after, line, stone, i);
}

/// The cell `t` steps along direction `d` from `row`, `col`: on the line of
/// kind `d` through the start, `t` bits further on.
proof fn lemma_step_along_line(row: int, col: int, d: int, t: int)
    requires
        0 <= d < 4,
        on_board(row, col),
        on_board(row + t * dir_row(d), col + t * dir_col(d)),
    ensures
        line_of(row + t * dir_row(d), col + t * dir_col(d), d) == line_of(row, col, d),
        bit_of(row + t * dir_row(d), col + t * dir_col(d), d) == bit_of(row, col, d) + t,
{
    if d == 0 {
        assert(t * dir_row(d) == 0 && t * dir_col(d) == t) by (nonlinear_arith)
            requires
                dir_row(d) == 0 && dir_col(d) == 1,
        ;
    } else if d == 1 {
        assert(t * dir_row(d) == t && t * dir_col(d) == 0) by (nonlinear_arith)
            requires
                dir_row(d) == 1 && dir_col(d) == 0,
        ;
    } else if d == 2 {
        assert(t * dir_row(d) == t && t * dir_col(d) == t) by (nonlinear_arith)
            requires
                dir_row(d) == 1 && dir_col(d) == 1,
        ;
    } else {
        assert(t * dir_row(d) == t && t * dir_col(d) == -t) by (nonlinear_arith)
            requires
                dir_row(d) == 1 && dir_col(d) == -1,
        ;
    }
}

/// A five made by one more `stone` at `q`, where `stone` had no five
/// before, runs through `q`: it starts `tq` steps before it, and its other
/// cells are not `q`.
proof fn lemma_new_five_runs_through(cells: Seq<Stone>, q: PositionId, stone: Stone) -> (five: (int, int, int, int))
    requires
        cells.len() == 225,
        q.valid(),
        has_five(cells.update(q.idx(), stone), stone),
        !has_five(cells, stone),
    ensures
        ({
            let (row, col, d, tq) = five;
            &&& on_board(row, col)
            &&& five_at(cells.update(q.idx(), stone), stone, row, col, d)
            &&& 0 <= tq < 5
            &&& row + tq * dir_row(d) == q.spec_row()
            &&& col + tq * dir_col(d) == q.spec_col()
            &&& forall|t: int|
                0 <= t < 5 && t != tq ==> #[trigger] index_of(row + t * dir_row(d), col + t * dir_col(d))
                    != q.idx()
        }),
{
    let after = cells.update(q.idx(), stone);
    q.lemma_row_col();
    let rq = q.spec_row();
    let cq = q.spec_col();
    let (row, col, d) = choose|row: int, col: int, d: int| on_board(row, col) && #[trigger] five_at(after, stone, row, col, d);
    let at = |t: int| index_of(row + t * dir_row(d), col + t * dir_col(d));
    if forall|t: int| 0 <= t < 5 ==> #[trigger] at(t) != q.idx() {
        assert forall|t: int| 0 <= t < 5 implies on_board(row + t * dir_row(d), col + t * dir_col(d)) && #[trigger] cell_at(
            cells,
            row + t * dir_row(d),
            col + t * dir_col(d),
        ) == stone by {
            assert(at(t) != q.idx());
            assert(cell_at(after, row + t * dir_row(d), col + t * dir_col(d)) == stone);
        }
        assert(five_at(cells, stone, row, col, d));
    }
    let tq = choose|t: int| 0 <= t < 5 && #[trigger] at(t) == q.idx();
    assert(cell_at(after, row + tq * dir_row(d), col + tq * dir_col(d)) == stone);
    crate::position_id::lemma_index_of_injective(row + tq * dir_row(d), col + tq * dir_col(d), rq, cq);
    assert forall|t: int| 0 <= t < 5 && t != tq implies #[trigger] index_of(
        row + t * dir_row(d),
        col + t * dir_col(d),
    ) != q.idx() by {
        if at(t) == q.idx() {
            assert(cell_at(after, row + t * dir_row(d), col + t * dir_col(d)) == stone);
            crate::position_id::lemma_index_of_injective(row + t * dir_row(d), col + t * dir_col(d), rq, cq);
            lemma_step_along_line(row, col, d, t);
            lemma_step_along_line(row, col, d, tq);
            lemma_line_geometry(row, col, d);
        }
    }
    (row, col, d, tq)
}

/// A five made by one more `stone` at an empty cell, where `stone` had no
/// five before, is a five the cell's threat reports.
pub proof fn lemma_completed_five_is_five_threat(cells: Seq<Stone>, q: PositionId, stone: Stone)
    requires
        cells.len() == 225,
        q.valid(),
        stone.is_colour(),
        cells[q.idx()] == Stone::Empty,
        has_five(cells.update(q.idx(), stone), stone),
        !has_five(cells, stone),
    ensures
        cell_threat(cells, q, stone) == Threat::Five,
{
    let after = cells.update(q.idx(), stone);
    q.lemma_row_col();
    let rq = q.spec_row();
    let cq = q.spec_col();
    let (row, col, d, tq) = lemma_new_five_runs_through(cells, q, stone);
    let line = line_of(row, col, d);
    let b = bit_of(row, col, d);
    lemma_line_geometry(row, col, d);
    lemma_step_along_line(row, col, d, tq);
    lemma_line_geometry(rq, cq, d);
    let bq = bit_of(rq, cq, d);
    assert(bq == b + tq);
    let length = line_len(line);
    let own = line_mask(cells, line, stone);
    lemma_line_mask_matches(cells, line, stone);
    let pred = line_own_pred(own, length, bq);
    lemma_mask_exists(pred);
    let window = mask_of(pred);
    let start = 4 - tq;
    assert forall|j: int| start <= j < start + 5 implies #[trigger] bit(window, j) by {
        let t = j - start;
        assert(on_board(row + t * dir_row(d), col + t * dir_col(d)));
        lemma_step_along_line(row, col, d, t);
        lemma_line_geometry(row + t * dir_row(d), col + t * dir_col(d), d);
        if t != tq {
            assert(index_of(row + t * dir_row(d), col + t * dir_col(d)) != q.idx());
            assert(cell_at(after, row + t * dir_row(d), col + t * dir_col(d)) == stone);
            assert(cell_at(cells, row + t * dir_row(d), col + t * dir_col(d)) == stone);
            assert(bq + j - 4 == b + t);
            assert(bit(own, b + t));
        }
        assert(pred(j));
    }
    assert(full_window(window, start));
    assert(window_five(window));
    assert(cell_line_pattern(cells, q, stone, d) == LinePattern::Five);
}

/// Five in a row on a line through `p`, as the search counts it, is five in
/// a row on the board.
pub proof fn lemma_line_five_is_five(cells: Seq<Stone>, p: PositionId, stone: Stone)
    requires
        cells.len() == 225,
        p.valid(),
        makes_five(cells, p, stone),
    ensures
        has_five(cells, stone),
{
    p.lemma_row_col();
    let k = choose|k: int|
        0 <= k < 4 && five_in_a_row(#[trigger] line_mask(cells, line_of(p.spec_row(), p.spec_col(), k), stone));
    lemma_line_geometry(p.spec_row(), p.spec_col(), k);
    let line = line_of(p.spec_row(), p.spec_col(), k);
    let m = line_mask(cells, line, stone);
    lemma_line_mask_matches(cells, line, stone);
    lemma_five_in_a_row_is_a_run(m);
    let i = choose|i: int| 0 <= i <= 11 && #[trigger] run_at(m, i);
    assert forall|t: int| 0 <= t < 5 implies #[trigger] cell_at(cells, cell_row(line, i + t), cell_col(line, i + t)) == stone by {
        assert(bit(m, i + t));
    }
    assert(bit(m, i + 4));
    assert(cell_at(cells, cell_row(line, i + 4), cell_col(line, i + 4)) == stone);
    lemma_run_is_five(cells, line, stone, i);
}

/// A five made by one more `stone` at `p`, where `stone` had no five before,
/// is five in a row on a line through `p`, as the search counts it.
pub proof fn lemma_new_five_is_line_five(cells: Seq<Stone>, p: PositionId, stone: Stone)
    requires
        cells.len() == 225,
        p.valid(),
        has_five(cells.update(p.idx(), stone), stone),
        !has_five(cells, stone),
    ensures
        makes_five(cells.update(p.idx(), stone), p, stone),
{
    let after = cells.update(p.idx(), stone);
    p.lemma_row_col();
    let (row, col, d, tp) = lemma_new_five_runs_through(cells, p, stone);
    let line = line_of(row, col, d);
    let b = bit_of(row, col, d);
    lemma_line_geometry(row, col, d);
    lemma_step_along_line(row, col, d, tp);
    assert(line_of(p.spec_row(), p.spec_col(), d) == line);
    let m = line_mask(after, line, stone);
    lemma_line_mask_matches(after, line, stone);
    assert forall|t: int| 0 <= t < 5 implies #[trigger] bit(m, b + t) by {
        assert(on_board(row + t * dir_row(d), col + t * dir_col(d)));
        lemma_step_along_line(row, col, d, t);
        lemma_line_geometry(row + t * dir_row(d), col + t * dir_col(d), d);
        assert(cell_at(after, row + t * dir_row(d), col + t * dir_col(d)) == stone);
    }
    assert(run_at(m, b));
    assert(cell_at(after, row + 4 * dir_row(d), col + 4 * dir_col(d)) == stone);
    lemma_step_along_line(row, col, d, 4);
    lemma_line_geometry(row + 4 * dir_row(d), col + 4 * dir_col(d), d);
    lemma_five_in_a_row_is_a_run(m);
    assert(five_in_a_row(line_mask(after, line_of(p.spec_row(), p.spec_col(), d), stone)));
}

/// One more `stone` at `p`, an empty cell, makes five in a row.
pub open spec fn wins_at(cells: Seq<Stone>, p: PositionId, stone: Stone) -> bool {
    cells[p.idx()] == Stone::Empty && has_five(cells.update(p.idx(), stone), stone)
}

/// `stone` can make five in a row with one more stone.
pub open spec fn can_win_at_once(cells: Seq<Stone>, stone: Stone) -> bool {
    exists|p: PositionId| p.valid() && #[trigger] wins_at(cells, p, stone)
}

/// Where `stone` has no five yet, the cells whose threat is five are the
/// cells where one more stone makes five, so some cell's threat is five
/// exactly when `stone` can win at once.
pub proof fn lemma_five_threats_are_wins(cells: Seq<Stone>, stone: Stone)
    requires
        cells.len() == 225,
        stone.is_colour(),
        !has_five(cells, stone),
    ensures
        forall|p: PositionId| p.valid() && #[trigger] cell_threat(cells, p, stone) == Threat::Five ==> wins_at(cells, p, stone),
        has_threat(cells, stone, Threat::Five) == can_win_at_once(cells, stone),
{
    assert forall|p: PositionId| p.valid() && #[trigger] cell_threat(cells, p, stone) == Threat::Five implies wins_at(
        cells,
        p,
        stone,
    ) by {
        lemma_five_threat_completes_five(cells, p, stone);
    }
    if can_win_at_once(cells, stone) {
        let p = choose|p: PositionId| p.valid() && #[trigger] wins_at(cells, p, stone);
        lemma_completed_five_is_five_threat(cells, p, stone);
        assert(cell_threat(cells, p, stone) == Threat::Five);
    }
    if has_threat(cells, stone, Threat::Five) {
        let p = choose|p: PositionId| p.valid() && #[trigger] cell_threat(cells, p, stone) == Threat::Five;
        assert(wins_at(cells, p, stone));
    }
}

} // verus!
