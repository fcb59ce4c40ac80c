//! A board that keeps its evaluation up to date as stones come and go.

use vstd::prelude::*;

use crate::board::{cell_at, Board};
use crate::outcome::{win_for, Outcome};
use crate::position_id::{index_of, PositionId};
use crate::rng::{rng_u64, seeded_u64, SeededRng};
use crate::stone::Stone;

use super::bits::{bit, five_in_a_row, has_five_consecutive, lemma_clear_bit, lemma_set_bit, lemma_zero_bits};
use super::lines::{
    bit_of, cell_col, cell_row, lemma_cell_of_line, lemma_line_geometry, line_has_four,
    line_has_open_three, line_kind, line_len, line_length, line_of, line_points, position_lines,
    score_line, side_bound,
};
use super::score::{clamp_points, win_points, Score};

verus! {

/// The seed of the Zobrist keys, so that every search hashes alike.
pub const ZOBRIST_SEED: u64 = 0xDEAD_BEEF_CAFE_1234;

/// `mask` has bit `j` set exactly for the cells of `line` that hold `stone`.
pub open spec fn mask_matches(mask: u16, cells: Seq<Stone>, line: int, stone: Stone) -> bool {
    forall|j: int|
        0 <= j < 16 ==> (bit(mask, j) <==> (j < line_len(line) && #[trigger] cell_at(
            cells,
            cell_row(line, j),
            cell_col(line, j),
        ) == stone))
}

/// The sum of a sequence of scores.
pub open spec fn sum_scores(scores: Seq<Score>) -> int
    decreases scores.len(),
{
    if scores.len() == 0 {
        0
    } else {
        sum_scores(scores.drop_last()) + scores.last().0
    }
}

/// How many entries are true.
pub open spec fn count_true(flags: Seq<bool>) -> nat
    decreases flags.len(),
{
    if flags.len() == 0 {
        0
    } else {
        count_true(flags.drop_last()) + if flags.last() {
            1nat
        } else {
            0nat
        }
    }
}

proof fn lemma_sum_update(scores: Seq<Score>, i: int, v: Score)
    requires
        0 <= i < scores.len(),
    ensures
        sum_scores(scores.update(i, v)) == sum_scores(scores) - scores[i].0 + v.0,
    decreases scores.len(),
{
    let u = scores.update(i, v);
    if i == scores.len() - 1 {
        assert(u.drop_last() =~= scores.drop_last());
    } else {
        lemma_sum_update(scores.drop_last(), i, v);
        assert(u.drop_last() =~= scores.drop_last().update(i, v));
    }
}

proof fn lemma_sum_bound(scores: Seq<Score>, bound: int)
    requires
        bound >= 0,
        forall|i: int| 0 <= i < scores.len() ==> -bound <= #[trigger] scores[i].0 <= bound,
    ensures
        -(bound * scores.len()) <= sum_scores(scores) <= bound * scores.len(),
    decreases scores.len(),
{
    if scores.len() > 0 {
        let rest = scores.drop_last();
        assert forall|i: int| 0 <= i < rest.len() implies -bound <= #[trigger] rest[i].0 <= bound by {
            assert(rest[i] == scores[i]);
        }
        lemma_sum_bound(rest, bound);
        assert(-bound <= scores[scores.len() - 1].0 <= bound);
        let n = rest.len() as int;
        assert(bound * (n + 1) == bound * n + bound) by (nonlinear_arith);
    }
}

proof fn lemma_count_update(flags: Seq<bool>, i: int, v: bool)
    requires
        0 <= i < flags.len(),
    ensures
        count_true(flags.update(i, v)) + (if flags[i] {
            1int
        } else {
            0int
        }) == count_true(flags) + (if v {
            1int
        } else {
            0int
        }),
        count_true(flags) <= flags.len(),
    decreases flags.len(),
{
    let u = flags.update(i, v);
    lemma_count_bound(flags);
    if i == flags.len() - 1 {
        assert(u.drop_last() =~= flags.drop_last());
    } else {
        lemma_count_update(flags.drop_last(), i, v);
        assert(u.drop_last() =~= flags.drop_last().update(i, v));
    }
}

proof fn lemma_count_positive(flags: Seq<bool>, i: int)
    requires
        0 <= i < flags.len(),
    ensures
        flags[i] ==> count_true(flags) >= 1,
        count_true(flags) <= flags.len(),
{
    lemma_count_update(flags, i, false);
}

proof fn lemma_count_bound(flags: Seq<bool>)
    ensures
        count_true(flags) <= flags.len(),
    decreases flags.len(),
{
    if flags.len() > 0 {
        lemma_count_bound(flags.drop_last());
    }
}

/// Board wrapper that maintains incremental line-based evaluation scores.
///
/// Instead of recomputing full-board pattern counts at every leaf node,
/// `SearchState` tracks u16 bit masks for each of the 88 board lines and
/// updates only the 4 affected lines per place/undo. Leaf evaluation is O(1).
pub struct SearchState {
    hash: u64,
    keys: Vec<u64>,
    board: Board,
    line_black: Vec<u16>,
    line_white: Vec<u16>,
    line_scores: Vec<Score>,
    total_score: i64,
    fours_black: Vec<bool>,
    fours_white: Vec<bool>,
    open_threes_black: Vec<bool>,
    open_threes_white: Vec<bool>,
    black_fours: usize,
    white_fours: usize,
    black_open_threes: usize,
    white_open_threes: usize,
    outcome: Option<Outcome>,
}

impl SearchState {
    /// The line tables agree with the board, the keys are the Zobrist keys,
    /// and the hash is the Zobrist hash of the stones.
    pub closed spec fn wf(&self) -> bool {
        &&& self.lines_wf()
        &&& self.keys@ == zobrist_keys()
        &&& self.hash == hash_of(self.board@, self.keys@, 225)
        &&& self.outcome is Some ==> crate::board::outcome_of(self.board@) is Some
    }

    /// A state whose stones decide nothing has recorded no outcome.
    pub proof fn lemma_undecided(&self)
        requires
            self.wf(),
            crate::board::outcome_of(self.cells()).is_none(),
        ensures
            self.spec_outcome().is_none(),
    {
    }

    /// The line tables agree with the board, each line's score and flags
    /// with its masks, and the totals and counts with the lines.
    closed spec fn lines_wf(&self) -> bool {
        &&& self.board.wf()
        &&& self.keys@.len() == 450
        &&& self.line_black@.len() == 88
        &&& self.line_white@.len() == 88
        &&& self.line_scores@.len() == 88
        &&& self.fours_black@.len() == 88
        &&& self.fours_white@.len() == 88
        &&& self.open_threes_black@.len() == 88
        &&& self.open_threes_white@.len() == 88
        &&& forall|l: int|
            0 <= l < 88 ==> mask_matches(
                #[trigger] self.line_black@[l],
                self.board@,
                l,
                Stone::Black,
            ) && mask_matches(self.line_white@[l], self.board@, l, Stone::White)
        &&& self.lines_consistent()
    }

    /// Scores, flags, the total and the counts follow from the masks.
    closed spec fn lines_consistent(&self) -> bool {
        &&& forall|l: int|
            0 <= l < 88 ==> #[trigger] self.line_scores@[l].0 == line_points(
                self.line_black@[l],
                self.line_white@[l],
                line_len(l),
            )
        &&& forall|l: int|
            0 <= l < 88 ==> #[trigger] self.fours_black@[l] == line_has_four(
                self.line_black@[l],
                self.line_white@[l],
                line_len(l),
                0,
            ) && self.fours_white@[l] == line_has_four(
                self.line_black@[l],
                self.line_white@[l],
                line_len(l),
                1,
            )
        &&& forall|l: int|
            0 <= l < 88 ==> #[trigger] self.open_threes_black@[l] == line_has_open_three(
                self.line_black@[l],
                self.line_white@[l],
                line_len(l),
                0,
            ) && self.open_threes_white@[l] == line_has_open_three(
                self.line_black@[l],
                self.line_white@[l],
                line_len(l),
                1,
            )
        &&& forall|l: int|
            0 <= l < 88 ==> -side_bound() <= #[trigger] self.line_scores@[l].0 <= side_bound()
        &&& self.total_score == sum_scores(self.line_scores@)
        &&& self.black_fours == count_true(self.fours_black@)
        &&& self.white_fours == count_true(self.fours_white@)
        &&& self.black_open_threes == count_true(self.open_threes_black@)
        &&& self.white_open_threes == count_true(self.open_threes_white@)
    }

    /// The stones on the board.
    pub closed spec fn cells(&self) -> Seq<Stone> {
        self.board@
    }

    pub closed spec fn spec_hash(&self) -> u64 {
        self.hash
    }

    /// The Zobrist key of each (cell, colour): index `2 * cell + side`.
    pub closed spec fn spec_keys(&self) -> Seq<u64> {
        self.keys@
    }

    pub closed spec fn spec_outcome(&self) -> Option<Outcome> {
        self.outcome
    }

    /// The running line total, from Black's perspective.
    pub closed spec fn spec_total(&self) -> int {
        self.total_score as int
    }

    /// How many lines hold a four for `side` (0 Black, 1 White).
    pub closed spec fn spec_four_lines(&self, side: int) -> nat {
        if side == 0 {
            self.black_fours as nat
        } else {
            self.white_fours as nat
        }
    }

    /// How many lines hold an open three for `side`.
    pub closed spec fn spec_open_three_lines(&self, side: int) -> nat {
        if side == 0 {
            self.black_open_threes as nat
        } else {
            self.white_open_threes as nat
        }
    }

    pub closed spec fn spec_move_count(&self) -> nat {
        self.board.spec_move_count()
    }

    /// A well-formed state has a cell for every position and counts its
    /// stones.
    pub proof fn lemma_cells(&self)
        requires
            self.wf(),
        ensures
            self.cells().len() == 225,
            self.spec_move_count() == crate::board::stone_count(self.cells()),
            self.spec_keys().len() == 450,
    {
        self.board.lemma_wf();
    }

    /// `self` holds the same stones, hash, keys and outcome as `other`:
    /// everything the search reads of a state.
    pub open spec fn same_position(&self, other: &SearchState) -> bool {
        &&& self.wf()
        &&& self.cells() == other.cells()
        &&& self.spec_hash() == other.spec_hash()
        &&& self.spec_keys() == other.spec_keys()
        &&& self.spec_outcome() == other.spec_outcome()
    }

    /// The line masks, line scores, total and counts are the ones the
    /// board's stones give: two well-formed states with the same stones
    /// agree on all of them.
    pub proof fn lemma_determined_by_cells(&self, other: &SearchState)
        requires
            self.wf(),
            other.wf(),
            self.cells() == other.cells(),
        ensures
            self.spec_total() == other.spec_total(),
            forall|side: int| #[trigger] self.spec_four_lines(side) == other.spec_four_lines(side),
            forall|side: int| #[trigger] self.spec_open_three_lines(side) == other.spec_open_three_lines(side),
    {
        assert forall|l: int| 0 <= l < 88 implies #[trigger] self.line_black@[l]
            == other.line_black@[l] && self.line_white@[l] == other.line_white@[l] by {
            lemma_mask_unique(self.line_black@[l], other.line_black@[l], self.board@, l, Stone::Black);
            lemma_mask_unique(self.line_white@[l], other.line_white@[l], self.board@, l, Stone::White);
        }
        assert forall|l: int| 0 <= l < 88 implies #[trigger] self.line_scores@[l] == other.line_scores@[l] by {
            assert(self.line_black@[l] == other.line_black@[l]);
            let _ = (self.line_scores@[l], other.line_scores@[l]);
            let _ = (self.fours_black@[l], other.fours_black@[l]);
            let _ = (self.open_threes_black@[l], other.open_threes_black@[l]);
            assert(self.line_scores@[l].0 == other.line_scores@[l].0);
        }
        assert forall|l: int| 0 <= l < 88 implies #[trigger] self.fours_black@[l] == other.fours_black@[l] by {
            assert(self.line_black@[l] == other.line_black@[l]);
            let _ = (self.line_scores@[l], other.line_scores@[l]);
            let _ = (self.fours_black@[l], other.fours_black@[l]);
            let _ = (self.open_threes_black@[l], other.open_threes_black@[l]);
            assert(self.line_scores@[l].0 == other.line_scores@[l].0);
        }
        assert forall|l: int| 0 <= l < 88 implies #[trigger] self.fours_white@[l] == other.fours_white@[l] by {
            assert(self.line_black@[l] == other.line_black@[l]);
            let _ = (self.line_scores@[l], other.line_scores@[l]);
            let _ = (self.fours_black@[l], other.fours_black@[l]);
            let _ = (self.open_threes_black@[l], other.open_threes_black@[l]);
            assert(self.line_scores@[l].0 == other.line_scores@[l].0);
        }
        assert forall|l: int| 0 <= l < 88 implies #[trigger] self.open_threes_black@[l] == other.open_threes_black@[l] by {
            assert(self.line_black@[l] == other.line_black@[l]);
            let _ = (self.line_scores@[l], other.line_scores@[l]);
            let _ = (self.fours_black@[l], other.fours_black@[l]);
            let _ = (self.open_threes_black@[l], other.open_threes_black@[l]);
            assert(self.line_scores@[l].0 == other.line_scores@[l].0);
        }
        assert forall|l: int| 0 <= l < 88 implies #[trigger] self.open_threes_white@[l] == other.open_threes_white@[l] by {
            assert(self.line_black@[l] == other.line_black@[l]);
            let _ = (self.line_scores@[l], other.line_scores@[l]);
            let _ = (self.fours_black@[l], other.fours_black@[l]);
            let _ = (self.open_threes_black@[l], other.open_threes_black@[l]);
            assert(self.line_scores@[l].0 == other.line_scores@[l].0);
        }
        assert(self.line_scores@ =~= other.line_scores@);
        assert(self.fours_black@ =~= other.fours_black@);
        assert(self.fours_white@ =~= other.fours_white@);
        assert(self.open_threes_black@ =~= other.open_threes_black@);
        assert(self.open_threes_white@ =~= other.open_threes_white@);
    }
}

/// Placing or removing a stone at `position` changes the mask of `stone`'s
/// colour on each line through the cell by that one bit, and no other mask.
proof fn lemma_mask_after_change(
    mask: u16,
    cells: Seq<Stone>,
    position: PositionId,
    old_stone: Stone,
    new_stone: Stone,
    line: int,
    colour: Stone,
)
    requires
        position.valid(),
        0 <= line < 88,
        cells.len() == 225,
        cells[position.idx()] == old_stone,
        mask_matches(mask, cells, line, colour),
        colour.is_colour(),
        old_stone != new_stone,
    ensures
        ({
            let r = position.spec_row();
            let c = position.spec_col();
            let k = line_kind(line);
            let b = bit_of(r, c, k) as u16;
            let changed = cells.update(position.idx(), new_stone);
            if line == line_of(r, c, k) && colour == new_stone {
                mask_matches(mask | (1u16 << b), changed, line, colour)
            } else if line == line_of(r, c, k) && colour == old_stone {
                mask_matches(mask & !(1u16 << b), changed, line, colour)
            } else {
                mask_matches(mask, changed, line, colour)
            }
        }),
{
    let r = position.spec_row();
    let c = position.spec_col();
    let k = line_kind(line);
    let changed = cells.update(position.idx(), new_stone);
    position.lemma_row_col();
    let on_line = line == line_of(r, c, k);
    if on_line {
        lemma_line_geometry(r, c, k);
    }
    let b = bit_of(r, c, k);
    assert forall|j: int| 0 <= j < 16 implies {
        let m = if on_line && colour == new_stone {
            mask | (1u16 << (b as u16))
        } else if on_line && colour == old_stone {
            mask & !(1u16 << (b as u16))
        } else {
            mask
        };
        bit(m, j) <==> (j < line_len(line) && #[trigger] cell_at(
            changed,
            cell_row(line, j),
            cell_col(line, j),
        ) == colour)
    } by {
        let old_has = j < line_len(line) && cell_at(cells, cell_row(line, j), cell_col(line, j))
            == colour;
        assert(bit(mask, j) == old_has);
        let is_cell = j < line_len(line) && cell_row(line, j) == r && cell_col(line, j) == c;
        if j < line_len(line) {
            lemma_cell_of_line(line, j);
            let cr = cell_row(line, j);
            let cc = cell_col(line, j);
            if cr == r && cc == c {
                assert(index_of(cr, cc) == position.idx());
            } else {
                assert(index_of(cr, cc) != position.idx());
            }
        }
        assert(is_cell ==> on_line && j == b);
        if on_line {
            assert(0 <= b < line_len(line));
            if j == b {
                assert(is_cell);
            }
        }
        if on_line && colour == new_stone {
            lemma_set_bit(mask, b as u16, j as u16);
        } else if on_line && colour == old_stone {
            lemma_clear_bit(mask, b as u16, j as u16);
        }
    }
}

impl SearchState {
    /// The tables have one entry per line.
    closed spec fn shaped(&self) -> bool {
        &&& self.keys@.len() == 450
        &&& self.line_black@.len() == 88
        &&& self.line_white@.len() == 88
        &&& self.line_scores@.len() == 88
        &&& self.fours_black@.len() == 88
        &&& self.fours_white@.len() == 88
        &&& self.open_threes_black@.len() == 88
        &&& self.open_threes_white@.len() == 88
    }

    /// Every line but `line` has the score and flags its masks give, and the
    /// total and counts add up the stored entries.
    closed spec fn consistent_except(&self, line: int) -> bool {
        &&& forall|l: int|
            0 <= l < 88 && l != line ==> #[trigger] self.line_scores@[l].0 == line_points(
                self.line_black@[l],
                self.line_white@[l],
                line_len(l),
            )
        &&& forall|l: int|
            0 <= l < 88 && l != line ==> #[trigger] self.fours_black@[l] == line_has_four(
                self.line_black@[l],
                self.line_white@[l],
                line_len(l),
                0,
            ) && self.fours_white@[l] == line_has_four(
                self.line_black@[l],
                self.line_white@[l],
                line_len(l),
                1,
            )
        &&& forall|l: int|
            0 <= l < 88 && l != line ==> #[trigger] self.open_threes_black@[l]
                == line_has_open_three(self.line_black@[l], self.line_white@[l], line_len(l), 0)
                && self.open_threes_white@[l] == line_has_open_three(
                self.line_black@[l],
                self.line_white@[l],
                line_len(l),
                1,
            )
        &&& forall|l: int|
            0 <= l < 88 ==> -side_bound() <= #[trigger] self.line_scores@[l].0 <= side_bound()
        &&& self.total_score == sum_scores(self.line_scores@)
        &&& self.black_fours == count_true(self.fours_black@)
        &&& self.white_fours == count_true(self.fours_white@)
        &&& self.black_open_threes == count_true(self.open_threes_black@)
        &&& self.white_open_threes == count_true(self.open_threes_white@)
    }

    /// Replaces `colour`'s mask of one line, leaving its score and flags to
    /// be refreshed.
    fn set_mask(&mut self, line: usize, colour: Stone, mask: u16)
        requires
            line < 88,
            old(self).shaped(),
            old(self).lines_consistent(),
            colour.is_colour(),
        ensures
            final(self).shaped(),
            final(self).consistent_except(line as int),
            final(self).line_black@ == if colour == Stone::Black {
                old(self).line_black@.update(line as int, mask)
            } else {
                old(self).line_black@
            },
            final(self).line_white@ == if colour == Stone::White {
                old(self).line_white@.update(line as int, mask)
            } else {
                old(self).line_white@
            },
            final(self).board == old(self).board,
            final(self).keys@ == old(self).keys@,
            final(self).hash == old(self).hash,
            final(self).outcome == old(self).outcome,
    {
        if colour == Stone::Black {
            self.line_black.set(line, mask);
        } else {
            self.line_white.set(line, mask);
        }
        proof {
            assert forall|l: int|
                0 <= l < 88 && l != line implies #[trigger] self.line_scores@[l].0 == line_points(
                    self.line_black@[l],
                    self.line_white@[l],
                    line_len(l),
                ) by {
                assert(self.line_black@[l] == old(self).line_black@[l]);
                assert(self.line_white@[l] == old(self).line_white@[l]);
            }
            assert forall|l: int|
                0 <= l < 88 && l != line implies #[trigger] self.fours_black@[l] == line_has_four(
                    self.line_black@[l],
                    self.line_white@[l],
                    line_len(l),
                    0,
                ) && self.fours_white@[l] == line_has_four(
                    self.line_black@[l],
                    self.line_white@[l],
                    line_len(l),
                    1,
                ) by {
                assert(self.line_black@[l] == old(self).line_black@[l]);
                assert(self.line_white@[l] == old(self).line_white@[l]);
            }
            assert forall|l: int|
                0 <= l < 88 && l != line implies #[trigger] self.open_threes_black@[l]
                    == line_has_open_three(self.line_black@[l], self.line_white@[l], line_len(l), 0)
                    && self.open_threes_white@[l] == line_has_open_three(
                    self.line_black@[l],
                    self.line_white@[l],
                    line_len(l),
                    1,
                ) by {
                assert(self.line_black@[l] == old(self).line_black@[l]);
                assert(self.line_white@[l] == old(self).line_white@[l]);
            }
        }
    }

    /// Recomputes the score and flags of one line from its masks.
    #[verifier::spinoff_prover]
    #[verifier::rlimit(40)]
    fn refresh_line(&mut self, line: usize)
        requires
            line < 88,
            old(self).shaped(),
            old(self).consistent_except(line as int),
        ensures
            final(self).shaped(),
            final(self).lines_consistent(),
            final(self).line_black@ == old(self).line_black@,
            final(self).line_white@ == old(self).line_white@,
            final(self).board == old(self).board,
            final(self).keys@ == old(self).keys@,
            final(self).hash == old(self).hash,
            final(self).outcome == old(self).outcome,
    {
        let length = line_length(line);
        let scored = score_line(self.line_black[line], self.line_white[line], length);
        let old_score = self.line_scores[line];
        proof {
            let b = self.line_black@[line as int];
            let w = self.line_white@[line as int];
            assert(scored.has_four[0] == line_has_four(b, w, line_len(line as int), 0));
            assert(scored.has_four[1] == line_has_four(b, w, line_len(line as int), 1));
            assert(scored.has_open_three[0] == line_has_open_three(b, w, line_len(line as int), 0));
            assert(scored.has_open_three[1] == line_has_open_three(b, w, line_len(line as int), 1));
            lemma_count_positive(self.fours_black@, line as int);
            lemma_count_positive(self.fours_white@, line as int);
            lemma_count_positive(self.open_threes_black@, line as int);
            lemma_count_positive(self.open_threes_white@, line as int);
            lemma_sum_update(self.line_scores@, line as int, scored.score);
            lemma_sum_bound(self.line_scores@, side_bound());
        }
        self.total_score = self.total_score - old_score.0 as i64 + scored.score.0 as i64;
        self.line_scores.set(line, scored.score);

        let old_flag = self.fours_black[line];
        proof {
            lemma_count_update(self.fours_black@, line as int, scored.has_four[0]);
        }
        self.fours_black.set(line, scored.has_four[0]);
        self.black_fours = self.black_fours - (if old_flag { 1 } else { 0 }) + (if scored.has_four[0] { 1 } else { 0 });

        let old_flag = self.fours_white[line];
        proof {
            lemma_count_update(self.fours_white@, line as int, scored.has_four[1]);
        }
        self.fours_white.set(line, scored.has_four[1]);
        self.white_fours = self.white_fours - (if old_flag { 1 } else { 0 }) + (if scored.has_four[1] { 1 } else { 0 });

        let old_flag = self.open_threes_black[line];
        proof {
            lemma_count_update(self.open_threes_black@, line as int, scored.has_open_three[0]);
        }
        self.open_threes_black.set(line, scored.has_open_three[0]);
        self.black_open_threes = self.black_open_threes - (if old_flag { 1 } else { 0 }) + (if scored.has_open_three[0] { 1 } else { 0 });

        let old_flag = self.open_threes_white[line];
        proof {
            lemma_count_update(self.open_threes_white@, line as int, scored.has_open_three[1]);
        }
        self.open_threes_white.set(line, scored.has_open_three[1]);
        self.white_open_threes = self.white_open_threes - (if old_flag { 1 } else { 0 }) + (if scored.has_open_three[1] { 1 } else { 0 });
        proof {
            assert forall|l: int| 0 <= l < 88 implies #[trigger] self.line_scores@[l].0 == line_points(
                self.line_black@[l],
                self.line_white@[l],
                line_len(l),
            ) by {
                if l != line {
                    assert(old(self).line_scores@[l] == self.line_scores@[l]);
                }
            }
            assert forall|l: int| 0 <= l < 88 implies #[trigger] self.fours_black@[l] == line_has_four(
                self.line_black@[l],
                self.line_white@[l],
                line_len(l),
                0,
            ) && self.fours_white@[l] == line_has_four(
                self.line_black@[l],
                self.line_white@[l],
                line_len(l),
                1,
            ) by {
                if l != line {
                    assert(old(self).fours_black@[l] == self.fours_black@[l]);
                }
            }
            assert forall|l: int| 0 <= l < 88 implies #[trigger] self.open_threes_black@[l]
                == line_has_open_three(self.line_black@[l], self.line_white@[l], line_len(l), 0)
                && self.open_threes_white@[l] == line_has_open_three(
                self.line_black@[l],
                self.line_white@[l],
                line_len(l),
                1,
            ) by {
                if l != line {
                    assert(old(self).open_threes_black@[l] == self.open_threes_black@[l]);
                }
            }
            assert forall|l: int| 0 <= l < 88 implies -side_bound() <= #[trigger] self.line_scores@[l].0 <= side_bound() by {
                if l != line {
                    assert(old(self).line_scores@[l] == self.line_scores@[l]);
                }
            }
            assert(self.total_score == sum_scores(self.line_scores@));
            assert(self.black_fours == count_true(self.fours_black@));
            assert(self.white_fours == count_true(self.fours_white@));
            assert(self.black_open_threes == count_true(self.open_threes_black@));
            assert(self.white_open_threes == count_true(self.open_threes_white@));
        }
    }
}

/// The mask of `stone`'s stones on `line`.
pub open spec fn line_mask(cells: Seq<Stone>, line: int, stone: Stone) -> u16 {
    choose|m: u16| mask_matches(m, cells, line, stone)
}

/// `stone` has five in a row on one of the four lines through `position`.
pub open spec fn makes_five(cells: Seq<Stone>, position: PositionId, stone: Stone) -> bool {
    exists|k: int|
        0 <= k < 4 && five_in_a_row(
            #[trigger] line_mask(cells, line_of(position.spec_row(), position.spec_col(), k), stone),
        )
}

/// The state of the game after `stone` went to `position`: a five through
/// the new stone wins, a full board draws.
pub open spec fn outcome_after(cells: Seq<Stone>, position: PositionId, stone: Stone) -> Option<Outcome> {
    if makes_five(cells, position, stone) {
        Some(win_for(stone))
    } else if crate::board::all_occupied(cells) {
        Some(Outcome::Draw)
    } else {
        None
    }
}

/// The Zobrist key of `stone` at `position`.
pub open spec fn key_index(position: PositionId, stone: Stone) -> int {
    2 * position.idx() + stone.spec_side()
}

/// The lines through (`r`, `c`) of kind `k` or later still match the old
/// cells.
spec fn lines_pending(lb: Seq<u16>, lw: Seq<u16>, cells: Seq<Stone>, r: int, c: int, k: int) -> bool {
    forall|l: int|
        0 <= l < 88 && l == line_of(r, c, line_kind(l)) && line_kind(l) >= k ==> mask_matches(
            #[trigger] lb[l],
            cells,
            l,
            Stone::Black,
        ) && mask_matches(lw[l], cells, l, Stone::White)
}

/// Every other line matches the new cells.
spec fn lines_done(lb: Seq<u16>, lw: Seq<u16>, cells: Seq<Stone>, r: int, c: int, k: int) -> bool {
    forall|l: int|
        0 <= l < 88 && !(l == line_of(r, c, line_kind(l)) && line_kind(l) >= k) ==> mask_matches(
            #[trigger] lb[l],
            cells,
            l,
            Stone::Black,
        ) && mask_matches(lw[l], cells, l, Stone::White)
}

/// Bringing the line of kind `k` through (`r`, `c`) up to date moves it from
/// pending to done.
proof fn lemma_line_step(
    lb0: Seq<u16>,
    lw0: Seq<u16>,
    lb1: Seq<u16>,
    lw1: Seq<u16>,
    old_cells: Seq<Stone>,
    new_cells: Seq<Stone>,
    r: int,
    c: int,
    k: int,
    line: int,
)
    requires
        0 <= r < 15,
        0 <= c < 15,
        0 <= k < 4,
        line == line_of(r, c, k),
        0 <= line < 88,
        line_kind(line) == k,
        lb0.len() == 88,
        lw0.len() == 88,
        lb1.len() == 88,
        lw1.len() == 88,
        forall|l: int| 0 <= l < 88 && l != line ==> lb1[l] == lb0[l] && lw1[l] == lw0[l],
        mask_matches(lb1[line], new_cells, line, Stone::Black),
        mask_matches(lw1[line], new_cells, line, Stone::White),
        lines_pending(lb0, lw0, old_cells, r, c, k),
        lines_done(lb0, lw0, new_cells, r, c, k),
    ensures
        lines_pending(lb1, lw1, old_cells, r, c, k + 1),
        lines_done(lb1, lw1, new_cells, r, c, k + 1),
{
    assert forall|l: int|
        0 <= l < 88 && l == line_of(r, c, line_kind(l)) && line_kind(l) >= k + 1 implies mask_matches(
        #[trigger] lb1[l],
        old_cells,
        l,
        Stone::Black,
    ) && mask_matches(lw1[l], old_cells, l, Stone::White) by {
        assert(l != line);
        assert(lb1[l] == lb0[l]);
    }
    assert forall|l: int|
        0 <= l < 88 && !(l == line_of(r, c, line_kind(l)) && line_kind(l) >= k + 1) implies mask_matches(
        #[trigger] lb1[l],
        new_cells,
        l,
        Stone::Black,
    ) && mask_matches(lw1[l], new_cells, l, Stone::White) by {
        if l != line {
            assert(lb1[l] == lb0[l]);
            assert(lw1[l] == lw0[l]);
            if l == line_of(r, c, line_kind(l)) {
                assert(line_kind(l) != k) by {
                    if line_kind(l) == k {
                        assert(line == line_of(r, c, k));
                    }
                }
            }
        }
    }
}

impl SearchState {
    /// Changes the cell at `position` from `old_stone` to `new_stone` and
    /// brings the four lines through it up to date. Returns whether the
    /// placed colour now has five on one of them.
    #[verifier::spinoff_prover]
    #[verifier::rlimit(40)]
    fn change_cell(&mut self, position: PositionId, old_stone: Stone, new_stone: Stone) -> (won: bool)
        requires
            old(self).lines_wf(),
            position.valid(),
            old(self).cells()[position.idx()] == old_stone,
            (old_stone == Stone::Empty && new_stone.is_colour()) || (new_stone == Stone::Empty
                && old_stone.is_colour()),
        ensures
            final(self).lines_wf(),
            final(self).cells() == old(self).cells().update(position.idx(), new_stone),
            final(self).keys@ == old(self).keys@,
            final(self).hash == old(self).hash,
            final(self).outcome == old(self).outcome,
            new_stone.is_colour() ==> (won == makes_five(final(self).cells(), position, new_stone)),
    {
        let ghost old_cells = self.board@;
        let ghost new_cells = old_cells.update(position.idx(), new_stone);
        let ghost r = position.spec_row();
        let ghost c = position.spec_col();
        proof {
            position.lemma_row_col();
            self.board.lemma_wf();
        }
        let lines = position_lines(position);
        if new_stone == Stone::Empty {
            self.board.undo(position, old_stone);
        } else {
            self.board.place_unchecked(position, new_stone);
        }
        proof {
            assert(self.board@ == new_cells);
            assert forall|l: int|
                0 <= l < 88 && !(l == line_of(r, c, line_kind(l)) && line_kind(l) >= 0) implies mask_matches(
                #[trigger] self.line_black@[l],
                new_cells,
                l,
                Stone::Black,
            ) && mask_matches(self.line_white@[l], new_cells, l, Stone::White) by {
                lemma_mask_after_change(self.line_black@[l], old_cells, position, old_stone, new_stone, l, Stone::Black);
                lemma_mask_after_change(self.line_white@[l], old_cells, position, old_stone, new_stone, l, Stone::White);
            }
            assert(lines_done(self.line_black@, self.line_white@, new_cells, r, c, 0));
            assert(lines_pending(self.line_black@, self.line_white@, old_cells, r, c, 0));
        }
        let colour = if new_stone == Stone::Empty {
            old_stone
        } else {
            new_stone
        };
        let mut won = false;
        let mut k: usize = 0;
        while k < 4
            invariant
                k <= 4,
                position.valid(),
                0 <= r < 15,
                0 <= c < 15,
                r == position.spec_row(),
                c == position.spec_col(),
                old_cells.len() == 225,
                old_cells[position.idx()] == old_stone,
                (old_stone == Stone::Empty && new_stone.is_colour()) || (new_stone == Stone::Empty
                    && old_stone.is_colour()),
                colour == if new_stone == Stone::Empty { old_stone } else { new_stone },
                new_cells == old_cells.update(position.idx(), new_stone),
                self.board.wf(),
                self.board@ == new_cells,
                self.shaped(),
                self.lines_consistent(),
                self.keys@ == old(self).keys@,
                self.hash == old(self).hash,
                self.outcome == old(self).outcome,
                forall|j: int|
                    0 <= j < 4 ==> (#[trigger] lines@[j]).0 == line_of(r, c, j) && lines@[j].1
                        == bit_of(r, c, j),
                lines_pending(self.line_black@, self.line_white@, old_cells, r, c, k as int),
                lines_done(self.line_black@, self.line_white@, new_cells, r, c, k as int),
                won == exists|j: int|
                    0 <= j < k && five_in_a_row(
                        #[trigger] line_mask(new_cells, line_of(r, c, j), colour),
                    ),
            decreases 4 - k,
        {
            let (line_id, bit) = lines[k];
            let line = line_id as usize;
            let ghost start_black = self.line_black@;
            let ghost start_white = self.line_white@;
            proof {
                lemma_line_geometry(r, c, k as int);
                lemma_mask_after_change(self.line_black@[line as int], old_cells, position, old_stone, new_stone, line as int, Stone::Black);
                lemma_mask_after_change(self.line_white@[line as int], old_cells, position, old_stone, new_stone, line as int, Stone::White);
                assert(bit < 16);
            }
            let current = if colour == Stone::Black {
                self.line_black[line]
            } else {
                self.line_white[line]
            };
            let own = if new_stone == Stone::Empty {
                current & !(1u16 << bit)
            } else {
                current | (1u16 << bit)
            };
            self.set_mask(line, colour, own);
            proof {
                assert(mask_matches(own, new_cells, line as int, colour));
                lemma_mask_unique(own, line_mask(new_cells, line as int, colour), new_cells, line as int, colour);
            }
            won = won || has_five_consecutive(own);
            self.refresh_line(line);
            proof {
                lemma_line_step(
                    start_black,
                    start_white,
                    self.line_black@,
                    self.line_white@,
                    old_cells,
                    new_cells,
                    r,
                    c,
                    k as int,
                    line as int,
                );
            }
            k = k + 1;
        }
        proof {
            assert forall|l: int| 0 <= l < 88 implies mask_matches(
                #[trigger] self.line_black@[l],
                self.board@,
                l,
                Stone::Black,
            ) && mask_matches(self.line_white@[l], self.board@, l, Stone::White) by {
                assert(line_kind(l) < 4);
                let _ = self.line_black@[l];
            }
        }
        won
    }
}

/// The Zobrist keys every search state uses: the first values of the
/// generator seeded with `ZOBRIST_SEED`, two per cell.
pub open spec fn zobrist_keys() -> Seq<u64> {
    Seq::new(450, |k: int| seeded_u64(ZOBRIST_SEED, k as nat))
}

/// The hash of the first `n` cells: the keys of their stones xored together.
pub open spec fn hash_of(cells: Seq<Stone>, keys: Seq<u64>, n: int) -> u64
    decreases n,
{
    if n <= 0 {
        0
    } else {
        let stone = cells[n - 1];
        let previous = hash_of(cells, keys, n - 1);
        if stone.is_colour() {
            previous ^ keys[2 * (n - 1) + stone.spec_side()]
        } else {
            previous
        }
    }
}

/// Putting `stone` on the empty cell `p` xors its key into the hash of
/// every prefix that holds `p`.
proof fn lemma_hash_update(cells: Seq<Stone>, keys: Seq<u64>, n: int, p: int, stone: Stone)
    requires
        0 <= p < cells.len(),
        n <= cells.len(),
        cells[p] == Stone::Empty,
        stone.is_colour(),
    ensures
        hash_of(cells.update(p, stone), keys, n) == if n > p {
            hash_of(cells, keys, n) ^ keys[2 * p + stone.spec_side()]
        } else {
            hash_of(cells, keys, n)
        },
    decreases n,
{
    if n > 0 {
        lemma_hash_update(cells, keys, n - 1, p, stone);
        let updated = cells.update(p, stone);
        let k = keys[2 * p + stone.spec_side()];
        let previous = hash_of(cells, keys, n - 1);
        if n - 1 > p && cells[n - 1].is_colour() {
            let other = keys[2 * (n - 1) + cells[n - 1].spec_side()];
            assert((previous ^ k) ^ other == (previous ^ other) ^ k) by (bit_vector);
        }
    }
}

/// Taking `stone` off cell `p` xors its key out of the hash again.
proof fn lemma_hash_remove(cells: Seq<Stone>, keys: Seq<u64>, p: int, stone: Stone)
    requires
        0 <= p < cells.len(),
        cells.len() == 225,
        cells[p] == stone,
        stone.is_colour(),
    ensures
        hash_of(cells.update(p, Stone::Empty), keys, 225) == hash_of(cells, keys, 225) ^ keys[2 * p + stone.spec_side()],
{
    let emptied = cells.update(p, Stone::Empty);
    lemma_hash_update(emptied, keys, 225, p, stone);
    assert(emptied.update(p, stone) =~= cells);
    let h = hash_of(emptied, keys, 225);
    let k = keys[2 * p + stone.spec_side()];
    assert((h ^ k) ^ k == h) by (bit_vector);
}

/// The hash of a board with one more stone is the hash without it with
/// that stone's key xored in: placing a stone on a state built from a board
/// gives the hash of a state built from the board holding that stone.
pub proof fn placing_updates_the_hash(cells: Seq<Stone>, p: PositionId, stone: Stone)
    requires
        cells.len() == 225,
        p.valid(),
        cells[p.idx()] == Stone::Empty,
        stone.is_colour(),
    ensures
        hash_of(cells.update(p.idx(), stone), zobrist_keys(), 225) == hash_of(cells, zobrist_keys(), 225)
            ^ zobrist_keys()[key_index(p, stone)],
{
    lemma_hash_update(cells, zobrist_keys(), 225, p.idx(), stone);
}

/// The evaluation for the side to move, before clamping: the line total
/// from its side, plus the credit for moving first.
pub open spec fn eval_points(
    total: int,
    own_fours: nat,
    opponent_fours: nat,
    own_open_threes: nat,
    opponent_open_threes: nat,
    move_count: nat,
) -> int {
    if own_fours > 0 {
        win_points() - (move_count + 1)
    } else if opponent_fours > 0 {
        clamp_points(total)
    } else if own_open_threes > 0 {
        clamp_points(total + 100_000)
    } else if opponent_open_threes >= 2 {
        clamp_points(total - 100_000)
    } else {
        clamp_points(total)
    }
}

/// The cells of a board of which only the first `n` have been copied.
pub open spec fn prefix_cells(cells: Seq<Stone>, n: int) -> Seq<Stone> {
    Seq::new(225, |j: int| if j < n { cells[j] } else { Stone::Empty })
}

impl SearchState {
    /// An empty board with the given Zobrist keys.
    fn empty(keys: Vec<u64>) -> (result: Self)
        requires
            keys@.len() == 450,
        ensures
            result.lines_wf(),
            result.cells() == Seq::new(225, |j: int| Stone::Empty),
            result.keys@ == keys@,
            result.hash == 0,
            result.outcome.is_none(),
    {
        let board = Board::new();
        let ghost cells = board@;
        let mut line_black: Vec<u16> = Vec::new();
        let mut line_white: Vec<u16> = Vec::new();
        let mut line_scores: Vec<Score> = Vec::new();
        let mut fours_black: Vec<bool> = Vec::new();
        let mut fours_white: Vec<bool> = Vec::new();
        let mut open_threes_black: Vec<bool> = Vec::new();
        let mut open_threes_white: Vec<bool> = Vec::new();
        let mut total_score: i64 = 0;
        let mut black_fours: usize = 0;
        let mut white_fours: usize = 0;
        let mut black_open_threes: usize = 0;
        let mut white_open_threes: usize = 0;
        let mut line: usize = 0;
        while line < 88
            invariant
                line <= 88,
                cells == Seq::new(225, |j: int| Stone::Empty),
                line_black@.len() == line,
                line_white@.len() == line,
                line_scores@.len() == line,
                fours_black@.len() == line,
                fours_white@.len() == line,
                open_threes_black@.len() == line,
                open_threes_white@.len() == line,
                forall|l: int| 0 <= l < line ==> #[trigger] line_black@[l] == 0 && line_white@[l] == 0,
                forall|l: int|
                    0 <= l < line ==> #[trigger] line_scores@[l].0 == line_points(0, 0, line_len(l))
                        && -side_bound() <= line_scores@[l].0 <= side_bound(),
                forall|l: int|
                    0 <= l < line ==> #[trigger] fours_black@[l] == line_has_four(0, 0, line_len(l), 0),
                forall|l: int|
                    0 <= l < line ==> #[trigger] fours_white@[l] == line_has_four(0, 0, line_len(l), 1),
                forall|l: int|
                    0 <= l < line ==> #[trigger] open_threes_black@[l] == line_has_open_three(0, 0, line_len(l), 0),
                forall|l: int|
                    0 <= l < line ==> #[trigger] open_threes_white@[l] == line_has_open_three(0, 0, line_len(l), 1),
                total_score == sum_scores(line_scores@),
                -(side_bound() * line) <= total_score <= side_bound() * line,
                black_fours == count_true(fours_black@),
                white_fours == count_true(fours_white@),
                black_open_threes == count_true(open_threes_black@),
                white_open_threes == count_true(open_threes_white@),
                black_fours <= line,
                white_fours <= line,
                black_open_threes <= line,
                white_open_threes <= line,
            decreases 88 - line,
        {
            let scored = score_line(0, 0, line_length(line));
            proof {
                assert(line_scores@.push(scored.score).drop_last() =~= line_scores@);
                assert(fours_black@.push(scored.has_four[0]).drop_last() =~= fours_black@);
                assert(fours_white@.push(scored.has_four[1]).drop_last() =~= fours_white@);
                assert(open_threes_black@.push(scored.has_open_three[0]).drop_last() =~= open_threes_black@);
                assert(open_threes_white@.push(scored.has_open_three[1]).drop_last() =~= open_threes_white@);
                assert(scored.has_four[0] == line_has_four(0, 0, line_len(line as int), 0));
                assert(scored.has_four[1] == line_has_four(0, 0, line_len(line as int), 1));
                assert(scored.has_open_three[0] == line_has_open_three(0, 0, line_len(line as int), 0));
                assert(scored.has_open_three[1] == line_has_open_three(0, 0, line_len(line as int), 1));
                let bound = side_bound();
                let n = line as int;
                assert(bound * (n + 1) == bound * n + bound) by (nonlinear_arith);
                assert(side_bound() * 88 < 200_000_000_000);
            }
            line_black.push(0);
            line_white.push(0);
            line_scores.push(scored.score);
            total_score = total_score + scored.score.0 as i64;
            fours_black.push(scored.has_four[0]);
            fours_white.push(scored.has_four[1]);
            open_threes_black.push(scored.has_open_three[0]);
            open_threes_white.push(scored.has_open_three[1]);
            if scored.has_four[0] {
                black_fours = black_fours + 1;
            }
            if scored.has_four[1] {
                white_fours = white_fours + 1;
            }
            if scored.has_open_three[0] {
                black_open_threes = black_open_threes + 1;
            }
            if scored.has_open_three[1] {
                white_open_threes = white_open_threes + 1;
            }
            line = line + 1;
        }
        let ghost lb = line_black@;
        let ghost lw = line_white@;
        let state = SearchState {
            hash: 0,
            keys,
            board,
            line_black,
            line_white,
            line_scores,
            total_score,
            fours_black,
            fours_white,
            open_threes_black,
            open_threes_white,
            black_fours,
            white_fours,
            black_open_threes,
            white_open_threes,
            outcome: None,
        };
        proof {
            state.board.lemma_wf();
            assert forall|l: int| 0 <= l < 88 implies #[trigger] state.line_scores@[l].0 == line_points(
                state.line_black@[l],
                state.line_white@[l],
                line_len(l),
            ) && state.fours_black@[l] == line_has_four(state.line_black@[l], state.line_white@[l], line_len(l), 0)
              && state.fours_white@[l] == line_has_four(state.line_black@[l], state.line_white@[l], line_len(l), 1)
              && state.open_threes_black@[l] == line_has_open_three(state.line_black@[l], state.line_white@[l], line_len(l), 0)
              && state.open_threes_white@[l] == line_has_open_three(state.line_black@[l], state.line_white@[l], line_len(l), 1) by {
                assert(lb[l] == 0 && lw[l] == 0);
                assert(state.line_black@[l] == 0 && state.line_white@[l] == 0);
                let _ = (state.fours_black@[l], state.fours_white@[l], state.open_threes_black@[l], state.open_threes_white@[l]);
            }
            assert(state.lines_consistent());
            assert forall|l: int| 0 <= l < 88 implies mask_matches(
                #[trigger] state.line_black@[l],
                state.board@,
                l,
                Stone::Black,
            ) && mask_matches(state.line_white@[l], state.board@, l, Stone::White) by {
                assert forall|j: int| 0 <= j < 16 implies (bit(0u16, j) <==> (j < line_len(l)
                    && #[trigger] cell_at(state.board@, cell_row(l, j), cell_col(l, j))
                    == Stone::Black)) by {
                    lemma_zero_bits(j as u16);
                    if j < line_len(l) {
                        lemma_cell_of_line(l, j);
                    }
                }
                assert forall|j: int| 0 <= j < 16 implies (bit(0u16, j) <==> (j < line_len(l)
                    && #[trigger] cell_at(state.board@, cell_row(l, j), cell_col(l, j))
                    == Stone::White)) by {
                    lemma_zero_bits(j as u16);
                    if j < line_len(l) {
                        lemma_cell_of_line(l, j);
                    }
                }
            }
        }
        state
    }
}

impl SearchState {
    /// Initializes line masks and scores from an existing board.
    #[verifier::spinoff_prover]
    pub fn from_board(board: &Board) -> (result: Self)
        requires
            board.wf(),
        ensures
            result.wf(),
            result.cells() == board@,
            result.spec_keys().len() == 450,
            result.spec_keys() == zobrist_keys(),
            result.spec_hash() == hash_of(board@, result.spec_keys(), 225),
            result.spec_outcome() == crate::board::outcome_of(board@),
    {
        let mut rng = SeededRng::new(ZOBRIST_SEED);
        let mut keys: Vec<u64> = Vec::new();
        let mut i: usize = 0;
        while i < 450
            invariant
                i <= 450,
                keys@.len() == i,
                rng.spec_seed() == ZOBRIST_SEED,
                rng.spec_drawn() == i,
                keys@ == Seq::new(i as nat, |k: int| seeded_u64(ZOBRIST_SEED, k as nat)),
            decreases 450 - i,
        {
            keys.push(rng_u64(&mut rng));
            i = i + 1;
        }
        proof {
            assert(keys@ =~= zobrist_keys());
        }
        let mut state = Self::empty(keys);
        proof {
            board.lemma_wf();
            assert(state.cells() =~= prefix_cells(board@, 0));
        }
        let mut index: usize = 0;
        while index < 225
            invariant
                index <= 225,
                board.wf(),
                board@.len() == 225,
                state.lines_wf(),
                state.cells() == prefix_cells(board@, index as int),
                state.keys@.len() == 450,
                state.keys@ == zobrist_keys(),
                state.hash == hash_of(board@, state.keys@, index as int),
                state.outcome.is_none(),
            decreases 225 - index,
        {
            let position = PositionId::from_index(index);
            let stone = board.stone_at(position);
            if stone != Stone::Empty {
                state.change_cell(position, Stone::Empty, stone);
                let key = state.keys[2 * index + stone.side()];
                state.hash = state.hash ^ key;
            }
            proof {
                assert(state.cells() =~= prefix_cells(board@, index + 1));
            }
            index = index + 1;
        }
        proof {
            assert(state.cells() =~= board@);
        }
        state.outcome = board.outcome();
        assert(state.wf());
        state
    }

    /// Places a stone and incrementally updates the 4 affected line scores.
    ///
    /// Wins are detected cheaply by checking five consecutive bits on the
    /// placed stone's line masks.
    #[verifier::spinoff_prover]
    pub fn place(&mut self, position: PositionId, stone: Stone)
        requires
            old(self).wf(),
            stone.is_colour(),
            old(self).cells()[position.idx()] == Stone::Empty,
            old(self).spec_outcome().is_none(),
        ensures
            final(self).wf(),
            final(self).cells() == old(self).cells().update(position.idx(), stone),
            final(self).spec_keys() == old(self).spec_keys(),
            final(self).spec_hash() == old(self).spec_hash() ^ old(self).spec_keys()[key_index(position, stone)],
            final(self).spec_outcome() == outcome_after(final(self).cells(), position, stone),
            final(self).spec_hash() == hash_of(final(self).cells(), zobrist_keys(), 225),
            old(self).spec_outcome() == crate::board::outcome_of(old(self).cells()) ==> final(self).spec_outcome()
                == crate::board::outcome_of(final(self).cells()),
    {
        position.check_valid();
        let ghost before = *self;
        let won = self.change_cell(position, Stone::Empty, stone);
        let key = self.keys[2 * position.to_index() + stone.side()];
        self.hash = self.hash ^ key;
        proof {
            before.lemma_cells();
            lemma_hash_update(before.cells(), before.spec_keys(), 225, position.idx(), stone);
        }
        assert(self.wf());
        if won {
            self.outcome = Some(Outcome::Win(stone));
        } else if self.board.is_full() {
            self.outcome = Some(Outcome::Draw);
        }
        proof {
            if before.spec_outcome() == crate::board::outcome_of(before.cells()) {
                search_outcome_follows_the_rules(before.cells(), position, stone);
            }
            self.board.lemma_wf();
            if makes_five(self.cells(), position, stone) {
                super::threats::lemma_line_five_is_five(self.cells(), position, stone);
            }
        }
    }

    /// Undoes a stone placement; the game is undecided again.
    #[verifier::spinoff_prover]
    pub fn undo(&mut self, position: PositionId, stone: Stone)
        requires
            old(self).wf(),
            stone.is_colour(),
            old(self).cells()[position.idx()] == stone,
        ensures
            final(self).wf(),
            final(self).cells() == old(self).cells().update(position.idx(), Stone::Empty),
            final(self).spec_keys() == old(self).spec_keys(),
            final(self).spec_hash() == old(self).spec_hash() ^ old(self).spec_keys()[key_index(position, stone)],
            final(self).spec_hash() == hash_of(final(self).cells(), zobrist_keys(), 225),
            final(self).spec_outcome().is_none(),
    {
        position.check_valid();
        let ghost before = *self;
        self.change_cell(position, stone, Stone::Empty);
        let key = self.keys[2 * position.to_index() + stone.side()];
        self.hash = self.hash ^ key;
        self.outcome = None;
        proof {
            before.lemma_cells();
            lemma_hash_remove(before.cells(), before.spec_keys(), position.idx(), stone);
        }
    }

    /// Evaluation from the perspective of `to_move`, the side about to play.
    ///
    /// Starts from the running line total, then credits the side to move for
    /// acting first: its own four completes five next move; its own open three
    /// becomes an open four that no reply stops; two open threes against it
    /// can only be blocked one at a time. A four against it is left to the
    /// search, which always plays the block out rather than scoring here.
    pub fn evaluate(&self, to_move: Stone) -> (result: Score)
        requires
            self.wf(),
            to_move.is_colour(),
        ensures
            result.0 == evaluation_of(self.cells(), to_move),
            result.0 == eval_points(
                if to_move == Stone::Black {
                    self.spec_total()
                } else {
                    -self.spec_total()
                },
                self.spec_four_lines(to_move.spec_side()),
                self.spec_four_lines(to_move.spec_opponent().spec_side()),
                self.spec_open_three_lines(to_move.spec_side()),
                self.spec_open_three_lines(to_move.spec_opponent().spec_side()),
                self.spec_move_count(),
            ),
    {
        proof {
            lemma_sum_bound(self.line_scores@, side_bound());
            self.board.lemma_wf();
            self.lemma_evaluation_from_stones(to_move);
        }
        let total: i64 = if to_move == Stone::Black {
            self.total_score
        } else {
            -self.total_score
        };
        let (own_fours, opponent_fours, own_open_threes, opponent_open_threes) =
            if to_move == Stone::Black {
            (self.black_fours, self.white_fours, self.black_open_threes, self.white_open_threes)
        } else {
            (self.white_fours, self.black_fours, self.white_open_threes, self.black_open_threes)
        };
        if own_fours > 0 {
            return Score::win_at_depth(self.board.move_count() + 1);
        }
        if opponent_fours > 0 {
            return Score::saturating(total);
        }
        if own_open_threes > 0 {
            return Score::saturating(total + 100_000);
        }
        if opponent_open_threes >= 2 {
            return Score::saturating(total - 100_000);
        }
        Score::saturating(total)
    }

    /// The evaluation from the perspective of `to_move`, as `evaluate`
    /// computes it.
    pub open spec fn evaluation(&self, to_move: Stone) -> int {
        eval_points(
            if to_move == Stone::Black {
                self.spec_total()
            } else {
                -self.spec_total()
            },
            self.spec_four_lines(to_move.spec_side()),
            self.spec_four_lines(to_move.spec_opponent().spec_side()),
            self.spec_open_three_lines(to_move.spec_side()),
            self.spec_open_three_lines(to_move.spec_opponent().spec_side()),
            self.spec_move_count(),
        )
    }

    /// Whether `stone` has a four anywhere on the board: a line where one
    /// more stone of that colour completes five.
    pub fn has_four(&self, stone: Stone) -> (result: bool)
        requires
            self.wf(),
            stone.is_colour(),
        ensures
            result == (self.spec_four_lines(stone.spec_side()) > 0),
            result == (four_lines_of(self.cells(), stone.spec_side()) > 0),
    {
        proof {
            self.lemma_counts_from_stones();
        }
        if stone == Stone::Black {
            self.black_fours > 0
        } else {
            self.white_fours > 0
        }
    }

    /// The running line total from Black's perspective.
    pub fn total_score(&self) -> (result: Score)
        requires
            self.wf(),
        ensures
            result.0 == clamp_points(self.spec_total()),
    {
        Score::saturating(self.total_score)
    }

    pub fn hash(&self) -> (result: u64)
        ensures
            result == self.spec_hash(),
            self.wf() ==> result == hash_of(self.cells(), zobrist_keys(), 225),
    {
        self.hash
    }

    pub fn board(&self) -> (result: &Board)
        requires
            self.wf(),
        ensures
            result.wf(),
            result@ == self.cells(),
    {
        &self.board
    }

    pub fn outcome(&self) -> (result: Option<Outcome>)
        ensures
            result == self.spec_outcome(),
    {
        self.outcome
    }

    pub fn move_count(&self) -> (result: usize)
        requires
            self.wf(),
        ensures
            result == self.spec_move_count(),
            result == crate::board::stone_count(self.cells()),
            result <= 225,
    {
        self.board.move_count()
    }

    pub fn is_full(&self) -> (result: bool)
        requires
            self.wf(),
        ensures
            result == crate::board::all_occupied(self.cells()),
    {
        self.board.is_full()
    }

    /// The masks of the black and of the white stones on `line`.
    pub fn line_masks(&self, line: usize) -> (result: (u16, u16))
        requires
            self.wf(),
            line < 88,
        ensures
            result.0 == line_mask(self.cells(), line as int, Stone::Black),
            result.1 == line_mask(self.cells(), line as int, Stone::White),
    {
        proof {
            let l = line as int;
            assert(mask_matches(self.line_black@[l], self.board@, l, Stone::Black));
            assert(mask_matches(line_mask(self.board@, l, Stone::Black), self.board@, l, Stone::Black));
            assert(mask_matches(line_mask(self.board@, l, Stone::White), self.board@, l, Stone::White));
            lemma_mask_unique(self.line_black@[l], line_mask(self.board@, l, Stone::Black), self.board@, l, Stone::Black);
            lemma_mask_unique(self.line_white@[l], line_mask(self.board@, l, Stone::White), self.board@, l, Stone::White);
        }
        (self.line_black[line], self.line_white[line])
    }

    /// The stone on `position`.
    pub fn stone(&self, position: PositionId) -> (result: Stone)
        requires
            self.wf(),
        ensures
            result == self.cells()[position.idx()],
    {
        self.board.stone_at(position)
    }
}

/// Placing a stone and taking it back restores the stones and the hash.
pub proof fn place_then_undo_restores(
    cells: Seq<Stone>,
    hash: u64,
    key: u64,
    position: PositionId,
    stone: Stone,
)
    requires
        position.valid(),
        cells.len() == 225,
        cells[position.idx()] == Stone::Empty,
    ensures
        cells.update(position.idx(), stone).update(position.idx(), Stone::Empty) == cells,
        (hash ^ key) ^ key == hash,
{
    assert(cells.update(position.idx(), stone).update(position.idx(), Stone::Empty) =~= cells);
    assert((hash ^ key) ^ key == hash) by (bit_vector);
}

/// A stone of one colour takes no five from the other colour.
proof fn lemma_other_five_was_there(cells: Seq<Stone>, position: PositionId, stone: Stone, other: Stone)
    requires
        cells.len() == 225,
        position.valid(),
        other != stone,
        crate::board::has_five(cells.update(position.idx(), stone), other),
    ensures
        crate::board::has_five(cells, other),
{
    let after = cells.update(position.idx(), stone);
    let (row, col, d) = choose|row: int, col: int, d: int|
        crate::position_id::on_board(row, col) && #[trigger] crate::board::five_at(after, other, row, col, d);
    assert forall|t: int| 0 <= t < 5 implies crate::position_id::on_board(
        row + t * crate::board::dir_row(d),
        col + t * crate::board::dir_col(d),
    ) && #[trigger] cell_at(cells, row + t * crate::board::dir_row(d), col + t * crate::board::dir_col(d))
        == other by {
        assert(cell_at(after, row + t * crate::board::dir_row(d), col + t * crate::board::dir_col(d)) == other);
    }
    assert(crate::board::five_at(cells, other, row, col, d));
}

/// Placing `stone` on an empty cell of a game still open, the search's
/// outcome is the game's: a five through the new stone wins for `stone`, a
/// full board without one draws, and otherwise the game goes on.
pub proof fn search_outcome_follows_the_rules(cells: Seq<Stone>, position: PositionId, stone: Stone)
    requires
        cells.len() == 225,
        position.valid(),
        stone.is_colour(),
        cells[position.idx()] == Stone::Empty,
        crate::board::outcome_of(cells).is_none(),
    ensures
        outcome_after(cells.update(position.idx(), stone), position, stone) == crate::board::outcome_of(
            cells.update(position.idx(), stone),
        ),
{
    let after = cells.update(position.idx(), stone);
    let other = stone.spec_opponent();
    if crate::board::has_five(after, other) {
        lemma_other_five_was_there(cells, position, stone, other);
    }
    if crate::board::has_five(after, stone) {
        super::threats::lemma_new_five_is_line_five(cells, position, stone);
    }
    if makes_five(after, position, stone) {
        super::threats::lemma_line_five_is_five(after, position, stone);
    }
}

/// Replaying moves keeps the board's size.
proof fn lemma_replay_len(cells: Seq<Stone>, moves: Seq<PositionId>)
    requires
        cells.len() == 225,
        forall|k: int| 0 <= k < moves.len() ==> (#[trigger] moves[k]).valid(),
    ensures
        crate::game::replay(cells, moves).len() == cells.len(),
    decreases moves.len(),
{
    if moves.len() > 0 {
        assert forall|k: int| 0 <= k < moves.len() - 1 implies (#[trigger] moves.drop_last()[k]).valid() by {
            assert(moves.drop_last()[k] == moves[k]);
        }
        lemma_replay_len(cells, moves.drop_last());
        assert(moves[moves.len() - 1].valid());
    }
}

/// Along a game of legal moves, the outcome a search state records after
/// each move, `outcome_after` the stone just placed, is the outcome of the
/// board after that move.
pub proof fn search_outcome_follows_games(cells: Seq<Stone>, moves: Seq<PositionId>)
    requires
        cells.len() == 225,
        crate::game::legal_moves(cells, moves),
    ensures
        forall|k: int|
            0 <= k < moves.len() ==> {
                let before = crate::game::replay(cells, moves.take(k));
                let stone = crate::game::to_move(before);
                outcome_after(before.update(moves[k].idx(), stone), moves[k], stone) == crate::board::outcome_of(
                    #[trigger] crate::game::replay(cells, moves.take(k + 1)),
                )
            },
{
    assert forall|k: int| 0 <= k < moves.len() implies {
        let before = crate::game::replay(cells, moves.take(k));
        let stone = crate::game::to_move(before);
        outcome_after(before.update(moves[k].idx(), stone), moves[k], stone) == crate::board::outcome_of(
            #[trigger] crate::game::replay(cells, moves.take(k + 1)),
        )
    } by {
        let before = crate::game::replay(cells, moves.take(k));
        let stone = crate::game::to_move(before);
        assert(moves.take(k + 1).drop_last() =~= moves.take(k));
        assert(moves.take(k + 1).last() == moves[k]);
        assert forall|j: int| 0 <= j < k implies (#[trigger] moves.take(k)[j]).valid() by {
            let _ = crate::game::replay(cells, moves.take(j));
            assert(moves.take(k)[j] == moves[j]);
        }
        lemma_replay_len(cells, moves.take(k));
        assert(before[moves[k].idx()] == Stone::Empty && crate::board::outcome_of(before).is_none());
        search_outcome_follows_the_rules(before, moves[k], stone);
    }
}

/// The evaluation of a board's first `n` lines from Black's side: each line
/// scored by the masks of its black and white stones.
pub open spec fn lines_total(cells: Seq<Stone>, n: int) -> int
    decreases n,
{
    if n <= 0 {
        0
    } else {
        lines_total(cells, n - 1) + line_points(
            line_mask(cells, n - 1, Stone::Black),
            line_mask(cells, n - 1, Stone::White),
            line_len(n - 1),
        )
    }
}

proof fn lemma_sum_prefix(scores: Seq<Score>, cells: Seq<Stone>, n: int)
    requires
        0 <= n <= scores.len(),
        forall|l: int|
            0 <= l < scores.len() ==> #[trigger] scores[l].0 == line_points(
                line_mask(cells, l, Stone::Black),
                line_mask(cells, l, Stone::White),
                line_len(l),
            ),
    ensures
        sum_scores(scores.take(n)) == lines_total(cells, n),
    decreases n,
{
    if n > 0 {
        lemma_sum_prefix(scores, cells, n - 1);
        assert(scores.take(n).drop_last() =~= scores.take(n - 1));
        let _ = scores[n - 1];
    }
}

impl SearchState {
    /// The running total is the line evaluation of the stones on the board.
    pub proof fn lemma_total_is_lines_total(&self)
        requires
            self.wf(),
        ensures
            self.spec_total() == lines_total(self.cells(), 88),
    {
        assert forall|l: int| 0 <= l < self.line_scores@.len() implies #[trigger] self.line_scores@[l].0
            == line_points(
            line_mask(self.board@, l, Stone::Black),
            line_mask(self.board@, l, Stone::White),
            line_len(l),
        ) by {
            let b = line_mask(self.board@, l, Stone::Black);
            let w = line_mask(self.board@, l, Stone::White);
            assert(mask_matches(self.line_black@[l], self.board@, l, Stone::Black));
            assert(mask_matches(b, self.board@, l, Stone::Black));
            assert(mask_matches(w, self.board@, l, Stone::White));
            lemma_mask_unique(self.line_black@[l], b, self.board@, l, Stone::Black);
            lemma_mask_unique(self.line_white@[l], w, self.board@, l, Stone::White);
        }
        lemma_sum_prefix(self.line_scores@, self.board@, 88);
        assert(self.line_scores@.take(88) =~= self.line_scores@);
    }
}

/// How many of the board's lines hold a four for `side` (0 Black, 1
/// White): a line where one more stone of that side completes five.
pub open spec fn four_lines_of(cells: Seq<Stone>, side: int) -> nat {
    count_true(
        Seq::new(
            88,
            |l: int|
                line_has_four(line_mask(cells, l, Stone::Black), line_mask(cells, l, Stone::White), line_len(l), side),
        ),
    )
}

/// How many of the board's lines hold an open three for `side`.
pub open spec fn open_three_lines_of(cells: Seq<Stone>, side: int) -> nat {
    count_true(
        Seq::new(
            88,
            |l: int|
                line_has_open_three(
                    line_mask(cells, l, Stone::Black),
                    line_mask(cells, l, Stone::White),
                    line_len(l),
                    side,
                ),
        ),
    )
}

/// The evaluation from the perspective of `to_move` that the stones of
/// `cells` give, as `evaluate` computes it.
pub open spec fn evaluation_of(cells: Seq<Stone>, to_move: Stone) -> int {
    eval_points(
        if to_move == Stone::Black {
            lines_total(cells, 88)
        } else {
            -lines_total(cells, 88)
        },
        four_lines_of(cells, to_move.spec_side()),
        four_lines_of(cells, to_move.spec_opponent().spec_side()),
        open_three_lines_of(cells, to_move.spec_side()),
        open_three_lines_of(cells, to_move.spec_opponent().spec_side()),
        crate::board::stone_count(cells),
    )
}

impl SearchState {
    /// A state's evaluation is the one its stones give.
    pub proof fn lemma_evaluation_from_stones(&self, to_move: Stone)
        requires
            self.wf(),
            to_move.is_colour(),
        ensures
            self.evaluation(to_move) == evaluation_of(self.cells(), to_move),
    {
        self.lemma_counts_from_stones();
        self.lemma_cells();
    }

    /// A state's hash is the Zobrist hash of its stones alone, whatever
    /// order they were placed in.
    pub proof fn lemma_hash_of_stones(&self)
        requires
            self.wf(),
        ensures
            self.spec_keys() == zobrist_keys(),
            self.spec_hash() == hash_of(self.cells(), zobrist_keys(), 225),
    {
    }

    /// Updating a state stone by stone agrees with building it afresh: two
    /// well-formed states that hold the same stones, however each was
    /// reached, read the same evaluations, line counts, hash and stone
    /// count.
    pub proof fn same_stones_same_state(a: &SearchState, b: &SearchState)
        requires
            a.wf(),
            b.wf(),
            a.cells() == b.cells(),
        ensures
            a.evaluation(Stone::Black) == b.evaluation(Stone::Black),
            a.evaluation(Stone::White) == b.evaluation(Stone::White),
            a.spec_total() == b.spec_total(),
            a.spec_four_lines(0) == b.spec_four_lines(0),
            a.spec_four_lines(1) == b.spec_four_lines(1),
            a.spec_open_three_lines(0) == b.spec_open_three_lines(0),
            a.spec_open_three_lines(1) == b.spec_open_three_lines(1),
            a.spec_hash() == b.spec_hash(),
            a.spec_move_count() == b.spec_move_count(),
    {
        a.lemma_counts_from_stones();
        b.lemma_counts_from_stones();
        a.lemma_evaluation_from_stones(Stone::Black);
        b.lemma_evaluation_from_stones(Stone::Black);
        a.lemma_evaluation_from_stones(Stone::White);
        b.lemma_evaluation_from_stones(Stone::White);
        a.lemma_cells();
        b.lemma_cells();
    }

    /// The running total and the line counts that `evaluate` and
    /// `has_four` read are the ones the stones on the board give.
    pub proof fn lemma_counts_from_stones(&self)
        requires
            self.wf(),
        ensures
            self.spec_total() == lines_total(self.cells(), 88),
            self.spec_four_lines(0) == four_lines_of(self.cells(), 0),
            self.spec_four_lines(1) == four_lines_of(self.cells(), 1),
            self.spec_open_three_lines(0) == open_three_lines_of(self.cells(), 0),
            self.spec_open_three_lines(1) == open_three_lines_of(self.cells(), 1),
    {
        self.lemma_total_is_lines_total();
        assert forall|l: int| 0 <= l < 88 implies #[trigger] self.line_black@[l] == line_mask(
            self.board@,
            l,
            Stone::Black,
        ) && self.line_white@[l] == line_mask(self.board@, l, Stone::White) by {
            let b = line_mask(self.board@, l, Stone::Black);
            let w = line_mask(self.board@, l, Stone::White);
            assert(mask_matches(self.line_black@[l], self.board@, l, Stone::Black));
            assert(mask_matches(b, self.board@, l, Stone::Black));
            assert(mask_matches(w, self.board@, l, Stone::White));
            lemma_mask_unique(self.line_black@[l], b, self.board@, l, Stone::Black);
            lemma_mask_unique(self.line_white@[l], w, self.board@, l, Stone::White);
        }
        let cells = self.board@;
        assert forall|l: int| 0 <= l < 88 implies #[trigger] self.fours_white@[l] == line_has_four(
            self.line_black@[l],
            self.line_white@[l],
            line_len(l),
            1,
        ) by {
            let _ = self.fours_black@[l];
        }
        assert forall|l: int| 0 <= l < 88 implies #[trigger] self.open_threes_white@[l] == line_has_open_three(
            self.line_black@[l],
            self.line_white@[l],
            line_len(l),
            1,
        ) by {
            let _ = self.open_threes_black@[l];
        }
        assert(self.fours_black@ =~= Seq::new(
            88,
            |l: int| line_has_four(line_mask(cells, l, Stone::Black), line_mask(cells, l, Stone::White), line_len(l), 0),
        ));
        assert(self.fours_white@ =~= Seq::new(
            88,
            |l: int| line_has_four(line_mask(cells, l, Stone::Black), line_mask(cells, l, Stone::White), line_len(l), 1),
        ));
        assert(self.open_threes_black@ =~= Seq::new(
            88,
            |l: int|
                line_has_open_three(line_mask(cells, l, Stone::Black), line_mask(cells, l, Stone::White), line_len(l), 0),
        ));
        assert(self.open_threes_white@ =~= Seq::new(
            88,
            |l: int|
                line_has_open_three(line_mask(cells, l, Stone::Black), line_mask(cells, l, Stone::White), line_len(l), 1),
        ));
    }
}

/// Two masks that match the same cells are the same mask.
proof fn lemma_mask_unique(a: u16, b: u16, cells: Seq<Stone>, line: int, stone: Stone)
    requires
        mask_matches(a, cells, line, stone),
        mask_matches(b, cells, line, stone),
    ensures
        a == b,
{
    assert forall|j: int| 0 <= j < 16 implies bit(a, j) == bit(b, j) by {
        let _ = cell_at(cells, cell_row(line, j), cell_col(line, j));
    }
    super::bits::lemma_bits_determine(a, b);
}

} // verus!
