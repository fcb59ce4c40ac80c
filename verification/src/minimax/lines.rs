//! The 88 lines of the board that can hold five in a row, and what the
//! stones on one line are worth.
//!
//! A line is stored as a `u16` mask per colour, bit `b` for the `b`-th cell
//! along the line. Rows run left to right, columns top to bottom, and both
//! diagonals from their upper end.

use vstd::prelude::*;

use crate::position_id::PositionId;

use super::score::Score;

verus! {

/// Cells per row and per column.
pub const W: usize = 15;

/// Number of scorable lines: W rows + W columns + (2W-1) DR diags + (2W-1) DL diags.
pub const NUM_LINES: usize = 88;

/// First column line.
pub const COL_START: usize = 15;

/// First down-right diagonal.
pub const DR_START: usize = 30;

/// First down-left diagonal.
pub const DL_START: usize = 59;

/// Length (number of board cells) of line `line`.
pub open spec fn line_len(line: int) -> int {
    if line < 30 {
        15
    } else if line < 59 {
        let d = line - 30;
        if d <= 14 {
            d + 1
        } else {
            29 - d
        }
    } else {
        let s = line - 59;
        if s <= 14 {
            s + 1
        } else {
            29 - s
        }
    }
}

pub fn line_length(line: usize) -> (result: u8)
    requires
        line < 88,
    ensures
        result == line_len(line as int),
{
    if line < 30 {
        15
    } else if line < 59 {
        let d = line - 30;
        if d <= 14 {
            (d + 1) as u8
        } else {
            (29 - d) as u8
        }
    } else {
        let s = line - 59;
        if s <= 14 {
            (s + 1) as u8
        } else {
            (29 - s) as u8
        }
    }
}

pub open spec fn min_int(a: int, b: int) -> int {
    if a < b {
        a
    } else {
        b
    }
}

/// The line and bit of the cell at `row`, `col` along each of its four
/// lines: row, column, down-right diagonal, down-left diagonal.
pub open spec fn line_of(row: int, col: int, k: int) -> int {
    if k == 0 {
        row
    } else if k == 1 {
        15 + col
    } else if k == 2 {
        30 + row + 14 - col
    } else {
        59 + row + col
    }
}

pub open spec fn bit_of(row: int, col: int, k: int) -> int {
    if k == 0 {
        col
    } else if k == 1 {
        row
    } else if k == 2 {
        min_int(row, col)
    } else {
        min_int(row, 14 - col)
    }
}

/// Which of the four kinds a line is: 0 rows, 1 columns, 2 down-right
/// diagonals, 3 down-left diagonals.
pub open spec fn line_kind(line: int) -> int {
    if line < 15 {
        0
    } else if line < 30 {
        1
    } else if line < 59 {
        2
    } else {
        3
    }
}

/// The row of the cell at `bit` along `line`.
pub open spec fn cell_row(line: int, bit: int) -> int {
    if line < 15 {
        line
    } else if line < 30 {
        bit
    } else if line < 59 {
        let d = line - 30;
        if d >= 14 {
            bit + d - 14
        } else {
            bit
        }
    } else {
        let s = line - 59;
        if s <= 14 {
            bit
        } else {
            s - 14 + bit
        }
    }
}

/// The column of the cell at `bit` along `line`.
pub open spec fn cell_col(line: int, bit: int) -> int {
    if line < 15 {
        bit
    } else if line < 30 {
        line - 15
    } else if line < 59 {
        let d = line - 30;
        if d >= 14 {
            bit
        } else {
            bit + 14 - d
        }
    } else {
        let s = line - 59;
        if s <= 14 {
            s - bit
        } else {
            14 - bit
        }
    }
}

/// Each cell's four (line, bit) pairs name cells of the right lines, and a
/// pair on a line names the cell whose pair it is.
pub proof fn lemma_line_geometry(row: int, col: int, k: int)
    requires
        0 <= row < 15,
        0 <= col < 15,
        0 <= k < 4,
    ensures
        0 <= line_of(row, col, k) < 88,
        line_kind(line_of(row, col, k)) == k,
        0 <= bit_of(row, col, k) < line_len(line_of(row, col, k)),
        cell_row(line_of(row, col, k), bit_of(row, col, k)) == row,
        cell_col(line_of(row, col, k), bit_of(row, col, k)) == col,
{
}

/// Every bit of a line names a board cell, whose pair on that line is the bit.
pub proof fn lemma_cell_of_line(line: int, bit: int)
    requires
        0 <= line < 88,
        0 <= bit < line_len(line),
    ensures
        0 <= cell_row(line, bit) < 15,
        0 <= cell_col(line, bit) < 15,
        line_of(cell_row(line, bit), cell_col(line, bit), line_kind(line)) == line,
        bit_of(cell_row(line, bit), cell_col(line, bit), line_kind(line)) == bit,
        line_len(line) <= 15,
{
}

/// For each board position, its 4 (`line_id`, `bit_index`) pairs.
/// Order: row, column, DR diagonal, DL diagonal.
pub fn position_lines(position: PositionId) -> (result: [(u8, u8); 4])
    ensures
        forall|k: int|
            0 <= k < 4 ==> (#[trigger] result@[k]).0 == line_of(
                position.spec_row(),
                position.spec_col(),
                k,
            ) && result@[k].1 == bit_of(position.spec_row(), position.spec_col(), k),
        position.valid(),
{
    let r = position.row();
    let c = position.col();
    let dr_bit = if r < c {
        r
    } else {
        c
    };
    let dl_bit = if r < 14 - c {
        r
    } else {
        14 - c
    };
    [
        (r as u8, c as u8),
        ((15 + c) as u8, r as u8),
        ((30 + r + 14 - c) as u8, dr_bit as u8),
        ((59 + r + c) as u8, dl_bit as u8),
    ]
}

/// Number of set bits.
pub open spec fn popcount(bits: u16) -> nat
    decreases bits,
{
    if bits == 0 {
        0
    } else {
        proof {
            assert(bits != 0 ==> bits >> 1 < bits) by (bit_vector);
        }
        (bits & 1) as nat + popcount(bits >> 1)
    }
}

proof fn lemma_popcount_bound(bits: u16)
    ensures
        popcount(bits) <= 16,
{
    reveal_with_fuel(pow2_u16, 17);
    lemma_popcount_bound_width(bits, 16);
}

proof fn lemma_popcount_bound_width(bits: u16, width: nat)
    requires
        width <= 16,
        bits < pow2_u16(width),
    ensures
        popcount(bits) <= width,
    decreases width,
{
    if bits != 0 {
        assert(width > 0) by {
            if width == 0 {
                assert(bits < 1);
            }
        }
        assert((bits & 1) <= 1) by (bit_vector);
        let w = (width - 1) as nat;
        assert(bits >> 1 < pow2_u16(w)) by {
            lemma_shift_below(bits, w);
        }
        lemma_popcount_bound_width(bits >> 1, w);
    }
}

/// `2^width` for `width <= 16`.
pub open spec fn pow2_u16(width: nat) -> int
    decreases width,
{
    if width == 0 {
        1
    } else {
        2 * pow2_u16((width - 1) as nat)
    }
}

proof fn lemma_shift_below(bits: u16, w: nat)
    requires
        w < 16,
        bits < pow2_u16(w + 1),
    ensures
        bits >> 1 < pow2_u16(w),
{
    assert(bits >> 1 == bits / 2) by (bit_vector);
    assert(pow2_u16(w + 1) == 2 * pow2_u16(w));
}

pub fn popcount_exec(bits: u16) -> (result: usize)
    ensures
        result == popcount(bits),
        result <= 16,
{
    proof {
        lemma_popcount_bound(bits);
    }
    let mut rest = bits;
    let mut count: usize = 0;
    while rest != 0
        invariant
            count + popcount(rest) == popcount(bits),
            popcount(bits) <= 16,
        decreases rest,
    {
        assert(rest != 0 ==> rest >> 1 < rest) by (bit_vector);
        assert((rest & 1) <= 1) by (bit_vector);
        count = count + (rest & 1) as usize;
        rest = rest >> 1;
    }
    count
}

/// Cells holding own stones as the start of a run of at least two.
pub open spec fn run2(own: u16) -> u16 {
    own & (own >> 1)
}

pub open spec fn run3(own: u16) -> u16 {
    run2(own) & (own >> 2)
}

pub open spec fn run4(own: u16) -> u16 {
    run2(own) & (run2(own) >> 2)
}

pub open spec fn run5(own: u16) -> u16 {
    run4(own) & (own >> 4)
}

/// Runs that no own stone precedes.
pub open spec fn not_preceded(own: u16, valid: u16) -> u16 {
    !(own << 1) & valid
}

pub open spec fn exact5(own: u16, valid: u16) -> u16 {
    run5(own) & not_preceded(own, valid)
}

pub open spec fn exact4(own: u16, valid: u16) -> u16 {
    (run4(own) & !run5(own)) & not_preceded(own, valid)
}

pub open spec fn exact3(own: u16, valid: u16) -> u16 {
    (run3(own) & !run4(own)) & not_preceded(own, valid)
}

pub open spec fn exact2(own: u16, valid: u16) -> u16 {
    (run2(own) & !run3(own)) & not_preceded(own, valid)
}

/// Four own stones in a five-cell window with one empty gap: `X_XXX`,
/// `XX_XX`, `XXX_X`. Filling the gap completes five.
pub open spec fn jump_four(own: u16, empty: u16) -> u16 {
    (own & (empty >> 1) & (run3(own) >> 2)) | (run2(own) & (empty >> 2) & (run2(own) >> 3)) | (
    run3(own) & (empty >> 3) & (own >> 4))
}

/// `_XXXX_`: two empty cells complete five.
pub open spec fn open_four(own: u16, valid: u16, empty: u16) -> u16 {
    exact4(own, valid) & (empty << 1) & (empty >> 4)
}

/// A straight four with exactly one completing end.
pub open spec fn half_open_four(own: u16, valid: u16, empty: u16) -> u16 {
    exact4(own, valid) & ((empty << 1) ^ (empty >> 4))
}

/// A three with a five-cell window whose other two cells are empty.
pub open spec fn live_three(own: u16, valid: u16, empty: u16) -> u16 {
    exact3(own, valid) & (((empty << 2) & (empty << 1)) | ((empty << 1) & (empty >> 3)) | ((
    empty >> 3) & (empty >> 4)))
}

/// A three one move from an open four: both neighbours empty and room for a
/// fifth cell on one side.
pub open spec fn open_three(own: u16, valid: u16, empty: u16) -> u16 {
    exact3(own, valid) & (empty << 1) & (empty >> 3) & ((empty << 2) | (empty >> 4))
}

pub open spec fn half_open_three(own: u16, valid: u16, empty: u16) -> u16 {
    live_three(own, valid, empty) & !open_three(own, valid, empty)
}

/// Three own stones in a four-cell window with one gap, `X_XX` or `XX_X`,
/// not part of a jump four.
pub open spec fn split_three(own: u16, valid: u16, empty: u16) -> u16 {
    ((own & (empty >> 1) & (run2(own) >> 2)) | (run2(own) & (empty >> 2) & (own >> 3)))
        & not_preceded(own, valid) & !(own >> 4)
}

pub open spec fn open_split_three(own: u16, valid: u16, empty: u16) -> u16 {
    split_three(own, valid, empty) & (empty << 1) & (empty >> 4)
}

pub open spec fn half_open_split_three(own: u16, valid: u16, empty: u16) -> u16 {
    split_three(own, valid, empty) & ((empty << 1) ^ (empty >> 4))
}

/// A two with a five-cell window whose other three cells are empty.
pub open spec fn live_two(own: u16, valid: u16, empty: u16) -> u16 {
    exact2(own, valid) & (((empty << 3) & (empty << 2) & (empty << 1)) | ((empty << 2) & (empty
        << 1) & (empty >> 2)) | ((empty << 1) & (empty >> 2) & (empty >> 3)) | ((empty >> 2) & (
    empty >> 3) & (empty >> 4)))
}

pub open spec fn open_two(own: u16, valid: u16, empty: u16) -> u16 {
    live_two(own, valid, empty) & (empty << 1) & (empty >> 2)
}

pub open spec fn half_open_two(own: u16, valid: u16, empty: u16) -> u16 {
    live_two(own, valid, empty) & ((empty << 1) ^ (empty >> 2))
}

/// What one colour's stones on a line are worth: each shape counted by its
/// weight.
pub open spec fn side_points(own: u16, valid: u16, empty: u16) -> int {
    (100_000_000 * popcount(exact5(own, valid)) + 100_000 * popcount(
        open_four(own, valid, empty),
    ) + 10_000 * popcount(half_open_four(own, valid, empty)) + 10_000 * popcount(
        jump_four(own, empty),
    ) + 5_000 * popcount(open_three(own, valid, empty) | open_split_three(own, valid, empty))
        + 500 * popcount(
        half_open_three(own, valid, empty) | half_open_split_three(own, valid, empty),
    ) + 200 * popcount(open_two(own, valid, empty)) + 20 * popcount(
        half_open_two(own, valid, empty),
    )) as int
}

/// The side holds a four: one more stone of its colour completes five.
pub open spec fn side_has_four(own: u16, valid: u16, empty: u16) -> bool {
    (open_four(own, valid, empty) | half_open_four(own, valid, empty) | jump_four(own, empty)) != 0
}

/// The side holds an open three: one more stone makes an open four.
pub open spec fn side_has_open_three(own: u16, valid: u16, empty: u16) -> bool {
    (open_three(own, valid, empty) | open_split_three(own, valid, empty)) != 0
}

/// The cells of a line of `length` cells.
pub open spec fn valid_mask(length: int) -> u16 {
    if length < 2 {
        0
    } else {
        ((1u16 << (length as u16)) - 1) as u16
    }
}

/// The empty cells of a line.
pub open spec fn empty_mask(black: u16, white: u16, length: int) -> u16 {
    !(black | white) & valid_mask(length)
}

/// A line's score from Black's perspective.
pub open spec fn line_points(black: u16, white: u16, length: int) -> int {
    if length < 2 {
        0
    } else {
        side_points(black, valid_mask(length), empty_mask(black, white, length)) - side_points(
            white,
            valid_mask(length),
            empty_mask(black, white, length),
        )
    }
}

pub open spec fn line_has_four(black: u16, white: u16, length: int, side: int) -> bool {
    length >= 2 && side_has_four(
        if side == 0 {
            black
        } else {
            white
        },
        valid_mask(length),
        empty_mask(black, white, length),
    )
}

pub open spec fn line_has_open_three(black: u16, white: u16, length: int, side: int) -> bool {
    length >= 2 && side_has_open_three(
        if side == 0 {
            black
        } else {
            white
        },
        valid_mask(length),
        empty_mask(black, white, length),
    )
}

/// What one line contributes to the evaluation.
#[derive(Debug, Clone, Copy, PartialEq, Eq)]
pub struct LineScore {
    /// Score from Black's perspective (positive = Black advantage).
    pub score: Score,
    /// Whether the line holds a four for Black (index 0) or White (index 1),
    /// meaning one more stone of that colour completes five.
    pub has_four: [bool; 2],
    /// Whether the line holds an open three for Black (index 0) or White
    /// (index 1), meaning one more stone of that colour makes an open four.
    pub has_open_three: [bool; 2],
}

/// What one colour's stones on a line are worth.
pub struct SideScore {
    pub score: Score,
    pub has_four: bool,
    pub has_open_three: bool,
}

/// The largest magnitude of a side's points.
pub open spec fn side_bound() -> int {
    16 * (100_000_000int + 100_000 + 10_000 + 10_000 + 5_000 + 500 + 200 + 20)
}

/// Scores one colour's stones on a line whose cells are `valid` and whose
/// empty cells are `empty`.
///
/// A run of stones only matters if it can still become five: some 5-cell
/// window holding the whole run must have every other cell empty. A run that
/// fails this is dead and scores nothing, whatever its neighbours look like.
pub fn score_side(own: u16, valid: u16, empty: u16) -> (result: SideScore)
    ensures
        result.score.0 == side_points(own, valid, empty),
        0 <= result.score.0 <= side_bound(),
        result.has_four == side_has_four(own, valid, empty),
        result.has_open_three == side_has_open_three(own, valid, empty),
{
    let c2 = own & (own >> 1);
    let c3 = c2 & (own >> 2);
    let c4 = c2 & (c2 >> 2);
    let c5 = c4 & (own >> 4);
    let not_preceded = !(own << 1) & valid;
    let exact5 = c5 & not_preceded;
    let exact4 = (c4 & !c5) & not_preceded;
    let exact3 = (c3 & !c4) & not_preceded;
    let exact2 = (c2 & !c3) & not_preceded;
    let empty_before_3 = empty << 3;
    let empty_before_2 = empty << 2;
    let empty_before_1 = empty << 1;
    let empty_after_2 = empty >> 2;
    let empty_after_3 = empty >> 3;
    let empty_after_4 = empty >> 4;
    let jump_four = (own & (empty >> 1) & (c3 >> 2)) | (c2 & (empty >> 2) & (c2 >> 3)) | (c3 & (
    empty >> 3) & (own >> 4));
    let open_four = exact4 & empty_before_1 & empty_after_4;
    let half_open_four = exact4 & (empty_before_1 ^ empty_after_4);
    let live_three = exact3 & ((empty_before_2 & empty_before_1) | (empty_before_1 & empty_after_3)
        | (empty_after_3 & empty_after_4));
    let open_three = exact3 & empty_before_1 & empty_after_3 & (empty_before_2 | empty_after_4);
    let half_open_three = live_three & !open_three;
    let split_three = ((own & (empty >> 1) & (c2 >> 2)) | (c2 & (empty >> 2) & (own >> 3)))
        & not_preceded & !(own >> 4);
    let open_split_three = split_three & empty_before_1 & empty_after_4;
    let half_open_split_three = split_three & (empty_before_1 ^ empty_after_4);
    let live_two = exact2 & ((empty_before_3 & empty_before_2 & empty_before_1) | (empty_before_2
        & empty_before_1 & empty_after_2) | (empty_before_1 & empty_after_2 & empty_after_3) | (
    empty_after_2 & empty_after_3 & empty_after_4));
    let open_two = live_two & empty_before_1 & empty_after_2;
    let half_open_two = live_two & (empty_before_1 ^ empty_after_2);

    let n5 = popcount_exec(exact5) as i64;
    let n_open_four = popcount_exec(open_four) as i64;
    let n_half_open_four = popcount_exec(half_open_four) as i64;
    let n_jump_four = popcount_exec(jump_four) as i64;
    let n_open_three = popcount_exec(open_three | open_split_three) as i64;
    let n_half_open_three = popcount_exec(half_open_three | half_open_split_three) as i64;
    let n_open_two = popcount_exec(open_two) as i64;
    let n_half_open_two = popcount_exec(half_open_two) as i64;
    let total: i64 = 100_000_000 * n5 + 100_000 * n_open_four + 10_000 * n_half_open_four + 10_000
        * n_jump_four + 5_000 * n_open_three + 500 * n_half_open_three + 200 * n_open_two + 20
        * n_half_open_two;
    SideScore {
        score: Score(total as i32),
        has_four: (open_four | half_open_four | jump_four) != 0,
        has_open_three: (open_three | open_split_three) != 0,
    }
}

/// Scores a single line.
///
/// Uses u16 shift-AND on single registers. Boundary handling is automatic:
/// shifted-in zeros at bit 0 and beyond the line length act as blockers.
pub fn score_line(black: u16, white: u16, length: u8) -> (result: LineScore)
    requires
        length <= 15,
    ensures
        result.score.0 == line_points(black, white, length as int),
        forall|side: int|
            0 <= side < 2 ==> result.has_four[side] == line_has_four(
                black,
                white,
                length as int,
                side,
            ),
        forall|side: int|
            0 <= side < 2 ==> result.has_open_three[side] == line_has_open_three(
                black,
                white,
                length as int,
                side,
            ),
        -side_bound() <= result.score.0 <= side_bound(),
{
    if length < 2 {
        return LineScore {
            score: Score(0),
            has_four: [false, false],
            has_open_three: [false, false],
        };
    }
    assert(2 <= length <= 15 ==> (1u16 << length) >= 4) by (bit_vector);
    let valid: u16 = (1u16 << length) - 1;
    let empty = !(black | white) & valid;
    let black_side = score_side(black, valid, empty);
    let white_side = score_side(white, valid, empty);
    LineScore {
        score: Score(black_side.score.0 - white_side.score.0),
        has_four: [black_side.has_four, white_side.has_four],
        has_open_three: [black_side.has_open_three, white_side.has_open_three],
    }
}

/// Swapping the colours of a line negates its score.
pub proof fn line_score_is_antisymmetric(black: u16, white: u16, length: int)
    ensures
        line_points(white, black, length) == -line_points(black, white, length),
{
    assert(!(white | black) == !(black | white)) by (bit_vector);
}


/// The sixteen bits of `x` in the opposite order.
pub open spec fn reverse_bits(x: u16) -> u16 {
    let x1 = ((x >> 1u16) & 0x5555u16) | ((x & 0x5555u16) << 1u16);
    let x2 = ((x1 >> 2u16) & 0x3333u16) | ((x1 & 0x3333u16) << 2u16);
    let x3 = ((x2 >> 4u16) & 0x0f0fu16) | ((x2 & 0x0f0fu16) << 4u16);
    (x3 >> 8u16) | (x3 << 8u16)
}

/// A line of `length` cells read from its other end: the cell at `i` goes
/// to `length - 1 - i`.
pub open spec fn mirror(x: u16, length: u16) -> u16 {
    reverse_bits(x) >> (16 - length) as u16
}

/// Where the shapes `width` cells long that start at the cells of `x` start
/// once the line is read from its other end.
pub open spec fn mirror_starts(x: u16, length: u16, width: u16) -> u16 {
    reverse_bits(x) >> (15 - length + width) as u16
}

/// Cells holding own stones as the start of the last five-cell window of a
/// run of five or more.
pub open spec fn final5(own: u16) -> u16 {
    run5(own) & !(own >> 5u16)
}

proof fn lemma_mirror_jump_four(own: u16, empty: u16, valid: u16, n: u16)
    by (bit_vector)
    requires
        5 <= n <= 15,
        valid == ((1u16 << n) - 1) as u16,
        own & !valid == 0,
        empty & !valid == 0,
        own & empty == 0,
    ensures
        jump_four(mirror(own, n), mirror(empty, n)) == mirror_starts(jump_four(own, empty), n, 5),
        jump_four(own, empty) >> (n - 4) as u16 == 0,
{
}

proof fn lemma_mirror_five(own: u16, empty: u16, valid: u16, n: u16)
    by (bit_vector)
    requires
        5 <= n <= 15,
        valid == ((1u16 << n) - 1) as u16,
        own & !valid == 0,
        empty & !valid == 0,
        own & empty == 0,
    ensures
        exact5(mirror(own, n), valid) == mirror_starts(final5(own), n, 5),
        exact5(own, valid) >> (n - 4) as u16 == 0,
        final5(own) >> (n - 4) as u16 == 0,
{
}

proof fn lemma_mirror_fours(own: u16, empty: u16, valid: u16, n: u16)
    by (bit_vector)
    requires
        5 <= n <= 15,
        valid == ((1u16 << n) - 1) as u16,
        own & !valid == 0,
        empty & !valid == 0,
        own & empty == 0,
    ensures
        open_four(mirror(own, n), valid, mirror(empty, n)) == mirror_starts(open_four(own, valid, empty), n, 4),
        half_open_four(mirror(own, n), valid, mirror(empty, n)) == mirror_starts(half_open_four(own, valid, empty), n, 4),
        open_four(own, valid, empty) >> (n - 3) as u16 == 0,
        half_open_four(own, valid, empty) >> (n - 3) as u16 == 0,
{
}

proof fn lemma_mirror_threes(own: u16, empty: u16, valid: u16, n: u16)
    by (bit_vector)
    requires
        5 <= n <= 15,
        valid == ((1u16 << n) - 1) as u16,
        own & !valid == 0,
        empty & !valid == 0,
        own & empty == 0,
    ensures
        open_three(mirror(own, n), valid, mirror(empty, n)) == mirror_starts(open_three(own, valid, empty), n, 3),
        half_open_three(mirror(own, n), valid, mirror(empty, n)) == mirror_starts(half_open_three(own, valid, empty), n, 3),
        open_three(own, valid, empty) >> (n - 2) as u16 == 0,
        half_open_three(own, valid, empty) >> (n - 2) as u16 == 0,
{
}

proof fn lemma_mirror_split_threes(own: u16, empty: u16, valid: u16, n: u16)
    by (bit_vector)
    requires
        5 <= n <= 15,
        valid == ((1u16 << n) - 1) as u16,
        own & !valid == 0,
        empty & !valid == 0,
        own & empty == 0,
    ensures
        open_split_three(mirror(own, n), valid, mirror(empty, n)) == mirror_starts(open_split_three(own, valid, empty), n, 4),
        half_open_split_three(mirror(own, n), valid, mirror(empty, n)) == mirror_starts(half_open_split_three(own, valid, empty), n, 4),
        open_split_three(own, valid, empty) >> (n - 3) as u16 == 0,
        half_open_split_three(own, valid, empty) >> (n - 3) as u16 == 0,
        open_three(own, valid, empty) & open_split_three(own, valid, empty) == 0,
        half_open_three(own, valid, empty) & half_open_split_three(own, valid, empty) == 0,
{
}

proof fn lemma_mirror_twos(own: u16, empty: u16, valid: u16, n: u16)
    by (bit_vector)
    requires
        5 <= n <= 15,
        valid == ((1u16 << n) - 1) as u16,
        own & !valid == 0,
        empty & !valid == 0,
        own & empty == 0,
    ensures
        open_two(mirror(own, n), valid, mirror(empty, n)) == mirror_starts(open_two(own, valid, empty), n, 2),
        half_open_two(mirror(own, n), valid, mirror(empty, n)) == mirror_starts(half_open_two(own, valid, empty), n, 2),
        open_two(own, valid, empty) >> (n - 1) as u16 == 0,
        half_open_two(own, valid, empty) >> (n - 1) as u16 == 0,
{
}

/// The number of bits of `x` that are set, written out bit by bit.
pub open spec fn bit_sum(x: u16) -> int {
    ((x >> 0u16) & 1u16) as int + ((x >> 1u16) & 1u16) as int + ((x >> 2u16) & 1u16) as int + ((x >> 3u16) & 1u16) as int + ((x >> 4u16) & 1u16) as int + ((x >> 5u16) & 1u16) as int + ((x >> 6u16) & 1u16) as int + ((x >> 7u16) & 1u16) as int + ((x >> 8u16) & 1u16) as int + ((x >> 9u16) & 1u16) as int + ((x >> 10u16) & 1u16) as int + ((x >> 11u16) & 1u16) as int + ((x >> 12u16) & 1u16) as int + ((x >> 13u16) & 1u16) as int + ((x >> 14u16) & 1u16) as int + ((x >> 15u16) & 1u16) as int
}

proof fn lemma_popcount_from(x: u16, j: u16)
    requires
        j <= 16,
    ensures
        popcount(x) == bit_sum_below(x, j as int) + popcount(if j < 16 { x >> j } else { 0u16 }),
    decreases j,
{
    if j == 0 {
        assert(x >> 0u16 == x) by (bit_vector);
    } else {
        let i = (j - 1) as u16;
        lemma_popcount_from(x, i);
        let y = x >> i;
        assert(i < 16);
        if j < 16 {
            assert(y >> 1u16 == x >> j) by (bit_vector)
                requires
                    i < 15,
                    j == i + 1,
                    y == x >> i,
            ;
        } else {
            assert(y >> 1u16 == 0) by (bit_vector)
                requires
                    i == 15,
                    y == x >> i,
            ;
        }
        if y == 0 {
            assert(y >> 1u16 == 0 && y & 1 == 0) by (bit_vector)
                requires
                    y == 0,
            ;
        }
        assert(popcount(y) == (y & 1) as nat + popcount(y >> 1u16));
    }
}

/// The set bits of `x` below bit `j`.
pub open spec fn bit_sum_below(x: u16, j: int) -> int
    decreases j,
{
    if j <= 0 {
        0
    } else {
        bit_sum_below(x, j - 1) + ((x >> (j - 1) as u16) & 1u16) as int
    }
}

/// `popcount` counts the set bits.
proof fn lemma_popcount_is_bit_sum(x: u16)
    ensures
        popcount(x) == bit_sum(x),
{
    lemma_popcount_from(x, 16);
    reveal_with_fuel(bit_sum_below, 17);
}

/// Reading a mask of shape starts from the other end keeps how many there
/// are.
proof fn lemma_bit_sum_mirror(x: u16, k: u16)
    by (bit_vector)
    requires
        1 <= k <= 15,
        x >> (16 - k) as u16 == 0,
    ensures
        bit_sum(reverse_bits(x) >> k) == bit_sum(x),
{
}

/// Disjoint masks count up.
proof fn lemma_bit_sum_disjoint(a: u16, b: u16)
    by (bit_vector)
    requires
        a & b == 0,
    ensures
        bit_sum(a | b) == bit_sum(a) + bit_sum(b),
        (a | b) == 0 <==> (a == 0 && b == 0),
{
}

/// A run of five or more has one first and one last five-cell window.
proof fn lemma_bit_sum_fives(own: u16, valid: u16, n: u16)
    by (bit_vector)
    requires
        5 <= n <= 15,
        valid == ((1u16 << n) - 1) as u16,
        own & !valid == 0,
    ensures
        bit_sum(exact5(own, valid)) == bit_sum(final5(own)),
{
}

/// A mask is empty exactly when it counts no bits; an or of masks is empty
/// exactly when each is.
proof fn lemma_bit_sum_zero(a: u16, b: u16, c: u16)
    by (bit_vector)
    ensures
        a == 0 <==> bit_sum(a) == 0,
        (a | b | c) == 0 <==> (a == 0 && b == 0 && c == 0),
        (a | b) == 0 <==> (a == 0 && b == 0),
{
}

/// Reading a line from its other end keeps its cells on the line and its
/// stones off its empty cells.
proof fn lemma_mirror_masks(own: u16, empty: u16, valid: u16, n: u16)
    by (bit_vector)
    requires
        2 <= n <= 15,
        valid == ((1u16 << n) - 1) as u16,
        own & !valid == 0,
        empty & !valid == 0,
        own & empty == 0,
    ensures
        mirror(own, n) & !valid == 0,
        mirror(empty, n) & !valid == 0,
        mirror(own, n) & mirror(empty, n) == 0,
{
}

/// How many shapes `x` marks, and the same counted from the other end.
proof fn lemma_count_mirrored(x: u16, n: u16, width: u16)
    requires
        5 <= n <= 15,
        2 <= width <= 5,
        x >> (n - width + 1) as u16 == 0,
    ensures
        popcount(mirror_starts(x, n, width)) == popcount(x),
        bit_sum(mirror_starts(x, n, width)) == bit_sum(x),
{
    let k = (15 - n + width) as u16;
    assert((16 - k) as u16 == (n - width + 1) as u16);
    lemma_bit_sum_mirror(x, k);
    lemma_popcount_is_bit_sum(x);
    lemma_popcount_is_bit_sum(mirror_starts(x, n, width));
}

/// One colour's stones on a line of five or more cells are worth the same,
/// and hold a four or an open three alike, read from either end.
proof fn lemma_side_mirror(own: u16, empty: u16, valid: u16, n: u16)
    requires
        5 <= n <= 15,
        valid == ((1u16 << n) - 1) as u16,
        own & !valid == 0,
        empty & !valid == 0,
        own & empty == 0,
    ensures
        side_points(mirror(own, n), valid, mirror(empty, n)) == side_points(own, valid, empty),
        side_has_four(mirror(own, n), valid, mirror(empty, n)) == side_has_four(own, valid, empty),
        side_has_open_three(mirror(own, n), valid, mirror(empty, n)) == side_has_open_three(own, valid, empty),
{
    let mo = mirror(own, n);
    let me = mirror(empty, n);
    lemma_mirror_masks(own, empty, valid, n);
    lemma_mirror_jump_four(own, empty, valid, n);
    lemma_mirror_five(own, empty, valid, n);
    lemma_mirror_fours(own, empty, valid, n);
    lemma_mirror_threes(own, empty, valid, n);
    lemma_mirror_split_threes(own, empty, valid, n);
    lemma_mirror_split_threes(mo, me, valid, n);
    lemma_mirror_twos(own, empty, valid, n);
    // Fives: the mirrored first windows are the last windows.
    lemma_count_mirrored(final5(own), n, 5);
    lemma_bit_sum_fives(own, valid, n);
    lemma_popcount_is_bit_sum(exact5(own, valid));
    lemma_popcount_is_bit_sum(final5(own));
    // Fours.
    lemma_count_mirrored(open_four(own, valid, empty), n, 4);
    lemma_count_mirrored(half_open_four(own, valid, empty), n, 4);
    lemma_count_mirrored(jump_four(own, empty), n, 5);
    // Threes, straight and split, which never share a start.
    let ot = open_three(own, valid, empty);
    let os = open_split_three(own, valid, empty);
    let ht = half_open_three(own, valid, empty);
    let hs = half_open_split_three(own, valid, empty);
    lemma_count_mirrored(ot, n, 3);
    lemma_count_mirrored(os, n, 4);
    lemma_count_mirrored(ht, n, 3);
    lemma_count_mirrored(hs, n, 4);
    lemma_bit_sum_disjoint(ot, os);
    lemma_bit_sum_disjoint(ht, hs);
    lemma_bit_sum_disjoint(open_three(mo, valid, me), open_split_three(mo, valid, me));
    lemma_bit_sum_disjoint(half_open_three(mo, valid, me), half_open_split_three(mo, valid, me));
    lemma_popcount_is_bit_sum(ot | os);
    lemma_popcount_is_bit_sum(ht | hs);
    lemma_popcount_is_bit_sum(open_three(mo, valid, me) | open_split_three(mo, valid, me));
    lemma_popcount_is_bit_sum(half_open_three(mo, valid, me) | half_open_split_three(mo, valid, me));
    // Twos.
    lemma_count_mirrored(open_two(own, valid, empty), n, 2);
    lemma_count_mirrored(half_open_two(own, valid, empty), n, 2);
    // The flags: a mask is empty exactly when it counts nothing.
    let of = open_four(own, valid, empty);
    let hf = half_open_four(own, valid, empty);
    let jf = jump_four(own, empty);
    lemma_bit_sum_zero(of | hf | jf, 0, 0);
    lemma_bit_sum_zero(of, hf, jf);
    lemma_bit_sum_zero(of, 0, 0);
    lemma_bit_sum_zero(hf, 0, 0);
    lemma_bit_sum_zero(jf, 0, 0);
    let mof = open_four(mo, valid, me);
    let mhf = half_open_four(mo, valid, me);
    let mjf = jump_four(mo, me);
    lemma_bit_sum_zero(mof, mhf, mjf);
    lemma_bit_sum_zero(mof, 0, 0);
    lemma_bit_sum_zero(mhf, 0, 0);
    lemma_bit_sum_zero(mjf, 0, 0);
    lemma_bit_sum_zero(ot, os, 0);
    lemma_bit_sum_zero(ot, 0, 0);
    lemma_bit_sum_zero(os, 0, 0);
    lemma_bit_sum_zero(open_three(mo, valid, me), open_split_three(mo, valid, me), 0);
    lemma_bit_sum_zero(open_three(mo, valid, me), 0, 0);
    lemma_bit_sum_zero(open_split_three(mo, valid, me), 0, 0);
}

/// A line of fewer than five cells holds no shape at all.
proof fn lemma_short_line_shapes(own: u16, empty: u16, valid: u16, n: u16)
    by (bit_vector)
    requires
        2 <= n <= 4,
        valid == ((1u16 << n) - 1) as u16,
        own & !valid == 0,
        empty & !valid == 0,
    ensures
        exact5(own, valid) == 0,
        open_four(own, valid, empty) == 0,
        half_open_four(own, valid, empty) == 0,
        jump_four(own, empty) == 0,
        open_three(own, valid, empty) | open_split_three(own, valid, empty) == 0,
        half_open_three(own, valid, empty) | half_open_split_three(own, valid, empty) == 0,
        open_two(own, valid, empty) == 0,
        half_open_two(own, valid, empty) == 0,
{
}

/// The empty cells of a line read from its other end are its empty cells
/// read from the other end.
proof fn lemma_mirror_empty(black: u16, white: u16, valid: u16, n: u16)
    by (bit_vector)
    requires
        2 <= n <= 15,
        valid == ((1u16 << n) - 1) as u16,
        black & !valid == 0,
        white & !valid == 0,
    ensures
        !(mirror(black, n) | mirror(white, n)) & valid == mirror(!(black | white) & valid, n),
        black & (!(black | white) & valid) == 0,
        white & (!(black | white) & valid) == 0,
        (!(black | white) & valid) & !valid == 0,
{
}

/// A line's score does not depend on which end it is read from: read from
/// the other end, the same stones score the same, and hold a four and an
/// open three for the same colours.
pub proof fn line_score_is_mirror_symmetric(black: u16, white: u16, length: u16)
    requires
        2 <= length <= 15,
        black & !valid_mask(length as int) == 0,
        white & !valid_mask(length as int) == 0,
    ensures
        line_points(mirror(black, length), mirror(white, length), length as int) == line_points(
            black,
            white,
            length as int,
        ),
        forall|side: int|
            0 <= side < 2 ==> #[trigger] line_has_four(mirror(black, length), mirror(white, length), length as int, side)
                == line_has_four(black, white, length as int, side),
        forall|side: int|
            0 <= side < 2 ==> #[trigger] line_has_open_three(
                mirror(black, length),
                mirror(white, length),
                length as int,
                side,
            ) == line_has_open_three(black, white, length as int, side),
{
    let n = length;
    let valid = valid_mask(length as int);
    assert(valid == ((1u16 << n) - 1) as u16);
    let empty = empty_mask(black, white, length as int);
    let mb = mirror(black, n);
    let mw = mirror(white, n);
    lemma_mirror_empty(black, white, valid, n);
    assert(empty_mask(mb, mw, length as int) == mirror(empty, n));
    lemma_mirror_masks(black, empty, valid, n);
    lemma_mirror_masks(white, empty, valid, n);
    if n >= 5 {
        lemma_side_mirror(black, empty, valid, n);
        lemma_side_mirror(white, empty, valid, n);
    } else {
        let me = mirror(empty, n);
        lemma_short_line_shapes(black, empty, valid, n);
        lemma_short_line_shapes(white, empty, valid, n);
        lemma_short_line_shapes(mb, me, valid, n);
        lemma_short_line_shapes(mw, me, valid, n);
        assert(popcount(0u16) == 0);
    }
}

/// A stone of the side on the empty cell `c` makes an open four there.
pub open spec fn makes_open_four_at(own: u16, valid: u16, empty: u16, c: u16) -> bool {
    &&& empty & (1u16 << c) != 0
    &&& open_four(own | (1u16 << c), valid, empty & !(1u16 << c)) & (0x000fu16 << c >> 3u16) != 0
}

/// A stone of the side on the empty cell `c` makes five or more in a row.
pub open spec fn makes_five_at(own: u16, empty: u16, c: u16) -> bool {
    &&& empty & (1u16 << c) != 0
    &&& run5(own | (1u16 << c)) != 0
}

spec fn open_four_by_one_stone(own: u16, valid: u16, empty: u16) -> bool {
    makes_open_four_at(own, valid, empty, 0u16)
        || makes_open_four_at(own, valid, empty, 1u16)
        || makes_open_four_at(own, valid, empty, 2u16)
        || makes_open_four_at(own, valid, empty, 3u16)
        || makes_open_four_at(own, valid, empty, 4u16)
        || makes_open_four_at(own, valid, empty, 5u16)
        || makes_open_four_at(own, valid, empty, 6u16)
        || makes_open_four_at(own, valid, empty, 7u16)
        || makes_open_four_at(own, valid, empty, 8u16)
        || makes_open_four_at(own, valid, empty, 9u16)
        || makes_open_four_at(own, valid, empty, 10u16)
        || makes_open_four_at(own, valid, empty, 11u16)
        || makes_open_four_at(own, valid, empty, 12u16)
        || makes_open_four_at(own, valid, empty, 13u16)
        || makes_open_four_at(own, valid, empty, 14u16)
        || makes_open_four_at(own, valid, empty, 15u16)
}

spec fn five_by_one_stone(own: u16, empty: u16) -> bool {
    makes_five_at(own, empty, 0u16)
        || makes_five_at(own, empty, 1u16)
        || makes_five_at(own, empty, 2u16)
        || makes_five_at(own, empty, 3u16)
        || makes_five_at(own, empty, 4u16)
        || makes_five_at(own, empty, 5u16)
        || makes_five_at(own, empty, 6u16)
        || makes_five_at(own, empty, 7u16)
        || makes_five_at(own, empty, 8u16)
        || makes_five_at(own, empty, 9u16)
        || makes_five_at(own, empty, 10u16)
        || makes_five_at(own, empty, 11u16)
        || makes_five_at(own, empty, 12u16)
        || makes_five_at(own, empty, 13u16)
        || makes_five_at(own, empty, 14u16)
        || makes_five_at(own, empty, 15u16)
}

proof fn lemma_open_three_by_cells(own: u16, empty: u16, valid: u16, n: u16)
    by (bit_vector)
    requires
        2 <= n <= 15,
        valid == ((1u16 << n) - 1) as u16,
        own & !valid == 0,
        empty & !valid == 0,
        own & empty == 0,
    ensures
        side_has_open_three(own, valid, empty) == open_four_by_one_stone(own, valid, empty),
{
}

proof fn lemma_four_by_cells(own: u16, empty: u16, valid: u16, n: u16)
    by (bit_vector)
    requires
        2 <= n <= 15,
        valid == ((1u16 << n) - 1) as u16,
        own & !valid == 0,
        empty & !valid == 0,
        own & empty == 0,
        run5(own) == 0,
    ensures
        side_has_four(own, valid, empty) == five_by_one_stone(own, empty),
{
}

/// An open three is one stone from an open four: the side holds an open
/// three exactly when one more of its stones, on some empty cell, makes an
/// open four through that cell.
pub proof fn open_three_is_one_stone_from_open_four(own: u16, empty: u16, length: u16)
    requires
        2 <= length <= 15,
        own & !valid_mask(length as int) == 0,
        empty & !valid_mask(length as int) == 0,
        own & empty == 0,
    ensures
        side_has_open_three(own, valid_mask(length as int), empty) <==> exists|c: u16|
            c < 16 && #[trigger] makes_open_four_at(own, valid_mask(length as int), empty, c),
{
    let valid = valid_mask(length as int);
    assert(valid == ((1u16 << length) - 1) as u16);
    lemma_open_three_by_cells(own, empty, valid, length);
    if exists|c: u16| c < 16 && #[trigger] makes_open_four_at(own, valid, empty, c) {
        let c = choose|c: u16| c < 16 && #[trigger] makes_open_four_at(own, valid, empty, c);
        assert(c == 0u16 || c == 1u16 || c == 2u16 || c == 3u16 || c == 4u16 || c == 5u16 || c == 6u16 || c == 7u16 || c == 8u16 || c == 9u16 || c == 10u16 || c == 11u16 || c == 12u16 || c == 13u16 || c == 14u16 || c == 15u16);
    }
}

/// A four is one stone from five: on a line without five in a row, the
/// side holds a four exactly when one more of its stones, on some empty
/// cell, makes five or more in a row.
pub proof fn four_is_one_stone_from_five(own: u16, empty: u16, length: u16)
    requires
        2 <= length <= 15,
        own & !valid_mask(length as int) == 0,
        empty & !valid_mask(length as int) == 0,
        own & empty == 0,
        run5(own) == 0,
    ensures
        side_has_four(own, valid_mask(length as int), empty) <==> exists|c: u16|
            c < 16 && #[trigger] makes_five_at(own, empty, c),
{
    let valid = valid_mask(length as int);
    assert(valid == ((1u16 << length) - 1) as u16);
    lemma_four_by_cells(own, empty, valid, length);
    if exists|c: u16| c < 16 && #[trigger] makes_five_at(own, empty, c) {
        let c = choose|c: u16| c < 16 && #[trigger] makes_five_at(own, empty, c);
        assert(c == 0u16 || c == 1u16 || c == 2u16 || c == 3u16 || c == 4u16 || c == 5u16 || c == 6u16 || c == 7u16 || c == 8u16 || c == 9u16 || c == 10u16 || c == 11u16 || c == 12u16 || c == 13u16 || c == 14u16 || c == 15u16);
    }
}

} // verus!
