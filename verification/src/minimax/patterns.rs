//! What one more stone at an empty cell would make: first on each of the
//! cell's four lines, then combined into one threat for the cell.
//!
//! A line pattern is read from the nine cells within reach of the cell along
//! the line: the cell itself, taken as holding the new stone, in the middle,
//! and four cells on either side. Every shape counted passes through the new
//! stone, so a pattern says what that stone makes and nothing else.

use vstd::prelude::*;

use super::bits::{bit, has_bits, lemma_mask_of, lemma_set_bit, lemma_set_clear_bit_grows, mask_of};
use super::score::Score;

verus! {

/// How far a line pattern looks on either side of its cell.
pub const REACH: usize = 4;

/// What one more own stone at an empty cell makes on one line through it,
/// weakest first. Every name says what the stone would leave behind.
#[derive(Debug, Clone, Copy, PartialEq, Eq, PartialOrd, Ord, Hash, Structural)]
pub enum LinePattern {
    /// Nothing that can still become five.
    Nothing,
    /// Two stones with room for five.
    Two,
    /// Two stones one step from an open three.
    OpenTwo,
    /// Three stones one step from a four.
    Three,
    /// Three stones one step from an open four.
    OpenThree,
    /// Four stones: one step from five, the opponent must block.
    Four,
    /// Four stones with two cells that complete five: the opponent cannot
    /// block both.
    OpenFour,
    /// Five in a row.
    Five,
}

impl LinePattern {
    /// The pattern's place in the order, weakest first.
    pub open spec fn rank(self) -> u16 {
        match self {
            LinePattern::Nothing => 0,
            LinePattern::Two => 1,
            LinePattern::OpenTwo => 2,
            LinePattern::Three => 3,
            LinePattern::OpenThree => 4,
            LinePattern::Four => 5,
            LinePattern::OpenFour => 6,
            LinePattern::Five => 7,
        }
    }

    /// The pattern of rank `nibble`.
    pub open spec fn of_rank(nibble: u16) -> LinePattern {
        if nibble == 0 {
            LinePattern::Nothing
        } else if nibble == 1 {
            LinePattern::Two
        } else if nibble == 2 {
            LinePattern::OpenTwo
        } else if nibble == 3 {
            LinePattern::Three
        } else if nibble == 4 {
            LinePattern::OpenThree
        } else if nibble == 5 {
            LinePattern::Four
        } else if nibble == 6 {
            LinePattern::OpenFour
        } else {
            LinePattern::Five
        }
    }

    pub fn from_nibble(nibble: u16) -> (result: Self)
        requires
            nibble < 8,
        ensures
            result == Self::of_rank(nibble),
            result.rank() == nibble,
    {
        match nibble {
            0 => LinePattern::Nothing,
            1 => LinePattern::Two,
            2 => LinePattern::OpenTwo,
            3 => LinePattern::Three,
            4 => LinePattern::OpenThree,
            5 => LinePattern::Four,
            6 => LinePattern::OpenFour,
            _ => LinePattern::Five,
        }
    }

    pub fn nibble(self) -> (result: u16)
        ensures
            result == self.rank(),
            result < 8,
            Self::of_rank(result) == self,
    {
        match self {
            LinePattern::Nothing => 0,
            LinePattern::Two => 1,
            LinePattern::OpenTwo => 2,
            LinePattern::Three => 3,
            LinePattern::OpenThree => 4,
            LinePattern::Four => 5,
            LinePattern::OpenFour => 6,
            LinePattern::Five => 7,
        }
    }
}

/// Cell `j` of a nine-cell window is empty: neither own nor blocked.
pub open spec fn empty_at(own: u16, blocked: u16, j: int) -> bool {
    0 <= j < 9 && !bit(own, j) && !bit(blocked, j)
}

/// The own stones with one more at `j`.
pub open spec fn with_stone(own: u16, j: int) -> u16 {
    own | (1u16 << (j as u16))
}

/// The five cells from `start` on are all own.
pub open spec fn full_window(own: u16, start: int) -> bool {
    forall|j: int| start <= j < start + 5 ==> #[trigger] bit(own, j)
}

/// Five own stones in a row through the middle cell.
pub open spec fn window_five(own: u16) -> bool {
    exists|start: int| 0 <= start <= 4 && #[trigger] full_window(own, start)
}

/// An own stone at empty cell `d` completes five.
pub open spec fn completes(own: u16, blocked: u16, d: int) -> bool {
    empty_at(own, blocked, d) && window_five(with_stone(own, d))
}

/// One more own stone completes five.
pub open spec fn window_four(own: u16, blocked: u16) -> bool {
    exists|d: int| #[trigger] completes(own, blocked, d)
}

/// Two different cells complete five.
pub open spec fn window_open_four(own: u16, blocked: u16) -> bool {
    exists|d: int, e: int| d != e && #[trigger] completes(own, blocked, d) && #[trigger] completes(own, blocked, e)
}

/// One more own stone makes a four.
pub open spec fn window_three(own: u16, blocked: u16) -> bool {
    exists|d: int| empty_at(own, blocked, d) && #[trigger] window_four(with_stone(own, d), blocked)
}

/// One more own stone makes an open four.
pub open spec fn window_open_three(own: u16, blocked: u16) -> bool {
    exists|d: int| empty_at(own, blocked, d) && #[trigger] window_open_four(with_stone(own, d), blocked)
}

/// One more own stone makes a three.
pub open spec fn window_two(own: u16, blocked: u16) -> bool {
    exists|d: int| empty_at(own, blocked, d) && #[trigger] window_three(with_stone(own, d), blocked)
}

/// One more own stone makes an open three.
pub open spec fn window_open_two(own: u16, blocked: u16) -> bool {
    exists|d: int| empty_at(own, blocked, d) && #[trigger] window_open_three(with_stone(own, d), blocked)
}

/// The strongest shape of a window, whose middle cell holds the new stone.
pub open spec fn window_pattern(own: u16, blocked: u16) -> LinePattern {
    if window_five(own) {
        LinePattern::Five
    } else if window_open_four(own, blocked) {
        LinePattern::OpenFour
    } else if window_four(own, blocked) {
        LinePattern::Four
    } else if window_open_three(own, blocked) {
        LinePattern::OpenThree
    } else if window_three(own, blocked) {
        LinePattern::Three
    } else if window_open_two(own, blocked) {
        LinePattern::OpenTwo
    } else if window_two(own, blocked) {
        LinePattern::Two
    } else {
        LinePattern::Nothing
    }
}

fn has_bit(mask: u16, j: u16) -> (result: bool)
    requires
        j < 16,
    ensures
        result == bit(mask, j as int),
{
    (mask >> j) & 1u16 == 1u16
}

fn five_exec(own: u16) -> (result: bool)
    ensures
        result == window_five(own),
{
    let mut start: u16 = 0;
    while start < 5
        invariant
            start <= 5,
            forall|t: int| 0 <= t < start ==> !#[trigger] full_window(own, t),
        decreases 5 - start,
    {
        let mut j: u16 = start;
        let mut full = true;
        while j < start + 5
            invariant
                start < 5,
                start <= j <= start + 5,
                full == forall|i: int| start <= i < j ==> #[trigger] bit(own, i),
            decreases start + 5 - j,
        {
            let b = has_bit(own, j);
            proof {
                if full && b {
                    assert forall|i: int| start <= i < j + 1 implies #[trigger] bit(own, i) by {
                        if i < j {
                            assert(bit(own, i));
                        }
                    }
                }
            }
            full = full && b;
            j = j + 1;
        }
        if full {
            assert(full_window(own, start as int));
            return true;
        }
        start = start + 1;
    }
    false
}

fn completes_exec(own: u16, blocked: u16, d: u16) -> (result: bool)
    requires
        d < 9,
    ensures
        result == completes(own, blocked, d as int),
{
    if has_bit(own, d) || has_bit(blocked, d) {
        return false;
    }
    five_exec(own | (1u16 << d))
}

/// Whether one more own stone completes five, and whether two different
/// cells do.
fn fours_exec(own: u16, blocked: u16) -> (result: (bool, bool))
    ensures
        result.0 == window_four(own, blocked),
        result.1 == window_open_four(own, blocked),
{
    let mut first: Option<u16> = None;
    let mut second = false;
    let mut d: u16 = 0;
    while d < 9
        invariant
            d <= 9,
            first is None ==> forall|x: int| 0 <= x < d ==> !#[trigger] completes(own, blocked, x),
            first matches Some(x) ==> x < d && completes(own, blocked, x as int),
            second == exists|x: int, y: int|
                0 <= x < d && 0 <= y < d && x != y && #[trigger] completes(own, blocked, x)
                    && #[trigger] completes(own, blocked, y),
            second ==> first is Some,
        decreases 9 - d,
    {
        let here = completes_exec(own, blocked, d);
        proof {
            if here {
                if let Some(x) = first {
                    assert(completes(own, blocked, x as int) && completes(own, blocked, d as int));
                }
            } else {
                if !second {
                    assert forall|x: int, y: int|
                        0 <= x < d + 1 && 0 <= y < d + 1 && x != y && #[trigger] completes(own, blocked, x)
                        implies !#[trigger] completes(own, blocked, y) by {
                    }
                }
            }
            if here && first is None {
                assert forall|x: int, y: int|
                    0 <= x < d + 1 && 0 <= y < d + 1 && x != y && #[trigger] completes(own, blocked, x)
                    implies !#[trigger] completes(own, blocked, y) by {
                }
            }
        }
        if here {
            if first.is_some() {
                second = true;
            } else {
                first = Some(d);
            }
        }
        d = d + 1;
    }
    proof {
        if let Some(x) = first {
            assert(completes(own, blocked, x as int));
        }
        assert forall|x: int| #[trigger] completes(own, blocked, x) implies 0 <= x < 9 by {
        }
        if second {
            let (x, y) = choose|x: int, y: int|
                0 <= x < 9 && 0 <= y < 9 && x != y && #[trigger] completes(own, blocked, x)
                    && #[trigger] completes(own, blocked, y);
            assert(completes(own, blocked, x) && completes(own, blocked, y));
        }
    }
    (first.is_some(), second)
}

/// The level of shape one more own stone reaches: four, open four, three or
/// open three.
pub open spec fn next_level(own: u16, blocked: u16, level: int) -> bool {
    if level == 0 {
        window_four(own, blocked)
    } else if level == 1 {
        window_open_four(own, blocked)
    } else if level == 2 {
        window_three(own, blocked)
    } else {
        window_open_three(own, blocked)
    }
}

fn level_exec(own: u16, blocked: u16, level: u8) -> (result: bool)
    requires
        level < 4,
    ensures
        result == next_level(own, blocked, level as int),
    decreases level,
{
    if level < 2 {
        let (four, open_four) = fours_exec(own, blocked);
        if level == 0 {
            four
        } else {
            open_four
        }
    } else {
        let mut d: u16 = 0;
        while d < 9
            invariant
                d <= 9,
                2 <= level < 4,
                forall|x: int|
                    0 <= x < d ==> !(empty_at(own, blocked, x) && #[trigger] next_level(
                        with_stone(own, x),
                        blocked,
                        level - 2,
                    )),
            decreases 9 - d,
        {
            if !has_bit(own, d) && !has_bit(blocked, d) {
                if level_exec(own | (1u16 << d), blocked, level - 2) {
                    proof {
                        if level == 2 {
                            assert(window_four(with_stone(own, d as int), blocked));
                        } else {
                            assert(window_open_four(with_stone(own, d as int), blocked));
                        }
                    }
                    return true;
                }
            }
            d = d + 1;
        }
        proof {
            if level == 2 {
                assert forall|x: int| empty_at(own, blocked, x) implies !#[trigger] window_four(
                    with_stone(own, x),
                    blocked,
                ) by {
                    assert(!next_level(with_stone(own, x), blocked, level - 2));
                }
            } else {
                assert forall|x: int| empty_at(own, blocked, x) implies !#[trigger] window_open_four(
                    with_stone(own, x),
                    blocked,
                ) by {
                    assert(!next_level(with_stone(own, x), blocked, level - 2));
                }
            }
        }
        false
    }
}

/// Whether one more own stone reaches `level` (three or open three).
fn two_exec(own: u16, blocked: u16, open: bool) -> (result: bool)
    ensures
        result == if open {
            window_open_two(own, blocked)
        } else {
            window_two(own, blocked)
        },
{
    let level: u8 = if open { 3 } else { 2 };
    let mut d: u16 = 0;
    while d < 9
        invariant
            d <= 9,
            level == if open { 3u8 } else { 2u8 },
            forall|x: int|
                0 <= x < d ==> !(empty_at(own, blocked, x) && #[trigger] next_level(
                    with_stone(own, x),
                    blocked,
                    level as int,
                )),
        decreases 9 - d,
    {
        if !has_bit(own, d) && !has_bit(blocked, d) {
            if level_exec(own | (1u16 << d), blocked, level) {
                proof {
                    if open {
                        assert(window_open_three(with_stone(own, d as int), blocked));
                    } else {
                        assert(window_three(with_stone(own, d as int), blocked));
                    }
                }
                return true;
            }
        }
        d = d + 1;
    }
    proof {
        if open {
            assert forall|x: int| empty_at(own, blocked, x) implies !#[trigger] window_open_three(
                with_stone(own, x),
                blocked,
            ) by {
                assert(!next_level(with_stone(own, x), blocked, 3));
            }
        } else {
            assert forall|x: int| empty_at(own, blocked, x) implies !#[trigger] window_three(
                with_stone(own, x),
                blocked,
            ) by {
                assert(!next_level(with_stone(own, x), blocked, 2));
            }
        }
    }
    false
}

/// The strongest of the shapes found, in pattern order.
fn classify(
    five: bool,
    open_four: bool,
    four: bool,
    open_three: bool,
    three: bool,
    open_two: bool,
    two: bool,
) -> (result: LinePattern)
    ensures
        result == if five {
            LinePattern::Five
        } else if open_four {
            LinePattern::OpenFour
        } else if four {
            LinePattern::Four
        } else if open_three {
            LinePattern::OpenThree
        } else if three {
            LinePattern::Three
        } else if open_two {
            LinePattern::OpenTwo
        } else if two {
            LinePattern::Two
        } else {
            LinePattern::Nothing
        },
{
    if five {
        LinePattern::Five
    } else if open_four {
        LinePattern::OpenFour
    } else if four {
        LinePattern::Four
    } else if open_three {
        LinePattern::OpenThree
    } else if three {
        LinePattern::Three
    } else if open_two {
        LinePattern::OpenTwo
    } else if two {
        LinePattern::Two
    } else {
        LinePattern::Nothing
    }
}

/// The pattern of a window, computed from its cells.
fn window_pattern_exec(own: u16, blocked: u16) -> (result: LinePattern)
    ensures
        result == window_pattern(own, blocked),
{
    let five = five_exec(own);
    let (four, open_four) = fours_exec(own, blocked);
    let open_three = level_exec(own, blocked, 3);
    let three = level_exec(own, blocked, 2);
    let open_two = two_exec(own, blocked, true);
    let two = two_exec(own, blocked, false);
    classify(five, open_four, four, open_three, three, open_two, two)
}

/// Cell `j` of the window around cell `cell` of a line of `length` cells
/// holds an own stone: the middle cell, which takes the new stone, or an own
/// stone of the line.
pub open spec fn line_own_at(own: u16, length: int, cell: int, j: int) -> bool {
    0 <= j < 9 && (j == 4 || (0 <= cell + j - 4 < length && bit(own, cell + j - 4)))
}

/// Cell `j` of the window is blocked: off the line, or an opponent stone.
pub open spec fn line_blocked_at(opponent: u16, length: int, cell: int, j: int) -> bool {
    0 <= j < 9 && j != 4 && (cell + j - 4 < 0 || cell + j - 4 >= length || bit(
        opponent,
        cell + j - 4,
    ))
}

pub open spec fn line_own_pred(own: u16, length: int, cell: int) -> spec_fn(int) -> bool {
    |j: int| line_own_at(own, length, cell, j)
}

pub open spec fn line_blocked_pred(opponent: u16, length: int, cell: int) -> spec_fn(int) -> bool {
    |j: int| line_blocked_at(opponent, length, cell, j)
}

/// What one more own stone at cell `cell` of a line of `length` cells makes
/// on that line, given the line's own and opponent stones.
pub open spec fn line_pattern_of(own: u16, opponent: u16, length: int, cell: int) -> LinePattern {
    window_pattern(
        mask_of(line_own_pred(own, length, cell)),
        mask_of(line_blocked_pred(opponent, length, cell)),
    )
}

/// The window of nine cells around `cell`, as own and blocked masks.
fn line_window(own: u16, opponent: u16, length: u8, cell: u8) -> (result: (u16, u16))
    ensures
        has_bits(result.0, line_own_pred(own, length as int, cell as int)),
        has_bits(result.1, line_blocked_pred(opponent, length as int, cell as int)),
        result.0 == mask_of(line_own_pred(own, length as int, cell as int)),
        result.1 == mask_of(line_blocked_pred(opponent, length as int, cell as int)),
{
    let ghost own_pred = line_own_pred(own, length as int, cell as int);
    let ghost blocked_pred = line_blocked_pred(opponent, length as int, cell as int);
    let mut o: u16 = 0;
    let mut b: u16 = 0;
    let mut j: u16 = 0;
    proof {
        assert forall|i: int| 0 <= i < 16 implies !#[trigger] bit(0u16, i) by {
            super::bits::lemma_zero_bits(i as u16);
        }
    }
    while j < 9
        invariant
            j <= 9,
            own_pred == line_own_pred(own, length as int, cell as int),
            blocked_pred == line_blocked_pred(opponent, length as int, cell as int),
            forall|i: int| 0 <= i < 16 ==> #[trigger] bit(o, i) == (i < j && own_pred(i)),
            forall|i: int| 0 <= i < 16 ==> #[trigger] bit(b, i) == (i < j && blocked_pred(i)),
        decreases 9 - j,
    {
        let p: i32 = cell as i32 + j as i32 - 4;
        let inside = 0 <= p && p < length as i32;
        let is_own = j == 4 || (inside && p < 16 && has_bit(own, p as u16));
        let is_blocked = j != 4 && (!inside || (p < 16 && has_bit(opponent, p as u16)));
        proof {
            assert(is_own == own_pred(j as int));
            assert(is_blocked == blocked_pred(j as int));
        }
        let ghost o0 = o;
        let ghost b0 = b;
        if is_own {
            o = o | (1u16 << j);
        }
        if is_blocked {
            b = b | (1u16 << j);
        }
        proof {
            assert forall|i: int| 0 <= i < 16 implies #[trigger] bit(o, i) == (i < j + 1 && own_pred(i)) by {
                if is_own {
                    lemma_set_bit(o0, j, i as u16);
                }
            }
            assert forall|i: int| 0 <= i < 16 implies #[trigger] bit(b, i) == (i < j + 1 && blocked_pred(i)) by {
                if is_blocked {
                    lemma_set_bit(b0, j, i as u16);
                }
            }
        }
        j = j + 1;
    }
    proof {
        assert forall|i: int| 0 <= i < 16 implies #[trigger] bit(o, i) == own_pred(i) by {
        }
        assert forall|i: int| 0 <= i < 16 implies #[trigger] bit(b, i) == blocked_pred(i) by {
        }
        lemma_mask_of(o, own_pred);
        lemma_mask_of(b, blocked_pred);
    }
    (o, b)
}

/// What one more own stone at empty cell `cell` of a line of `length` cells
/// makes on that line, given the line's own and opponent stones.
pub fn line_pattern(own: u16, opponent: u16, length: u8, cell: u8) -> (result: LinePattern)
    ensures
        result == line_pattern_of(own, opponent, length as int, cell as int),
{
    let (o, b) = line_window(own, opponent, length, cell);
    window_pattern_exec(o, b)
}

/// The window cell that table key bit `k` (of eight) stands for: the middle
/// cell has no bit, as it always holds the new stone.
pub open spec fn key_cell(k: int) -> int {
    if k < 4 {
        k
    } else {
        k + 1
    }
}

/// Window cell `j` of table key `key` is own: the middle cell, or a cell
/// whose bit is set in the high byte.
pub open spec fn key_own_at(key: u16, j: int) -> bool {
    j == 4 || (0 <= j < 4 && bit(key, j + 8)) || (5 <= j < 9 && bit(key, j + 7))
}

/// Window cell `j` of table key `key` is blocked: its bit is set in the low
/// byte.
pub open spec fn key_blocked_at(key: u16, j: int) -> bool {
    (0 <= j < 4 && bit(key, j)) || (5 <= j < 9 && bit(key, j - 1))
}

pub open spec fn key_own_pred(key: u16) -> spec_fn(int) -> bool {
    |j: int| key_own_at(key, j)
}

pub open spec fn key_blocked_pred(key: u16) -> spec_fn(int) -> bool {
    |j: int| key_blocked_at(key, j)
}

/// The pattern a table key stands for.
pub open spec fn key_pattern(key: u16) -> LinePattern {
    window_pattern(mask_of(key_own_pred(key)), mask_of(key_blocked_pred(key)))
}

/// The window cells of a table key.
fn key_window(key: u16) -> (result: (u16, u16))
    ensures
        has_bits(result.0, key_own_pred(key)),
        has_bits(result.1, key_blocked_pred(key)),
        result.0 == mask_of(key_own_pred(key)),
        result.1 == mask_of(key_blocked_pred(key)),
{
    let ghost own_pred = key_own_pred(key);
    let ghost blocked_pred = key_blocked_pred(key);
    let mut o: u16 = 0;
    let mut b: u16 = 0;
    let mut j: u16 = 0;
    proof {
        assert forall|i: int| 0 <= i < 16 implies !#[trigger] bit(0u16, i) by {
            super::bits::lemma_zero_bits(i as u16);
        }
    }
    while j < 9
        invariant
            j <= 9,
            own_pred == key_own_pred(key),
            blocked_pred == key_blocked_pred(key),
            forall|i: int| 0 <= i < 16 ==> #[trigger] bit(o, i) == (i < j && own_pred(i)),
            forall|i: int| 0 <= i < 16 ==> #[trigger] bit(b, i) == (i < j && blocked_pred(i)),
        decreases 9 - j,
    {
        let is_own = if j == 4 {
            true
        } else if j < 4 {
            has_bit(key, j + 8)
        } else {
            has_bit(key, j + 7)
        };
        let is_blocked = if j == 4 {
            false
        } else if j < 4 {
            has_bit(key, j)
        } else {
            has_bit(key, j - 1)
        };
        proof {
            assert(is_own == own_pred(j as int));
            assert(is_blocked == blocked_pred(j as int));
        }
        let ghost o0 = o;
        let ghost b0 = b;
        if is_own {
            o = o | (1u16 << j);
        }
        if is_blocked {
            b = b | (1u16 << j);
        }
        proof {
            assert forall|i: int| 0 <= i < 16 implies #[trigger] bit(o, i) == (i < j + 1 && own_pred(i)) by {
                if is_own {
                    lemma_set_bit(o0, j, i as u16);
                }
            }
            assert forall|i: int| 0 <= i < 16 implies #[trigger] bit(b, i) == (i < j + 1 && blocked_pred(i)) by {
                if is_blocked {
                    lemma_set_bit(b0, j, i as u16);
                }
            }
        }
        j = j + 1;
    }
    proof {
        assert forall|i: int| 0 <= i < 16 implies #[trigger] bit(o, i) == own_pred(i) by {
        }
        assert forall|i: int| 0 <= i < 16 implies #[trigger] bit(b, i) == blocked_pred(i) by {
        }
        lemma_mask_of(o, own_pred);
        lemma_mask_of(b, blocked_pred);
    }
    (o, b)
}

/// The table key of a window: the own cells in the high byte and the
/// blocked cells in the low byte, the middle cell left out.
fn window_key(o: u16, b: u16) -> (key: u16)
    requires
        bit(o, 4),
        !bit(b, 4),
        forall|j: int| 9 <= j < 16 ==> !#[trigger] bit(o, j),
        forall|j: int| 9 <= j < 16 ==> !#[trigger] bit(b, j),
    ensures
        has_bits(o, key_own_pred(key)),
        has_bits(b, key_blocked_pred(key)),
        o == mask_of(key_own_pred(key)),
        b == mask_of(key_blocked_pred(key)),
{
    let mut key: u16 = 0;
    let mut k: u16 = 0;
    proof {
        assert forall|i: int| 0 <= i < 16 implies !#[trigger] bit(0u16, i) by {
            super::bits::lemma_zero_bits(i as u16);
        }
    }
    while k < 8
        invariant
            k <= 8,
            forall|x: int|
                0 <= x < 16 ==> #[trigger] bit(key, x) == ((8 <= x < 8 + k && bit(o, key_cell(x - 8)))
                    || (0 <= x < k && bit(b, key_cell(x)))),
        decreases 8 - k,
    {
        let cell = if k < 4 {
            k
        } else {
            k + 1
        };
        let ghost key0 = key;
        if has_bit(o, cell) {
            key = key | (1u16 << (k + 8));
        }
        let ghost key1 = key;
        if has_bit(b, cell) {
            key = key | (1u16 << k);
        }
        proof {
            assert forall|x: int| 0 <= x < 16 implies #[trigger] bit(key, x) == ((8 <= x < 8 + k + 1
                && bit(o, key_cell(x - 8))) || (0 <= x < k + 1 && bit(b, key_cell(x)))) by {
                if bit(o, cell as int) {
                    lemma_set_bit(key0, (k + 8) as u16, x as u16);
                }
                if bit(b, cell as int) {
                    lemma_set_bit(key1, k, x as u16);
                }
            }
        }
        k = k + 1;
    }
    proof {
        assert forall|j: int| 0 <= j < 16 implies #[trigger] bit(o, j) == key_own_pred(key)(j) by {
            if 0 <= j < 4 {
                assert(bit(key, j + 8) == bit(o, key_cell(j)));
            } else if 5 <= j < 9 {
                assert(bit(key, j + 7) == bit(o, key_cell(j - 1)));
            }
        }
        assert forall|j: int| 0 <= j < 16 implies #[trigger] bit(b, j) == key_blocked_pred(key)(j) by {
            if 0 <= j < 4 {
                assert(bit(key, j) == bit(b, key_cell(j)));
            } else if 5 <= j < 9 {
                assert(bit(key, j - 1) == bit(b, key_cell(j - 1)));
            }
        }
        lemma_mask_of(o, key_own_pred(key));
        lemma_mask_of(b, key_blocked_pred(key));
    }
    key
}

/// The key of the same window with one more own stone at empty cell `d`.
fn grown_key(key: u16, o: u16, b: u16, d: u16) -> (next: u16)
    requires
        d < 9,
        d != 4,
        has_bits(o, key_own_pred(key)),
        has_bits(b, key_blocked_pred(key)),
        !bit(o, d as int),
    ensures
        next > key,
        has_bits(with_stone(o, d as int), key_own_pred(next)),
        has_bits(b, key_blocked_pred(next)),
        mask_of(key_own_pred(next)) == with_stone(o, d as int),
        mask_of(key_blocked_pred(next)) == b,
{
    let x: u16 = if d < 4 {
        d + 8
    } else {
        d + 7
    };
    proof {
        assert(bit(o, d as int) == key_own_pred(key)(d as int));
        lemma_set_clear_bit_grows(key, x);
    }
    let next = key | (1u16 << x);
    proof {
        let grown = with_stone(o, d as int);
        assert forall|j: int| 0 <= j < 16 implies #[trigger] bit(grown, j) == key_own_pred(next)(j) by {
            lemma_set_bit(o, d, j as u16);
            assert(bit(o, j) == key_own_pred(key)(j));
            if 0 <= j < 4 {
                lemma_set_bit(key, x, (j + 8) as u16);
            } else if 5 <= j < 9 {
                lemma_set_bit(key, x, (j + 7) as u16);
            }
        }
        assert forall|j: int| 0 <= j < 16 implies #[trigger] bit(b, j) == key_blocked_pred(next)(j) by {
            assert(bit(b, j) == key_blocked_pred(key)(j));
            if 0 <= j < 4 {
                lemma_set_bit(key, x, j as u16);
            } else if 5 <= j < 9 {
                lemma_set_bit(key, x, (j - 1) as u16);
            }
        }
        lemma_mask_of(grown, key_own_pred(next));
        lemma_mask_of(b, key_blocked_pred(next));
    }
    next
}

/// The line pattern of every window, indexed by its key: the own cells in
/// the high byte and the blocked cells (opponent or off the line) in the low
/// byte, the middle cell left out.
pub struct LinePatternTable {
    patterns: Vec<LinePattern>,
}

impl LinePatternTable {
    /// Every entry is the pattern of its key.
    pub closed spec fn wf(&self) -> bool {
        &&& self.patterns@.len() == 65536
        &&& forall|key: int| 0 <= key < 65536 ==> #[trigger] self.patterns@[key] == key_pattern(key as u16)
    }
}

/// The shapes of the window of `key`, for the table being built.
spec fn key_shapes(key: int, four: bool, open_four: bool, three: bool, open_three: bool) -> bool {
    let o = mask_of(key_own_pred(key as u16));
    let b = mask_of(key_blocked_pred(key as u16));
    &&& four == window_four(o, b)
    &&& open_four == window_open_four(o, b)
    &&& three == window_three(o, b)
    &&& open_three == window_open_three(o, b)
}

/// The line pattern table.
///
/// A window with one more own stone has a larger key, so filling the table
/// from the largest key down finds the shapes one stone further on already
/// computed.
pub fn line_pattern_table() -> (result: LinePatternTable)
    ensures
        result.wf(),
{
    let mut patterns: Vec<LinePattern> = Vec::new();
    let mut fours: Vec<bool> = Vec::new();
    let mut open_fours: Vec<bool> = Vec::new();
    let mut threes: Vec<bool> = Vec::new();
    let mut open_threes: Vec<bool> = Vec::new();
    let mut n: usize = 0;
    while n < 65536
        invariant
            n <= 65536,
            patterns@.len() == n,
            fours@.len() == n,
            open_fours@.len() == n,
            threes@.len() == n,
            open_threes@.len() == n,
        decreases 65536 - n,
    {
        patterns.push(LinePattern::Nothing);
        fours.push(false);
        open_fours.push(false);
        threes.push(false);
        open_threes.push(false);
        n = n + 1;
    }
    let mut i: usize = 65536;
    while i > 0
        invariant
            i <= 65536,
            patterns@.len() == 65536,
            fours@.len() == 65536,
            open_fours@.len() == 65536,
            threes@.len() == 65536,
            open_threes@.len() == 65536,
            forall|k: int| i <= k < 65536 ==> #[trigger] patterns@[k] == key_pattern(k as u16),
            forall|k: int|
                i <= k < 65536 ==> key_shapes(
                    k,
                    #[trigger] fours@[k],
                    open_fours@[k],
                    threes@[k],
                    open_threes@[k],
                ),
        decreases i,
    {
        i = i - 1;
        let key = i as u16;
        let (o, b) = key_window(key);
        let five = five_exec(o);
        let (four, open_four) = fours_exec(o, b);
        let mut three = false;
        let mut open_three = false;
        let mut two = false;
        let mut open_two = false;
        let mut d: u16 = 0;
        proof {
            assert(bit(o, 4) == key_own_pred(key)(4));
        }
        while d < 9
            invariant
                d <= 9,
                i < 65536,
                key == i as u16,
                has_bits(o, key_own_pred(key)),
                has_bits(b, key_blocked_pred(key)),
                bit(o, 4),
                fours@.len() == 65536,
                open_fours@.len() == 65536,
                threes@.len() == 65536,
                open_threes@.len() == 65536,
                forall|k: int|
                    i < k < 65536 ==> key_shapes(
                        k,
                        #[trigger] fours@[k],
                        open_fours@[k],
                        threes@[k],
                        open_threes@[k],
                    ),
                three == exists|x: int|
                    0 <= x < d && empty_at(o, b, x) && #[trigger] window_four(with_stone(o, x), b),
                open_three == exists|x: int|
                    0 <= x < d && empty_at(o, b, x) && #[trigger] window_open_four(with_stone(o, x), b),
                two == exists|x: int|
                    0 <= x < d && empty_at(o, b, x) && #[trigger] window_three(with_stone(o, x), b),
                open_two == exists|x: int|
                    0 <= x < d && empty_at(o, b, x) && #[trigger] window_open_three(with_stone(o, x), b),
            decreases 9 - d,
        {
            if d != 4 && !has_bit(o, d) && !has_bit(b, d) {
                let next = grown_key(key, o, b, d);
                let k = next as usize;
                proof {
                    assert(key_shapes(k as int, fours@[k as int], open_fours@[k as int], threes@[k as int], open_threes@[k as int]));
                    assert(k as u16 == next);
                }
                let four_next = fours[k];
                let open_four_next = open_fours[k];
                let three_next = threes[k];
                let open_three_next = open_threes[k];
                proof {
                    let g = with_stone(o, d as int);
                    assert(four_next == window_four(g, b));
                    if four_next {
                        assert(empty_at(o, b, d as int));
                    }
                    if open_four_next {
                        assert(empty_at(o, b, d as int));
                    }
                    if three_next {
                        assert(empty_at(o, b, d as int));
                    }
                    if open_three_next {
                        assert(empty_at(o, b, d as int));
                    }
                }
                three = three || four_next;
                open_three = open_three || open_four_next;
                two = two || three_next;
                open_two = open_two || open_three_next;
            }
            d = d + 1;
        }
        proof {
            assert forall|x: int| empty_at(o, b, x) implies 0 <= x < 9 by {
            }
        }
        let pattern = classify(five, open_four, four, open_three, three, open_two, two);
        patterns.set(i, pattern);
        fours.set(i, four);
        open_fours.set(i, open_four);
        threes.set(i, three);
        open_threes.set(i, open_three);
        proof {
            assert(key_shapes(i as int, fours@[i as int], open_fours@[i as int], threes@[i as int], open_threes@[i as int]));
        }
    }
    LinePatternTable { patterns }
}

/// The same, from a table built once and held across many lookups.
pub fn line_pattern_from(
    table: &LinePatternTable,
    own: u16,
    opponent: u16,
    length: u8,
    cell: u8,
) -> (result: LinePattern)
    requires
        table.wf(),
    ensures
        result == line_pattern_of(own, opponent, length as int, cell as int),
{
    let (o, b) = line_window(own, opponent, length, cell);
    proof {
        assert(bit(o, 4) == line_own_pred(own, length as int, cell as int)(4));
        assert(bit(b, 4) == line_blocked_pred(opponent, length as int, cell as int)(4));
        assert forall|j: int| 9 <= j < 16 implies !#[trigger] bit(o, j) by {
            assert(bit(o, j) == line_own_pred(own, length as int, cell as int)(j));
        }
        assert forall|j: int| 9 <= j < 16 implies !#[trigger] bit(b, j) by {
            assert(bit(b, j) == line_blocked_pred(opponent, length as int, cell as int)(j));
        }
    }
    let key = window_key(o, b);
    proof {
        assert(table.patterns@[key as int] == key_pattern(key as u16));
    }
    table.patterns[key as usize]
}

/// Nibble `d` of `x`.
pub open spec fn nibble_of(x: u16, d: int) -> u16 {
    (x >> ((4 * d) as u16)) & 0xFu16
}

/// Replacing one nibble leaves the other three.
proof fn lemma_replace_nibble(x: u16, s: u16, t: u16, n: u16)
    requires
        s == 0 || s == 4 || s == 8 || s == 12,
        t == 0 || t == 4 || t == 8 || t == 12,
        n < 16,
    ensures
        (((x & !(0xFu16 << s)) | (n << s)) >> t) & 0xFu16 == if s == t {
            n
        } else {
            (x >> t) & 0xFu16
        },
{
    assert((((x & !(0xFu16 << s)) | (n << s)) >> t) & 0xFu16 == if s == t {
        n
    } else {
        (x >> t) & 0xFu16
    }) by (bit_vector)
        requires
            s == 0 || s == 4 || s == 8 || s == 12,
            t == 0 || t == 4 || t == 8 || t == 12,
            n < 16,
    ;
}

/// Replacing a nibble twice leaves the second value.
proof fn lemma_replace_twice(x: u16, s: u16, n: u16, m: u16)
    requires
        s == 0 || s == 4 || s == 8 || s == 12,
        n < 16,
        m < 16,
    ensures
        (((x & !(0xFu16 << s)) | (n << s)) & !(0xFu16 << s)) | (m << s) == (x & !(0xFu16 << s)) | (m << s),
{
    assert((((x & !(0xFu16 << s)) | (n << s)) & !(0xFu16 << s)) | (m << s) == (x & !(0xFu16 << s)) | (m << s))
        by (bit_vector)
        requires
            s == 0 || s == 4 || s == 8 || s == 12,
            n < 16,
            m < 16,
    ;
}

/// Putting back the nibble that is there changes nothing.
proof fn lemma_replace_same(x: u16, s: u16)
    requires
        s == 0 || s == 4 || s == 8 || s == 12,
    ensures
        (x & !(0xFu16 << s)) | (((x >> s) & 0xFu16) << s) == x,
{
    assert((x & !(0xFu16 << s)) | (((x >> s) & 0xFu16) << s) == x) by (bit_vector)
        requires
            s == 0 || s == 4 || s == 8 || s == 12,
    ;
}

/// The four line patterns of one cell for one colour, one nibble per line in
/// line-direction order.
#[derive(Debug, Clone, Copy, PartialEq, Eq, Hash, Structural)]
pub struct CellPatterns(u16);

impl CellPatterns {
    /// Every nibble names a pattern.
    #[verifier::type_invariant]
    spec fn inv(self) -> bool {
        forall|d: int| 0 <= d < 4 ==> #[trigger] nibble_of(self.0, d) < 8
    }

    /// The pattern on line `d`.
    pub closed spec fn pattern_at(self, d: int) -> LinePattern {
        LinePattern::of_rank(nibble_of(self.0, d))
    }

    /// The four patterns, in line order.
    pub open spec fn patterns(self) -> Seq<LinePattern> {
        seq![self.pattern_at(0), self.pattern_at(1), self.pattern_at(2), self.pattern_at(3)]
    }

    /// Nothing on any line: an occupied cell, or an empty one with no shape
    /// to complete.
    #[allow(non_snake_case)]
    pub fn NONE() -> (result: Self)
        ensures
            forall|d: int| 0 <= d < 4 ==> #[trigger] result.pattern_at(d) == LinePattern::Nothing,
    {
        assert forall|t: u16| t == 0 || t == 4 || t == 8 || t == 12 implies (0u16 >> t) & 0xFu16 == 0
            by {
            assert((0u16 >> t) & 0xFu16 == 0) by (bit_vector);
        }
        let result = CellPatterns(0);
        assert forall|d: int| 0 <= d < 4 implies #[trigger] nibble_of(0u16, d) == 0 by {
            assert((4 * d) as u16 == 0 || (4 * d) as u16 == 4 || (4 * d) as u16 == 8 || (4 * d) as u16 == 12);
        }
        result
    }

    pub fn get(self, direction: usize) -> (result: LinePattern)
        requires
            direction < 4,
        ensures
            result == self.pattern_at(direction as int),
    {
        proof {
            use_type_invariant(&self);
        }
        let nibble = (self.0 >> (4 * direction as u16)) & 0xF;
        proof {
            assert(nibble == nibble_of(self.0, direction as int));
        }
        LinePattern::from_nibble(nibble)
    }

    /// These patterns with the one on line `d` replaced by `pattern`.
    pub closed spec fn spec_with(self, d: int, pattern: LinePattern) -> CellPatterns {
        CellPatterns((self.0 & !(0xFu16 << ((4 * d) as u16))) | (pattern.rank() << ((4 * d) as u16)))
    }

    pub fn with(self, direction: usize, pattern: LinePattern) -> (result: Self)
        requires
            direction < 4,
        ensures
            result.pattern_at(direction as int) == pattern,
            forall|d: int| 0 <= d < 4 && d != direction ==> #[trigger] result.pattern_at(d) == self.pattern_at(d),
            result == self.spec_with(direction as int, pattern),
            forall|other: LinePattern|
                #[trigger] result.spec_with(direction as int, other) == self.spec_with(direction as int, other),
            pattern == self.pattern_at(direction as int) ==> result == self,
    {
        proof {
            use_type_invariant(&self);
        }
        let shift: u16 = 4 * direction as u16;
        let n = pattern.nibble();
        let packed = (self.0 & !(0xFu16 << shift)) | (n << shift);
        proof {
            assert forall|d: int| 0 <= d < 4 implies #[trigger] nibble_of(packed, d) == if d == direction {
                n
            } else {
                nibble_of(self.0, d)
            } by {
                let t = (4 * d) as u16;
                assert(t == 0 || t == 4 || t == 8 || t == 12);
                lemma_replace_nibble(self.0, shift, t, n);
            }
            assert(shift == (4 * (direction as int)) as u16);
            assert forall|other: LinePattern|
                #[trigger] CellPatterns(packed).spec_with(direction as int, other) == self.spec_with(
                    direction as int,
                    other,
                ) by {
                lemma_replace_twice(self.0, shift, n, other.rank());
            }
            if pattern == self.pattern_at(direction as int) {
                assert(nibble_of(self.0, direction as int) < 8);
                assert(n == nibble_of(self.0, direction as int));
                lemma_replace_same(self.0, shift);
            }
        }
        CellPatterns(packed)
    }

    /// The four patterns combined into what a stone here would create.
    pub fn threat(self) -> (result: Threat)
        ensures
            result == combine_spec(self.patterns()),
    {
        let patterns = [self.get(0), self.get(1), self.get(2), self.get(3)];
        proof {
            assert(patterns@ =~= self.patterns());
        }
        Threat::combine(patterns)
    }

    /// The same, from a table built once and held across many lookups.
    pub fn threat_from(self, table: &ThreatTable) -> (result: Threat)
        requires
            table.wf(),
        ensures
            result == combine_spec(self.patterns()),
    {
        proof {
            use_type_invariant(&self);
            assert(table.threats@[self.0 as int] == key_threat(self.0));
            assert(key_threat(self.0) == combine_spec(self.patterns()));
        }
        table.threats[self.0 as usize]
    }
}

/// What one more stone at a cell would create, its four lines taken
/// together, weakest first.
#[derive(Debug, Clone, Copy, PartialEq, Eq, PartialOrd, Ord, Hash, Structural)]
pub enum Threat {
    Nothing,
    /// An open two on one line.
    OpenTwo,
    /// A three on one line.
    Three,
    /// Open twos on two lines.
    TwoOpenTwos,
    /// A three plus another three or an open two.
    ThreeAndMore,
    /// An open three on one line.
    OpenThree,
    /// An open three plus a three or an open two.
    OpenThreeAndMore,
    /// Open threes on two lines: the opponent can stop only one.
    TwoOpenThrees,
    /// A four on one line.
    Four,
    /// A four plus a three or an open two.
    FourAndMore,
    /// A four and an open three: block the four and the open four follows.
    FourAndOpenThree,
    /// An open four, or fours on two lines: five follows whatever is blocked.
    UnstoppableFour,
    /// Five in a row.
    Five,
}

/// Replacing the pattern at `i` changes each count by what left and what
/// came.
proof fn lemma_count_update(patterns: Seq<LinePattern>, i: int, to: LinePattern, wanted: LinePattern)
    requires
        patterns.len() == 4,
        0 <= i < 4,
    ensures
        count_of(patterns.update(i, to), wanted) == count_of(patterns, wanted) - (if patterns[i] == wanted {
            1int
        } else {
            0int
        }) + (if to == wanted {
            1int
        } else {
            0int
        }),
{
    let after = patterns.update(i, to);
    assert(after[0] == if i == 0 { to } else { patterns[0] });
    assert(after[1] == if i == 1 { to } else { patterns[1] });
    assert(after[2] == if i == 2 { to } else { patterns[2] });
    assert(after[3] == if i == 3 { to } else { patterns[3] });
}

/// Making one of a cell's line patterns stronger never makes the cell's
/// threat weaker: what four lines add up to rises with each of them.
pub proof fn combine_is_monotone(patterns: Seq<LinePattern>, i: int, stronger: LinePattern)
    requires
        patterns.len() == 4,
        0 <= i < 4,
        stronger.rank() >= patterns[i].rank(),
    ensures
        combine_spec(patterns.update(i, stronger)).rank() >= combine_spec(patterns).rank(),
{
    let after = patterns.update(i, stronger);
    lemma_count_update(patterns, i, stronger, LinePattern::Five);
    lemma_count_update(patterns, i, stronger, LinePattern::OpenFour);
    lemma_count_update(patterns, i, stronger, LinePattern::Four);
    lemma_count_update(patterns, i, stronger, LinePattern::OpenThree);
    lemma_count_update(patterns, i, stronger, LinePattern::Three);
    lemma_count_update(patterns, i, stronger, LinePattern::OpenTwo);
    let old_pattern = patterns[i];
    assert(0 <= count_of(patterns, LinePattern::Five));
    match old_pattern {
        LinePattern::Nothing => {},
        LinePattern::Two => {},
        LinePattern::OpenTwo => {},
        LinePattern::Three => {},
        LinePattern::OpenThree => {},
        LinePattern::Four => {},
        LinePattern::OpenFour => {},
        LinePattern::Five => {},
    }
}

/// A four and an open three on other lines always make the winning
/// four-three, whatever the other lines hold, as long as there is no second
/// four and nothing stronger.
pub proof fn four_and_open_three_wins(patterns: Seq<LinePattern>, i: int, j: int)
    requires
        patterns.len() == 4,
        0 <= i < 4,
        0 <= j < 4,
        patterns[i] == LinePattern::Four,
        patterns[j] == LinePattern::OpenThree,
        forall|k: int| 0 <= k < 4 && k != i ==> (#[trigger] patterns[k]).rank() <= LinePattern::OpenThree.rank(),
    ensures
        combine_spec(patterns) == Threat::FourAndOpenThree,
{
}

/// A cell with a pattern on one line only makes that pattern's threat.
pub proof fn one_line_makes_its_own_threat(p: LinePattern)
    ensures
        combine_spec(seq![p, LinePattern::Nothing, LinePattern::Nothing, LinePattern::Nothing]) == match p {
            LinePattern::Five => Threat::Five,
            LinePattern::OpenFour => Threat::UnstoppableFour,
            LinePattern::Four => Threat::Four,
            LinePattern::OpenThree => Threat::OpenThree,
            LinePattern::Three => Threat::Three,
            LinePattern::OpenTwo => Threat::OpenTwo,
            _ => Threat::Nothing,
        },
{
}

/// How many of `patterns` are `wanted`.
pub open spec fn count_of(patterns: Seq<LinePattern>, wanted: LinePattern) -> int {
    (if patterns[0] == wanted { 1int } else { 0int }) + (if patterns[1] == wanted { 1int } else { 0int })
        + (if patterns[2] == wanted { 1int } else { 0int }) + (if patterns[3] == wanted { 1int } else { 0int })
}

/// What four line patterns add up to, strongest class first.
pub open spec fn combine_spec(patterns: Seq<LinePattern>) -> Threat {
    let fives = count_of(patterns, LinePattern::Five);
    let open_fours = count_of(patterns, LinePattern::OpenFour);
    let fours = count_of(patterns, LinePattern::Four);
    let open_threes = count_of(patterns, LinePattern::OpenThree);
    let threes = count_of(patterns, LinePattern::Three);
    let open_twos = count_of(patterns, LinePattern::OpenTwo);
    if fives > 0 {
        Threat::Five
    } else if open_fours > 0 || fours >= 2 {
        Threat::UnstoppableFour
    } else if fours == 1 && open_threes > 0 {
        Threat::FourAndOpenThree
    } else if fours == 1 && (threes > 0 || open_twos > 0) {
        Threat::FourAndMore
    } else if fours == 1 {
        Threat::Four
    } else if open_threes >= 2 {
        Threat::TwoOpenThrees
    } else if open_threes == 1 && (threes > 0 || open_twos > 0) {
        Threat::OpenThreeAndMore
    } else if open_threes == 1 {
        Threat::OpenThree
    } else if threes >= 2 || (threes == 1 && open_twos > 0) {
        Threat::ThreeAndMore
    } else if open_twos >= 2 {
        Threat::TwoOpenTwos
    } else if threes == 1 {
        Threat::Three
    } else if open_twos == 1 {
        Threat::OpenTwo
    } else {
        Threat::Nothing
    }
}

fn count_exec(patterns: &[LinePattern; 4], wanted: LinePattern) -> (result: u8)
    ensures
        result == count_of(patterns@, wanted),
{
    let mut n: u8 = 0;
    if patterns[0] == wanted {
        n = n + 1;
    }
    if patterns[1] == wanted {
        n = n + 1;
    }
    if patterns[2] == wanted {
        n = n + 1;
    }
    if patterns[3] == wanted {
        n = n + 1;
    }
    n
}

impl Threat {
    pub const COUNT: usize = 13;

    /// The threat's place in the order, weakest first.
    pub open spec fn rank(self) -> int {
        match self {
            Threat::Nothing => 0,
            Threat::OpenTwo => 1,
            Threat::Three => 2,
            Threat::TwoOpenTwos => 3,
            Threat::ThreeAndMore => 4,
            Threat::OpenThree => 5,
            Threat::OpenThreeAndMore => 6,
            Threat::TwoOpenThrees => 7,
            Threat::Four => 8,
            Threat::FourAndMore => 9,
            Threat::FourAndOpenThree => 10,
            Threat::UnstoppableFour => 11,
            Threat::Five => 12,
        }
    }

    /// What the patterns of a cell's four lines add up to.
    pub fn combine(patterns: [LinePattern; 4]) -> (result: Self)
        ensures
            result == combine_spec(patterns@),
    {
        let fives = count_exec(&patterns, LinePattern::Five);
        let open_fours = count_exec(&patterns, LinePattern::OpenFour);
        let fours = count_exec(&patterns, LinePattern::Four);
        let open_threes = count_exec(&patterns, LinePattern::OpenThree);
        let threes = count_exec(&patterns, LinePattern::Three);
        let open_twos = count_exec(&patterns, LinePattern::OpenTwo);
        if fives > 0 {
            Threat::Five
        } else if open_fours > 0 || fours >= 2 {
            Threat::UnstoppableFour
        } else if fours == 1 && open_threes > 0 {
            Threat::FourAndOpenThree
        } else if fours == 1 && (threes > 0 || open_twos > 0) {
            Threat::FourAndMore
        } else if fours == 1 {
            Threat::Four
        } else if open_threes >= 2 {
            Threat::TwoOpenThrees
        } else if open_threes == 1 && (threes > 0 || open_twos > 0) {
            Threat::OpenThreeAndMore
        } else if open_threes == 1 {
            Threat::OpenThree
        } else if threes >= 2 || (threes == 1 && open_twos > 0) {
            Threat::ThreeAndMore
        } else if open_twos >= 2 {
            Threat::TwoOpenTwos
        } else if threes == 1 {
            Threat::Three
        } else if open_twos == 1 {
            Threat::OpenTwo
        } else {
            Threat::Nothing
        }
    }

    /// The points a cell offering this threat is worth to its colour.
    pub open spec fn points(self) -> int {
        match self {
            Threat::Nothing | Threat::UnstoppableFour | Threat::Five => 0,
            Threat::OpenTwo => 20,
            Threat::Three => 40,
            Threat::TwoOpenTwos => 100,
            Threat::ThreeAndMore => 150,
            Threat::OpenThree => 300,
            Threat::OpenThreeAndMore => 1_200,
            Threat::TwoOpenThrees => 6_000,
            Threat::Four => 1_500,
            Threat::FourAndMore => 4_000,
            Threat::FourAndOpenThree => 12_000,
        }
    }

    /// What a cell offering this threat is worth to its colour.
    ///
    /// The search always plays a five or an unstoppable four out, so they
    /// never reach a quiet leaf and are worth nothing here.
    pub fn value(self) -> (result: Score)
        ensures
            result.0 == self.points(),
    {
        Score::new(
            match self {
                Threat::Nothing | Threat::UnstoppableFour | Threat::Five => 0,
                Threat::OpenTwo => 20,
                Threat::Three => 40,
                Threat::TwoOpenTwos => 100,
                Threat::ThreeAndMore => 150,
                Threat::OpenThree => 300,
                Threat::OpenThreeAndMore => 1_200,
                Threat::TwoOpenThrees => 6_000,
                Threat::Four => 1_500,
                Threat::FourAndMore => 4_000,
                Threat::FourAndOpenThree => 12_000,
            },
        )
    }

    pub fn index(self) -> (result: usize)
        ensures
            result == self.rank(),
            result < Self::COUNT,
    {
        match self {
            Threat::Nothing => 0,
            Threat::OpenTwo => 1,
            Threat::Three => 2,
            Threat::TwoOpenTwos => 3,
            Threat::ThreeAndMore => 4,
            Threat::OpenThree => 5,
            Threat::OpenThreeAndMore => 6,
            Threat::TwoOpenThrees => 7,
            Threat::Four => 8,
            Threat::FourAndMore => 9,
            Threat::FourAndOpenThree => 10,
            Threat::UnstoppableFour => 11,
            Threat::Five => 12,
        }
    }

    /// The threat at `index`, the inverse of [`Threat::index`].
    pub fn from_index(index: usize) -> (result: Self)
        requires
            index < Self::COUNT,
        ensures
            result.rank() == index,
    {
        match index {
            0 => Threat::Nothing,
            1 => Threat::OpenTwo,
            2 => Threat::Three,
            3 => Threat::TwoOpenTwos,
            4 => Threat::ThreeAndMore,
            5 => Threat::OpenThree,
            6 => Threat::OpenThreeAndMore,
            7 => Threat::TwoOpenThrees,
            8 => Threat::Four,
            9 => Threat::FourAndMore,
            10 => Threat::FourAndOpenThree,
            11 => Threat::UnstoppableFour,
            _ => Threat::Five,
        }
    }
}

/// Every threat has its own index, and `from_index` undoes `index`.
pub proof fn threat_index_round_trips(threat: Threat, other: Threat)
    ensures
        0 <= threat.rank() < 13,
        threat.rank() == other.rank() ==> threat == other,
{
}

/// The threat a table key stands for, when each of its nibbles names a
/// pattern.
pub open spec fn key_threat(key: u16) -> Threat {
    if forall|d: int| 0 <= d < 4 ==> #[trigger] nibble_of(key, d) < 8 {
        combine_spec(
            seq![
                LinePattern::of_rank(nibble_of(key, 0)),
                LinePattern::of_rank(nibble_of(key, 1)),
                LinePattern::of_rank(nibble_of(key, 2)),
                LinePattern::of_rank(nibble_of(key, 3)),
            ],
        )
    } else {
        Threat::Nothing
    }
}

/// The threat of every `CellPatterns` value, indexed by its packed nibbles.
pub struct ThreatTable {
    threats: Vec<Threat>,
}

impl ThreatTable {
    pub closed spec fn wf(&self) -> bool {
        &&& self.threats@.len() == 65536
        &&& forall|key: int| 0 <= key < 65536 ==> #[trigger] self.threats@[key] == key_threat(key as u16)
    }
}

/// The threat table.
pub fn threat_table() -> (result: ThreatTable)
    ensures
        result.wf(),
{
    let mut threats: Vec<Threat> = Vec::new();
    let mut key: usize = 0;
    while key < 65536
        invariant
            key <= 65536,
            threats@.len() == key,
            forall|k: int| 0 <= k < key ==> #[trigger] threats@[k] == key_threat(k as u16),
        decreases 65536 - key,
    {
        let packed = key as u16;
        let n0 = (packed >> 0u16) & 0xF;
        let n1 = (packed >> 4) & 0xF;
        let n2 = (packed >> 8) & 0xF;
        let n3 = (packed >> 12) & 0xF;
        proof {
            assert(n0 == nibble_of(packed, 0));
            assert(n1 == nibble_of(packed, 1));
            assert(n2 == nibble_of(packed, 2));
            assert(n3 == nibble_of(packed, 3));
        }
        let threat = if n0 < 8 && n1 < 8 && n2 < 8 && n3 < 8 {
            let patterns = [
                LinePattern::from_nibble(n0),
                LinePattern::from_nibble(n1),
                LinePattern::from_nibble(n2),
                LinePattern::from_nibble(n3),
            ];
            proof {
                assert forall|d: int| 0 <= d < 4 implies #[trigger] nibble_of(packed, d) < 8 by {
                }
                assert(patterns@ =~= seq![
                    LinePattern::of_rank(nibble_of(packed, 0)),
                    LinePattern::of_rank(nibble_of(packed, 1)),
                    LinePattern::of_rank(nibble_of(packed, 2)),
                    LinePattern::of_rank(nibble_of(packed, 3)),
                ]);
            }
            Threat::combine(patterns)
        } else {
            proof {
                if n0 >= 8 {
                    assert(nibble_of(packed, 0) >= 8);
                } else if n1 >= 8 {
                    assert(nibble_of(packed, 1) >= 8);
                } else if n2 >= 8 {
                    assert(nibble_of(packed, 2) >= 8);
                } else {
                    assert(nibble_of(packed, 3) >= 8);
                }
            }
            Threat::Nothing
        };
        threats.push(threat);
        key = key + 1;
    }
    ThreatTable { threats }
}

} // verus!
