use vstd::prelude::*;

verus! {

/// Evaluation score for minimax search, from one side's perspective.
#[derive(Debug, Clone, Copy, PartialEq, Eq, PartialOrd, Ord, Hash, Structural)]
pub struct Score(pub i32);

/// The win score: far above anything a position's shapes add up to.
pub open spec fn win_points() -> int {
    100_000_000
}

#[allow(non_snake_case)]
impl Score {
    /// A won game.
    pub fn WIN() -> (result: Self)
        ensures
            result.0 == win_points(),
    {
        Score(100_000_000)
    }

    /// A drawn or level game.
    pub fn DRAW() -> (result: Self)
        ensures
            result.0 == 0,
    {
        Score(0)
    }

    /// Below every score the search produces.
    pub fn MIN() -> (result: Self)
        ensures
            result.0 == -i32::MAX,
    {
        Score(-i32::MAX)
    }

    /// Above every score the search produces.
    pub fn MAX() -> (result: Self)
        ensures
            result.0 == i32::MAX,
    {
        Score(i32::MAX)
    }

    /// Four stones with both ends open: `_XXXX_`.
    pub fn OPEN_FOUR() -> (result: Self)
        ensures
            result.0 == 100_000,
    {
        Score(100_000)
    }

    /// Four stones that one more completes, one way only.
    pub fn HALF_OPEN_FOUR() -> (result: Self)
        ensures
            result.0 == 10_000,
    {
        Score(10_000)
    }

    /// Three stones one move from an open four.
    pub fn OPEN_THREE() -> (result: Self)
        ensures
            result.0 == 5_000,
    {
        Score(5_000)
    }

    /// Three stones that can still become five, but not openly.
    pub fn HALF_OPEN_THREE() -> (result: Self)
        ensures
            result.0 == 500,
    {
        Score(500)
    }

    /// Two stones with room on both sides.
    pub fn OPEN_TWO() -> (result: Self)
        ensures
            result.0 == 200,
    {
        Score(200)
    }

    /// Two stones with room on one side.
    pub fn HALF_OPEN_TWO() -> (result: Self)
        ensures
            result.0 == 20,
    {
        Score(20)
    }

    pub fn new(points: i32) -> (result: Self)
        ensures
            result.0 == points,
    {
        Score(points)
    }

    /// The underlying points.
    pub fn points(self) -> (result: i32)
        ensures
            result == self.0,
    {
        self.0
    }

    /// Win score adjusted for depth — prefers faster wins (fewer moves).
    pub fn win_at_depth(move_count: usize) -> (result: Self)
        requires
            move_count <= i32::MAX,
        ensures
            result.0 == win_points() - move_count,
    {
        Score(100_000_000 - move_count as i32)
    }

    /// Whether this is a win or a loss found by the search rather than an
    /// estimate: every such score lies within a board's worth of the win
    /// score.
    pub fn is_decided(self) -> (result: bool)
        requires
            self.0 != i32::MIN,
        ensures
            result == (self.0 >= win_points() - 225 || self.0 <= -(win_points() - 225)),
    {
        self.0 >= 100_000_000 - 225 || self.0 <= -(100_000_000 - 225)
    }

    /// The points nearest to `total` that an `i32` holds, never below
    /// `-i32::MAX` so that negating stays in range.
    pub fn saturating(total: i64) -> (result: Self)
        ensures
            result.0 == clamp_points(total as int),
    {
        if total > i32::MAX as i64 {
            Score(i32::MAX)
        } else if total < -(i32::MAX as i64) {
            Score(-i32::MAX)
        } else {
            Score(total as i32)
        }
    }
}

/// `total` clamped to `-i32::MAX ..= i32::MAX`.
pub open spec fn clamp_points(total: int) -> int {
    if total > i32::MAX {
        i32::MAX as int
    } else if total < -i32::MAX {
        -i32::MAX
    } else {
        total
    }
}

impl core::ops::Add for Score {
    type Output = Self;

    fn add(self, rhs: Self) -> (result: Self::Output) {
        Score(self.0 + rhs.0)
    }
}

impl vstd::std_specs::ops::AddSpecImpl for Score {
    open spec fn obeys_add_spec() -> bool {
        true
    }

    open spec fn add_req(self, rhs: Self) -> bool {
        i32::MIN <= self.0 + rhs.0 <= i32::MAX
    }

    open spec fn add_spec(self, rhs: Self) -> Self::Output {
        Score((self.0 + rhs.0) as i32)
    }
}

impl core::ops::Sub for Score {
    type Output = Self;

    fn sub(self, rhs: Self) -> (result: Self::Output) {
        Score(self.0 - rhs.0)
    }
}

impl vstd::std_specs::ops::SubSpecImpl for Score {
    open spec fn obeys_sub_spec() -> bool {
        true
    }

    open spec fn sub_req(self, rhs: Self) -> bool {
        i32::MIN <= self.0 - rhs.0 <= i32::MAX
    }

    open spec fn sub_spec(self, rhs: Self) -> Self::Output {
        Score((self.0 - rhs.0) as i32)
    }
}

impl core::ops::Neg for Score {
    type Output = Self;

    fn neg(self) -> (result: Self::Output) {
        Score(-self.0)
    }
}

impl vstd::std_specs::ops::NegSpecImpl for Score {
    open spec fn obeys_neg_spec() -> bool {
        true
    }

    open spec fn neg_req(self) -> bool {
        self.0 != i32::MIN
    }

    open spec fn neg_spec(self) -> Self::Output {
        Score((-self.0) as i32)
    }
}

impl core::ops::Mul<usize> for Score {
    type Output = Self;

    fn mul(self, rhs: usize) -> (result: Self::Output) {
        Score(self.0 * rhs as i32)
    }
}

impl vstd::std_specs::ops::MulSpecImpl<usize> for Score {
    open spec fn obeys_mul_spec() -> bool {
        true
    }

    open spec fn mul_req(self, rhs: usize) -> bool {
        rhs <= i32::MAX && i32::MIN <= self.0 * rhs <= i32::MAX
    }

    open spec fn mul_spec(self, rhs: usize) -> Self::Output {
        Score((self.0 * rhs) as i32)
    }
}

impl From<i32> for Score {
    fn from(points: i32) -> (result: Self) {
        Score(points)
    }
}

impl vstd::std_specs::convert::FromSpecImpl<i32> for Score {
    open spec fn obeys_from_spec() -> bool {
        true
    }

    open spec fn from_spec(points: i32) -> Self {
        Score(points)
    }
}

/// A faster win scores higher than a slower one, and every win found by
/// the search is decided.
pub proof fn faster_wins_score_higher(early: nat, late: nat)
    requires
        early < late <= 225,
    ensures
        win_points() - early > win_points() - late,
        win_points() - late >= win_points() - 225,
{
}

} // verus!
