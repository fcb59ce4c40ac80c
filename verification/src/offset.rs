use vstd::prelude::*;

verus! {

/// A direction vector representing a change in row and column.
#[derive(Debug, Clone, Copy, PartialEq, Eq, Hash, Structural)]
pub struct Offset {
    row_delta: isize,
    col_delta: isize,
}

impl Offset {
    pub closed spec fn spec_row_delta(self) -> int {
        self.row_delta as int
    }

    pub closed spec fn spec_col_delta(self) -> int {
        self.col_delta as int
    }

    pub fn new(row_delta: isize, col_delta: isize) -> (result: Self)
        ensures
            result.spec_row_delta() == row_delta,
            result.spec_col_delta() == col_delta,
    {
        Self { row_delta, col_delta }
    }

    pub fn row_delta(&self) -> (result: isize)
        ensures
            result == self.spec_row_delta(),
    {
        self.row_delta
    }

    pub fn col_delta(&self) -> (result: isize)
        ensures
            result == self.spec_col_delta(),
    {
        self.col_delta
    }

    /// A position itself followed by its eight neighbors, clockwise from north.
    ///
    /// Odd indices (1, 3, 5, 7) are straight across; even ones after the
    /// center are diagonal.
    pub fn center_and_neighbors() -> (result: [Offset; 9])
        ensures
            result@ == center_and_neighbors_spec(),
    {
        let result = [
            Offset::new(0, 0),
            Offset::new(-1, 0),
            Offset::new(-1, 1),
            Offset::new(0, 1),
            Offset::new(1, 1),
            Offset::new(1, 0),
            Offset::new(1, -1),
            Offset::new(0, -1),
            Offset::new(-1, -1),
        ];
        assert(result@ =~= center_and_neighbors_spec());
        result
    }
}

/// The offset with the given deltas.
pub closed spec fn offset_of(row_delta: int, col_delta: int) -> Offset {
    Offset { row_delta: row_delta as isize, col_delta: col_delta as isize }
}

/// An offset built from in-range deltas has those deltas, and offsets with
/// the same deltas are the same.
pub proof fn lemma_offset_of(row_delta: int, col_delta: int)
    requires
        isize::MIN <= row_delta <= isize::MAX,
        isize::MIN <= col_delta <= isize::MAX,
    ensures
        offset_of(row_delta, col_delta).spec_row_delta() == row_delta,
        offset_of(row_delta, col_delta).spec_col_delta() == col_delta,
{
}

/// The centre, then north, north-east, east, south-east, south, south-west,
/// west and north-west.
pub open spec fn center_and_neighbors_spec() -> Seq<Offset> {
    seq![
        offset_of(0, 0),
        offset_of(-1, 0),
        offset_of(-1, 1),
        offset_of(0, 1),
        offset_of(1, 1),
        offset_of(1, 0),
        offset_of(1, -1),
        offset_of(0, -1),
        offset_of(-1, -1),
    ]
}

impl core::ops::Neg for Offset {
    type Output = Self;

    fn neg(self) -> (result: Self::Output) {
        Self::new(-self.row_delta, -self.col_delta)
    }
}

impl vstd::std_specs::ops::NegSpecImpl for Offset {
    open spec fn obeys_neg_spec() -> bool {
        true
    }

    open spec fn neg_req(self) -> bool {
        self.spec_row_delta() != isize::MIN && self.spec_col_delta() != isize::MIN
    }

    open spec fn neg_spec(self) -> Self::Output {
        offset_of(-self.spec_row_delta(), -self.spec_col_delta())
    }
}

/// Every offset of the centre-and-neighbours list is a distinct step of at
/// most one cell in each direction.
pub proof fn center_and_neighbors_are_distinct_unit_steps()
    ensures
        center_and_neighbors_spec().len() == 9,
        forall|i: int|
            0 <= i < 9 ==> -1 <= #[trigger] center_and_neighbors_spec()[i].spec_row_delta() <= 1
                && -1 <= center_and_neighbors_spec()[i].spec_col_delta() <= 1,
        forall|i: int, j: int|
            0 <= i < j < 9 ==> #[trigger] center_and_neighbors_spec()[i]
                != #[trigger] center_and_neighbors_spec()[j],
{
    let s = center_and_neighbors_spec();
    assert forall|i: int|
        0 <= i < 9 implies -1 <= #[trigger] s[i].spec_row_delta() <= 1 && -1
            <= s[i].spec_col_delta() <= 1 by {
        if i == 0 { lemma_offset_of(0, 0); }
        if i == 1 { lemma_offset_of(-1, 0); }
        if i == 2 { lemma_offset_of(-1, 1); }
        if i == 3 { lemma_offset_of(0, 1); }
        if i == 4 { lemma_offset_of(1, 1); }
        if i == 5 { lemma_offset_of(1, 0); }
        if i == 6 { lemma_offset_of(1, -1); }
        if i == 7 { lemma_offset_of(0, -1); }
        if i == 8 { lemma_offset_of(-1, -1); }
    }
}

} // verus!
