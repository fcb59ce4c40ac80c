//! For every cell, the cells one step of a given kind away.

use vstd::prelude::*;

use crate::offset::Offset;
use crate::position_id::{on_board, PositionId};

verus! {

/// The kinds of step between neighbouring cells.
#[derive(Debug, Clone, Copy, PartialEq, Eq, Hash, Structural)]
pub enum NeighborKind {
    /// One cell up, down, left or right.
    Orthogonal,
    /// One cell diagonally.
    Diagonal,
    /// Two cells up, down, left or right.
    TwoStep,
    /// A knight's move.
    Knight,
}

pub open spec fn abs(x: int) -> int {
    if x < 0 {
        -x
    } else {
        x
    }
}

/// Moving by `dr` rows and `dc` columns is a step of `kind`.
pub open spec fn is_step(kind: NeighborKind, dr: int, dc: int) -> bool {
    match kind {
        NeighborKind::Orthogonal => abs(dr) + abs(dc) == 1,
        NeighborKind::Diagonal => abs(dr) == 1 && abs(dc) == 1,
        NeighborKind::TwoStep => (dr == 0 && abs(dc) == 2) || (abs(dr) == 2 && dc == 0),
        NeighborKind::Knight => (abs(dr) == 1 && abs(dc) == 2) || (abs(dr) == 2 && abs(dc) == 1),
    }
}

/// `q` is a neighbour of `p`: one step of `kind` away.
pub open spec fn is_neighbor(kind: NeighborKind, p: PositionId, q: PositionId) -> bool {
    q.valid() && is_step(kind, q.spec_row() - p.spec_row(), q.spec_col() - p.spec_col())
}

/// Being a neighbour goes both ways.
pub proof fn neighbors_are_mutual(kind: NeighborKind, p: PositionId, q: PositionId)
    requires
        p.valid(),
        q.valid(),
    ensures
        is_neighbor(kind, p, q) == is_neighbor(kind, q, p),
{
}

/// The steps of a kind, in the order the cache lists neighbours.
pub open spec fn steps(kind: NeighborKind) -> Seq<(int, int)> {
    match kind {
        NeighborKind::Orthogonal => seq![(-1, 0), (0, -1), (0, 1), (1, 0)],
        NeighborKind::Diagonal => seq![(-1, -1), (-1, 1), (1, -1), (1, 1)],
        NeighborKind::TwoStep => seq![(-2, 0), (0, -2), (0, 2), (2, 0)],
        NeighborKind::Knight => seq![
            (-2, -1),
            (-2, 1),
            (-1, -2),
            (-1, 2),
            (1, -2),
            (1, 2),
            (2, -1),
            (2, 1),
        ],
    }
}

/// Where step `(dr, dc)` of `kind` stands in `steps(kind)`.
pub open spec fn step_index(kind: NeighborKind, dr: int, dc: int) -> int {
    let s = steps(kind);
    if s.len() > 0 && s[0] == (dr, dc) {
        0
    } else if s.len() > 1 && s[1] == (dr, dc) {
        1
    } else if s.len() > 2 && s[2] == (dr, dc) {
        2
    } else if s.len() > 3 && s[3] == (dr, dc) {
        3
    } else if s.len() > 4 && s[4] == (dr, dc) {
        4
    } else if s.len() > 5 && s[5] == (dr, dc) {
        5
    } else if s.len() > 6 && s[6] == (dr, dc) {
        6
    } else {
        7
    }
}

/// The listed steps are exactly the steps of the kind, each listed once.
proof fn lemma_steps(kind: NeighborKind)
    ensures
        steps(kind).len() <= 8,
        forall|j: int| 0 <= j < steps(kind).len() ==> is_step(kind, #[trigger] steps(kind)[j].0, steps(kind)[j].1),
        forall|dr: int, dc: int|
            #[trigger] is_step(kind, dr, dc) ==> 0 <= step_index(kind, dr, dc) < steps(kind).len()
                && steps(kind)[step_index(kind, dr, dc)] == (dr, dc),
        forall|i: int, j: int|
            0 <= i < j < steps(kind).len() ==> #[trigger] steps(kind)[i] != #[trigger] steps(kind)[j],
{
}

/// The offsets of a kind's steps.
fn step_offsets(kind: NeighborKind) -> (result: Vec<Offset>)
    ensures
        result@.len() == steps(kind).len(),
        forall|j: int|
            0 <= j < result@.len() ==> (#[trigger] result@[j]).spec_row_delta() == steps(kind)[j].0
                && result@[j].spec_col_delta() == steps(kind)[j].1,
{
    let pairs: Vec<(isize, isize)> = match kind {
        NeighborKind::Orthogonal => vec![(-1, 0), (0, -1), (0, 1), (1, 0)],
        NeighborKind::Diagonal => vec![(-1, -1), (-1, 1), (1, -1), (1, 1)],
        NeighborKind::TwoStep => vec![(-2, 0), (0, -2), (0, 2), (2, 0)],
        NeighborKind::Knight => vec![
            (-2, -1),
            (-2, 1),
            (-1, -2),
            (-1, 2),
            (1, -2),
            (1, 2),
            (2, -1),
            (2, 1),
        ],
    };
    let mut result: Vec<Offset> = Vec::new();
    let mut j: usize = 0;
    while j < pairs.len()
        invariant
            j <= pairs@.len(),
            pairs@.len() == steps(kind).len(),
            forall|i: int| 0 <= i < pairs@.len() ==> (#[trigger] pairs@[i]).0 == steps(kind)[i].0 && pairs@[i].1 == steps(kind)[i].1,
            result@.len() == j,
            forall|i: int|
                0 <= i < j ==> (#[trigger] result@[i]).spec_row_delta() == steps(kind)[i].0
                    && result@[i].spec_col_delta() == steps(kind)[i].1,
        decreases pairs@.len() - j,
    {
        let (dr, dc) = pairs[j];
        result.push(Offset::new(dr, dc));
        j = j + 1;
    }
    result
}

/// `list` holds neighbours of `p` in the order of their steps in
/// `steps(kind)`.
pub open spec fn in_step_order(kind: NeighborKind, p: PositionId, list: Seq<PositionId>) -> bool {
    forall|a: int, b: int|
        0 <= a < b < list.len() ==> step_index(
            kind,
            (#[trigger] list[a]).spec_row() - p.spec_row(),
            list[a].spec_col() - p.spec_col(),
        ) < step_index(kind, (#[trigger] list[b]).spec_row() - p.spec_row(), list[b].spec_col() - p.spec_col())
}

/// Pre-computed cache of valid neighbor positions for each board position.
pub struct NeighborCache {
    kind: NeighborKind,
    data: Vec<Vec<PositionId>>,
}

impl NeighborCache {
    /// Each cell's list holds exactly its neighbours on the board, each
    /// once.
    pub closed spec fn wf(&self) -> bool {
        &&& self.data@.len() == 225
        &&& forall|i: int|
            0 <= i < 225 ==> #[trigger] self.data@[i]@.len() <= 8 && self.data@[i]@.no_duplicates()
        &&& forall|p: PositionId, q: PositionId|
            p.valid() ==> (#[trigger] self.data@[p.idx()]@.contains(q) <==> #[trigger] is_neighbor(
                self.kind,
                p,
                q,
            ))
        &&& forall|p: PositionId| p.valid() ==> in_step_order(self.kind, p, #[trigger] self.data@[p.idx()]@)
    }

    /// The kind of step the cache was made for.
    pub closed spec fn spec_kind(&self) -> NeighborKind {
        self.kind
    }

    /// The neighbours of `p`, in the cache's order.
    pub closed spec fn neighbors(&self, p: PositionId) -> Seq<PositionId> {
        self.data@[p.idx()]@
    }

    /// What `wf` says, for callers outside this module.
    pub proof fn lemma_wf(&self, p: PositionId)
        requires
            self.wf(),
            p.valid(),
        ensures
            self.neighbors(p).len() <= 8,
            self.neighbors(p).no_duplicates(),
            forall|q: PositionId| #[trigger] self.neighbors(p).contains(q) <==> is_neighbor(self.spec_kind(), p, q),
            in_step_order(self.spec_kind(), p, self.neighbors(p)),
    {
        assert forall|q: PositionId| #[trigger] self.neighbors(p).contains(q) <==> is_neighbor(
            self.spec_kind(),
            p,
            q,
        ) by {
            assert(self.data@[p.idx()]@.contains(q) <==> is_neighbor(self.kind, p, q));
        }
    }

    fn new(kind: NeighborKind) -> (result: Self)
        ensures
            result.wf(),
            result.spec_kind() == kind,
    {
        let offsets = step_offsets(kind);
        proof {
            lemma_steps(kind);
        }
        let mut data: Vec<Vec<PositionId>> = Vec::new();
        let mut index: usize = 0;
        while index < 225
            invariant
                index <= 225,
                data@.len() == index,
                offsets@.len() == steps(kind).len(),
                steps(kind).len() <= 8,
                forall|j: int|
                    0 <= j < offsets@.len() ==> (#[trigger] offsets@[j]).spec_row_delta() == steps(kind)[j].0
                        && offsets@[j].spec_col_delta() == steps(kind)[j].1,
                forall|j: int| 0 <= j < steps(kind).len() ==> is_step(kind, #[trigger] steps(kind)[j].0, steps(kind)[j].1),
                forall|dr: int, dc: int|
                    #[trigger] is_step(kind, dr, dc) ==> 0 <= step_index(kind, dr, dc) < steps(kind).len()
                        && steps(kind)[step_index(kind, dr, dc)] == (dr, dc),
                forall|i: int, j: int|
                    0 <= i < j < steps(kind).len() ==> #[trigger] steps(kind)[i] != #[trigger] steps(kind)[j],
                forall|i: int| 0 <= i < index ==> #[trigger] data@[i]@.len() <= 8 && data@[i]@.no_duplicates(),
                forall|p: PositionId, q: PositionId|
                    p.valid() && p.idx() < index ==> (#[trigger] data@[p.idx()]@.contains(q)
                        <==> #[trigger] is_neighbor(kind, p, q)),
                forall|p: PositionId| p.valid() && p.idx() < index ==> in_step_order(kind, p, #[trigger] data@[p.idx()]@),
            decreases 225 - index,
        {
            let position = PositionId::from_index(index);
            let mut list: Vec<PositionId> = Vec::new();
            let mut j: usize = 0;
            while j < offsets.len()
                invariant
                    j <= offsets@.len(),
                    position.valid(),
                    position.idx() == index,
                    offsets@.len() == steps(kind).len(),
                    steps(kind).len() <= 8,
                    forall|k: int|
                        0 <= k < offsets@.len() ==> (#[trigger] offsets@[k]).spec_row_delta() == steps(kind)[k].0
                            && offsets@[k].spec_col_delta() == steps(kind)[k].1,
                    forall|k: int| 0 <= k < steps(kind).len() ==> is_step(kind, #[trigger] steps(kind)[k].0, steps(kind)[k].1),
                    forall|dr: int, dc: int|
                        #[trigger] is_step(kind, dr, dc) ==> 0 <= step_index(kind, dr, dc) < steps(kind).len()
                            && steps(kind)[step_index(kind, dr, dc)] == (dr, dc),
                    forall|a: int, b: int|
                        0 <= a < b < steps(kind).len() ==> #[trigger] steps(kind)[a] != #[trigger] steps(kind)[b],
                    list@.len() <= j,
                    list@.no_duplicates(),
                    in_step_order(kind, position, list@),
                    forall|q: PositionId|
                        #[trigger] list@.contains(q) <==> (is_neighbor(kind, position, q) && step_index(
                            kind,
                            q.spec_row() - position.spec_row(),
                            q.spec_col() - position.spec_col(),
                        ) < j),
                decreases offsets@.len() - j,
            {
                let found = position.from_offset(offsets[j]);
                let ghost before = list@;
                match found {
                    Some(q) => {
                        proof {
                            let st = steps(kind)[j as int];
                            assert(is_step(kind, st.0, st.1));
                            assert(step_index(kind, st.0, st.1) == j) by {
                                let k = step_index(kind, st.0, st.1);
                                if k != j {
                                    if k < j {
                                        assert(steps(kind)[k] != steps(kind)[j as int]);
                                    } else {
                                        assert(steps(kind)[j as int] != steps(kind)[k]);
                                    }
                                }
                            }
                            assert(!before.contains(q));
                        }
                        list.push(q);
                        proof {
                            assert forall|a: int, b: int| 0 <= a < b < list@.len() implies step_index(
                                kind,
                                (#[trigger] list@[a]).spec_row() - position.spec_row(),
                                list@[a].spec_col() - position.spec_col(),
                            ) < step_index(
                                kind,
                                (#[trigger] list@[b]).spec_row() - position.spec_row(),
                                list@[b].spec_col() - position.spec_col(),
                            ) by {
                                if b == list@.len() - 1 {
                                    assert(before.contains(list@[a]));
                                } else {
                                    assert(list@[a] == before[a] && list@[b] == before[b]);
                                }
                            }
                            assert forall|r: PositionId| #[trigger] list@.contains(r) <==> (is_neighbor(kind, position, r)
                                && step_index(kind, r.spec_row() - position.spec_row(), r.spec_col() - position.spec_col()) < j + 1) by {
                                if r == q {
                                    assert(list@[list@.len() - 1] == q);
                                } else {
                                    if list@.contains(r) {
                                        let k = choose|k: int| 0 <= k < list@.len() && list@[k] == r;
                                        assert(before[k] == r);
                                    }
                                    if before.contains(r) {
                                        let k = choose|k: int| 0 <= k < before.len() && before[k] == r;
                                        assert(list@[k] == r);
                                    }
                                    if is_neighbor(kind, position, r) && step_index(kind, r.spec_row() - position.spec_row(), r.spec_col() - position.spec_col()) == j {
                                        crate::position_id::same_row_col_same_cell(q, r);
                                    }
                                }
                            }
                        }
                    },
                    None => {
                        proof {
                            assert forall|r: PositionId| #[trigger] list@.contains(r) <==> (is_neighbor(kind, position, r)
                                && step_index(kind, r.spec_row() - position.spec_row(), r.spec_col() - position.spec_col()) < j + 1) by {
                                if is_neighbor(kind, position, r) && step_index(kind, r.spec_row() - position.spec_row(), r.spec_col() - position.spec_col()) == j {
                                    assert(on_board(r.spec_row(), r.spec_col()));
                                }
                            }
                        }
                    },
                }
                j = j + 1;
            }
            proof {
                assert forall|q: PositionId| #[trigger] list@.contains(q) <==> is_neighbor(kind, position, q) by {
                }
            }
            data.push(list);
            proof {
                assert forall|p: PositionId, q: PositionId|
                    p.valid() && p.idx() < index + 1 implies (#[trigger] data@[p.idx()]@.contains(q)
                        <==> #[trigger] is_neighbor(kind, p, q)) by {
                    if p.idx() == index {
                        p.idx_determines(position);
                    }
                }
                assert forall|p: PositionId| p.valid() && p.idx() < index + 1 implies in_step_order(
                    kind,
                    p,
                    #[trigger] data@[p.idx()]@,
                ) by {
                    if p.idx() == index {
                        p.idx_determines(position);
                    }
                }
            }
            index = index + 1;
        }
        NeighborCache { kind, data }
    }

    /// The neighbours of `position_id`.
    pub fn neighbors_for(&self, position_id: PositionId) -> (result: &Vec<PositionId>)
        requires
            self.wf(),
        ensures
            result@ == self.neighbors(position_id),
    {
        &self.data[position_id.to_index()]
    }

    /// Neighbours one cell up, down, left or right.
    pub fn nn1() -> (result: Self)
        ensures
            result.wf(),
            result.spec_kind() == NeighborKind::Orthogonal,
    {
        Self::new(NeighborKind::Orthogonal)
    }

    /// Neighbours one cell diagonally.
    pub fn nn2() -> (result: Self)
        ensures
            result.wf(),
            result.spec_kind() == NeighborKind::Diagonal,
    {
        Self::new(NeighborKind::Diagonal)
    }

    /// Neighbours two cells up, down, left or right.
    pub fn nn3() -> (result: Self)
        ensures
            result.wf(),
            result.spec_kind() == NeighborKind::TwoStep,
    {
        Self::new(NeighborKind::TwoStep)
    }

    /// Neighbours a knight's move away.
    pub fn nn4() -> (result: Self)
        ensures
            result.wf(),
            result.spec_kind() == NeighborKind::Knight,
    {
        Self::new(NeighborKind::Knight)
    }
}

} // verus!
