//! A transposition table: what earlier searches found about a position,
//! keyed by the position's Zobrist hash.

use vstd::prelude::*;

use crate::position_id::PositionId;

use super::score::Score;

verus! {

/// Indicates how the stored score relates to the true minimax value.
#[derive(Debug, Clone, Copy, PartialEq, Eq, Structural)]
pub enum Bound {
    Exact,
    /// Fail-high: the true score is at least the stored one.
    Lower,
    /// Fail-low: the true score is at most the stored one.
    Upper,
}

/// One slot of the table, twelve bytes.
#[derive(Debug, Clone, Copy, PartialEq, Eq, Structural)]
pub struct TtEntry {
    /// Top 32 bits of the Zobrist hash, guarding against slot collisions.
    pub key: u32,
    /// Remaining depth when this entry was stored.
    pub depth: u8,
    /// `None` while the slot is unoccupied.
    pub bound: Option<Bound>,
    /// The move that produced the score, as its index plus one; 0 when
    /// every move failed low.
    pub best_move: u8,
    pub score: Score,
}

/// What the table knows about a position.
#[derive(Debug, Clone, Copy, PartialEq, Eq)]
pub struct Probe {
    /// The best move from whatever depth the position was last searched to.
    pub best_move: Option<PositionId>,
    /// The score and how it bounds the true value, only when the stored
    /// search was at least as deep as asked.
    pub value: Option<(Score, Bound)>,
}

/// Number of slots: 1 048 576 entries, about 12 MB.
pub const TT_SIZE: usize = 1048576;

/// The slot of a hash: its low 20 bits.
pub open spec fn slot_of(hash: u64) -> int {
    (hash & 0xF_FFFF) as int
}

/// The collision guard of a hash: its top 32 bits.
pub open spec fn key_of(hash: u64) -> u32 {
    (hash >> 32) as u32
}

/// The move a stored code stands for.
pub open spec fn decode_move(code: u8) -> Option<int> {
    if code == 0 || code > 225 {
        None
    } else {
        Some(code - 1)
    }
}

/// The code of a move.
pub open spec fn encode_move(best_move: Option<PositionId>) -> u8 {
    match best_move {
        Some(p) => (p.idx() + 1) as u8,
        None => 0,
    }
}

/// The entry a store of these values writes.
pub open spec fn entry_for(
    hash: u64,
    depth: u32,
    score: Score,
    bound: Bound,
    best_move: Option<PositionId>,
) -> TtEntry {
    TtEntry {
        key: key_of(hash),
        depth: depth as u8,
        bound: Some(bound),
        best_move: encode_move(best_move),
        score,
    }
}

/// What a probe of `entry` for `hash` at `depth` finds: nothing unless the
/// slot is occupied by this hash; the move always; the value only when the
/// entry was searched at least as deep.
pub open spec fn probe_entry(entry: TtEntry, hash: u64, depth: u32) -> Option<(Option<int>, Option<(Score, Bound)>)> {
    match entry.bound {
        None => None,
        Some(bound) => if entry.key != key_of(hash) {
            None
        } else {
            Some((decode_move(entry.best_move), if entry.depth >= depth {
                Some((entry.score, bound))
            } else {
                None
            }))
        },
    }
}

/// A probe result as the move's index and the value.
pub open spec fn probe_view(probe: Option<Probe>) -> Option<(Option<int>, Option<(Score, Bound)>)> {
    match probe {
        None => None,
        Some(p) => Some((match p.best_move {
            Some(m) => Some(m.idx()),
            None => None,
        }, p.value)),
    }
}

/// Fixed-size transposition table using Zobrist hashing with replace-always
/// eviction.
pub struct TranspositionTable {
    entries: Vec<TtEntry>,
}

impl View for TranspositionTable {
    type V = Seq<TtEntry>;

    closed spec fn view(&self) -> Seq<TtEntry> {
        self.entries@
    }
}

/// An entry decodes to the move it was stored with.
proof fn lemma_move_round_trip(best_move: Option<PositionId>)
    requires
        best_move matches Some(p) ==> p.valid(),
    ensures
        decode_move(encode_move(best_move)) == match best_move {
            Some(m) => Some(m.idx()),
            None => None::<int>,
        },
{
}

/// The slot and key of a hash are in range.
proof fn lemma_slot_key(hash: u64)
    ensures
        0 <= slot_of(hash) < TT_SIZE,
        key_of(hash) as int == (hash >> 32) as int,
{
    assert(hash & 0xF_FFFF < 0x10_0000) by (bit_vector);
    assert(hash >> 32 <= 0xFFFF_FFFF) by (bit_vector);
}

impl TranspositionTable {
    /// Every slot exists.
    pub open spec fn wf(&self) -> bool {
        self@.len() == TT_SIZE
    }

    /// An empty table.
    pub fn new() -> (result: Self)
        ensures
            result.wf(),
            forall|i: int| 0 <= i < TT_SIZE ==> (#[trigger] result@[i]).bound.is_none(),
    {
        let empty = TtEntry { key: 0, depth: 0, bound: None, best_move: 0, score: Score(0) };
        let mut entries: Vec<TtEntry> = Vec::with_capacity(TT_SIZE);
        let mut i: usize = 0;
        while i < TT_SIZE
            invariant
                i <= TT_SIZE,
                empty.bound.is_none(),
                entries@.len() == i,
                forall|k: int| 0 <= k < i ==> (#[trigger] entries@[k]).bound.is_none(),
            decreases TT_SIZE - i,
        {
            entries.push(empty);
            i = i + 1;
        }
        TranspositionTable { entries }
    }

    /// Looks up `hash`: the stored best move from any depth, and the score
    /// only when the entry was searched to at least `depth`.
    pub fn probe(&self, hash: u64, depth: u32) -> (result: Option<Probe>)
        requires
            self.wf(),
            depth <= 255,
        ensures
            probe_view(result) == probe_entry(self@[slot_of(hash)], hash, depth),
            result matches Some(p) ==> (p.best_move matches Some(m) ==> m.valid()),
    {
        proof {
            lemma_slot_key(hash);
        }
        let index = (hash & 0xF_FFFF) as usize;
        let entry = self.entries[index];
        let bound = match entry.bound {
            None => return None,
            Some(bound) => bound,
        };
        if entry.key != (hash >> 32) as u32 {
            return None;
        }
        let best_move = if entry.best_move == 0 || entry.best_move > 225 {
            None
        } else {
            Some(PositionId::from_index((entry.best_move - 1) as usize))
        };
        let value = if entry.depth as u32 >= depth {
            Some((entry.score, bound))
        } else {
            None
        };
        Some(Probe { best_move, value })
    }

    /// Stores a result, always replacing the existing entry.
    pub fn store(
        &mut self,
        hash: u64,
        depth: u32,
        score: Score,
        bound: Bound,
        best_move: Option<PositionId>,
    )
        requires
            old(self).wf(),
            depth <= 255,
            best_move matches Some(p) ==> p.valid(),
        ensures
            final(self).wf(),
            final(self)@ == old(self)@.update(
                slot_of(hash),
                entry_for(hash, depth, score, bound, best_move),
            ),
    {
        proof {
            lemma_slot_key(hash);
        }
        let index = (hash & 0xF_FFFF) as usize;
        let code: u8 = match best_move {
            Some(position) => (position.to_index() + 1) as u8,
            None => 0,
        };
        self.entries.set(
            index,
            TtEntry { key: (hash >> 32) as u32, depth: depth as u8, bound: Some(bound), best_move: code, score },
        );
    }
}

impl Default for TranspositionTable {
    fn default() -> (result: Self)
        ensures
            result.wf(),
    {
        Self::new()
    }
}

/// What a store writes, a probe of the same hash reads back: the move from
/// any depth, and the score and bound at the stored depth or shallower.
pub proof fn stored_entry_is_found(
    hash: u64,
    depth: u32,
    probe_depth: u32,
    score: Score,
    bound: Bound,
    best_move: Option<PositionId>,
)
    requires
        depth <= 255,
        best_move matches Some(p) ==> p.valid(),
    ensures
        probe_entry(entry_for(hash, depth, score, bound, best_move), hash, probe_depth) == Some(
            (
                match best_move {
                    Some(m) => Some(m.idx()),
                    None => None::<int>,
                },
                if probe_depth <= depth {
                    Some((score, bound))
                } else {
                    None
                },
            ),
        ),
{
    lemma_move_round_trip(best_move);
}

} // verus!
