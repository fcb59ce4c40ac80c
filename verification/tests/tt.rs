use gomoku::minimax::score::Score;
use gomoku::minimax::tt::{Bound, TranspositionTable, TtEntry};
use gomoku::position_id::PositionId;

// Two hashes that land in the same table slot but have different keys (top 32 bits differ).
const HASH_A: u64 = 0x0000_0001_0000_0042;
const HASH_B: u64 = 0x0000_0002_0000_0042;

/// The score and bound of a probe that must be deep enough.
fn value(tt: &TranspositionTable, hash: u64, depth: u32) -> (Score, Bound) {
    tt.probe(hash, depth)
        .expect("should hit")
        .value
        .expect("should be deep enough")
}

#[test]
fn entry_is_twelve_bytes() {
    assert_eq!(std::mem::size_of::<TtEntry>(), 12);
}

#[test]
fn empty_table_returns_none() {
    let tt = TranspositionTable::new();
    assert!(tt.probe(HASH_A, 4).is_none());
}

#[test]
fn exact_bound_round_trips() {
    let mut tt = TranspositionTable::new();
    tt.store(HASH_A, 4, Score::new(300), Bound::Exact, None);
    assert_eq!(value(&tt, HASH_A, 4), (Score::new(300), Bound::Exact));
}

#[test]
fn lower_bound_round_trips() {
    let mut tt = TranspositionTable::new();
    tt.store(HASH_A, 3, Score::new(1_500), Bound::Lower, None);
    assert_eq!(value(&tt, HASH_A, 3), (Score::new(1_500), Bound::Lower));
}

#[test]
fn upper_bound_round_trips() {
    let mut tt = TranspositionTable::new();
    tt.store(HASH_A, 2, Score::new(20), Bound::Upper, None);
    assert_eq!(value(&tt, HASH_A, 2), (Score::new(20), Bound::Upper));
}

#[test]
fn negative_score_round_trips() {
    let mut tt = TranspositionTable::new();
    tt.store(HASH_A, 1, -Score::new(50_000), Bound::Exact, None);
    assert_eq!(value(&tt, HASH_A, 1).0, -Score::new(50_000));
}

#[test]
fn best_move_round_trips() {
    let mut tt = TranspositionTable::new();
    let position = PositionId::from_index(200);
    tt.store(HASH_A, 4, Score::new(300), Bound::Exact, Some(position));
    let probe = tt.probe(HASH_A, 4).expect("should hit");
    assert_eq!(probe.best_move, Some(position));
}

#[test]
fn first_and_last_positions_round_trip_as_best_moves() {
    let mut tt = TranspositionTable::new();
    for index in [0, PositionId::COUNT - 1] {
        let position = PositionId::from_index(index);
        tt.store(HASH_A, 4, Score::DRAW(), Bound::Exact, Some(position));
        let probe = tt.probe(HASH_A, 4).expect("should hit");
        assert_eq!(probe.best_move, Some(position));
    }
}

#[test]
fn missing_best_move_round_trips() {
    let mut tt = TranspositionTable::new();
    tt.store(HASH_A, 4, Score::new(300), Bound::Upper, None);
    let probe = tt.probe(HASH_A, 4).expect("should hit");
    assert_eq!(probe.best_move, None);
}

#[test]
fn shallow_entry_yields_its_move_but_no_value() {
    let mut tt = TranspositionTable::new();
    let position = PositionId::from_index(42);
    tt.store(HASH_A, 3, Score::new(300), Bound::Exact, Some(position));
    let probe = tt.probe(HASH_A, 4).expect("should hit");
    assert_eq!(probe.best_move, Some(position));
    assert_eq!(probe.value, None);
}

#[test]
fn probe_succeeds_at_stored_depth() {
    let mut tt = TranspositionTable::new();
    tt.store(HASH_A, 5, Score::DRAW(), Bound::Exact, None);
    assert!(
        tt.probe(HASH_A, 5)
            .is_some_and(|probe| probe.value.is_some())
    );
}

#[test]
fn probe_succeeds_at_shallower_depth_than_stored() {
    let mut tt = TranspositionTable::new();
    tt.store(HASH_A, 5, Score::DRAW(), Bound::Exact, None);
    assert!(
        tt.probe(HASH_A, 3)
            .is_some_and(|probe| probe.value.is_some())
    );
}

#[test]
fn probe_has_no_value_when_requested_depth_exceeds_stored() {
    let mut tt = TranspositionTable::new();
    tt.store(HASH_A, 3, Score::DRAW(), Bound::Exact, None);
    assert!(
        tt.probe(HASH_A, 4)
            .is_some_and(|probe| probe.value.is_none())
    );
}

#[test]
fn probe_fails_on_key_mismatch_same_slot() {
    // HASH_A and HASH_B share the same low 20 bits (same slot) but differ in
    // the top 32 bits (different keys), so storing one must not satisfy a probe
    // for the other.
    let mut tt = TranspositionTable::new();
    tt.store(HASH_A, 4, Score::new(300), Bound::Exact, None);
    assert!(tt.probe(HASH_B, 4).is_none());
}

#[test]
fn replace_always_overwrites_previous_entry() {
    let mut tt = TranspositionTable::new();
    tt.store(HASH_A, 4, Score::new(300), Bound::Lower, None);
    tt.store(HASH_A, 6, Score::new(50_000), Bound::Exact, None);
    assert_eq!(value(&tt, HASH_A, 6), (Score::new(50_000), Bound::Exact));
}

#[test]
fn win_score_round_trips() {
    let mut tt = TranspositionTable::new();
    let win = Score::win_at_depth(9);
    tt.store(HASH_A, 7, win, Bound::Exact, None);
    assert_eq!(value(&tt, HASH_A, 7).0, win);
}
