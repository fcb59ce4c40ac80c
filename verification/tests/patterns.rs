use gomoku::minimax::patterns::{
    line_pattern, line_pattern_from, line_pattern_table, threat_table, CellPatterns, LinePattern,
    LinePattern as P, Threat,
};
use gomoku::minimax::score::Score;

const FULL: u8 = 15;

fn line(own_bits: &[u8], opponent_bits: &[u8]) -> (u16, u16) {
    let mask = |bits: &[u8]| bits.iter().fold(0u16, |m, &b| m | (1 << b));
    (mask(own_bits), mask(opponent_bits))
}

#[test]
fn line_pattern_reads_the_shapes_around_the_cell() {
    // e XXX with room on both sides: an open four.
    let (own, opp) = line(&[6, 7, 8], &[]);
    assert_eq!(line_pattern(own, opp, FULL, 5), LinePattern::OpenFour);
    // O e XXX _: a four, blocked on the left.
    let (own, opp) = line(&[6, 7, 8], &[4]);
    assert_eq!(line_pattern(own, opp, FULL, 5), LinePattern::Four);
    // XX e XX: a jump four completes five.
    let (own, opp) = line(&[3, 4, 6, 7], &[]);
    assert_eq!(line_pattern(own, opp, FULL, 5), LinePattern::Five);
    // _ e XX _ _: an open three.
    let (own, opp) = line(&[6, 7], &[]);
    assert_eq!(line_pattern(own, opp, FULL, 5), LinePattern::OpenThree);
    // O e XX _ _: a three that can only grow one way.
    let (own, opp) = line(&[6, 7], &[4]);
    assert_eq!(line_pattern(own, opp, FULL, 5), LinePattern::Three);
    // _ e X _ _: an open two.
    let (own, opp) = line(&[6], &[]);
    assert_eq!(line_pattern(own, opp, FULL, 5), LinePattern::OpenTwo);
    // e _ _ _ X: a two, too far apart for an open three in one move.
    let (own, opp) = line(&[9], &[]);
    assert_eq!(line_pattern(own, opp, FULL, 5), LinePattern::Two);
    // A lone stone is not yet a two, and a hemmed-in cell is nothing.
    assert_eq!(line_pattern(0, 0, FULL, 5), LinePattern::Nothing);
    let (own, opp) = line(&[6], &[3, 7]);
    assert_eq!(line_pattern(own, opp, FULL, 5), LinePattern::Nothing);
}

#[test]
fn line_pattern_treats_the_board_edge_as_blocked() {
    // Bits 0..3 own, cell at 4: XXXX e with the edge on the left.
    let (own, opp) = line(&[0, 1, 2, 3], &[]);
    assert_eq!(line_pattern(own, opp, FULL, 4), LinePattern::Five);
    // Cell at 0 with XXX at 1..4 and an empty 4th: a four, not open.
    let (own, opp) = line(&[1, 2, 3], &[]);
    assert_eq!(line_pattern(own, opp, FULL, 0), LinePattern::Four);
    // A short diagonal of 4 cells can never hold five.
    assert_eq!(line_pattern(0b1110, 0, 4, 0), LinePattern::Nothing);
    // Near the far end of a full line the end reads as blocked too.
    let (own, opp) = line(&[11, 12, 13], &[]);
    assert_eq!(line_pattern(own, opp, FULL, 14), LinePattern::Four);
    assert_eq!(line_pattern(own, opp, FULL, 10), LinePattern::OpenFour);
}

#[test]
fn line_pattern_matches_the_cell_functions_on_random_lines() {
    let table = line_pattern_table();
    let mut rng = fastrand::Rng::with_seed(99);
    for _ in 0..20_000 {
        let length = rng.u8(1..=FULL);
        let valid = (1u16 << length) - 1;
        let own = rng.u16(..) & valid;
        let opp = rng.u16(..) & valid & !own;
        let empty = valid & !(own | opp);
        for bit in 0..length {
            let cell = 1u16 << bit;
            if empty & cell == 0 {
                continue;
            }
            assert_eq!(
                line_pattern_from(&table, own, opp, length, bit),
                line_pattern(own, opp, length, bit),
                "own {own:#b} opp {opp:#b} length {length} bit {bit}"
            );
        }
    }
}

#[test]
fn cell_patterns_pack_one_nibble_per_direction() {
    let patterns = CellPatterns::NONE()
        .with(0, LinePattern::Four)
        .with(3, LinePattern::OpenThree)
        .with(1, LinePattern::Two);
    assert_eq!(patterns.get(0), LinePattern::Four);
    assert_eq!(patterns.get(1), LinePattern::Two);
    assert_eq!(patterns.get(2), LinePattern::Nothing);
    assert_eq!(patterns.get(3), LinePattern::OpenThree);
    assert_eq!(
        patterns.with(0, LinePattern::Nothing).get(0),
        LinePattern::Nothing
    );
    assert_eq!(patterns.threat(), Threat::FourAndOpenThree);
}

#[test]
fn threats_combine_by_rapfi_priority() {
    
    let combine = |a: P, b: P, c: P, d: P| Threat::combine([a, b, c, d]);
    assert_eq!(
        combine(P::Five, P::OpenFour, P::Nothing, P::Nothing),
        Threat::Five
    );
    assert_eq!(
        combine(P::OpenFour, P::Nothing, P::Nothing, P::Nothing),
        Threat::UnstoppableFour
    );
    assert_eq!(
        combine(P::Four, P::Four, P::Nothing, P::Nothing),
        Threat::UnstoppableFour
    );
    assert_eq!(
        combine(P::Four, P::OpenThree, P::Nothing, P::Nothing),
        Threat::FourAndOpenThree
    );
    assert_eq!(
        combine(P::Four, P::Three, P::Nothing, P::Nothing),
        Threat::FourAndMore
    );
    assert_eq!(
        combine(P::Four, P::OpenTwo, P::Two, P::Nothing),
        Threat::FourAndMore
    );
    assert_eq!(combine(P::Four, P::Two, P::Two, P::Two), Threat::Four);
    assert_eq!(
        combine(P::OpenThree, P::OpenThree, P::Nothing, P::Nothing),
        Threat::TwoOpenThrees
    );
    assert_eq!(
        combine(P::OpenThree, P::Three, P::Nothing, P::Nothing),
        Threat::OpenThreeAndMore
    );
    assert_eq!(
        combine(P::OpenThree, P::OpenTwo, P::Nothing, P::Nothing),
        Threat::OpenThreeAndMore
    );
    assert_eq!(
        combine(P::OpenThree, P::Two, P::Nothing, P::Nothing),
        Threat::OpenThree
    );
    assert_eq!(
        combine(P::Three, P::Three, P::Nothing, P::Nothing),
        Threat::ThreeAndMore
    );
    assert_eq!(
        combine(P::Three, P::OpenTwo, P::Nothing, P::Nothing),
        Threat::ThreeAndMore
    );
    assert_eq!(
        combine(P::OpenTwo, P::OpenTwo, P::Nothing, P::Nothing),
        Threat::TwoOpenTwos
    );
    assert_eq!(
        combine(P::Three, P::Two, P::Nothing, P::Nothing),
        Threat::Three
    );
    assert_eq!(combine(P::OpenTwo, P::Two, P::Two, P::Two), Threat::OpenTwo);
    assert_eq!(combine(P::Two, P::Two, P::Two, P::Two), Threat::Nothing);
}

#[test]
fn threat_values_grow_with_the_threat() {
    let mut previous = Score::DRAW();
    for index in 0..Threat::COUNT {
        let threat = [
            Threat::Nothing,
            Threat::OpenTwo,
            Threat::Three,
            Threat::TwoOpenTwos,
            Threat::ThreeAndMore,
            Threat::OpenThree,
            Threat::OpenThreeAndMore,
            Threat::TwoOpenThrees,
            Threat::Four,
            Threat::FourAndMore,
            Threat::FourAndOpenThree,
            Threat::UnstoppableFour,
            Threat::Five,
        ][index];
        assert_eq!(threat.index(), index);
        assert_eq!(Threat::from_index(index), threat);
        // Rapfi ranks a four above two open threes, but a plain four is
        // not worth more than the double three it outranks; the two
        // classes the search always plays out are worth nothing.
        if !matches!(
            threat,
            Threat::Four | Threat::FourAndMore | Threat::UnstoppableFour | Threat::Five
        ) {
            assert!(threat.value() >= previous, "{threat:?}");
            previous = threat.value();
        }
    }
}

#[test]
fn threat_from_the_table_agrees_with_threat() {
    let table = threat_table();
    let patterns = CellPatterns::NONE()
        .with(0, LinePattern::OpenThree)
        .with(2, LinePattern::OpenThree);
    assert_eq!(patterns.threat_from(&table), Threat::TwoOpenThrees);
    assert_eq!(patterns.threat(), Threat::TwoOpenThrees);
    assert_eq!(CellPatterns::NONE().threat_from(&table), Threat::Nothing);
}

#[test]
fn line_pattern_from_the_table_reads_the_same_shapes() {
    let table = line_pattern_table();
    assert_eq!(line_pattern_from(&table, (1 << 6) | (1 << 7) | (1 << 8), 0, FULL, 5), LinePattern::OpenFour);
    assert_eq!(line_pattern_from(&table, 1 << 6, (1 << 3) | (1 << 7), FULL, 5), LinePattern::Nothing);
    assert_eq!(Threat::FourAndOpenThree.value(), Score::new(12_000));
}
