use gomoku::minimax::lines::{
    line_length, position_lines, score_line, score_side, COL_START, DL_START, DR_START, W,
};
use gomoku::minimax::score::Score;
use gomoku::position::Position;
use gomoku::position_id::PositionId;

fn pos(row: usize, col: usize) -> PositionId {
    PositionId::from_position(Position::new(row, col))
}

#[test]
fn line_lengths_rows_and_columns() {
    for i in 0..2 * W {
        assert_eq!(line_length(i), W as u8, "Line {i} should be length {W}");
    }
}

#[test]
fn line_lengths_diagonals_symmetric() {
    assert_eq!(line_length(DR_START + W - 1), W as u8);
    assert_eq!(line_length(DL_START + W - 1), W as u8);
    assert_eq!(line_length(DR_START), 1);
    assert_eq!(line_length(DR_START + 2 * (W - 1)), 1);
    assert_eq!(line_length(DL_START), 1);
    assert_eq!(line_length(DL_START + 2 * (W - 1)), 1);
}

#[test]
fn position_lines_center() {
    let half = W / 2;
    let lines = position_lines(PositionId::center());
    assert_eq!(lines[0], (half as u8, half as u8));
    assert_eq!(lines[1], ((COL_START + half) as u8, half as u8));
    assert_eq!(lines[2], ((DR_START + W - 1) as u8, half as u8));
    assert_eq!(lines[3], ((DL_START + W - 1) as u8, half as u8));
}

#[test]
fn position_lines_corners() {
    let tl = position_lines(pos(0, 0));
    assert_eq!(tl[2], ((DR_START + W - 1) as u8, 0));
    assert_eq!(tl[3], (DL_START as u8, 0));

    let tr = position_lines(pos(0, W - 1));
    assert_eq!(tr[2], (DR_START as u8, 0));
    assert_eq!(tr[3], ((DL_START + W - 1) as u8, 0));

    let bl = position_lines(pos(W - 1, 0));
    assert_eq!(bl[2], ((DR_START + 2 * (W - 1)) as u8, 0));
    assert_eq!(bl[3], ((DL_START + W - 1) as u8, (W - 1) as u8));
}

#[test]
fn score_line_empty_is_zero() {
    for &len in &[1, 2, 5, 10, W as u8] {
        assert_eq!(score_line(0, 0, len).score, Score::DRAW());
    }
}

#[test]
fn score_line_reports_which_colour_has_a_four() {
    // Black: XXXX_ at 3..=6; White: OO_OO at 9..=13 (jump four).
    let black = (1u16 << 3) | (1 << 4) | (1 << 5) | (1 << 6);
    let white = (1u16 << 9) | (1 << 10) | (1 << 12) | (1 << 13);
    assert_eq!(score_line(black, 0, W as u8).has_four, [true, false]);
    assert_eq!(score_line(0, white, W as u8).has_four, [false, true]);
    assert_eq!(score_line(black, white, W as u8).has_four, [true, true]);
}

#[test]
fn score_line_dead_four_is_not_a_four() {
    // OXXXXO: no empty cell completes five.
    let black = (1u16 << 4) | (1 << 5) | (1 << 6) | (1 << 7);
    let white = (1u16 << 3) | (1 << 8);
    let line = score_line(black, white, W as u8);
    assert_eq!(line.has_four, [false, false]);
    assert_eq!(line.score, Score::DRAW());
}

#[test]
fn score_line_open_three() {
    let own = (1u16 << 5) | (1u16 << 6) | (1u16 << 7);
    assert_eq!(score_one_side(own, 0, W as u8), Score::OPEN_THREE());
}

#[test]
fn score_line_half_open_at_edge() {
    let own = 0b111u16;
    assert_eq!(score_one_side(own, 0, W as u8), Score::HALF_OPEN_THREE());
}

#[test]
fn score_line_closed_three() {
    let own: u16 = (1 << 5) | (1 << 6) | (1 << 7);
    let opp: u16 = (1 << 4) | (1 << 8);
    assert_eq!(score_one_side(own, opp, W as u8), Score::DRAW());
}

fn score_one_side(own: u16, opp: u16, length: u8) -> Score {
    let valid = (1u16 << length) - 1;
    let empty = !(own | opp) & valid;
    score_side(own, valid, empty).score
}

#[test]
fn score_line_three_without_room_for_an_open_four_is_half_open() {
    // O_XXX_O: both neighbours empty, but either four it makes is blocked.
    let own: u16 = (1 << 5) | (1 << 6) | (1 << 7);
    let opp: u16 = (1 << 3) | (1 << 9);
    assert_eq!(score_one_side(own, opp, W as u8), Score::HALF_OPEN_THREE());
}

#[test]
fn score_line_three_with_room_on_one_side_is_open() {
    // O_XXX__: extending right makes _XXXX_.
    let own: u16 = (1 << 5) | (1 << 6) | (1 << 7);
    let opp: u16 = 1 << 3;
    assert_eq!(score_one_side(own, opp, W as u8), Score::OPEN_THREE());
}

#[test]
fn score_line_split_three_with_both_ends_open_is_open() {
    // _X_XX_: filling the gap makes _XXXX_. The XX pair also counts as an
    // open two, matching how jump fours keep their inner twos.
    let own: u16 = (1 << 4) | (1 << 6) | (1 << 7);
    assert_eq!(
        score_one_side(own, 0, W as u8),
        Score::OPEN_THREE() + Score::OPEN_TWO()
    );
}

#[test]
fn score_line_split_three_with_one_end_blocked_is_half_open() {
    // OX_XX_: filling the gap makes OXXXX_, a forcing four.
    let own: u16 = (1 << 4) | (1 << 6) | (1 << 7);
    let opp: u16 = 1 << 3;
    assert_eq!(
        score_one_side(own, opp, W as u8),
        Score::HALF_OPEN_THREE() + Score::OPEN_TWO()
    );
}

#[test]
fn score_line_split_three_with_both_ends_blocked_is_not_a_three() {
    // OX_XXO: filling the gap makes a dead four, and the XX pair has no
    // 5-cell window left either, so the whole thing scores nothing.
    let own: u16 = (1 << 4) | (1 << 6) | (1 << 7);
    let opp: u16 = (1 << 3) | (1 << 8);
    assert_eq!(score_one_side(own, opp, W as u8), Score::DRAW());
}

#[test]
fn score_line_three_that_can_only_make_a_dead_four_is_nothing() {
    // OXXX_O: the only extension gives OXXXXO, which cannot become five.
    let own: u16 = (1 << 4) | (1 << 5) | (1 << 6);
    let opp: u16 = (1 << 3) | (1 << 8);
    assert_eq!(score_one_side(own, opp, W as u8), Score::DRAW());
}

#[test]
fn score_line_three_with_one_open_end_and_room_is_half_open() {
    // OXXX__: extending right gives OXXXX_, a live four.
    let own: u16 = (1 << 4) | (1 << 5) | (1 << 6);
    let opp: u16 = 1 << 3;
    assert_eq!(score_one_side(own, opp, W as u8), Score::HALF_OPEN_THREE());
}

#[test]
fn score_line_two_without_a_five_cell_window_is_nothing() {
    // O_XX_O and OXX_O: no 5-cell window holds both stones with three
    // empty cells, so neither pair can ever become five.
    let own: u16 = (1 << 5) | (1 << 6);
    assert_eq!(
        score_one_side(own, (1 << 3) | (1 << 8), W as u8),
        Score::DRAW()
    );
    assert_eq!(
        score_one_side(own, (1 << 4) | (1 << 8), W as u8),
        Score::DRAW()
    );
}

#[test]
fn score_line_two_with_room_on_one_side_is_half_open() {
    // OXX___: the window right of the pair is free.
    let own: u16 = (1 << 5) | (1 << 6);
    let opp: u16 = 1 << 4;
    assert_eq!(score_one_side(own, opp, W as u8), Score::HALF_OPEN_TWO());
}

#[test]
fn score_line_reports_which_colour_has_an_open_three() {
    // Black: _XXX_ with room at 3..=5; White: _O_OO_ split three at 9..=12.
    let black = (1u16 << 3) | (1 << 4) | (1 << 5);
    let white = (1u16 << 9) | (1 << 11) | (1 << 12);
    assert_eq!(score_line(black, 0, W as u8).has_open_three, [true, false]);
    assert_eq!(score_line(0, white, W as u8).has_open_three, [false, true]);

    // O_XXX_O is only half-open, so it does not count.
    let hemmed_black = (1u16 << 5) | (1 << 6) | (1 << 7);
    let hemming_white = (1u16 << 3) | (1 << 9);
    assert_eq!(
        score_line(hemmed_black, hemming_white, W as u8).has_open_three,
        [false, false]
    );
}

#[test]
fn score_line_jump_four_x_xxx() {
    // X_XXX: own at positions 3, 5, 6, 7 (gap at 4)
    // Also detects open three at 5,6,7 (open ends at 4 and 8).
    let own = (1 << 3) | (1 << 5) | (1 << 6) | (1 << 7);
    assert_eq!(
        score_one_side(own, 0, W as u8),
        Score::HALF_OPEN_FOUR() + Score::OPEN_THREE()
    );
}

#[test]
fn score_line_jump_four_xx_xx() {
    // XX_XX: own at positions 3, 4, 6, 7 (gap at 5)
    // Also detects two open twos at (3,4) and (6,7).
    let own = (1 << 3) | (1 << 4) | (1 << 6) | (1 << 7);
    assert_eq!(
        score_one_side(own, 0, W as u8),
        Score::HALF_OPEN_FOUR() + Score::OPEN_TWO() * 2
    );
}

#[test]
fn score_line_jump_four_xxx_x() {
    // XXX_X: own at positions 3, 4, 5, 7 (gap at 6)
    // Also detects open three at 3,4,5 (open ends at 2 and 6).
    let own = (1 << 3) | (1 << 4) | (1 << 5) | (1 << 7);
    assert_eq!(
        score_one_side(own, 0, W as u8),
        Score::HALF_OPEN_FOUR() + Score::OPEN_THREE()
    );
}

#[test]
fn score_line_jump_four_blocked_by_opponent() {
    // XX_XX with opponent stone in the gap — no jump four.
    // Splits into two half-open twos (each blocked on the gap side).
    let own = (1 << 3) | (1 << 4) | (1 << 6) | (1 << 7);
    let opp = 1 << 5;
    assert_eq!(score_one_side(own, opp, W as u8), Score::HALF_OPEN_TWO() * 2);
}

#[test]
fn score_line_jump_four_on_short_line() {
    // XX_XX spanning the entire 5-cell line (positions 0,1,_,3,4).
    // Neither pair has a 5-cell window of its own, so only the jump four
    // scores.
    let own = (1 << 0) | (1 << 1) | (1 << 3) | (1 << 4);
    assert_eq!(score_one_side(own, 0, 5), Score::HALF_OPEN_FOUR());
}
