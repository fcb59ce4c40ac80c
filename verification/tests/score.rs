use gomoku::minimax::score::Score;

#[test]
fn win_at_depth_prefers_faster_wins() {
    let early = Score::win_at_depth(3);
    let late = Score::win_at_depth(10);

    assert!(early > late, "fewer moves to win should score higher");
    assert!(
        early < Score::WIN(),
        "win_at_depth should be below the base WIN score"
    );
}

#[test]
fn only_wins_and_losses_are_decided() {
    assert!(Score::win_at_depth(225).is_decided());
    assert!((-Score::win_at_depth(1)).is_decided());
    assert!(!Score::new(50_000).is_decided());
    assert!(!Score::DRAW().is_decided());
}

#[test]
fn saturating_clamps_to_the_score_range() {
    assert_eq!(Score::saturating(5_000_000_000), Score::MAX());
    assert_eq!(Score::saturating(-5_000_000_000), Score::MIN());
    assert_eq!(Score::saturating(-42), Score::new(-42));
    assert_eq!(Score::win_at_depth(8).points(), 99_999_992);
}
