use gomoku::offset::Offset;

#[test]
fn negation_inverts_deltas() {
    let offset = Offset::new(1, -2);

    assert_eq!(-offset, Offset::new(-1, 2));
}

#[test]
fn center_and_neighbors_starts_at_the_center_and_goes_clockwise() {
    let [center, north, north_east, .., west, north_west] = Offset::center_and_neighbors();

    assert_eq!(center, Offset::new(0, 0));
    assert_eq!(north, Offset::new(-1, 0));
    assert_eq!(north_east, Offset::new(-1, 1));
    assert_eq!(west, Offset::new(0, -1));
    assert_eq!(north_west, Offset::new(-1, -1));
}

#[test]
fn center_and_neighbors_covers_every_offset_within_one_step_once() {
    let mut offsets = Offset::center_and_neighbors().to_vec();
    offsets.sort_by_key(|offset| (offset.row_delta(), offset.col_delta()));
    offsets.dedup();

    assert_eq!(offsets.len(), 9);
    assert!(
        offsets
            .iter()
            .all(|offset| offset.row_delta().abs() <= 1 && offset.col_delta().abs() <= 1)
    );
}
