use gomoku::neighbor_cache::NeighborCache;
use gomoku::neighbor_counts_cache::NeighborCountsCache;
use gomoku::offset::Offset;
use gomoku::position::Position;
use gomoku::position_id::PositionId;
use gomoku::stone::Stone;

fn pos(row: usize, col: usize) -> PositionId {
    PositionId::from_position(Position::new(row, col))
}

#[test]
fn nn1_corner_has_two_neighbors() {
    let cache = NeighborCache::nn1();
    let corner = pos(0, 0);

    assert_eq!(cache.neighbors_for(corner).len(), 2);
}

#[test]
fn nn1_center_has_four_neighbors() {
    let cache = NeighborCache::nn1();
    let center = PositionId::center();

    assert_eq!(cache.neighbors_for(center).len(), 4);
}

#[test]
fn nn2_corner_has_one_neighbor() {
    let cache = NeighborCache::nn2();
    let corner = pos(0, 0);

    assert_eq!(cache.neighbors_for(corner).len(), 1);
}

#[test]
fn nn2_center_has_four_neighbors() {
    let cache = NeighborCache::nn2();
    let center = PositionId::center();

    assert_eq!(cache.neighbors_for(center).len(), 4);
}

#[test]
fn nn3_corner_has_two_neighbors() {
    let cache = NeighborCache::nn3();
    let corner = pos(0, 0);

    assert_eq!(cache.neighbors_for(corner).len(), 2);
}

#[test]
fn nn4_corner_has_two_neighbors() {
    let cache = NeighborCache::nn4();
    let corner = pos(0, 0);

    assert_eq!(cache.neighbors_for(corner).len(), 2);
}

#[test]
fn nn4_center_has_eight_neighbors() {
    let cache = NeighborCache::nn4();
    let center = PositionId::center();

    assert_eq!(cache.neighbors_for(center).len(), 8);
}

#[test]
fn nn1_neighbors_of_the_center_are_one_step_away() {
    let cache = NeighborCache::nn1();
    let center = PositionId::center();
    let mut neighbors = cache.neighbors_for(center).clone();
    neighbors.sort();
    assert_eq!(neighbors, vec![pos(6, 7), pos(7, 6), pos(7, 8), pos(8, 7)]);
}

#[test]
fn initially_all_counts_are_empty() {
    let cache = NeighborCountsCache::new(NeighborCache::nn1());
    let center = PositionId::center();

    let counts = cache.counts_for(center, Stone::Black);

    assert_eq!(counts.player(), 0);
    assert_eq!(counts.opponent(), 0);
    assert_eq!(counts.empty(), 4);
}

#[test]
fn placing_black_updates_neighbor_counts() {
    let mut cache = NeighborCountsCache::new(NeighborCache::nn1());
    let center = PositionId::center();
    let neighbor = center.from_offset(Offset::new(0, 1)).unwrap();

    cache.place(center, Stone::Black);
    let counts = cache.counts_for(neighbor, Stone::Black);

    assert_eq!(counts.player(), 1);
    assert_eq!(counts.opponent(), 0);
    assert_eq!(counts.empty(), 3);
}

#[test]
fn placing_white_updates_black_opponent_count() {
    let mut cache = NeighborCountsCache::new(NeighborCache::nn1());
    let center = PositionId::center();
    let neighbor = center.from_offset(Offset::new(0, 1)).unwrap();

    cache.place(center, Stone::White);
    let counts = cache.counts_for(neighbor, Stone::Black);

    assert_eq!(counts.player(), 0);
    assert_eq!(counts.opponent(), 1);
    assert_eq!(counts.empty(), 3);
}

#[test]
fn counts_follow_several_stones_from_both_sides() {
    let mut cache = NeighborCountsCache::new(NeighborCache::nn2());
    let center = PositionId::center();
    cache.place(pos(6, 6), Stone::Black);
    cache.place(pos(8, 8), Stone::White);
    cache.place(pos(6, 8), Stone::White);

    let black_view = cache.counts_for(center, Stone::Black);
    assert_eq!((black_view.player(), black_view.opponent(), black_view.empty()), (1, 2, 1));
    let white_view = cache.counts_for(center, Stone::White);
    assert_eq!((white_view.player(), white_view.opponent(), white_view.empty()), (2, 1, 1));
    assert_eq!(cache.affected_positions(center).len(), 4);
}
