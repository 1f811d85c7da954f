//! Corridor carving behaviour.

use dungeon_core::corridor::build_straight_corridor;
use dungeon_core::corridor::build_winded_corridor;
use dungeon_core::floor_set::FloorCoordinateSet;
use dungeon_core::rng::RandomSource;

fn tiles_of(floors: &FloorCoordinateSet) -> Vec<(i32, i32)> {
    let mut v = Vec::new();
    let mut i = 0;
    while i < floors.len() {
        v.push(floors.tile_at(i));
        i += 1;
    }
    v
}

#[test]
fn straight_corridor_without_end_visits_span_tiles() {
    let mut floors = FloorCoordinateSet::new();
    build_straight_corridor(&mut floors, 2, 5, 2, 12, false);
    let tiles = tiles_of(&floors);
    assert_eq!(tiles.len(), 7);
    assert!(!tiles.contains(&(2, 12)));
    for k in 0..7 {
        assert!(tiles.contains(&(2, 5 + k)));
    }
}

#[test]
fn straight_corridor_with_end_visits_one_more_tile() {
    let mut floors = FloorCoordinateSet::new();
    build_straight_corridor(&mut floors, 2, 5, 2, 12, true);
    let tiles = tiles_of(&floors);
    assert_eq!(tiles.len(), 8);
    assert!(tiles.contains(&(2, 12)));
}

#[test]
fn straight_corridor_handles_all_four_directions() {
    let mut floors = FloorCoordinateSet::new();
    build_straight_corridor(&mut floors, 5, 5, 1, 5, false);
    assert_eq!(floors.len(), 4);
    assert!(floors.contains(5, 5));
    assert!(floors.contains(2, 5));
    assert!(!floors.contains(1, 5));
}

#[test]
fn duplicate_inserts_are_no_ops() {
    let mut floors = FloorCoordinateSet::new();
    build_straight_corridor(&mut floors, 0, 0, 0, 4, true);
    build_straight_corridor(&mut floors, 0, 0, 0, 4, true);
    assert_eq!(floors.len(), 5);
}

#[test]
fn winded_corridor_with_zero_wriggle_stays_straight() {
    // a straight horizontal span of length ten with no wriggle chance:
    // the wriggle branch needs a draw at or below zero, so the corridor
    // comes out perfectly straight, eleven tiles long
    let mut rng = RandomSource::from_seed(1);
    let mut floors = FloorCoordinateSet::new();
    build_winded_corridor(&mut floors, &mut rng, 0, 0, 10, 0, 0);
    let tiles = tiles_of(&floors);
    assert_eq!(tiles.len(), 11);
    for t in &tiles {
        assert_eq!(t.1, 0);
    }
    for x in 0..=10 {
        assert!(tiles.contains(&(x, 0)));
    }
}

#[test]
fn carved_corridors_have_no_islands_across_many_seeds() {
    // fuzz across seeds: generation must complete without an
    // invariant abort, and every multi-tile corridor stays 4-connected
    for seed in 0..40u64 {
        let mut rng = RandomSource::from_seed(seed);
        let mut sink = dungeon_core::sink::TileSink::new();
        let dungeon = dungeon_core::dungeon::generate_dungeon(&mut sink, &mut rng);
        for c in &dungeon.corridors {
            let tiles = tiles_of(c);
            if tiles.len() > 1 {
                for t in &tiles {
                    let connected = tiles.contains(&(t.0 + 1, t.1))
                        || tiles.contains(&(t.0 - 1, t.1))
                        || tiles.contains(&(t.0, t.1 + 1))
                        || tiles.contains(&(t.0, t.1 - 1));
                    assert!(connected, "tile without a neighbour");
                }
            }
        }
    }
}

#[test]
fn short_spans_always_carve_the_exact_straight_walk() {
    // spans under six tiles never wriggle, whatever the draws say
    for seed in 0..10u64 {
        let mut rng = RandomSource::from_seed(seed);
        let mut floors = FloorCoordinateSet::new();
        dungeon_core::corridor::subdivide_corridor(&mut floors, &mut rng, 3, 2, 3, 6, 999999);
        assert_eq!(floors.len(), 5);
        for k in 0..5 {
            assert!(floors.contains(3, 2 + k));
        }
    }
}
