//! End-to-end generation behaviour.

use dungeon_core::dungeon::generate_dungeon;
use dungeon_core::projection::map_pos;
use dungeon_core::rng::RandomSource;
use dungeon_core::sink::TileSink;
use dungeon_core::walkable::merge_polygons;

#[test]
fn seeded_generation_yields_the_fixed_room_and_corridor_counts() {
    let mut rng = RandomSource::from_seed(0xD1CE);
    let mut sink = TileSink::new();
    let dungeon = generate_dungeon(&mut sink, &mut rng);

    assert_eq!(dungeon.rooms.len(), 16);
    assert_eq!(dungeon.corridors.len(), 32);

    // corridors may be empty only toward the missing row or column
    for ry in 0..4 {
        for rx in 0..4 {
            let slot = ry * 4 + rx;
            let down = &dungeon.corridors[2 * slot];
            let right = &dungeon.corridors[2 * slot + 1];
            if ry < 3 {
                assert!(down.len() > 0);
            } else {
                assert_eq!(down.len(), 0);
            }
            if rx < 3 {
                assert!(right.len() > 0);
            } else {
                assert_eq!(right.len(), 0);
            }
        }
    }

    // the start position is projected from the first room
    let expected = map_pos(dungeon.rooms[0].x2 - 1, dungeon.rooms[0].y1 + 1, 0);
    assert_eq!(dungeon.start_position, expected);
}

#[test]
fn seeded_generation_is_reproducible() {
    let mut rng1 = RandomSource::from_seed(7);
    let mut sink1 = TileSink::new();
    let d1 = generate_dungeon(&mut sink1, &mut rng1);

    let mut rng2 = RandomSource::from_seed(7);
    let mut sink2 = TileSink::new();
    let d2 = generate_dungeon(&mut sink2, &mut rng2);

    assert_eq!(d1.rooms.len(), d2.rooms.len());
    for k in 0..d1.rooms.len() {
        assert_eq!(d1.rooms[k].x1, d2.rooms[k].x1);
        assert_eq!(d1.rooms[k].y1, d2.rooms[k].y1);
        assert_eq!(d1.rooms[k].x2, d2.rooms[k].x2);
        assert_eq!(d1.rooms[k].y2, d2.rooms[k].y2);
    }
    assert_eq!(d1.start_position, d2.start_position);
    assert_eq!(sink1.floors.len(), sink2.floors.len());
    assert_eq!(sink1.walls.len(), sink2.walls.len());
}

#[test]
fn rooms_are_laid_out_row_major_within_their_cells() {
    let mut rng = RandomSource::from_seed(99);
    let mut sink = TileSink::new();
    let dungeon = generate_dungeon(&mut sink, &mut rng);
    for ry in 0..4i32 {
        for rx in 0..4i32 {
            let r = &dungeon.rooms[(ry * 4 + rx) as usize];
            assert!(r.x1 < r.x2 && r.y1 < r.y2);
            assert!(rx * 13 - 5 <= r.x1 && r.x2 <= rx * 13 + 4);
            assert!(ry * 13 - 5 <= r.y1 && r.y2 <= ry * 13 + 4);
        }
    }
}

#[test]
fn merge_pass_is_idempotent_on_converged_output() {
    let mut rng = RandomSource::from_seed(42);
    let mut sink = TileSink::new();
    let _ = generate_dungeon(&mut sink, &mut rng);
    // the generator already merged to a fixed point; one more pass
    // must not reduce the polygon count
    let before = sink.walkable.len();
    let again = merge_polygons(&sink.walkable);
    assert_eq!(again.len(), before);
}

#[test]
fn furnishing_scatters_coins_and_one_transition() {
    let mut rng = RandomSource::from_seed(5);
    let mut sink = TileSink::new();
    let dungeon = generate_dungeon(&mut sink, &mut rng);

    assert_eq!(sink.pickups.len(), 15);
    for (j, p) in sink.pickups.iter().enumerate() {
        let r = &dungeon.rooms[j + 1];
        assert!(r.x1 <= p.x && p.x < r.x2);
        assert!(r.y1 <= p.y && p.y < r.y2);
        assert_eq!(p.kind, "copper_coin");
        assert!(1 <= p.count && p.count < 6);
    }

    assert_eq!(sink.transitions.len(), 1);
    let t = &sink.transitions[0];
    assert_eq!(t.from, map_pos(dungeon.rooms[0].x2, dungeon.rooms[0].y1, 0));
    assert_eq!(t.catchment, 100);
    assert_eq!(t.to_map, 0);
    assert_eq!(t.to_location, (720, 1802));
}

#[test]
fn floor_and_wall_placement_project_positions_from_their_cells() {
    let mut rng = RandomSource::from_seed(11);
    let mut sink = TileSink::new();
    let _ = generate_dungeon(&mut sink, &mut rng);
    assert!(sink.floors.len() > 0 && sink.walls.len() > 0);
    for f in sink.floors.iter().take(200) {
        assert_eq!(f.pos, map_pos(f.x, f.y, 0));
    }
    for w in sink.walls.iter().take(200) {
        assert_eq!(w.pos, map_pos(w.x, w.y, w.z_off));
    }
}

#[test]
fn random_range_draws_stay_inside_the_half_open_range() {
    let mut rng = RandomSource::from_seed(3);
    // a one-value range can only ever return that value
    for _ in 0..20 {
        assert_eq!(rng.next_in_range(5, 6), 5);
    }
    for _ in 0..100 {
        let v = rng.next_in_range(-3, 3);
        assert!(-3 <= v && v < 3);
    }
}
