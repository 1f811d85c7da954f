//! The isometric projection.

use dungeon_core::projection::map_pos;

#[test]
fn projects_origin_to_origin() {
    assert_eq!(map_pos(0, 0, 0), (0, 0));
}

#[test]
fn projects_grid_cells_by_the_half_tile_constant() {
    assert_eq!(map_pos(1, 0, 0), (108, -108));
    assert_eq!(map_pos(0, 1, 0), (108, 108));
    assert_eq!(map_pos(2, 3, 0), (540, 108));
    assert_eq!(map_pos(-1, -1, 0), (-216, 0));
}

#[test]
fn applies_the_z_offset_to_the_vertical_axis_only() {
    assert_eq!(map_pos(2, 3, -226), (540, -118));
    assert_eq!(map_pos(2, 3, 100), (540, 208));
}

#[test]
fn is_deterministic_across_calls() {
    let a = map_pos(17, -4, 98);
    let b = map_pos(17, -4, 98);
    assert_eq!(a, b);
}
