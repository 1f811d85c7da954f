//! User-interface helper types.

use dungeon_core::editor::MapEditor;
use dungeon_core::floor_set::FloorCoordinateSet;
use dungeon_core::ui::UiArea;
use dungeon_core::views::InventoryView;
use dungeon_core::walkable::WalkablePolygon;
use dungeon_core::walkable::merge_pair;

#[test]
fn ui_area_contains_its_interior_but_not_its_far_edge() {
    let a = UiArea::new(10, 20, 5, 5);
    assert!(a.contains(10, 20));
    assert!(a.contains(14, 24));
    assert!(!a.contains(15, 20));
    assert!(!a.contains(10, 25));
    assert!(!a.contains(9, 20));
}

#[test]
fn a_fresh_map_editor_has_no_selection() {
    let e = MapEditor::new();
    assert_eq!(e.selected_tile_id, 0);
    assert!(!e.show_editor_keys);
}

#[test]
fn the_inventory_view_is_stateless() {
    let _ = InventoryView::new();
}

#[test]
fn floor_sets_deduplicate_tiles() {
    let mut s = FloorCoordinateSet::new();
    s.insert(1, 2);
    s.insert(3, 4);
    s.insert(1, 2);
    assert_eq!(s.len(), 2);
    assert!(s.contains(1, 2));
    assert!(s.contains(3, 4));
    assert!(!s.contains(2, 1));
}

#[test]
fn merging_two_quads_glues_their_rings_along_the_shared_edge() {
    // two unit squares side by side, rings wound the same way,
    // sharing the edge between (1,0) and (1,1)
    let a = WalkablePolygon::new(vec![(0, 0), (1, 0), (1, 1), (0, 1)]);
    let b = WalkablePolygon::new(vec![(1, 1), (1, 0), (2, 0), (2, 1)]);
    let u = merge_pair(&a, &b);
    assert_eq!(u.len(), 6);
    // every corner of the union comes from one of the two squares
    for i in 0..u.len() {
        let p = u.point_at(i);
        let from_a = (0..a.len()).any(|k| a.point_at(k) == p);
        let from_b = (0..b.len()).any(|k| b.point_at(k) == p);
        assert!(from_a || from_b);
    }
}
