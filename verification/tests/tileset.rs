//! Tile catalog loading.

#[test]
fn test_load_tileset() {
}
