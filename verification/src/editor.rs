//! The map editor's own state.

use vstd::prelude::*;

verus! {

/// Editing state: the tile the user picked to stamp, and whether the
/// key help is shown.
pub struct MapEditor {
    pub selected_tile_id: usize,
    pub show_editor_keys: bool,
}

impl MapEditor {
    pub fn new() -> (r: MapEditor)
        ensures
            r.selected_tile_id == 0,
            !r.show_editor_keys,
    {
        MapEditor { selected_tile_id: 0, show_editor_keys: false }
    }
}

} // verus!
