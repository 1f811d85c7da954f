//! Isometric projection from grid coordinates to world coordinates.

use vstd::prelude::*;

verus! {

/// Half-tile world-unit scale factor of the isometric projection.
/// It must match the constant used by the rendering collaborator.
pub const HALF_TILE: i64 = 108;

/// World position of grid cell `(x, y)` with vertical offset `z_off`.
pub open spec fn spec_map_pos(x: int, y: int, z_off: int) -> (int, int) {
    ((y + x) * 108, (y - x) * 108 + z_off)
}

/// Projects integer grid coordinates (plus a small z-offset) to world
/// coordinates. Pure, total and deterministic: the result is pinned
/// exactly by the projection formula.
pub fn map_pos(x: i32, y: i32, z_off: i32) -> (r: (i64, i64))
    ensures
        r.0 == spec_map_pos(x as int, y as int, z_off as int).0,
        r.1 == spec_map_pos(x as int, y as int, z_off as int).1,
{
    let fx: i64 = (y as i64 + x as i64) * 108;
    let fy: i64 = (y as i64 - x as i64) * 108 + z_off as i64;
    (fx, fy)
}

} // verus!
