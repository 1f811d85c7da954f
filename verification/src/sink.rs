//! The map/tile-sink collaborator: the generator hands it every floor
//! tile, wall segment, pickup and transition it places, together with
//! the shared walkable-polygon list. A host turns these records into
//! real map objects.

use vstd::prelude::*;

use crate::projection::spec_map_pos;
use crate::walkable::WalkablePolygon;

verus! {

/// An RGBA colour with channels in thousandths (0 ..= 1000).
#[derive(Clone, Copy, PartialEq, Eq, Structural, Debug)]
pub struct TileColor {
    pub r: u32,
    pub g: u32,
    pub b: u32,
    pub a: u32,
}

pub open spec fn white() -> TileColor {
    TileColor { r: 1000, g: 1000, b: 1000, a: 1000 }
}

pub open spec fn room_floor_color() -> TileColor {
    TileColor { r: 970, g: 920, b: 900, a: 1000 }
}

pub open spec fn tunnel_wall_color() -> TileColor {
    TileColor { r: 530, g: 540, b: 550, a: 1000 }
}

pub open spec fn tunnel_floor_color() -> TileColor {
    TileColor { r: 320, g: 300, b: 270, a: 1000 }
}

pub open spec fn corridor_floor_color() -> TileColor {
    TileColor { r: 680, g: 660, b: 630, a: 1000 }
}

/// One floor tile placed on the ground layer.
pub struct FloorTile {
    pub x: i32,
    pub y: i32,
    pub pos: (i64, i64),
    pub tile_id: usize,
    pub color: TileColor,
}

/// One wall segment placed on the object layer, with its vertical
/// offset.
pub struct WallTile {
    pub x: i32,
    pub y: i32,
    pub z_off: i32,
    pub pos: (i64, i64),
    pub tile_id: usize,
    pub color: TileColor,
}

/// A scattered pickup (a coin stack) dropped into a room.
pub struct PickupRecord {
    pub x: i32,
    pub y: i32,
    pub pos: (i64, i64),
    pub kind: String,
    pub count: u32,
}

/// A transition area leading out of the level.
pub struct TransitionRecord {
    pub from: (i64, i64),
    pub catchment: i64,
    pub to_map: usize,
    pub to_location: (i64, i64),
}

/// Collects everything one generation call places.
pub struct TileSink {
    pub floors: Vec<FloorTile>,
    pub walls: Vec<WallTile>,
    pub pickups: Vec<PickupRecord>,
    pub transitions: Vec<TransitionRecord>,
    pub walkable: Vec<WalkablePolygon>,
}

impl TileSink {
    pub fn new() -> (r: TileSink)
        ensures
            r.floors@.len() == 0,
            r.walls@.len() == 0,
            r.pickups@.len() == 0,
            r.transitions@.len() == 0,
            r.walkable@.len() == 0,
    {
        TileSink {
            floors: Vec::new(),
            walls: Vec::new(),
            pickups: Vec::new(),
            transitions: Vec::new(),
            walkable: Vec::new(),
        }
    }
}

/// The floor record that placing tile `id` at `(x, y)` leaves behind.
pub open spec fn spec_floor_tile(x: int, y: int, id: int, color: TileColor) -> FloorTile {
    FloorTile {
        x: x as i32,
        y: y as i32,
        pos: (spec_map_pos(x, y, 0).0 as i64, spec_map_pos(x, y, 0).1 as i64),
        tile_id: id as usize,
        color,
    }
}

/// The wall record that placing tile `id` at `(x, y)` with vertical
/// offset `z_off` leaves behind.
pub open spec fn spec_wall_tile(x: int, y: int, z_off: int, id: int, color: TileColor) -> WallTile {
    WallTile {
        x: x as i32,
        y: y as i32,
        z_off: z_off as i32,
        pos: (spec_map_pos(x, y, z_off).0 as i64, spec_map_pos(x, y, z_off).1 as i64),
        tile_id: id as usize,
        color,
    }
}

/// Records one floor tile; the projected position is derived from the
/// grid cell by the isometric projection, so equal cells always get
/// equal world positions.
pub fn place_floor_tile(sink: &mut TileSink, x: i32, y: i32, id: usize, color: TileColor)
    ensures
        final(sink).floors@ == old(sink).floors@.push(
            spec_floor_tile(x as int, y as int, id as int, color),
        ),
        final(sink).walls@ == old(sink).walls@,
        final(sink).pickups@ == old(sink).pickups@,
        final(sink).transitions@ == old(sink).transitions@,
        final(sink).walkable@ == old(sink).walkable@,
{
    let pos = crate::projection::map_pos(x, y, 0);
    sink.floors.push(FloorTile { x, y, pos, tile_id: id, color });
}

/// Records one wall segment; the projected position is derived from the
/// grid cell and offset by the isometric projection.
pub fn place_wall_tile(sink: &mut TileSink, x: i32, y: i32, z_off: i32, id: usize, color: TileColor)
    ensures
        final(sink).walls@ == old(sink).walls@.push(
            spec_wall_tile(x as int, y as int, z_off as int, id as int, color),
        ),
        final(sink).floors@ == old(sink).floors@,
        final(sink).pickups@ == old(sink).pickups@,
        final(sink).transitions@ == old(sink).transitions@,
        final(sink).walkable@ == old(sink).walkable@,
{
    let pos = crate::projection::map_pos(x, y, z_off);
    sink.walls.push(WallTile { x, y, z_off, pos, tile_id: id, color });
}

} // verus!
