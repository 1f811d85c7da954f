//! Wall synthesis: walls are placed along the unconnected sides of each
//! floor tile, with a dead-end exception, and each floor cell registers
//! its walkable footprint.

use vstd::prelude::*;

use crate::floor_set::FloorCoordinateSet;
use crate::projection::map_pos;
use crate::projection::spec_map_pos;
use crate::sink::TileColor;
use crate::sink::TileSink;
use crate::sink::WallTile;
use crate::sink::corridor_floor_color;
use crate::sink::place_floor_tile;
use crate::sink::place_wall_tile;
use crate::sink::spec_floor_tile;
use crate::sink::spec_wall_tile;
use crate::sink::tunnel_floor_color;
use crate::sink::tunnel_wall_color;
use crate::walkable::WalkablePolygon;

verus! {

/// Whether some tile of the set has exactly these coordinates.
pub open spec fn has_tile(s: Seq<(i32, i32)>, x: int, y: int) -> bool {
    exists|p: (i32, i32)| s.contains(p) && p.0 == x && p.1 == y
}

/// The four tile identifiers and vertical offsets of one visual wall
/// theme, together with its floor tile and colours. The connectivity
/// rule itself does not vary between themes.
#[derive(Clone, Copy)]
pub struct WallTheme {
    pub floor_id: usize,
    pub floor_color: TileColor,
    pub wall_color: TileColor,
    pub west_id: usize,
    pub west_z: i32,
    pub north_id: usize,
    pub north_z: i32,
    pub south_id: usize,
    pub south_z: i32,
    pub east_id: usize,
    pub east_z: i32,
}

/// The interior "tunnel" theme.
pub open spec fn spec_tunnel_theme() -> WallTheme {
    WallTheme {
        floor_id: 47,
        floor_color: tunnel_floor_color(),
        wall_color: tunnel_wall_color(),
        west_id: 512,
        west_z: (-202) as i32,
        north_id: 513,
        north_z: 20,
        south_id: 515,
        south_z: 60,
        east_id: 514,
        east_z: 110,
    }
}

/// The open "corridor" theme.
pub open spec fn spec_corridor_theme() -> WallTheme {
    WallTheme {
        floor_id: 48,
        floor_color: corridor_floor_color(),
        wall_color: tunnel_wall_color(),
        west_id: 519,
        west_z: (-202) as i32,
        north_id: 518,
        north_z: 18,
        south_id: 503,
        south_z: 30,
        east_id: 509,
        east_z: 94,
    }
}

/// The wall segments owed by one floor tile: one along each side whose
/// neighbour (in the grid-adjacency sense: north `(x+1, y)`, south
/// `(x-1, y)`, east `(x, y+1)`, west `(x, y-1)`) is absent — except that
/// a dead-end tile (exactly one neighbour present) stays open on the
/// side opposite its sole connection.
pub open spec fn tile_walls(s: Seq<(i32, i32)>, x: int, y: int, th: WallTheme) -> Seq<WallTile> {
    let north = has_tile(s, x + 1, y);
    let south = has_tile(s, x - 1, y);
    let east = has_tile(s, x, y + 1);
    let west = has_tile(s, x, y - 1);
    let connections = (if north {
        1int
    } else {
        0int
    }) + (if south {
        1int
    } else {
        0int
    }) + (if east {
        1int
    } else {
        0int
    }) + (if west {
        1int
    } else {
        0int
    });
    let end_piece = connections == 1;
    (if !west && !(end_piece && east) {
        seq![spec_wall_tile(x - 1, y, th.west_z as int, th.west_id as int, th.wall_color)]
    } else {
        Seq::<WallTile>::empty()
    }) + (if !north && !(end_piece && south) {
        seq![spec_wall_tile(x + 1, y, th.north_z as int, th.north_id as int, th.wall_color)]
    } else {
        Seq::<WallTile>::empty()
    }) + (if !south && !(end_piece && north) {
        seq![spec_wall_tile(x, y, th.south_z as int, th.south_id as int, th.wall_color)]
    } else {
        Seq::<WallTile>::empty()
    }) + (if !east && !(end_piece && west) {
        seq![spec_wall_tile(x, y, th.east_z as int, th.east_id as int, th.wall_color)]
    } else {
        Seq::<WallTile>::empty()
    })
}

/// The wall segments owed by the first `k` tiles of the set, in tile
/// order.
pub open spec fn tiles_walls_upto(s: Seq<(i32, i32)>, k: int, th: WallTheme) -> Seq<WallTile>
    decreases k,
{
    if k <= 0 {
        Seq::<WallTile>::empty()
    } else {
        tiles_walls_upto(s, k - 1, th) + tile_walls(s, s[k - 1].0 as int, s[k - 1].1 as int, th)
    }
}

/// The floor records owed by the tiles of the set, in tile order.
pub open spec fn tiles_floors(s: Seq<(i32, i32)>, th: WallTheme) -> Seq<crate::sink::FloorTile> {
    Seq::new(
        s.len(),
        |i: int| spec_floor_tile(s[i].0 as int, s[i].1 as int, th.floor_id as int, th.floor_color),
    )
}

/// The walkable quadrilateral of the rectangle of cells from
/// `(sx, sy)` to `(dx, dy)` inclusive, in world coordinates, shifted
/// down one tile to align with tile occupancy.
pub open spec fn area_quad(sx: int, sy: int, dx: int, dy: int) -> Seq<(i64, i64)> {
    seq![
        (
            spec_map_pos(sx, sy - 1, 0).0 as i64,
            (spec_map_pos(sx, sy - 1, 0).1 + 108) as i64,
        ),
        (
            spec_map_pos(dx + 1, sy - 1, 0).0 as i64,
            (spec_map_pos(dx + 1, sy - 1, 0).1 + 108) as i64,
        ),
        (
            spec_map_pos(dx + 1, dy, 0).0 as i64,
            (spec_map_pos(dx + 1, dy, 0).1 + 108) as i64,
        ),
        (spec_map_pos(sx, dy, 0).0 as i64, (spec_map_pos(sx, dy, 0).1 + 108) as i64),
    ]
}

/// Coordinates the wall annotator accepts: small enough that both the
/// neighbour offsets and the projected world positions stay in range.
pub open spec fn annotate_range(c: int) -> bool {
    -1000000 <= c <= 1000000
}

/// Registers the walkable footprint of the cell rectangle from
/// `(sx, sy)` to `(dx, dy)` inclusive.
pub fn store_walkable_area(sx: i32, sy: i32, dx: i32, dy: i32, walkable: &mut Vec<WalkablePolygon>)
    requires
        annotate_range(sx as int) && annotate_range(sy as int),
        annotate_range(dx as int) && annotate_range(dy as int),
    ensures
        final(walkable)@.len() == old(walkable)@.len() + 1,
        final(walkable)@.take(old(walkable)@.len() as int) == old(walkable)@,
        final(walkable)@.last()@ == area_quad(sx as int, sy as int, dx as int, dy as int),
        final(walkable)@.last().wf(),
{
    let p1 = map_pos(sx, sy - 1, 0);
    let p2 = map_pos(dx + 1, sy - 1, 0);
    let p3 = map_pos(dx + 1, dy, 0);
    let p4 = map_pos(sx, dy, 0);
    let mut points: Vec<(i64, i64)> = Vec::new();
    points.push((p1.0, p1.1 + 108));
    points.push((p2.0, p2.1 + 108));
    points.push((p3.0, p3.1 + 108));
    points.push((p4.0, p4.1 + 108));
    let area = WalkablePolygon::new(points);
    proof {
        assert(area@ =~= area_quad(sx as int, sy as int, dx as int, dy as int));
    }
    walkable.push(area);
    proof {
        assert(walkable@.take(old(walkable)@.len() as int) =~= old(walkable)@);
    }
}


/// Places one floor tile per coordinate of the set, walls along its
/// unconnected sides per the dead-end rule, and registers one walkable
/// cell footprint per tile — the shared topology rule of both themes.
pub fn annotate_floor_coordinates(sink: &mut TileSink, floors: &FloorCoordinateSet, theme: WallTheme)
    requires
        forall|i: int|
            0 <= i < floors@.len() ==> annotate_range(#[trigger] floors@[i].0 as int)
                && annotate_range(floors@[i].1 as int),
    ensures
        final(sink).floors@ == old(sink).floors@ + tiles_floors(floors@, theme),
        final(sink).walls@ == old(sink).walls@ + tiles_walls_upto(
            floors@,
            floors@.len() as int,
            theme,
        ),
        final(sink).walkable@.len() == old(sink).walkable@.len() + floors@.len(),
        final(sink).walkable@.take(old(sink).walkable@.len() as int) == old(sink).walkable@,
        forall|k: int|
            0 <= k < floors@.len() ==> {
                let q = #[trigger] final(sink).walkable@[old(sink).walkable@.len() + k];
                q@ == area_quad(
                    floors@[k].0 as int,
                    floors@[k].1 as int,
                    floors@[k].0 as int,
                    floors@[k].1 as int,
                ) && q.wf()
            },
        final(sink).pickups@ == old(sink).pickups@,
        final(sink).transitions@ == old(sink).transitions@,
{
    let ghost s = floors@;
    let ghost w0 = old(sink).walkable@.len() as int;
    let n = floors.len();
    let mut i: usize = 0;
    while i < n
        invariant
            s == floors@,
            n == s.len(),
            forall|k: int|
                0 <= k < s.len() ==> annotate_range(#[trigger] s[k].0 as int) && annotate_range(
                    s[k].1 as int,
                ),
            i <= n,
            w0 == old(sink).walkable@.len(),
            sink.floors@ == old(sink).floors@ + tiles_floors(s, theme).take(i as int),
            sink.walls@ == old(sink).walls@ + tiles_walls_upto(s, i as int, theme),
            sink.walkable@.len() == w0 + i,
            sink.walkable@.take(w0) == old(sink).walkable@,
            forall|k: int|
                0 <= k < i ==> {
                    let q = #[trigger] sink.walkable@[w0 + k];
                    q@ == area_quad(s[k].0 as int, s[k].1 as int, s[k].0 as int, s[k].1 as int)
                        && q.wf()
                },
            sink.pickups@ == old(sink).pickups@,
            sink.transitions@ == old(sink).transitions@,
        decreases n - i,
    {
        let t = floors.tile_at(i);
        let x = t.0;
        let y = t.1;
        let ghost walls_pre = sink.walls@;
        let ghost walk_pre = sink.walkable@;

        place_floor_tile(sink, x, y, theme.floor_id, theme.floor_color);
        proof {
            assert(tiles_floors(s, theme).take(i as int + 1) =~= tiles_floors(s, theme).take(
                i as int,
            ).push(tiles_floors(s, theme)[i as int]));
            assert(sink.floors@ =~= old(sink).floors@ + tiles_floors(s, theme).take(i as int + 1));
        }

        // check connections to neighbouring floor tiles
        let north = floors.contains_wide(x as i64 + 1, y as i64);
        let south = floors.contains_wide(x as i64 - 1, y as i64);
        let east = floors.contains_wide(x as i64, y as i64 + 1);
        let west = floors.contains_wide(x as i64, y as i64 - 1);
        proof {
            assert(north == has_tile(s, x as int + 1, y as int));
            assert(south == has_tile(s, x as int - 1, y as int));
            assert(east == has_tile(s, x as int, y as int + 1));
            assert(west == has_tile(s, x as int, y as int - 1));
        }

        // count connections; dead ends stay open toward their sole link
        let mut connections: u32 = 0;
        if north {
            connections += 1;
        }
        if south {
            connections += 1;
        }
        if east {
            connections += 1;
        }
        if west {
            connections += 1;
        }
        let end_piece = connections == 1;

        // back walls
        if !west && !(end_piece && east) {
            place_wall_tile(sink, x - 1, y, theme.west_z, theme.west_id, theme.wall_color);
        }
        if !north && !(end_piece && south) {
            place_wall_tile(sink, x + 1, y, theme.north_z, theme.north_id, theme.wall_color);
        }
        // front walls
        if !south && !(end_piece && north) {
            place_wall_tile(sink, x, y, theme.south_z, theme.south_id, theme.wall_color);
        }
        if !east && !(end_piece && west) {
            place_wall_tile(sink, x, y, theme.east_z, theme.east_id, theme.wall_color);
        }
        proof {
            assert(sink.walls@ =~= walls_pre + tile_walls(s, x as int, y as int, theme));
            assert(sink.walls@ =~= old(sink).walls@ + tiles_walls_upto(s, i as int + 1, theme));
        }

        store_walkable_area(x, y, x, y, &mut sink.walkable);
        proof {
            assert(sink.walkable@.take(w0) =~= walk_pre.take(w0));
            assert forall|k: int| 0 <= k < i + 1 implies {
                let q = #[trigger] sink.walkable@[w0 + k];
                q@ == area_quad(s[k].0 as int, s[k].1 as int, s[k].0 as int, s[k].1 as int)
                    && q.wf()
            } by {
                if k < i {
                    assert(sink.walkable@[w0 + k] == walk_pre[w0 + k]);
                } else {
                    assert(sink.walkable@[w0 + k] == sink.walkable@.last());
                }
            }
        }
        i += 1;
    }
    proof {
        assert(tiles_floors(s, theme).take(n as int) =~= tiles_floors(s, theme));
    }
}

/// Builds the interior "tunnel" rendering of a corridor's floor set.
pub fn build_tunnel_from_coordinates(sink: &mut TileSink, floors: &FloorCoordinateSet)
    requires
        forall|i: int|
            0 <= i < floors@.len() ==> annotate_range(#[trigger] floors@[i].0 as int)
                && annotate_range(floors@[i].1 as int),
    ensures
        final(sink).floors@ == old(sink).floors@ + tiles_floors(floors@, spec_tunnel_theme()),
        final(sink).walls@ == old(sink).walls@ + tiles_walls_upto(
            floors@,
            floors@.len() as int,
            spec_tunnel_theme(),
        ),
        final(sink).walkable@.len() == old(sink).walkable@.len() + floors@.len(),
        final(sink).walkable@.take(old(sink).walkable@.len() as int) == old(sink).walkable@,
        forall|k: int|
            0 <= k < floors@.len() ==> {
                let q = #[trigger] final(sink).walkable@[old(sink).walkable@.len() + k];
                q@ == area_quad(
                    floors@[k].0 as int,
                    floors@[k].1 as int,
                    floors@[k].0 as int,
                    floors@[k].1 as int,
                ) && q.wf()
            },
        final(sink).pickups@ == old(sink).pickups@,
        final(sink).transitions@ == old(sink).transitions@,
{
    let theme = WallTheme {
        floor_id: 47,
        floor_color: TileColor { r: 320, g: 300, b: 270, a: 1000 },
        wall_color: TileColor { r: 530, g: 540, b: 550, a: 1000 },
        west_id: 512,
        west_z: -202,
        north_id: 513,
        north_z: 20,
        south_id: 515,
        south_z: 60,
        east_id: 514,
        east_z: 110,
    };
    proof {
        assert(theme == spec_tunnel_theme());
    }
    annotate_floor_coordinates(sink, floors, theme);
}

/// Builds the open "corridor" rendering of a corridor's floor set.
pub fn build_corridor_from_coordinates(sink: &mut TileSink, floors: &FloorCoordinateSet)
    requires
        forall|i: int|
            0 <= i < floors@.len() ==> annotate_range(#[trigger] floors@[i].0 as int)
                && annotate_range(floors@[i].1 as int),
    ensures
        final(sink).floors@ == old(sink).floors@ + tiles_floors(floors@, spec_corridor_theme()),
        final(sink).walls@ == old(sink).walls@ + tiles_walls_upto(
            floors@,
            floors@.len() as int,
            spec_corridor_theme(),
        ),
        final(sink).walkable@.len() == old(sink).walkable@.len() + floors@.len(),
        final(sink).walkable@.take(old(sink).walkable@.len() as int) == old(sink).walkable@,
        forall|k: int|
            0 <= k < floors@.len() ==> {
                let q = #[trigger] final(sink).walkable@[old(sink).walkable@.len() + k];
                q@ == area_quad(
                    floors@[k].0 as int,
                    floors@[k].1 as int,
                    floors@[k].0 as int,
                    floors@[k].1 as int,
                ) && q.wf()
            },
        final(sink).pickups@ == old(sink).pickups@,
        final(sink).transitions@ == old(sink).transitions@,
{
    let theme = WallTheme {
        floor_id: 48,
        floor_color: TileColor { r: 680, g: 660, b: 630, a: 1000 },
        wall_color: TileColor { r: 530, g: 540, b: 550, a: 1000 },
        west_id: 519,
        west_z: -202,
        north_id: 518,
        north_z: 18,
        south_id: 503,
        south_z: 30,
        east_id: 509,
        east_z: 94,
    };
    proof {
        assert(theme == spec_corridor_theme());
    }
    annotate_floor_coordinates(sink, floors, theme);
}

} // verus!
