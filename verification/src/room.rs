//! Room construction: the floor rectangle, the perimeter walls with
//! entrance gaps and corner pieces, and the room's walkable footprint.

use vstd::prelude::*;

use crate::rng::RandomSource;
use crate::sink::TileSink;
use crate::sink::TileColor;
use crate::sink::WallTile;
use crate::sink::room_floor_color;
use crate::sink::spec_wall_tile;
use crate::sink::white;
use crate::sink::place_floor_tile;
use crate::sink::place_wall_tile;
use crate::walls::annotate_range;
use crate::walls::area_quad;
use crate::walls::store_walkable_area;

verus! {

/// An axis-aligned room rectangle in grid units, immutable once created.
pub struct Room {
    pub x1: i32,
    pub y1: i32,
    pub x2: i32,
    pub y2: i32,
}

/// The four edge-midpoint entrance points of one room, used as corridor
/// attachment targets.
pub struct Entrances {
    pub top: (i32, i32),
    pub right: (i32, i32),
    pub bottom: (i32, i32),
    pub left: (i32, i32),
}

/// One column of the tall back wall along the room's top edge: an
/// ordinary segment, or two corner pieces where the top entrance sits.
pub open spec fn top_wall_step(sy: int, bottom_x: int, x: int) -> Seq<WallTile> {
    if sy < 3 || bottom_x != x {
        seq![spec_wall_tile(x - 1, sy, -226, 494, white())]
    } else {
        seq![
            spec_wall_tile(x, sy, -118, 498, white()),
            spec_wall_tile(x - 1, sy, -118, 501, white()),
        ]
    }
}

pub open spec fn top_walls(sx: int, sy: int, bottom_x: int, k: int) -> Seq<WallTile>
    decreases k,
{
    if k <= 0 {
        Seq::<WallTile>::empty()
    } else {
        top_walls(sx, sy, bottom_x, k - 1) + top_wall_step(sy, bottom_x, sx + (k - 1))
    }
}

/// One row of the tall back wall along the room's right edge.
pub open spec fn right_wall_step(dx: int, right_y: int, y: int) -> Seq<WallTile> {
    if dx > 30 || right_y != y {
        seq![spec_wall_tile(dx, y + 1, -226, 495, white())]
    } else {
        seq![
            spec_wall_tile(dx, y + 1, -118, 498, white()),
            spec_wall_tile(dx, y, -118, 501, white()),
        ]
    }
}

pub open spec fn right_walls(dx: int, sy: int, right_y: int, k: int) -> Seq<WallTile>
    decreases k,
{
    if k <= 0 {
        Seq::<WallTile>::empty()
    } else {
        right_walls(dx, sy, right_y, k - 1) + right_wall_step(dx, right_y, sy + (k - 1))
    }
}

/// One column of the short front wall along the room's bottom edge,
/// skipped where the top entrance's column passes through.
pub open spec fn bottom_wall_step(dy: int, top_x: int, x: int) -> Seq<WallTile> {
    if dy > 30 || top_x != x {
        seq![spec_wall_tile(x + 1, dy - 1, 100, 497, white())]
    } else {
        Seq::<WallTile>::empty()
    }
}

pub open spec fn bottom_walls(sx: int, dy: int, top_x: int, k: int) -> Seq<WallTile>
    decreases k,
{
    if k <= 0 {
        Seq::<WallTile>::empty()
    } else {
        bottom_walls(sx, dy, top_x, k - 1) + bottom_wall_step(dy, top_x, sx + (k - 1))
    }
}

/// One row of the short front wall along the room's left edge, skipped
/// where the left entrance sits.
pub open spec fn left_wall_step(sx: int, left_y: int, y: int) -> Seq<WallTile> {
    if sx < 3 || left_y != y {
        seq![spec_wall_tile(sx, y - 1, -6, 496, white())]
    } else {
        Seq::<WallTile>::empty()
    }
}

pub open spec fn left_walls(sx: int, sy: int, left_y: int, k: int) -> Seq<WallTile>
    decreases k,
{
    if k <= 0 {
        Seq::<WallTile>::empty()
    } else {
        left_walls(sx, sy, left_y, k - 1) + left_wall_step(sx, left_y, sy + (k - 1))
    }
}

/// All perimeter walls of the room from `(sx, sy)` to `(dx, dy)`: the
/// four edge runs followed by the two room corner pieces.
pub open spec fn room_walls(sx: int, sy: int, dx: int, dy: int, e: Entrances) -> Seq<WallTile> {
    top_walls(sx, sy, e.bottom.0 as int, dx - sx + 1) + right_walls(
        dx,
        sy,
        e.right.1 as int,
        dy - sy + 1,
    ) + bottom_walls(sx, dy, e.top.0 as int, dx - sx + 1) + left_walls(
        sx,
        sy,
        e.left.1 as int,
        dy - sy + 1,
    ) + seq![
        spec_wall_tile(sx, sy - 1, 98, 498, white()),
        spec_wall_tile(dx + 1, dy, 98, 501, white()),
    ]
}

/// Some floor record in `[lo, hi)` sits at cell `(xx, yy)`.
pub open spec fn has_floor_cell(
    s: Seq<crate::sink::FloorTile>,
    lo: int,
    hi: int,
    xx: int,
    yy: int,
) -> bool {
    exists|k: int| lo <= k < hi && (#[trigger] s[k]).x == xx && s[k].y == yy
}

/// Lays the room's floor rectangle: every cell gets one floor tile with
/// a randomly picked surface and the room floor colour.
fn place_room_floor(sink: &mut TileSink, rng: &mut RandomSource, sx: i32, sy: i32, dx: i32, dy: i32)
    requires
        annotate_range(sx as int) && annotate_range(sy as int),
        annotate_range(dx as int) && annotate_range(dy as int),
        sx <= dx && sy <= dy,
    ensures
        final(sink).floors@.len() == old(sink).floors@.len() + (dx - sx + 1) * (dy - sy + 1),
        final(sink).floors@.take(old(sink).floors@.len() as int) == old(sink).floors@,
        forall|k: int|
            old(sink).floors@.len() <= k < final(sink).floors@.len() ==> {
                let t = #[trigger] final(sink).floors@[k];
                &&& sx <= t.x <= dx
                &&& sy <= t.y <= dy
                &&& 51 <= t.tile_id <= 53
                &&& t.color == room_floor_color()
                &&& t.pos == (
                    crate::projection::spec_map_pos(t.x as int, t.y as int, 0).0 as i64,
                    crate::projection::spec_map_pos(t.x as int, t.y as int, 0).1 as i64,
                )
            },
        forall|xx: int, yy: int|
            sx <= xx <= dx && sy <= yy <= dy ==> #[trigger] has_floor_cell(
                final(sink).floors@,
                old(sink).floors@.len() as int,
                final(sink).floors@.len() as int,
                xx,
                yy,
            ),
        final(sink).walls@ == old(sink).walls@,
        final(sink).pickups@ == old(sink).pickups@,
        final(sink).transitions@ == old(sink).transitions@,
        final(sink).walkable@ == old(sink).walkable@,
{
    let ghost base = old(sink).floors@.len() as int;
    let w: i64 = dx as i64 - sx as i64 + 1;
    let mut y: i32 = sy;
    let ghost mut cnt: int = 0;
    while y <= dy
        invariant
            annotate_range(sx as int) && annotate_range(sy as int),
            annotate_range(dx as int) && annotate_range(dy as int),
            sx <= dx && sy <= dy,
            sy <= y <= dy + 1,
            w == dx - sx + 1,
            base == old(sink).floors@.len(),
            cnt == (y - sy) * w,
            sink.floors@.len() == base + cnt,
            sink.floors@.take(base) == old(sink).floors@,
            forall|k: int|
                base <= k < sink.floors@.len() ==> {
                    let t = #[trigger] sink.floors@[k];
                    &&& sx <= t.x <= dx
                    &&& sy <= t.y <= dy
                    &&& 51 <= t.tile_id <= 53
                    &&& t.color == room_floor_color()
                    &&& t.pos == (
                        crate::projection::spec_map_pos(t.x as int, t.y as int, 0).0 as i64,
                        crate::projection::spec_map_pos(t.x as int, t.y as int, 0).1 as i64,
                    )
                },
            forall|xx: int, yy: int|
                sx <= xx <= dx && sy <= yy < y ==> #[trigger] has_floor_cell(
                    sink.floors@,
                    base,
                    sink.floors@.len() as int,
                    xx,
                    yy,
                ),
            sink.walls@ == old(sink).walls@,
            sink.pickups@ == old(sink).pickups@,
            sink.transitions@ == old(sink).transitions@,
            sink.walkable@ == old(sink).walkable@,
        decreases dy - y + 1,
    {
        let mut x: i32 = sx;
        while x <= dx
            invariant
                annotate_range(sx as int) && annotate_range(sy as int),
                annotate_range(dx as int) && annotate_range(dy as int),
                sx <= dx && sy <= dy,
                sy <= y <= dy,
                sx <= x <= dx + 1,
                w == dx - sx + 1,
                base == old(sink).floors@.len(),
                cnt == (y - sy) * w + (x - sx),
                sink.floors@.len() == base + cnt,
                sink.floors@.take(base) == old(sink).floors@,
                forall|k: int|
                    base <= k < sink.floors@.len() ==> {
                        let t = #[trigger] sink.floors@[k];
                        &&& sx <= t.x <= dx
                        &&& sy <= t.y <= dy
                        &&& 51 <= t.tile_id <= 53
                        &&& t.color == room_floor_color()
                        &&& t.pos == (
                            crate::projection::spec_map_pos(t.x as int, t.y as int, 0).0 as i64,
                            crate::projection::spec_map_pos(t.x as int, t.y as int, 0).1 as i64,
                        )
                    },
                forall|xx: int, yy: int|
                    sx <= xx <= dx && sy <= yy < y ==> #[trigger] has_floor_cell(
                        sink.floors@,
                        base,
                        sink.floors@.len() as int,
                        xx,
                        yy,
                    ),
                forall|xx: int|
                    sx <= xx < x ==> #[trigger] has_floor_cell(
                        sink.floors@,
                        base,
                        sink.floors@.len() as int,
                        xx,
                        y as int,
                    ),
                sink.walls@ == old(sink).walls@,
                sink.pickups@ == old(sink).pickups@,
                sink.transitions@ == old(sink).transitions@,
                sink.walkable@ == old(sink).walkable@,
            decreases dx - x + 1,
        {
            let id_draw = rng.next_in_range(51, 54);
            let color = TileColor { r: 970, g: 920, b: 900, a: 1000 };
            let ghost fl0 = sink.floors@;
            place_floor_tile(sink, x, y, id_draw as usize, color);
            proof {
                cnt = cnt + 1;
                assert(sink.floors@.take(base) =~= old(sink).floors@);
                assert(sink.floors@.last().x == x && sink.floors@.last().y == y);
                assert(sink.floors@[sink.floors@.len() - 1].x == x);
                assert forall|xx: int, yy: int|
                    (sx <= xx <= dx && sy <= yy < y) || (sx <= xx <= x && yy == y) implies has_floor_cell(
                    sink.floors@,
                    base,
                    sink.floors@.len() as int,
                    xx,
                    yy,
                ) by {
                    if xx == x && yy == y {
                        assert(base <= sink.floors@.len() - 1 < sink.floors@.len());
                    } else {
                        let prev = sink.floors@.take(sink.floors@.len() - 1);
                        assert(prev =~= fl0);
                        assert(has_floor_cell(prev, base, prev.len() as int, xx, yy));
                        let k = choose|k: int|
                            base <= k < prev.len() && (#[trigger] prev[k]).x == xx && prev[k].y
                                == yy;
                        assert(sink.floors@[k] == prev[k]);
                    }
                }
            }
            x += 1;
        }
        proof {
            assert((y + 1 - sy) * w == (y - sy) * w + w) by (nonlinear_arith);
        }
        y += 1;
    }
    proof {
        assert((dy + 1 - sy) * w == (dy - sy + 1) * (dx - sx + 1)) by (nonlinear_arith)
            requires
                w == dx - sx + 1,
        ;
    }
}


/// Places the room's perimeter walls: tall back walls along the top and
/// right edges (with corner-piece substitution at entrances), short
/// front walls along the bottom and left edges (skipped at entrances),
/// and the two room corner pieces.
fn place_room_walls(sink: &mut TileSink, sx: i32, sy: i32, dx: i32, dy: i32, e: &Entrances)
    requires
        annotate_range(sx as int) && annotate_range(sy as int),
        annotate_range(dx as int) && annotate_range(dy as int),
        sx <= dx && sy <= dy,
    ensures
        final(sink).walls@ == old(sink).walls@ + room_walls(
            sx as int,
            sy as int,
            dx as int,
            dy as int,
            *e,
        ),
        final(sink).floors@ == old(sink).floors@,
        final(sink).pickups@ == old(sink).pickups@,
        final(sink).transitions@ == old(sink).transitions@,
        final(sink).walkable@ == old(sink).walkable@,
{
    let ghost w0 = old(sink).walls@;
    let wall_color = TileColor { r: 1000, g: 1000, b: 1000, a: 1000 };
    let ghost bx = e.bottom.0 as int;
    let ghost ry = e.right.1 as int;
    let ghost tx = e.top.0 as int;
    let ghost ly = e.left.1 as int;
    let w: i64 = dx as i64 - sx as i64 + 1;
    let h: i64 = dy as i64 - sy as i64 + 1;

    // tall back walls: top edge
    let mut k: i64 = 0;
    while k < w
        invariant
            annotate_range(sx as int) && annotate_range(sy as int),
            annotate_range(dx as int) && annotate_range(dy as int),
            sx <= dx && sy <= dy,
            w == dx - sx + 1,
            0 <= k <= w,
            bx == e.bottom.0,
            wall_color == white(),
            sink.walls@ == w0 + top_walls(sx as int, sy as int, bx, k as int),
            sink.floors@ == old(sink).floors@,
            sink.pickups@ == old(sink).pickups@,
            sink.transitions@ == old(sink).transitions@,
            sink.walkable@ == old(sink).walkable@,
        decreases w - k,
    {
        let x: i32 = sx + k as i32;
        if sy < 3 || e.bottom.0 != x {
            place_wall_tile(sink, x - 1, sy, -226, 494, wall_color);
            proof {
                assert(sink.walls@ =~= w0 + top_walls(sx as int, sy as int, bx, k as int + 1));
            }
        } else {
            // the walls need end pieces at the entrance gap
            place_wall_tile(sink, x, sy, -118, 498, wall_color);
            place_wall_tile(sink, x - 1, sy, -118, 501, wall_color);
            proof {
                assert(sink.walls@ =~= w0 + top_walls(sx as int, sy as int, bx, k as int + 1));
            }
        }
        k += 1;
    }
    let ghost wtop = w0 + top_walls(sx as int, sy as int, bx, w as int);

    // tall back walls: right edge
    let mut k2: i64 = 0;
    while k2 < h
        invariant
            annotate_range(sx as int) && annotate_range(sy as int),
            annotate_range(dx as int) && annotate_range(dy as int),
            sx <= dx && sy <= dy,
            h == dy - sy + 1,
            0 <= k2 <= h,
            ry == e.right.1,
            wall_color == white(),
            sink.walls@ == wtop + right_walls(dx as int, sy as int, ry, k2 as int),
            sink.floors@ == old(sink).floors@,
            sink.pickups@ == old(sink).pickups@,
            sink.transitions@ == old(sink).transitions@,
            sink.walkable@ == old(sink).walkable@,
        decreases h - k2,
    {
        let y: i32 = sy + k2 as i32;
        if dx > 30 || e.right.1 != y {
            place_wall_tile(sink, dx, y + 1, -226, 495, wall_color);
            proof {
                assert(sink.walls@ =~= wtop + right_walls(dx as int, sy as int, ry, k2 as int + 1));
            }
        } else {
            place_wall_tile(sink, dx, y + 1, -118, 498, wall_color);
            place_wall_tile(sink, dx, y, -118, 501, wall_color);
            proof {
                assert(sink.walls@ =~= wtop + right_walls(dx as int, sy as int, ry, k2 as int + 1));
            }
        }
        k2 += 1;
    }
    let ghost wright = wtop + right_walls(dx as int, sy as int, ry, h as int);

    // short front walls: bottom edge
    let mut k3: i64 = 0;
    while k3 < w
        invariant
            annotate_range(sx as int) && annotate_range(sy as int),
            annotate_range(dx as int) && annotate_range(dy as int),
            sx <= dx && sy <= dy,
            w == dx - sx + 1,
            0 <= k3 <= w,
            tx == e.top.0,
            wall_color == white(),
            sink.walls@ == wright + bottom_walls(sx as int, dy as int, tx, k3 as int),
            sink.floors@ == old(sink).floors@,
            sink.pickups@ == old(sink).pickups@,
            sink.transitions@ == old(sink).transitions@,
            sink.walkable@ == old(sink).walkable@,
        decreases w - k3,
    {
        let x: i32 = sx + k3 as i32;
        if dy > 30 || e.top.0 != x {
            place_wall_tile(sink, x + 1, dy - 1, 100, 497, wall_color);
            proof {
                assert(sink.walls@ =~= wright + bottom_walls(
                    sx as int,
                    dy as int,
                    tx,
                    k3 as int + 1,
                ));
            }
        } else {
            proof {
                assert(sink.walls@ =~= wright + bottom_walls(
                    sx as int,
                    dy as int,
                    tx,
                    k3 as int + 1,
                ));
            }
        }
        k3 += 1;
    }
    let ghost wbottom = wright + bottom_walls(sx as int, dy as int, tx, w as int);

    // short front walls: left edge
    let mut k4: i64 = 0;
    while k4 < h
        invariant
            annotate_range(sx as int) && annotate_range(sy as int),
            annotate_range(dx as int) && annotate_range(dy as int),
            sx <= dx && sy <= dy,
            h == dy - sy + 1,
            0 <= k4 <= h,
            ly == e.left.1,
            wall_color == white(),
            sink.walls@ == wbottom + left_walls(sx as int, sy as int, ly, k4 as int),
            sink.floors@ == old(sink).floors@,
            sink.pickups@ == old(sink).pickups@,
            sink.transitions@ == old(sink).transitions@,
            sink.walkable@ == old(sink).walkable@,
        decreases h - k4,
    {
        let y: i32 = sy + k4 as i32;
        if sx < 3 || e.left.1 != y {
            place_wall_tile(sink, sx, y - 1, -6, 496, wall_color);
            proof {
                assert(sink.walls@ =~= wbottom + left_walls(
                    sx as int,
                    sy as int,
                    ly,
                    k4 as int + 1,
                ));
            }
        } else {
            proof {
                assert(sink.walls@ =~= wbottom + left_walls(
                    sx as int,
                    sy as int,
                    ly,
                    k4 as int + 1,
                ));
            }
        }
        k4 += 1;
    }

    // room corner pieces
    place_wall_tile(sink, sx, sy - 1, 98, 498, wall_color);
    place_wall_tile(sink, dx + 1, dy, 98, 501, wall_color);
    proof {
        assert(sink.walls@ =~= old(sink).walls@ + room_walls(
            sx as int,
            sy as int,
            dx as int,
            dy as int,
            *e,
        ));
    }
}

/// Builds one room: its floor rectangle, its perimeter walls with
/// entrance gaps, and its walkable footprint.
pub fn build_room(
    sink: &mut TileSink,
    rng: &mut RandomSource,
    sx: i32,
    sy: i32,
    dx: i32,
    dy: i32,
    entrances: &Entrances,
)
    requires
        annotate_range(sx as int) && annotate_range(sy as int),
        annotate_range(dx as int) && annotate_range(dy as int),
        sx <= dx && sy <= dy,
    ensures
        final(sink).floors@.len() == old(sink).floors@.len() + (dx - sx + 1) * (dy - sy + 1),
        final(sink).floors@.take(old(sink).floors@.len() as int) == old(sink).floors@,
        forall|k: int|
            old(sink).floors@.len() <= k < final(sink).floors@.len() ==> {
                let t = #[trigger] final(sink).floors@[k];
                &&& sx <= t.x <= dx
                &&& sy <= t.y <= dy
                &&& 51 <= t.tile_id <= 53
                &&& t.color == room_floor_color()
                &&& t.pos == (
                    crate::projection::spec_map_pos(t.x as int, t.y as int, 0).0 as i64,
                    crate::projection::spec_map_pos(t.x as int, t.y as int, 0).1 as i64,
                )
            },
        forall|xx: int, yy: int|
            sx <= xx <= dx && sy <= yy <= dy ==> #[trigger] has_floor_cell(
                final(sink).floors@,
                old(sink).floors@.len() as int,
                final(sink).floors@.len() as int,
                xx,
                yy,
            ),
        final(sink).walls@ == old(sink).walls@ + room_walls(
            sx as int,
            sy as int,
            dx as int,
            dy as int,
            *entrances,
        ),
        final(sink).walkable@.len() == old(sink).walkable@.len() + 1,
        final(sink).walkable@.take(old(sink).walkable@.len() as int) == old(sink).walkable@,
        final(sink).walkable@.last()@ == area_quad(sx as int, sy as int, dx as int, dy as int),
        final(sink).walkable@.last().wf(),
        final(sink).pickups@ == old(sink).pickups@,
        final(sink).transitions@ == old(sink).transitions@,
{
    place_room_floor(sink, rng, sx, sy, dx, dy);
    place_room_walls(sink, sx, sy, dx, dy, entrances);
    store_walkable_area(sx, sy, dx, dy, &mut sink.walkable);
}

} // verus!
