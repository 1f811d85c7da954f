//! The dungeon generator: a 4x4 grid of jittered rooms, winding
//! corridors between neighbouring rooms, wall synthesis, walkable-area
//! compaction, and a little decoration.

use vstd::prelude::*;

use crate::corridor::COORD_LIMIT;
use crate::corridor::build_straight_corridor;
use crate::corridor::build_winded_corridor;
use crate::corridor::carved_corridor;
use crate::corridor::corridor_env;
use crate::corridor::iabs;
use crate::corridor::imax;
use crate::corridor::straight_seq;
use crate::corridor::within_env;
use crate::floor_set::FloorCoordinateSet;
use crate::floor_set::adjacent;
use crate::floor_set::lemma_bounded_tiles_len;
use crate::floor_set::no_islands;
use crate::floor_set::tile_connected;
use crate::rng::RandomSource;
use crate::room::Entrances;
use crate::room::Room;
use crate::room::build_room;
use crate::sink::TileSink;
use crate::walkable::WalkablePolygon;
use crate::walkable::polys_wf;
use crate::walkable::total_len;
use crate::walls::build_corridor_from_coordinates;
use crate::walls::build_tunnel_from_coordinates;
use crate::projection::map_pos;
use crate::projection::spec_map_pos;
use crate::sink::PickupRecord;
use crate::sink::TileColor;
use crate::sink::TransitionRecord;
use crate::sink::place_wall_tile;
use crate::sink::spec_wall_tile;
use crate::sink::white;
use crate::walkable::converged;
use crate::walkable::merge_polygons;

verus! {

/// The largest coordinate magnitude of any tile laid by one corridor
/// carving between two room entrances.
pub const CARVE_TILE_BOUND: i32 = 150;

/// Entrance coordinates handed to the corridor carvers stay small.
pub open spec fn entrance_range(c: int) -> bool {
    -50 <= c <= 50
}

/// A corridor carved between two stub tiles leaves no isolated tile:
/// every tile of the final set has a 4-neighbour in it, all tiles stay
/// inside the carve bound, and the tile count is bounded by the square
/// of tiles the bound admits.
/// The one- or two-tile stub prefix a corridor carving starts from.
pub open spec fn stub_prefix(st1: (i32, i32), st2: (i32, i32)) -> Seq<(i32, i32)> {
    if st1 == st2 {
        seq![st1]
    } else {
        seq![st1, st2]
    }
}

/// What one corridor carving between two rooms leaves in a fresh floor
/// set: the first stub tile leads the sequence, the second stub tile
/// and both winding endpoints are present, no tile is an island, every
/// tile is a stub tile or lies under the carving bound `env`, the
/// carved connection is rooted at the one- or two-tile stub prefix, and
/// the tile count is within what the carve box admits.
pub open spec fn carved_between(
    f: Seq<(i32, i32)>,
    st1: (i32, i32),
    st2: (i32, i32),
    s: (i32, i32),
    d: (i32, i32),
    env: int,
) -> bool {
    &&& 2 <= f.len() <= 90601
    &&& f[0] == st1
    &&& f.contains(st2)
    &&& f.contains(s)
    &&& f.contains(d)
    &&& no_islands(f)
    &&& carved_corridor(stub_prefix(st1, st2), f, env, s, d)
    &&& forall|i: int|
        0 <= i < f.len() ==> f[i] == st1 || f[i] == st2 || within_env(#[trigger] f[i], env)
    &&& forall|i: int|
        0 <= i < f.len() ==> {
            let p = #[trigger] f[i];
            -CARVE_TILE_BOUND <= p.0 <= CARVE_TILE_BOUND && -CARVE_TILE_BOUND <= p.1
                <= CARVE_TILE_BOUND
        }
}

proof fn lemma_carved_no_islands(
    f2: Seq<(i32, i32)>,
    f3: Seq<(i32, i32)>,
    env: int,
    st1: (i32, i32),
    st2: (i32, i32),
    s: (i32, i32),
    d: (i32, i32),
)
    requires
        carved_corridor(f2, f3, env, s, d),
        forall|i: int| 0 <= i < f2.len() ==> f2[i] == st1 || f2[i] == st2,
        f2.contains(st1),
        adjacent(st1, s) && adjacent(s, st1) && st1 != s,
        adjacent(st2, d) && adjacent(d, st2) && st2 != d,
    ensures
        no_islands(f3),
        f3.len() >= 2,
{
    crate::corridor::lemma_prefix_contains(f2, f3, st1);
    assert(f3.contains(s) && f3.contains(d));
    assert forall|p: (i32, i32)| f3.contains(p) implies tile_connected(f3, p) by {
        if p == st1 {
            assert(s != p && adjacent(p, s));
        } else if p == st2 {
            assert(d != p && adjacent(p, d));
        } else if !f2.contains(p) {
            if s == d && p == s {
                assert(st1 != p && adjacent(p, st1));
                assert(f3.contains(st1));
            }
        }
    }
    assert(no_islands(f3));
    assert(f3.len() >= 2) by {
        assert(f3.contains(st1) && f3.contains(s));
        let k1 = choose|k: int| 0 <= k < f3.len() && f3[k] == st1;
        let k2 = choose|k: int| 0 <= k < f3.len() && f3[k] == s;
    }
}

proof fn lemma_carved_bounds(
    f2: Seq<(i32, i32)>,
    f3: Seq<(i32, i32)>,
    env: int,
    st1: (i32, i32),
    st2: (i32, i32),
    s: (i32, i32),
    d: (i32, i32),
)
    requires
        carved_corridor(f2, f3, env, s, d),
        forall|i: int| 0 <= i < f2.len() ==> f2[i] == st1 || f2[i] == st2,
        env <= 1200,
        -CARVE_TILE_BOUND <= st1.0 <= CARVE_TILE_BOUND,
        -CARVE_TILE_BOUND <= st1.1 <= CARVE_TILE_BOUND,
        -CARVE_TILE_BOUND <= st2.0 <= CARVE_TILE_BOUND,
        -CARVE_TILE_BOUND <= st2.1 <= CARVE_TILE_BOUND,
        f3.no_duplicates(),
    ensures
        forall|i: int|
            0 <= i < f3.len() ==> {
                let p = #[trigger] f3[i];
                -CARVE_TILE_BOUND <= p.0 <= CARVE_TILE_BOUND && -CARVE_TILE_BOUND <= p.1
                    <= CARVE_TILE_BOUND
            },
        f3.len() <= 90601,
{
    assert forall|i: int| 0 <= i < f3.len() implies {
        let p = #[trigger] f3[i];
        -CARVE_TILE_BOUND <= p.0 <= CARVE_TILE_BOUND && -CARVE_TILE_BOUND <= p.1
            <= CARVE_TILE_BOUND
    } by {
        let p = f3[i];
        assert(f3.contains(p));
        if !f2.contains(p) {
            assert(within_env(p, env));
        }
    }
    lemma_bounded_tiles_len(f3, CARVE_TILE_BOUND as int);
    assert(2 * (CARVE_TILE_BOUND as int) + 1 == 301);
    assert(301 * 301 == 90601);
}

/// Lays the two one-tile starting stubs of a corridor, one out of each
/// room, into a fresh floor set.
fn lay_corridor_stubs(
    floors: &mut FloorCoordinateSet,
    ax: i32,
    ay: i32,
    aex: i32,
    aey: i32,
    bx2: i32,
    by2: i32,
    bex: i32,
    bey: i32,
)
    requires
        old(floors).wf(),
        old(floors)@.len() == 0,
        crate::corridor::in_coord_range(ax as int) && crate::corridor::in_coord_range(ay as int),
        crate::corridor::in_coord_range(aex as int) && crate::corridor::in_coord_range(
            aey as int,
        ),
        crate::corridor::in_coord_range(bx2 as int) && crate::corridor::in_coord_range(
            by2 as int,
        ),
        crate::corridor::in_coord_range(bex as int) && crate::corridor::in_coord_range(
            bey as int,
        ),
        ax == aex || ay == aey,
        bx2 == bex || by2 == bey,
        imax(iabs(aex as int - ax as int), iabs(aey as int - ay as int)) == 1,
        imax(iabs(bex as int - bx2 as int), iabs(bey as int - by2 as int)) == 1,
    ensures
        final(floors).wf(),
        final(floors)@ == stub_prefix((ax, ay), (bx2, by2)),
{
    build_straight_corridor(floors, ax, ay, aex, aey, false);
    let ghost f1 = floors@;
    proof {
        let sq1 = straight_seq(ax as int, ay as int, aex as int, aey as int, false);
        assert(sq1.len() == 1);
        assert(sq1[0] == (ax, ay)) by {
            assert(crate::corridor::straight_tile(
                ax as int,
                ay as int,
                aex as int,
                aey as int,
                0,
            ) == (ax, ay)) by {
                assert(ax as int + 0 * crate::corridor::isign(aex as int - ax as int)
                    == ax as int);
                assert(ay as int + 0 * crate::corridor::isign(aey as int - ay as int)
                    == ay as int);
            }
        }
        assert(f1 == sq1);
        assert(f1.contains(f1[0]));
    }
    build_straight_corridor(floors, bx2, by2, bex, bey, false);
    proof {
        let f2 = floors@;
        let sq2 = straight_seq(bx2 as int, by2 as int, bex as int, bey as int, false);
        assert(sq2.len() == 1);
        assert(sq2[0] == (bx2, by2)) by {
            assert(crate::corridor::straight_tile(
                bx2 as int,
                by2 as int,
                bex as int,
                bey as int,
                0,
            ) == (bx2, by2)) by {
                assert(bx2 as int + 0 * crate::corridor::isign(bex as int - bx2 as int)
                    == bx2 as int);
                assert(by2 as int + 0 * crate::corridor::isign(bey as int - by2 as int)
                    == by2 as int);
            }
        }
        assert(sq2.contains(sq2[0]));
        assert(f2.contains((bx2, by2)));
        assert(f2.contains((ax, ay))) by {
            crate::corridor::lemma_prefix_contains(f1, f2, (ax, ay));
        }
        // every tile is one of the two stubs
        assert forall|i: int| 0 <= i < f2.len() implies f2[i] == (ax, ay) || f2[i] == (
        bx2,
        by2,
        ) by {
            let e = f2[i];
            assert(f2.contains(e));
            if f1.contains(e) {
                assert(e == f1[0]);
            } else {
                assert(sq2.contains(e));
                let w = choose|w: int| 0 <= w < sq2.len() && #[trigger] sq2[w] == e;
            }
        }
        assert(f2.no_duplicates());
        if (ax, ay) == (bx2, by2) {
            // a coinciding second stub is a no-op insert
            assert(f2.len() == 1) by {
                if f2.len() > 1 {
                    assert(f2[0] == (ax, ay) && f2[1] == (ax, ay));
                }
            }
            assert(f2 =~= stub_prefix((ax, ay), (bx2, by2)));
        } else {
            assert(f2.len() <= 2) by {
                if f2.len() > 2 {
                    assert(f2[0] == f2[1] || f2[0] == f2[2] || f2[1] == f2[2]);
                }
            }
            let w = choose|w: int| 0 <= w < f2.len() && #[trigger] f2[w] == (bx2, by2);
            assert(w == 1);
            assert(f2.len() == 2);
            assert(f2 =~= stub_prefix((ax, ay), (bx2, by2)));
        }
    }
}

/// Packages everything a finished carving call promises: no islands,
/// bounded and counted tiles, and the carved connection rooted at the
/// stub prefix.
#[verifier::rlimit(100)]
proof fn lemma_carve_wrapup(
    f2: Seq<(i32, i32)>,
    f3: Seq<(i32, i32)>,
    env: int,
    st1: (i32, i32),
    st2: (i32, i32),
    s: (i32, i32),
    d: (i32, i32),
)
    requires
        carved_corridor(f2, f3, env, s, d),
        f2 == stub_prefix(st1, st2),
        adjacent(st1, s) && adjacent(s, st1) && st1 != s,
        adjacent(st2, d) && adjacent(d, st2) && st2 != d,
        env <= 1200,
        -CARVE_TILE_BOUND <= st1.0 <= CARVE_TILE_BOUND,
        -CARVE_TILE_BOUND <= st1.1 <= CARVE_TILE_BOUND,
        -CARVE_TILE_BOUND <= st2.0 <= CARVE_TILE_BOUND,
        -CARVE_TILE_BOUND <= st2.1 <= CARVE_TILE_BOUND,
        f3.no_duplicates(),
    ensures
        carved_between(f3, st1, st2, s, d, env),
{
    assert(f2.contains(st1) && f2.contains(st2)) by {
        assert(f2[0] == st1);
        if st1 != st2 {
            assert(f2[1] == st2);
        }
    }
    assert(forall|i: int| 0 <= i < f2.len() ==> f2[i] == st1 || f2[i] == st2);
    lemma_carved_no_islands(f2, f3, env, st1, st2, s, d);
    lemma_carved_bounds(f2, f3, env, st1, st2, s, d);
    crate::corridor::lemma_prefix_contains(f2, f3, st2);
    assert(f3[0] == f2[0]);
    assert forall|i: int|
        0 <= i < f3.len() implies f3[i] == st1 || f3[i] == st2 || within_env(
        #[trigger] f3[i],
        env,
    ) by {
        let p = f3[i];
        assert(f3.contains(p));
        if !f2.contains(p) {
            assert(within_env(p, env));
        }
    }
}

pub fn carve_down_corridor(
    floors: &mut FloorCoordinateSet,
    rng: &mut RandomSource,
    bx: i32,
    by: i32,
    tx: i32,
    ty: i32,
)
    requires
        old(floors).wf(),
        old(floors)@.len() == 0,
        entrance_range(bx as int) && entrance_range(by as int),
        entrance_range(tx as int) && entrance_range(ty as int),
        iabs(bx as int - tx as int) <= 24,
        iabs(by as int - ty as int) <= 24,
    ensures
        final(floors).wf(),
        carved_between(
            final(floors)@,
            (bx, (by + 1) as i32),
            (tx, (ty - 1) as i32),
            (bx, (by + 2) as i32),
            (tx, (ty - 2) as i32),
            corridor_env(bx as int, by as int + 2, tx as int, ty as int - 2),
        ),
{
    // straight starting stubs out of both rooms
    lay_corridor_stubs(floors, bx, by + 1, bx, by + 2, tx, ty - 1, tx, ty - 2);
    let ghost f2 = floors@;

    // now the windy connection
    let wriggle_prob = rng.next_in_range(100000, 1000000);
    let ghost env = corridor_env(bx as int, by as int + 2, tx as int, ty as int - 2);
    proof {
        assert(env <= 1200) by {
            let span = imax(iabs(tx as int - bx as int), iabs((ty as int - 2) - (by as int + 2)));
            assert(span * span <= 784) by (nonlinear_arith)
                requires
                    0 <= span <= 28,
            ;
        }
    }
    build_winded_corridor(floors, rng, bx, by + 2, tx, ty - 2, wriggle_prob);
    proof {
        let st1 = (bx, (by + 1) as i32);
        let st2 = (tx, (ty - 1) as i32);
        let sw = (bx, (by + 2) as i32);
        let dw = (tx, (ty - 2) as i32);
        assert(adjacent(st1, sw) && adjacent(sw, st1) && st1 != sw);
        assert(adjacent(st2, dw) && adjacent(dw, st2) && st2 != dw);
        assert(floors@.no_duplicates());
        lemma_carve_wrapup(f2, floors@, env, st1, st2, sw, dw);
    }
}

pub fn carve_right_corridor(
    floors: &mut FloorCoordinateSet,
    rng: &mut RandomSource,
    rx: i32,
    ry: i32,
    lx: i32,
    ly: i32,
)
    requires
        old(floors).wf(),
        old(floors)@.len() == 0,
        entrance_range(rx as int) && entrance_range(ry as int),
        entrance_range(lx as int) && entrance_range(ly as int),
        iabs(rx as int - lx as int) <= 24,
        iabs(ry as int - ly as int) <= 24,
    ensures
        final(floors).wf(),
        carved_between(
            final(floors)@,
            ((rx + 1) as i32, ry),
            ((lx - 1) as i32, ly),
            ((rx + 2) as i32, ry),
            ((lx - 2) as i32, ly),
            corridor_env(rx as int + 2, ry as int, lx as int - 2, ly as int),
        ),
{
    // straight starting stubs out of both rooms
    lay_corridor_stubs(floors, rx + 1, ry, rx + 2, ry, lx - 1, ly, lx - 2, ly);
    let ghost f2 = floors@;

    let wriggle_prob = rng.next_in_range(100000, 1000000);
    let ghost env = corridor_env(rx as int + 2, ry as int, lx as int - 2, ly as int);
    proof {
        assert(env <= 1200) by {
            let span = imax(iabs((lx as int - 2) - (rx as int + 2)), iabs(ly as int - ry as int));
            assert(span * span <= 784) by (nonlinear_arith)
                requires
                    0 <= span <= 28,
            ;
        }
    }
    build_winded_corridor(floors, rng, rx + 2, ry, lx - 2, ly, wriggle_prob);
    proof {
        let st1 = ((rx + 1) as i32, ry);
        let st2 = ((lx - 1) as i32, ly);
        let sw = ((rx + 2) as i32, ry);
        let dw = ((lx - 2) as i32, ly);
        assert(adjacent(st1, sw) && adjacent(sw, st1) && st1 != sw);
        assert(adjacent(st2, dw) && adjacent(dw, st2) && st2 != dw);
        assert(floors@.no_duplicates());
        lemma_carve_wrapup(f2, floors@, env, st1, st2, sw, dw);
    }
}

/// Index of grid cell `(rx, ry)` in the row-major room order.
pub open spec fn slot_idx(rx: int, ry: int) -> int {
    ry * 4 + rx
}

/// Where in its grid cell a room's rectangle may lie after jitter: the
/// centre is drawn within three tiles of the cell origin and each edge
/// one or two tiles out from the centre.
pub open spec fn room_in_cell(r: Room, cx: int, cy: int) -> bool {
    &&& r.x1 < r.x2 && r.y1 < r.y2
    &&& cx * 13 - 5 <= r.x1 <= cx * 13 + 1
    &&& cx * 13 - 2 <= r.x2 <= cx * 13 + 4
    &&& cy * 13 - 5 <= r.y1 <= cy * 13 + 1
    &&& cy * 13 - 2 <= r.y2 <= cy * 13 + 4
    &&& 2 <= r.x2 - r.x1 <= 4
    &&& 2 <= r.y2 - r.y1 <= 4
}

/// Where a room's entrance points may lie after jitter.
pub open spec fn entrances_in_cell(e: Entrances, cx: int, cy: int) -> bool {
    &&& cx * 13 - 3 <= e.top.0 <= cx * 13 + 2
    &&& e.bottom.0 == e.top.0
    &&& cy * 13 - 3 <= e.right.1 <= cy * 13 + 2
    &&& e.left.1 == e.right.1
    &&& cy * 13 - 5 <= e.top.1 <= cy * 13 + 1
    &&& cy * 13 - 2 <= e.bottom.1 <= cy * 13 + 4
    &&& cx * 13 - 2 <= e.right.0 <= cx * 13 + 4
    &&& cx * 13 - 5 <= e.left.0 <= cx * 13 + 1
}

/// The floor record sits inside the room's rectangle.
pub open spec fn in_room(t: crate::sink::FloorTile, r: Room) -> bool {
    r.x1 <= t.x <= r.x2 && r.y1 <= t.y <= r.y2
}

/// Every cell of the room's rectangle has a floor record in `[lo, hi)`.
pub open spec fn room_cells_floored(
    s: Seq<crate::sink::FloorTile>,
    lo: int,
    hi: int,
    r: Room,
) -> bool {
    forall|xx: int, yy: int|
        r.x1 <= xx <= r.x2 && r.y1 <= yy <= r.y2 ==> #[trigger] crate::room::has_floor_cell(
            s,
            lo,
            hi,
            xx,
            yy,
        )
}

/// The perimeter walls the first `k` rooms place, in order.
pub open spec fn rooms_walls_concat(rs: Seq<Room>, es: Seq<Entrances>, k: int) -> Seq<
    crate::sink::WallTile,
>
    decreases k,
{
    if k <= 0 {
        Seq::<crate::sink::WallTile>::empty()
    } else {
        rooms_walls_concat(rs, es, k - 1) + crate::room::room_walls(
            rs[k - 1].x1 as int,
            rs[k - 1].y1 as int,
            rs[k - 1].x2 as int,
            rs[k - 1].y2 as int,
            es[k - 1],
        )
    }
}

/// The room walls depend only on the first `k` rooms and entrance sets.
proof fn lemma_rooms_walls_prefix(
    rs1: Seq<Room>,
    es1: Seq<Entrances>,
    rs2: Seq<Room>,
    es2: Seq<Entrances>,
    k: int,
)
    requires
        0 <= k <= rs1.len(),
        k <= rs2.len(),
        k <= es1.len(),
        k <= es2.len(),
        forall|i: int| 0 <= i < k ==> rs1[i] == rs2[i],
        forall|i: int| 0 <= i < k ==> es1[i] == es2[i],
    ensures
        rooms_walls_concat(rs1, es1, k) == rooms_walls_concat(rs2, es2, k),
    decreases k,
{
    if k > 0 {
        lemma_rooms_walls_prefix(rs1, es1, rs2, es2, k - 1);
    }
}

/// Lays out the 4x4 grid of jittered rooms in row-major order, builds
/// each room into the sink, and records the entrance points.
/// One room's records extend the accumulated room records: prefix kept,
/// every new floor tile belongs to the new room, every room so far is
/// fully floored, and the wall log grows by exactly this room's walls.
#[verifier::rlimit(100)]
proof fn lemma_room_records_step(
    fl0: Seq<crate::sink::FloorTile>,
    fl1: Seq<crate::sink::FloorTile>,
    wl0: Seq<crate::sink::WallTile>,
    wl1: Seq<crate::sink::WallTile>,
    rooms0: Seq<Room>,
    rooms1: Seq<Room>,
    es0: Seq<Entrances>,
    es1: Seq<Entrances>,
    base_f: Seq<crate::sink::FloorTile>,
    base_w: Seq<crate::sink::WallTile>,
    room: Room,
    e: Entrances,
)
    requires
        rooms1 == rooms0.push(room),
        es1 == es0.push(e),
        rooms0.len() == es0.len(),
        fl0.len() >= base_f.len(),
        fl0.take(base_f.len() as int) == base_f,
        forall|k: int|
            base_f.len() <= k < fl0.len() ==> {
                let t = #[trigger] fl0[k];
                &&& 51 <= t.tile_id <= 53
                &&& t.color == crate::sink::room_floor_color()
                &&& t.pos == (
                    spec_map_pos(t.x as int, t.y as int, 0).0 as i64,
                    spec_map_pos(t.x as int, t.y as int, 0).1 as i64,
                )
                &&& exists|j: int| 0 <= j < rooms0.len() && #[trigger] in_room(t, rooms0[j])
            },
        forall|j: int|
            0 <= j < rooms0.len() ==> room_cells_floored(
                fl0,
                base_f.len() as int,
                fl0.len() as int,
                #[trigger] rooms0[j],
            ),
        wl0 == base_w + rooms_walls_concat(rooms0, es0, rooms0.len() as int),
        fl1.len() >= fl0.len(),
        fl1.take(fl0.len() as int) == fl0,
        forall|k: int|
            fl0.len() <= k < fl1.len() ==> {
                let t = #[trigger] fl1[k];
                &&& room.x1 <= t.x <= room.x2
                &&& room.y1 <= t.y <= room.y2
                &&& 51 <= t.tile_id <= 53
                &&& t.color == crate::sink::room_floor_color()
                &&& t.pos == (
                    spec_map_pos(t.x as int, t.y as int, 0).0 as i64,
                    spec_map_pos(t.x as int, t.y as int, 0).1 as i64,
                )
            },
        forall|xx: int, yy: int|
            room.x1 <= xx <= room.x2 && room.y1 <= yy <= room.y2 ==> #[trigger] crate::room::has_floor_cell(
                fl1,
                fl0.len() as int,
                fl1.len() as int,
                xx,
                yy,
            ),
        wl1 == wl0 + crate::room::room_walls(
            room.x1 as int,
            room.y1 as int,
            room.x2 as int,
            room.y2 as int,
            e,
        ),
    ensures
        fl1.len() >= base_f.len(),
        fl1.take(base_f.len() as int) == base_f,
        forall|k: int|
            base_f.len() <= k < fl1.len() ==> {
                let t = #[trigger] fl1[k];
                &&& 51 <= t.tile_id <= 53
                &&& t.color == crate::sink::room_floor_color()
                &&& t.pos == (
                    spec_map_pos(t.x as int, t.y as int, 0).0 as i64,
                    spec_map_pos(t.x as int, t.y as int, 0).1 as i64,
                )
                &&& exists|j: int| 0 <= j < rooms1.len() && #[trigger] in_room(t, rooms1[j])
            },
        forall|j: int|
            0 <= j < rooms1.len() ==> room_cells_floored(
                fl1,
                base_f.len() as int,
                fl1.len() as int,
                #[trigger] rooms1[j],
            ),
        wl1 == base_w + rooms_walls_concat(rooms1, es1, rooms1.len() as int),
{
    assert(fl1.take(base_f.len() as int) =~= base_f) by {
        assert(fl1.take(fl0.len() as int).take(base_f.len() as int) =~= fl1.take(
            base_f.len() as int,
        ));
    }
    assert(forall|k: int| 0 <= k < fl0.len() ==> fl1[k] == #[trigger] fl0[k]) by {
        assert(forall|k: int|
            0 <= k < fl0.len() ==> fl1.take(fl0.len() as int)[k] == #[trigger] fl1[k]);
    }
    assert forall|k: int| base_f.len() <= k < fl1.len() implies {
        let t = #[trigger] fl1[k];
        &&& 51 <= t.tile_id <= 53
        &&& t.color == crate::sink::room_floor_color()
        &&& t.pos == (
            spec_map_pos(t.x as int, t.y as int, 0).0 as i64,
            spec_map_pos(t.x as int, t.y as int, 0).1 as i64,
        )
        &&& exists|j: int| 0 <= j < rooms1.len() && #[trigger] in_room(t, rooms1[j])
    } by {
        let t = fl1[k];
        if k < fl0.len() {
            assert(t == fl0[k]);
            let j = choose|j: int| 0 <= j < rooms0.len() && #[trigger] in_room(fl0[k], rooms0[j]);
            assert(rooms1[j] == rooms0[j]);
            assert(in_room(t, rooms1[j]));
        } else {
            let j = rooms1.len() - 1;
            assert(rooms1[j] == room);
            assert(in_room(t, rooms1[j]));
        }
    }
    assert forall|j: int| 0 <= j < rooms1.len() implies room_cells_floored(
        fl1,
        base_f.len() as int,
        fl1.len() as int,
        #[trigger] rooms1[j],
    ) by {
        let r = rooms1[j];
        assert forall|xx: int, yy: int|
            r.x1 <= xx <= r.x2 && r.y1 <= yy <= r.y2 implies #[trigger] crate::room::has_floor_cell(
            fl1,
            base_f.len() as int,
            fl1.len() as int,
            xx,
            yy,
        ) by {
            if j < rooms0.len() {
                assert(rooms1[j] == rooms0[j]);
                assert(room_cells_floored(fl0, base_f.len() as int, fl0.len() as int, rooms0[j]));
                assert(crate::room::has_floor_cell(
                    fl0,
                    base_f.len() as int,
                    fl0.len() as int,
                    xx,
                    yy,
                ));
                let w = choose|w: int|
                    base_f.len() <= w < fl0.len() && (#[trigger] fl0[w]).x == xx && fl0[w].y
                        == yy;
                assert(fl1[w] == fl0[w]);
            } else {
                assert(rooms1[j] == room);
                assert(crate::room::has_floor_cell(
                    fl1,
                    fl0.len() as int,
                    fl1.len() as int,
                    xx,
                    yy,
                ));
                let w = choose|w: int|
                    fl0.len() <= w < fl1.len() && (#[trigger] fl1[w]).x == xx && fl1[w].y == yy;
            }
        }
    }
    assert(rooms_walls_concat(rooms1, es1, rooms1.len() as int) == rooms_walls_concat(
        rooms0,
        es0,
        rooms0.len() as int,
    ) + crate::room::room_walls(
        room.x1 as int,
        room.y1 as int,
        room.x2 as int,
        room.y2 as int,
        e,
    )) by {
        lemma_rooms_walls_prefix(rooms1, es1, rooms0, es0, rooms0.len() as int);
        assert(rooms1[rooms1.len() - 1] == room && es1[rooms1.len() - 1] == e);
    }
}

#[verifier::spinoff_prover]
#[verifier::rlimit(100)]
fn build_rooms(sink: &mut TileSink, rng: &mut RandomSource) -> (r: (Vec<Room>, Vec<Entrances>))
    requires
        polys_wf(old(sink).walkable@),
    ensures
        r.0@.len() == 16,
        r.1@.len() == 16,
        forall|rx: int, ry: int|
            0 <= rx < 4 && 0 <= ry < 4 ==> room_in_cell(r.0@[#[trigger] slot_idx(rx, ry)], rx, ry),
        forall|rx: int, ry: int|
            0 <= rx < 4 && 0 <= ry < 4 ==> entrances_in_cell(
                r.1@[#[trigger] slot_idx(rx, ry)],
                rx,
                ry,
            ),
        final(sink).floors@.len() >= old(sink).floors@.len(),
        final(sink).floors@.take(old(sink).floors@.len() as int) == old(sink).floors@,
        forall|k: int|
            old(sink).floors@.len() <= k < final(sink).floors@.len() ==> {
                let t = #[trigger] final(sink).floors@[k];
                &&& 51 <= t.tile_id <= 53
                &&& t.color == crate::sink::room_floor_color()
                &&& t.pos == (
                    spec_map_pos(t.x as int, t.y as int, 0).0 as i64,
                    spec_map_pos(t.x as int, t.y as int, 0).1 as i64,
                )
                &&& exists|j: int| 0 <= j < 16 && #[trigger] in_room(t, r.0@[j])
            },
        forall|j: int|
            0 <= j < 16 ==> room_cells_floored(
                final(sink).floors@,
                old(sink).floors@.len() as int,
                final(sink).floors@.len() as int,
                #[trigger] r.0@[j],
            ),
        final(sink).walls@ == old(sink).walls@ + rooms_walls_concat(r.0@, r.1@, 16),
        polys_wf(final(sink).walkable@),
        total_len(final(sink).walkable@) <= total_len(old(sink).walkable@) + 64,
        final(sink).pickups@ == old(sink).pickups@,
        final(sink).transitions@ == old(sink).transitions@,
{
    let mut rooms: Vec<Room> = Vec::new();
    let mut entrances: Vec<Entrances> = Vec::new();
    let mut ry: i32 = 0;
    while ry < 4
        invariant
            0 <= ry <= 4,
            rooms@.len() == 4 * ry,
            entrances@.len() == 4 * ry,
            forall|rx0: int, ry0: int|
                0 <= rx0 < 4 && 0 <= ry0 < ry ==> room_in_cell(
                    rooms@[#[trigger] slot_idx(rx0, ry0)],
                    rx0,
                    ry0,
                ),
            forall|rx0: int, ry0: int|
                0 <= rx0 < 4 && 0 <= ry0 < ry ==> entrances_in_cell(
                    entrances@[#[trigger] slot_idx(rx0, ry0)],
                    rx0,
                    ry0,
                ),
            sink.floors@.len() >= old(sink).floors@.len(),
            sink.floors@.take(old(sink).floors@.len() as int) == old(sink).floors@,
            forall|k: int|
                old(sink).floors@.len() <= k < sink.floors@.len() ==> {
                    let t = #[trigger] sink.floors@[k];
                    &&& 51 <= t.tile_id <= 53
                    &&& t.color == crate::sink::room_floor_color()
                    &&& t.pos == (
                        spec_map_pos(t.x as int, t.y as int, 0).0 as i64,
                        spec_map_pos(t.x as int, t.y as int, 0).1 as i64,
                    )
                    &&& exists|j: int| 0 <= j < rooms@.len() && #[trigger] in_room(t, rooms@[j])
                },
            forall|j: int|
                0 <= j < rooms@.len() ==> room_cells_floored(
                    sink.floors@,
                    old(sink).floors@.len() as int,
                    sink.floors@.len() as int,
                    #[trigger] rooms@[j],
                ),
            sink.walls@ == old(sink).walls@ + rooms_walls_concat(
                rooms@,
                entrances@,
                rooms@.len() as int,
            ),
            polys_wf(sink.walkable@),
            total_len(sink.walkable@) <= total_len(old(sink).walkable@) + 16 * ry,
            sink.pickups@ == old(sink).pickups@,
            sink.transitions@ == old(sink).transitions@,
        decreases 4 - ry,
    {
        let mut rx: i32 = 0;
        while rx < 4
            invariant
                0 <= ry < 4,
                0 <= rx <= 4,
                rooms@.len() == 4 * ry + rx,
                entrances@.len() == 4 * ry + rx,
                forall|rx0: int, ry0: int|
                    0 <= rx0 < 4 && 0 <= ry0 < ry ==> room_in_cell(
                        rooms@[#[trigger] slot_idx(rx0, ry0)],
                        rx0,
                        ry0,
                    ),
                forall|rx0: int, ry0: int|
                    0 <= rx0 < 4 && 0 <= ry0 < ry ==> entrances_in_cell(
                        entrances@[#[trigger] slot_idx(rx0, ry0)],
                        rx0,
                        ry0,
                    ),
                forall|rx0: int|
                    0 <= rx0 < rx ==> room_in_cell(
                        rooms@[#[trigger] slot_idx(rx0, ry as int)],
                        rx0,
                        ry as int,
                    ),
                forall|rx0: int|
                    0 <= rx0 < rx ==> entrances_in_cell(
                        entrances@[#[trigger] slot_idx(rx0, ry as int)],
                        rx0,
                        ry as int,
                    ),
                sink.floors@.len() >= old(sink).floors@.len(),
                sink.floors@.take(old(sink).floors@.len() as int) == old(sink).floors@,
                forall|k: int|
                    old(sink).floors@.len() <= k < sink.floors@.len() ==> {
                        let t = #[trigger] sink.floors@[k];
                        &&& 51 <= t.tile_id <= 53
                        &&& t.color == crate::sink::room_floor_color()
                        &&& t.pos == (
                            spec_map_pos(t.x as int, t.y as int, 0).0 as i64,
                            spec_map_pos(t.x as int, t.y as int, 0).1 as i64,
                        )
                        &&& exists|j: int|
                            0 <= j < rooms@.len() && #[trigger] in_room(t, rooms@[j])
                    },
                forall|j: int|
                    0 <= j < rooms@.len() ==> room_cells_floored(
                        sink.floors@,
                        old(sink).floors@.len() as int,
                        sink.floors@.len() as int,
                        #[trigger] rooms@[j],
                    ),
                sink.walls@ == old(sink).walls@ + rooms_walls_concat(
                    rooms@,
                    entrances@,
                    rooms@.len() as int,
                ),
                polys_wf(sink.walkable@),
                total_len(sink.walkable@) <= total_len(old(sink).walkable@) + 16 * ry + 4 * rx,
                sink.pickups@ == old(sink).pickups@,
                sink.transitions@ == old(sink).transitions@,
            decreases 4 - rx,
        {
            let x = rx * 13 + rng.next_in_range(-3, 3);
            let y = ry * 13 + rng.next_in_range(-3, 3);

            let x1 = x - rng.next_in_range(1, 3);
            let y1 = y - rng.next_in_range(1, 3);
            let x2 = x + rng.next_in_range(1, 3);
            let y2 = y + rng.next_in_range(1, 3);

            // keep track of the four edge-midpoint entrances
            let e = Entrances {
                top: (x, y1),
                right: (x2, y),
                bottom: (x, y2),
                left: (x1, y),
            };

            let ghost walk0 = sink.walkable@;
            let ghost fl0 = sink.floors@;
            let ghost wl0 = sink.walls@;
            let ghost rooms0 = rooms@;
            let ghost entr0 = entrances@;
            build_room(sink, rng, x1, y1, x2, y2, &e);
            proof {
                assert(sink.walkable@ =~= walk0.push(sink.walkable@.last()));
                crate::walkable::lemma_total_len_push(walk0, sink.walkable@.last());
                assert(sink.walkable@.last()@.len() == 4);
                assert forall|k: int| 0 <= k < sink.walkable@.len() implies (#[trigger] sink.walkable@[k]).wf() by {
                    if k < walk0.len() {
                        assert(sink.walkable@[k] == walk0[k]);
                    }
                }
            }

            rooms.push(Room { x1, y1, x2, y2 });
            entrances.push(e);
            proof {
                assert(rooms@.len() - 1 == slot_idx(rx as int, ry as int));
                assert(room_in_cell(rooms@[slot_idx(rx as int, ry as int)], rx as int, ry as int));
                assert(entrances_in_cell(
                    entrances@[slot_idx(rx as int, ry as int)],
                    rx as int,
                    ry as int,
                ));
                lemma_room_records_step(
                    fl0,
                    sink.floors@,
                    wl0,
                    sink.walls@,
                    rooms0,
                    rooms@,
                    entr0,
                    entrances@,
                    old(sink).floors@,
                    old(sink).walls@,
                    Room { x1, y1, x2, y2 },
                    e,
                );
            }
            rx += 1;
        }
        ry += 1;
    }
    (rooms, entrances)
}


/// The wall theme of corridor slot `k`: even slots are the "down"
/// corridors rendered as tunnels, odd slots the "up right" corridors
/// rendered in the open theme.
pub open spec fn corridor_theme_for(k: int) -> crate::walls::WallTheme {
    if k % 2 == 0 {
        crate::walls::spec_tunnel_theme()
    } else {
        crate::walls::spec_corridor_theme()
    }
}

/// The floor records the first `k` corridor sets place, in order.
pub open spec fn corridors_floors(cs: Seq<FloorCoordinateSet>, k: int) -> Seq<
    crate::sink::FloorTile,
>
    decreases k,
{
    if k <= 0 {
        Seq::<crate::sink::FloorTile>::empty()
    } else {
        corridors_floors(cs, k - 1) + crate::walls::tiles_floors(
            cs[k - 1]@,
            corridor_theme_for(k - 1),
        )
    }
}

/// The wall records the first `k` corridor sets place, in order.
pub open spec fn corridors_walls(cs: Seq<FloorCoordinateSet>, k: int) -> Seq<
    crate::sink::WallTile,
>
    decreases k,
{
    if k <= 0 {
        Seq::<crate::sink::WallTile>::empty()
    } else {
        corridors_walls(cs, k - 1) + crate::walls::tiles_walls_upto(
            cs[k - 1]@,
            cs[k - 1]@.len() as int,
            corridor_theme_for(k - 1),
        )
    }
}

/// The corridor renderings depend only on the first `k` sets.
proof fn lemma_corridors_records_prefix(
    cs1: Seq<FloorCoordinateSet>,
    cs2: Seq<FloorCoordinateSet>,
    k: int,
)
    requires
        0 <= k <= cs1.len(),
        k <= cs2.len(),
        forall|i: int| 0 <= i < k ==> cs1[i] == cs2[i],
    ensures
        corridors_floors(cs1, k) == corridors_floors(cs2, k),
        corridors_walls(cs1, k) == corridors_walls(cs2, k),
    decreases k,
{
    if k > 0 {
        lemma_corridors_records_prefix(cs1, cs2, k - 1);
    }
}

/// Both corridors of room slot `t` are as carved: the down corridor
/// connects this room's bottom entrance to the next row's top entrance
/// (empty in the last row), the right corridor this room's right
/// entrance to the next column's left entrance (empty in the last
/// column).
pub open spec fn slot_ok(cs: Seq<FloorCoordinateSet>, es: Seq<Entrances>, t: int) -> bool {
    let rx = t % 4;
    let ry = t / 4;
    let e = es[t];
    &&& (ry < 3 ==> {
        let e2 = es[t + 4];
        carved_between(
            cs[2 * t]@,
            (e.bottom.0, (e.bottom.1 + 1) as i32),
            (e2.top.0, (e2.top.1 - 1) as i32),
            (e.bottom.0, (e.bottom.1 + 2) as i32),
            (e2.top.0, (e2.top.1 - 2) as i32),
            corridor_env(
                e.bottom.0 as int,
                e.bottom.1 as int + 2,
                e2.top.0 as int,
                e2.top.1 as int - 2,
            ),
        )
    })
    &&& (ry == 3 ==> cs[2 * t]@.len() == 0)
    &&& (rx < 3 ==> {
        let e2 = es[t + 1];
        carved_between(
            cs[2 * t + 1]@,
            ((e.right.0 + 1) as i32, e.right.1),
            ((e2.left.0 - 1) as i32, e2.left.1),
            ((e.right.0 + 2) as i32, e.right.1),
            ((e2.left.0 - 2) as i32, e2.left.1),
            corridor_env(
                e.right.0 as int + 2,
                e.right.1 as int,
                e2.left.0 as int - 2,
                e2.left.1 as int,
            ),
        )
    })
    &&& (rx == 3 ==> cs[2 * t + 1]@.len() == 0)
}

/// The first `m` room slots all carry their carved corridors.
pub open spec fn slots_ok(cs: Seq<FloorCoordinateSet>, es: Seq<Entrances>, m: int) -> bool {
    forall|t: int| 0 <= t < m ==> #[trigger] slot_ok(cs, es, t)
}

/// Renders one corridor floor set into the sink with the theme its slot
/// calls for, and appends the set to the corridor list.
fn emit_corridor(
    sink: &mut TileSink,
    corridors: &mut Vec<FloorCoordinateSet>,
    floors: FloorCoordinateSet,
    tunnel: bool,
)
    requires
        tunnel == (old(corridors)@.len() % 2 == 0),
        floors@.len() <= 90601,
        forall|i: int|
            0 <= i < floors@.len() ==> crate::walls::annotate_range(
                #[trigger] floors@[i].0 as int,
            ) && crate::walls::annotate_range(floors@[i].1 as int),
        polys_wf(old(sink).walkable@),
    ensures
        final(corridors)@ == old(corridors)@.push(floors),
        final(sink).floors@ == old(sink).floors@ + crate::walls::tiles_floors(
            floors@,
            corridor_theme_for(old(corridors)@.len() as int),
        ),
        final(sink).walls@ == old(sink).walls@ + crate::walls::tiles_walls_upto(
            floors@,
            floors@.len() as int,
            corridor_theme_for(old(corridors)@.len() as int),
        ),
        polys_wf(final(sink).walkable@),
        total_len(final(sink).walkable@) <= total_len(old(sink).walkable@) + 400000,
        final(sink).pickups@ == old(sink).pickups@,
        final(sink).transitions@ == old(sink).transitions@,
{
    let ghost walk0 = sink.walkable@;
    if tunnel {
        build_tunnel_from_coordinates(sink, &floors);
    } else {
        build_corridor_from_coordinates(sink, &floors);
    }
    proof {
        lemma_annotate_walkable_growth(walk0, sink.walkable@, floors@.len() as int);
    }
    corridors.push(floors);
}

/// Carves and renders the two corridors of one room slot.
#[verifier::spinoff_prover]
#[verifier::rlimit(100)]
fn build_slot(
    sink: &mut TileSink,
    rng: &mut RandomSource,
    entrances: &Vec<Entrances>,
    corridors: &mut Vec<FloorCoordinateSet>,
    rx: i32,
    ry: i32,
)
    requires
        0 <= rx < 4,
        0 <= ry < 4,
        entrances@.len() == 16,
        forall|rx0: int, ry0: int|
            0 <= rx0 < 4 && 0 <= ry0 < 4 ==> entrances_in_cell(
                entrances@[#[trigger] slot_idx(rx0, ry0)],
                rx0,
                ry0,
            ),
        old(corridors)@.len() == 8 * ry + 2 * rx,
        polys_wf(old(sink).walkable@),
    ensures
        final(corridors)@.len() == old(corridors)@.len() + 2,
        forall|k: int| 0 <= k < old(corridors)@.len() ==> final(corridors)@[k] == #[trigger] old(
            corridors,
        )@[k],
        final(sink).floors@ == old(sink).floors@ + crate::walls::tiles_floors(
            final(corridors)@[old(corridors)@.len() as int]@,
            corridor_theme_for(old(corridors)@.len() as int),
        ) + crate::walls::tiles_floors(
            final(corridors)@[old(corridors)@.len() as int + 1]@,
            corridor_theme_for(old(corridors)@.len() as int + 1),
        ),
        final(sink).walls@ == old(sink).walls@ + crate::walls::tiles_walls_upto(
            final(corridors)@[old(corridors)@.len() as int]@,
            final(corridors)@[old(corridors)@.len() as int]@.len() as int,
            corridor_theme_for(old(corridors)@.len() as int),
        ) + crate::walls::tiles_walls_upto(
            final(corridors)@[old(corridors)@.len() as int + 1]@,
            final(corridors)@[old(corridors)@.len() as int + 1]@.len() as int,
            corridor_theme_for(old(corridors)@.len() as int + 1),
        ),
        final(corridors)@[old(corridors)@.len() as int].wf(),
        final(corridors)@[old(corridors)@.len() as int + 1].wf(),
        no_islands(final(corridors)@[old(corridors)@.len() as int]@),
        no_islands(final(corridors)@[old(corridors)@.len() as int + 1]@),
        slot_ok(final(corridors)@, entrances@, 4 * ry + rx),
        polys_wf(final(sink).walkable@),
        total_len(final(sink).walkable@) <= total_len(old(sink).walkable@) + 800000,
        final(sink).pickups@ == old(sink).pickups@,
        final(sink).transitions@ == old(sink).transitions@,
{
    let ghost cs_base = corridors@;
    let idx = (ry * 4 + rx) as usize;
    proof {
        assert(idx == slot_idx(rx as int, ry as int));
    }

    // "down right" corridor toward the room one row below
    let mut floors = FloorCoordinateSet::new();
    if ry < 3 {
        proof {
            assert(idx + 4 == slot_idx(rx as int, ry as int + 1));
        }
        let e_here = &entrances[idx];
        let e_below = &entrances[idx + 4];
        carve_down_corridor(
            &mut floors,
            rng,
            e_here.bottom.0,
            e_here.bottom.1,
            e_below.top.0,
            e_below.top.1,
        );
    }
    let ghost gfl1 = floors@;
    proof {
        assert((8 * ry + 2 * rx) % 2 == 0);
        assert(floors@.len() <= 90601);
        assert forall|i: int|
            0 <= i < floors@.len() implies crate::walls::annotate_range(
            #[trigger] floors@[i].0 as int,
        ) && crate::walls::annotate_range(floors@[i].1 as int) by {}
    }
    emit_corridor(sink, corridors, floors, true);
    let ghost cs1 = corridors@;
    proof {
        assert(corridors@[cs_base.len() as int] == corridors@.last());
        assert(no_islands(corridors@.last()@));
        assert(corridors@.last().wf());
    }

    // "up right" corridor toward the room one column right
    let mut floors2 = FloorCoordinateSet::new();
    if rx < 3 {
        proof {
            assert(idx + 1 == slot_idx(rx as int + 1, ry as int));
        }
        let e_here = &entrances[idx];
        let e_right = &entrances[idx + 1];
        carve_right_corridor(
            &mut floors2,
            rng,
            e_here.right.0,
            e_here.right.1,
            e_right.left.0,
            e_right.left.1,
        );
    }
    let ghost gfl2 = floors2@;
    proof {
        assert((8 * ry + 2 * rx + 1) % 2 == 1);
        assert(floors2@.len() <= 90601);
        assert forall|i: int|
            0 <= i < floors2@.len() implies crate::walls::annotate_range(
            #[trigger] floors2@[i].0 as int,
        ) && crate::walls::annotate_range(floors2@[i].1 as int) by {}
    }
    emit_corridor(sink, corridors, floors2, false);
    proof {
        assert(corridors@[cs1.len() as int] == corridors@.last());
        assert(no_islands(corridors@.last()@));
        assert(corridors@.last().wf());
    }
    proof {
        let t_new = 4 * (ry as int) + rx as int;
        assert(t_new % 4 == rx as int && t_new / 4 == ry as int);
        assert(2 * t_new == cs_base.len() as int);
        assert(cs1[cs_base.len() as int]@ == gfl1);
        assert(corridors@[cs_base.len() as int] == cs1[cs_base.len() as int]);
        assert(corridors@[cs_base.len() as int]@ == gfl1);
        assert(corridors@[cs_base.len() as int + 1]@ == gfl2);
        assert(slot_ok(corridors@, entrances@, t_new));
        assert(corridors@[2 * t_new] == corridors@[cs_base.len() as int]);
        assert(sink.floors@ =~= old(sink).floors@ + crate::walls::tiles_floors(
            corridors@[cs_base.len() as int]@,
            corridor_theme_for(cs_base.len() as int),
        ) + crate::walls::tiles_floors(
            corridors@[cs_base.len() as int + 1]@,
            corridor_theme_for(cs_base.len() as int + 1),
        ));
        assert(sink.walls@ =~= old(sink).walls@ + crate::walls::tiles_walls_upto(
            corridors@[cs_base.len() as int]@,
            corridors@[cs_base.len() as int]@.len() as int,
            corridor_theme_for(cs_base.len() as int),
        ) + crate::walls::tiles_walls_upto(
            corridors@[cs_base.len() as int + 1]@,
            corridors@[cs_base.len() as int + 1]@.len() as int,
            corridor_theme_for(cs_base.len() as int + 1),
        ));
    }
}

/// Carves the corridors between neighbouring rooms, two per room slot:
/// the "down right" corridor to the room below (rendered in the tunnel
/// theme) and the "up right" corridor to the room on the right
/// (rendered in the open theme). Rooms of the last row or column have
/// no partner in that direction, so those sets stay empty. Every floor
/// and wall record the corridors place reaches the sink, in slot order.
#[verifier::spinoff_prover]
#[verifier::rlimit(100)]
fn build_corridors(sink: &mut TileSink, rng: &mut RandomSource, entrances: &Vec<Entrances>) -> (r:
    Vec<FloorCoordinateSet>)
    requires
        polys_wf(old(sink).walkable@),
        entrances@.len() == 16,
        forall|rx: int, ry: int|
            0 <= rx < 4 && 0 <= ry < 4 ==> entrances_in_cell(
                entrances@[#[trigger] slot_idx(rx, ry)],
                rx,
                ry,
            ),
    ensures
        r@.len() == 32,
        final(sink).floors@ == old(sink).floors@ + corridors_floors(r@, 32),
        final(sink).walls@ == old(sink).walls@ + corridors_walls(r@, 32),
        forall|k: int| 0 <= k < 32 ==> (#[trigger] r@[k]).wf(),
        forall|k: int| 0 <= k < 32 ==> no_islands((#[trigger] r@[k])@),
        slots_ok(r@, entrances@, 16),
        forall|rx: int, ry: int|
            0 <= rx < 4 && 0 <= ry < 4 ==> {
                let down = r@[2 * #[trigger] slot_idx(rx, ry)]@;
                &&& (ry < 3 ==> down.len() >= 2)
                &&& (ry == 3 ==> down.len() == 0)
            },
        forall|rx: int, ry: int|
            0 <= rx < 4 && 0 <= ry < 4 ==> {
                let right = r@[2 * #[trigger] slot_idx(rx, ry) + 1]@;
                &&& (rx < 3 ==> right.len() >= 2)
                &&& (rx == 3 ==> right.len() == 0)
            },
        polys_wf(final(sink).walkable@),
        total_len(final(sink).walkable@) <= total_len(old(sink).walkable@) + 24000000,
        final(sink).pickups@ == old(sink).pickups@,
        final(sink).transitions@ == old(sink).transitions@,
{
    let mut corridors: Vec<FloorCoordinateSet> = Vec::new();
    let mut ry: i32 = 0;
    while ry < 4
        invariant
            0 <= ry <= 4,
            entrances@.len() == 16,
            forall|rx0: int, ry0: int|
                0 <= rx0 < 4 && 0 <= ry0 < 4 ==> entrances_in_cell(
                    entrances@[#[trigger] slot_idx(rx0, ry0)],
                    rx0,
                    ry0,
                ),
            corridors@.len() == 8 * ry,
            sink.floors@ == old(sink).floors@ + corridors_floors(
                corridors@,
                corridors@.len() as int,
            ),
            sink.walls@ == old(sink).walls@ + corridors_walls(
                corridors@,
                corridors@.len() as int,
            ),
            forall|k: int| 0 <= k < corridors@.len() ==> (#[trigger] corridors@[k]).wf(),
            forall|k: int| 0 <= k < corridors@.len() ==> no_islands((#[trigger] corridors@[k])@),
            slots_ok(corridors@, entrances@, 4 * ry),
            polys_wf(sink.walkable@),
            total_len(sink.walkable@) <= total_len(old(sink).walkable@) + 750000 * (8 * ry),
            sink.pickups@ == old(sink).pickups@,
            sink.transitions@ == old(sink).transitions@,
        decreases 4 - ry,
    {
        let mut rx: i32 = 0;
        while rx < 4
            invariant
                0 <= ry < 4,
                0 <= rx <= 4,
                entrances@.len() == 16,
                forall|rx0: int, ry0: int|
                    0 <= rx0 < 4 && 0 <= ry0 < 4 ==> entrances_in_cell(
                        entrances@[#[trigger] slot_idx(rx0, ry0)],
                        rx0,
                        ry0,
                    ),
                corridors@.len() == 8 * ry + 2 * rx,
                sink.floors@ == old(sink).floors@ + corridors_floors(
                    corridors@,
                    corridors@.len() as int,
                ),
                sink.walls@ == old(sink).walls@ + corridors_walls(
                    corridors@,
                    corridors@.len() as int,
                ),
                forall|k: int| 0 <= k < corridors@.len() ==> (#[trigger] corridors@[k]).wf(),
                forall|k: int|
                    0 <= k < corridors@.len() ==> no_islands((#[trigger] corridors@[k])@),
                slots_ok(corridors@, entrances@, 4 * ry + rx),
                polys_wf(sink.walkable@),
                total_len(sink.walkable@) <= total_len(old(sink).walkable@) + 750000 * (8 * ry + 2
                    * rx),
                sink.pickups@ == old(sink).pickups@,
                sink.transitions@ == old(sink).transitions@,
            decreases 4 - rx,
        {
            let ghost cs_pre = corridors@;
            build_slot(sink, rng, entrances, &mut corridors, rx, ry);
            proof {
                lemma_corridors_records_prefix(cs_pre, corridors@, cs_pre.len() as int);
                reveal_with_fuel(corridors_floors, 3);
                reveal_with_fuel(corridors_walls, 3);
                let m = corridors@.len() as int;
                assert(corridors_floors(corridors@, m) == corridors_floors(corridors@, m - 2)
                    + crate::walls::tiles_floors(corridors@[m - 2]@, corridor_theme_for(m - 2))
                    + crate::walls::tiles_floors(corridors@[m - 1]@, corridor_theme_for(m - 1)));
                assert(corridors_walls(corridors@, m) == corridors_walls(corridors@, m - 2)
                    + crate::walls::tiles_walls_upto(
                    corridors@[m - 2]@,
                    corridors@[m - 2]@.len() as int,
                    corridor_theme_for(m - 2),
                ) + crate::walls::tiles_walls_upto(
                    corridors@[m - 1]@,
                    corridors@[m - 1]@.len() as int,
                    corridor_theme_for(m - 1),
                ));
                assert(sink.floors@ =~= old(sink).floors@ + corridors_floors(
                    corridors@,
                    corridors@.len() as int,
                ));
                assert(sink.walls@ =~= old(sink).walls@ + corridors_walls(
                    corridors@,
                    corridors@.len() as int,
                ));
                let t_new = 4 * (ry as int) + rx as int;
                assert forall|t: int| 0 <= t < t_new + 1 implies #[trigger] slot_ok(
                    corridors@,
                    entrances@,
                    t,
                ) by {
                    if t < t_new {
                        assert(slot_ok(cs_pre, entrances@, t));
                        assert(corridors@[2 * t] == cs_pre[2 * t]);
                        assert(corridors@[2 * t + 1] == cs_pre[2 * t + 1]);
                    }
                }
                assert forall|k: int|
                    0 <= k < corridors@.len() implies (#[trigger] corridors@[k]).wf()
                    && no_islands(corridors@[k]@) by {
                    if k < cs_pre.len() {
                        assert(corridors@[k] == cs_pre[k]);
                    }
                }
                assert(750000 * (8 * (ry as int) + 2 * (rx as int) + 2) == 750000 * (8 * (
                ry as int) + 2 * (rx as int)) + 1500000) by (nonlinear_arith);
            }
            rx += 1;
        }
        ry += 1;
    }
    proof {
        assert(750000 * 32 == 24000000);
        assert forall|rx: int, ry: int| 0 <= rx < 4 && 0 <= ry < 4 implies {
            let down = corridors@[2 * #[trigger] slot_idx(rx, ry)]@;
            &&& (ry < 3 ==> down.len() >= 2)
            &&& (ry == 3 ==> down.len() == 0)
        } by {
            let t = slot_idx(rx, ry);
            assert(slot_ok(corridors@, entrances@, t));
            assert(t % 4 == rx && t / 4 == ry);
        }
        assert forall|rx: int, ry: int| 0 <= rx < 4 && 0 <= ry < 4 implies {
            let right = corridors@[2 * #[trigger] slot_idx(rx, ry) + 1]@;
            &&& (rx < 3 ==> right.len() >= 2)
            &&& (rx == 3 ==> right.len() == 0)
        } by {
            let t = slot_idx(rx, ry);
            assert(slot_ok(corridors@, entrances@, t));
            assert(t % 4 == rx && t / 4 == ry);
        }
    }
    corridors
}


/// The walkable list grown by one annotation call: the new cell quads
/// are well-formed and small, so the total stays bounded.
proof fn lemma_annotate_walkable_growth(
    w0: Seq<WalkablePolygon>,
    w1: Seq<WalkablePolygon>,
    n: int,
)
    requires
        polys_wf(w0),
        0 <= n <= 90601,
        w1.len() == w0.len() + n,
        w1.take(w0.len() as int) == w0,
        forall|k: int|
            0 <= k < n ==> ((#[trigger] w1[w0.len() + k])@.len() == 4 && w1[w0.len() + k].wf()),
    ensures
        polys_wf(w1),
        total_len(w1) <= total_len(w0) + 400000,
{
    assert forall|k: int| 0 <= k < w1.len() implies (#[trigger] w1[k]).wf() by {
        if k < w0.len() {
            assert(w1[k] == w1.take(w0.len() as int)[k]);
        } else {
            assert(w1[k] == w1[w0.len() + (k - w0.len())]);
        }
    }
    assert forall|k: int| w0.len() <= k < w1.len() implies (#[trigger] w1[k])@.len() <= 4 by {
        assert(w1[k] == w1[w0.len() + (k - w0.len())]);
    }
    crate::walkable::lemma_total_len_suffix_bound(w1, w0.len() as int, 4);
    assert(total_len(w1.take(w0.len() as int)) == total_len(w0));
    assert(4 * (w1.len() - w0.len()) <= 400000) by (nonlinear_arith)
        requires
            0 <= w1.len() - w0.len() <= 90601,
    ;
}


/// The aggregate result of one generation call: the start position in
/// world coordinates, the rooms in row-major generation order, and two
/// corridor floor sets per room slot.
pub struct Dungeon {
    pub start_position: (i64, i64),
    pub rooms: Vec<Room>,
    pub corridors: Vec<FloorCoordinateSet>,
}

/// Floor records established over a prefix carry over unchanged when
/// more records are appended after them.
proof fn lemma_floor_records_carry(
    fl0: Seq<crate::sink::FloorTile>,
    fl1: Seq<crate::sink::FloorTile>,
    base: int,
    rooms: Seq<Room>,
)
    requires
        fl1.len() >= fl0.len(),
        fl1.take(fl0.len() as int) == fl0,
        0 <= base <= fl0.len(),
        rooms.len() == 16,
        forall|k: int|
            base <= k < fl0.len() ==> {
                let t = #[trigger] fl0[k];
                &&& 51 <= t.tile_id <= 53
                &&& t.color == crate::sink::room_floor_color()
                &&& t.pos == (
                    spec_map_pos(t.x as int, t.y as int, 0).0 as i64,
                    spec_map_pos(t.x as int, t.y as int, 0).1 as i64,
                )
                &&& exists|j: int| 0 <= j < 16 && #[trigger] in_room(t, rooms[j])
            },
        forall|j: int|
            0 <= j < 16 ==> room_cells_floored(
                fl0,
                base,
                fl0.len() as int,
                #[trigger] rooms[j],
            ),
    ensures
        forall|k: int|
            base <= k < fl0.len() ==> {
                let t = #[trigger] fl1[k];
                &&& 51 <= t.tile_id <= 53
                &&& t.color == crate::sink::room_floor_color()
                &&& t.pos == (
                    spec_map_pos(t.x as int, t.y as int, 0).0 as i64,
                    spec_map_pos(t.x as int, t.y as int, 0).1 as i64,
                )
                &&& exists|j: int| 0 <= j < 16 && #[trigger] in_room(t, rooms[j])
            },
        forall|j: int|
            0 <= j < 16 ==> room_cells_floored(
                fl1,
                base,
                fl0.len() as int,
                #[trigger] rooms[j],
            ),
{
    assert(forall|k: int| 0 <= k < fl0.len() ==> fl1[k] == #[trigger] fl0[k]) by {
        assert(forall|k: int|
            0 <= k < fl0.len() ==> fl1.take(fl0.len() as int)[k] == #[trigger] fl1[k]);
    }
    assert forall|k: int| base <= k < fl0.len() implies {
        let t = #[trigger] fl1[k];
        &&& 51 <= t.tile_id <= 53
        &&& t.color == crate::sink::room_floor_color()
        &&& t.pos == (
            spec_map_pos(t.x as int, t.y as int, 0).0 as i64,
            spec_map_pos(t.x as int, t.y as int, 0).1 as i64,
        )
        &&& exists|j: int| 0 <= j < 16 && #[trigger] in_room(t, rooms[j])
    } by {
        assert(fl1[k] == fl0[k]);
        let j = choose|j: int| 0 <= j < 16 && #[trigger] in_room(fl0[k], rooms[j]);
        assert(in_room(fl1[k], rooms[j]));
    }
    assert forall|j: int| 0 <= j < 16 implies room_cells_floored(
        fl1,
        base,
        fl0.len() as int,
        #[trigger] rooms[j],
    ) by {
        let r = rooms[j];
        assert(room_cells_floored(fl0, base, fl0.len() as int, r));
        assert forall|xx: int, yy: int|
            r.x1 <= xx <= r.x2 && r.y1 <= yy <= r.y2 implies #[trigger] crate::room::has_floor_cell(
            fl1,
            base,
            fl0.len() as int,
            xx,
            yy,
        ) by {
            assert(crate::room::has_floor_cell(fl0, base, fl0.len() as int, xx, yy));
            let w = choose|w: int|
                base <= w < fl0.len() && (#[trigger] fl0[w]).x == xx && fl0[w].y == yy;
            assert(fl1[w] == fl0[w]);
        }
    }
}

/// Merges the sink's walkable-polygon list to its fixed point: repeats
/// merge passes until a pass no longer reduces the polygon count.
fn merge_walkable_to_fixpoint(sink: &mut TileSink)
    requires
        polys_wf(old(sink).walkable@),
        total_len(old(sink).walkable@) <= 0x3fff_ffff,
    ensures
        converged(final(sink).walkable@),
        polys_wf(final(sink).walkable@),
        final(sink).walkable@.len() <= old(sink).walkable@.len(),
        final(sink).floors@ == old(sink).floors@,
        final(sink).walls@ == old(sink).walls@,
        final(sink).pickups@ == old(sink).pickups@,
        final(sink).transitions@ == old(sink).transitions@,
{
    let mut done = false;
    while !done
        invariant
            polys_wf(sink.walkable@),
            total_len(sink.walkable@) <= 0x3fff_ffff,
            sink.walkable@.len() <= old(sink).walkable@.len(),
            done ==> converged(sink.walkable@),
            sink.floors@ == old(sink).floors@,
            sink.walls@ == old(sink).walls@,
            sink.pickups@ == old(sink).pickups@,
            sink.transitions@ == old(sink).transitions@,
        decreases 2 * sink.walkable@.len() + if done {
            0int
        } else {
            1int
        },
    {
        let old_count = sink.walkable.len();
        let merged = merge_polygons(&sink.walkable);
        if merged.len() >= old_count {
            proof {
                // the pass did not shrink the list, so the list was
                // already converged and came back unchanged
                assert(converged(sink.walkable@));
                assert forall|i: int, j: int|
                    0 <= i < j < merged@.len() implies crate::walkable::match_count(
                    merged@[i]@,
                    merged@[j]@,
                ) < 2 by {
                    assert(merged@[i]@ == sink.walkable@[i]@);
                    assert(merged@[j]@ == sink.walkable@[j]@);
                }
                assert(converged(merged@));
            }
            sink.walkable = merged;
            done = true;
        } else {
            sink.walkable = merged;
        }
    }
}

/// Lays out the rooms and carves the corridors, recording everything
/// into the sink: the floor log grows by the rooms' floor rectangles
/// followed by the corridors' floor tiles, the wall log by the rooms'
/// perimeter walls followed by the corridors' walls.
#[verifier::spinoff_prover]
#[verifier::rlimit(100)]
fn lay_out_dungeon(sink: &mut TileSink, rng: &mut RandomSource) -> (r: (
    Vec<Room>,
    Vec<Entrances>,
    Vec<FloorCoordinateSet>,
))
    requires
        polys_wf(old(sink).walkable@),
        total_len(old(sink).walkable@) <= 1000000000,
    ensures
        r.0@.len() == 16,
        r.1@.len() == 16,
        r.2@.len() == 32,
        forall|rx: int, ry: int|
            0 <= rx < 4 && 0 <= ry < 4 ==> room_in_cell(r.0@[#[trigger] slot_idx(rx, ry)], rx, ry),
        forall|rx: int, ry: int|
            0 <= rx < 4 && 0 <= ry < 4 ==> entrances_in_cell(
                r.1@[#[trigger] slot_idx(rx, ry)],
                rx,
                ry,
            ),
        forall|k: int| 0 <= k < 32 ==> (#[trigger] r.2@[k]).wf(),
        forall|k: int| 0 <= k < 32 ==> no_islands((#[trigger] r.2@[k])@),
        slots_ok(r.2@, r.1@, 16),
        forall|rx: int, ry: int|
            0 <= rx < 4 && 0 <= ry < 4 ==> {
                let down = r.2@[2 * #[trigger] slot_idx(rx, ry)]@;
                &&& (ry < 3 ==> down.len() >= 2)
                &&& (ry == 3 ==> down.len() == 0)
            },
        forall|rx: int, ry: int|
            0 <= rx < 4 && 0 <= ry < 4 ==> {
                let right = r.2@[2 * #[trigger] slot_idx(rx, ry) + 1]@;
                &&& (rx < 3 ==> right.len() >= 2)
                &&& (rx == 3 ==> right.len() == 0)
            },
        ({
            let base = old(sink).floors@.len() as int;
            let mid = final(sink).floors@.len() - corridors_floors(r.2@, 32).len();
            &&& base <= mid <= final(sink).floors@.len()
            &&& final(sink).floors@.take(base) == old(sink).floors@
            &&& final(sink).floors@ == final(sink).floors@.take(mid) + corridors_floors(r.2@, 32)
            &&& forall|k: int|
                base <= k < mid ==> {
                    let t = #[trigger] final(sink).floors@[k];
                    &&& 51 <= t.tile_id <= 53
                    &&& t.color == crate::sink::room_floor_color()
                    &&& t.pos == (
                        spec_map_pos(t.x as int, t.y as int, 0).0 as i64,
                        spec_map_pos(t.x as int, t.y as int, 0).1 as i64,
                    )
                    &&& exists|j: int| 0 <= j < 16 && #[trigger] in_room(t, r.0@[j])
                }
            &&& forall|j: int|
                0 <= j < 16 ==> room_cells_floored(
                    final(sink).floors@,
                    base,
                    mid,
                    #[trigger] r.0@[j],
                )
        }),
        final(sink).walls@ == old(sink).walls@ + rooms_walls_concat(r.0@, r.1@, 16)
            + corridors_walls(r.2@, 32),
        polys_wf(final(sink).walkable@),
        total_len(final(sink).walkable@) <= total_len(old(sink).walkable@) + 24000064,
        final(sink).pickups@ == old(sink).pickups@,
        final(sink).transitions@ == old(sink).transitions@,
{
    let built = build_rooms(sink, rng);
    let rooms = built.0;
    let entrances = built.1;
    let ghost fl_rooms = sink.floors@;

    // to avoid double tiles and for easier wall placement we first
    // collect all floor coordinates and then actually build each
    // corridor
    let corridors = build_corridors(sink, rng, &entrances);

    proof {
        let base = old(sink).floors@.len() as int;
        let mid = fl_rooms.len() as int;
        assert(sink.floors@ == fl_rooms + corridors_floors(corridors@, 32));
        assert(sink.floors@.take(mid) =~= fl_rooms);
        assert(sink.floors@.len() - corridors_floors(corridors@, 32).len() == mid);
        assert(sink.floors@.take(base) =~= fl_rooms.take(base));
        lemma_floor_records_carry(fl_rooms, sink.floors@, base, rooms@);
        assert(sink.walls@ =~= old(sink).walls@ + rooms_walls_concat(rooms@, entrances@, 16)
            + corridors_walls(corridors@, 32));
    }
    (rooms, entrances, corridors)
}

/// Lays out the rooms and corridors of one dungeon into the sink and
/// compacts the walkable-polygon list to its merge fixed point. Every
/// room and corridor the result lists is rendered into the sink.
#[verifier::spinoff_prover]
#[verifier::rlimit(100)]
pub fn rooms_and_corridors(sink: &mut TileSink, rng: &mut RandomSource) -> (d: Dungeon)

    requires
        polys_wf(old(sink).walkable@),
        total_len(old(sink).walkable@) <= 1000000000,
    ensures
        d.rooms@.len() == 16,
        forall|rx: int, ry: int|
            0 <= rx < 4 && 0 <= ry < 4 ==> room_in_cell(
                d.rooms@[#[trigger] slot_idx(rx, ry)],
                rx,
                ry,
            ),
        forall|k: int|
            0 <= k < 16 ==> {
                let r = #[trigger] d.rooms@[k];
                -50 <= r.x1 && r.x1 < r.x2 && r.x2 <= 50 && -50 <= r.y1 && r.y1 < r.y2 && r.y2
                    <= 50
            },
        d.corridors@.len() == 32,
        forall|k: int| 0 <= k < 32 ==> (#[trigger] d.corridors@[k]).wf(),
        forall|k: int| 0 <= k < 32 ==> no_islands((#[trigger] d.corridors@[k])@),
        forall|rx: int, ry: int|
            0 <= rx < 4 && 0 <= ry < 4 ==> {
                let down = d.corridors@[2 * #[trigger] slot_idx(rx, ry)]@;
                &&& (ry < 3 ==> down.len() >= 2)
                &&& (ry == 3 ==> down.len() == 0)
            },
        forall|rx: int, ry: int|
            0 <= rx < 4 && 0 <= ry < 4 ==> {
                let right = d.corridors@[2 * #[trigger] slot_idx(rx, ry) + 1]@;
                &&& (rx < 3 ==> right.len() >= 2)
                &&& (rx == 3 ==> right.len() == 0)
            },
        d.start_position.0 == spec_map_pos(
            d.rooms@[0].x2 as int - 1,
            d.rooms@[0].y1 as int + 1,
            0,
        ).0,
        d.start_position.1 == spec_map_pos(
            d.rooms@[0].x2 as int - 1,
            d.rooms@[0].y1 as int + 1,
            0,
        ).1,
        ({
            let base = old(sink).floors@.len() as int;
            let mid = final(sink).floors@.len() - corridors_floors(d.corridors@, 32).len();
            &&& base <= mid <= final(sink).floors@.len()
            &&& final(sink).floors@.take(base) == old(sink).floors@
            &&& final(sink).floors@ == final(sink).floors@.take(mid) + corridors_floors(
                d.corridors@,
                32,
            )
            &&& forall|k: int|
                base <= k < mid ==> {
                    let t = #[trigger] final(sink).floors@[k];
                    &&& 51 <= t.tile_id <= 53
                    &&& t.color == crate::sink::room_floor_color()
                    &&& t.pos == (
                        spec_map_pos(t.x as int, t.y as int, 0).0 as i64,
                        spec_map_pos(t.x as int, t.y as int, 0).1 as i64,
                    )
                    &&& exists|j: int| 0 <= j < 16 && #[trigger] in_room(t, d.rooms@[j])
                }
            &&& forall|j: int|
                0 <= j < 16 ==> room_cells_floored(
                    final(sink).floors@,
                    base,
                    mid,
                    #[trigger] d.rooms@[j],
                )
        }),
        exists|es: Seq<Entrances>|
            {
                &&& es.len() == 16
                &&& (forall|rx: int, ry: int|
                    0 <= rx < 4 && 0 <= ry < 4 ==> entrances_in_cell(
                        es[#[trigger] slot_idx(rx, ry)],
                        rx,
                        ry,
                    ))
                &&& slots_ok(d.corridors@, es, 16)
                &&& final(sink).walls@ == old(sink).walls@ + #[trigger] rooms_walls_concat(
                    d.rooms@,
                    es,
                    16,
                ) + corridors_walls(d.corridors@, 32)
            },
        converged(final(sink).walkable@),
        polys_wf(final(sink).walkable@),
        final(sink).pickups@ == old(sink).pickups@,
        final(sink).transitions@ == old(sink).transitions@,
{
    let laid = lay_out_dungeon(sink, rng);
    let rooms = laid.0;
    let ghost entrances_view = laid.1@;
    let corridors = laid.2;

    // the walkable lists are needed for all movement-related checks, so
    // the polygon count is minimized even at this one-time cost
    merge_walkable_to_fixpoint(sink);

    proof {
        // the flat per-room bounds follow from the cell bounds
        assert forall|k: int| 0 <= k < 16 implies {
            let r = #[trigger] rooms@[k];
            -50 <= r.x1 && r.x1 < r.x2 && r.x2 <= 50 && -50 <= r.y1 && r.y1 < r.y2 && r.y2 <= 50
        } by {
            let rx = k % 4;
            let ry = k / 4;
            assert(0 <= rx < 4 && 0 <= ry < 4);
            assert(slot_idx(rx, ry) == k);
            assert(room_in_cell(rooms@[slot_idx(rx, ry)], rx, ry));
        }
        assert(room_in_cell(rooms@[slot_idx(0, 0)], 0, 0));
    }
    let first_x2 = rooms[0].x2;
    let first_y1 = rooms[0].y1;
    let start_position = map_pos(first_x2 - 1, first_y1 + 1, 0);

    let d = Dungeon { start_position, rooms, corridors };
    proof {
        // the entrance points of the layout witness the wall composition
        assert(entrances_view.len() == 16);
        assert(d.rooms@ == laid.0@ && d.corridors@ == laid.2@);
        assert(rooms_walls_concat(d.rooms@, entrances_view, 16) == rooms_walls_concat(
            laid.0@,
            entrances_view,
            16,
        ));
        assert(sink.walls@ == old(sink).walls@ + rooms_walls_concat(
            d.rooms@,
            entrances_view,
            16,
        ) + corridors_walls(d.corridors@, 32));
        assert(slots_ok(d.corridors@, entrances_view, 16));
    }
    d
}

/// Records one coin-stack pickup of the given kind.
fn place_coins(sink: &mut TileSink, x: i32, y: i32, kind: &str, count: u32)
    ensures
        final(sink).pickups@.len() == old(sink).pickups@.len() + 1,
        final(sink).pickups@.take(old(sink).pickups@.len() as int) == old(sink).pickups@,
        ({
            let p = final(sink).pickups@.last();
            &&& p.x == x
            &&& p.y == y
            &&& p.kind@ == kind@
            &&& p.count == count
            &&& p.pos == (
                spec_map_pos(x as int, y as int, 0).0 as i64,
                spec_map_pos(x as int, y as int, 0).1 as i64,
            )
        }),
        final(sink).floors@ == old(sink).floors@,
        final(sink).walls@ == old(sink).walls@,
        final(sink).transitions@ == old(sink).transitions@,
        final(sink).walkable@ == old(sink).walkable@,
{
    let pos = map_pos(x, y, 0);
    let kind_owned = kind.to_owned();
    sink.pickups.push(PickupRecord { x, y, pos, kind: kind_owned, count });
    proof {
        assert(sink.pickups@.take(old(sink).pickups@.len() as int) =~= old(sink).pickups@);
    }
}

/// Decorates a freshly generated dungeon: entrance stairs and a level
/// transition at the first room, and a scattered coin stack in every
/// other room.
pub fn furnish_dungeon(dungeon: &Dungeon, sink: &mut TileSink, rng: &mut RandomSource)
    requires
        dungeon.rooms@.len() >= 1,
        forall|k: int|
            0 <= k < dungeon.rooms@.len() ==> {
                let r = #[trigger] dungeon.rooms@[k];
                -50 <= r.x1 && r.x1 < r.x2 && r.x2 <= 50 && -50 <= r.y1 && r.y1 < r.y2 && r.y2
                    <= 50
            },
    ensures
        final(sink).walls@ == old(sink).walls@.push(
            spec_wall_tile(
                dungeon.rooms@[0].x2 as int,
                dungeon.rooms@[0].y1 as int,
                0,
                248,
                white(),
            ),
        ),
        final(sink).transitions@ =~= seq![
            (TransitionRecord {
                from: (
                    spec_map_pos(dungeon.rooms@[0].x2 as int, dungeon.rooms@[0].y1 as int, 0).0
                        as i64,
                    spec_map_pos(dungeon.rooms@[0].x2 as int, dungeon.rooms@[0].y1 as int, 0).1
                        as i64,
                ),
                catchment: 100,
                to_map: 0,
                to_location: (720, 1802),
            }),
        ],
        final(sink).pickups@.len() == old(sink).pickups@.len() + dungeon.rooms@.len() - 1,
        final(sink).pickups@.take(old(sink).pickups@.len() as int) == old(sink).pickups@,
        forall|j: int|
            0 <= j < dungeon.rooms@.len() - 1 ==> {
                let p = #[trigger] final(sink).pickups@[old(sink).pickups@.len() + j];
                let r = dungeon.rooms@[j + 1];
                &&& r.x1 <= p.x < r.x2
                &&& r.y1 <= p.y < r.y2
                &&& p.kind@ == "copper_coin"@
                &&& 1 <= p.count < 6
            },
        final(sink).floors@ == old(sink).floors@,
        final(sink).walkable@ == old(sink).walkable@,
{
    // place the entrance stairs
    let stairs_x = dungeon.rooms[0].x2;
    let stairs_y = dungeon.rooms[0].y1;
    place_wall_tile(sink, stairs_x, stairs_y, 0, 248, TileColor { r: 1000, g: 1000, b: 1000, a: 1000 });

    // the way back out of the dungeon
    let from = map_pos(stairs_x, stairs_y, 0);
    sink.transitions.clear();
    sink.transitions.push(
        TransitionRecord { from, catchment: 100, to_map: 0, to_location: (720, 1802) },
    );

    // scatter a coin stack into every room but the first
    let n = dungeon.rooms.len();
    let mut i: usize = 1;
    while i < n
        invariant
            n == dungeon.rooms@.len(),
            1 <= i <= n,
            forall|k: int|
                0 <= k < dungeon.rooms@.len() ==> {
                    let r = #[trigger] dungeon.rooms@[k];
                    -50 <= r.x1 && r.x1 < r.x2 && r.x2 <= 50 && -50 <= r.y1 && r.y1 < r.y2
                        && r.y2 <= 50
                },
            sink.pickups@.len() == old(sink).pickups@.len() + i - 1,
            sink.pickups@.take(old(sink).pickups@.len() as int) == old(sink).pickups@,
            forall|j: int|
                0 <= j < i - 1 ==> {
                    let p = #[trigger] sink.pickups@[old(sink).pickups@.len() + j];
                    let r = dungeon.rooms@[j + 1];
                    &&& r.x1 <= p.x < r.x2
                    &&& r.y1 <= p.y < r.y2
                    &&& p.kind@ == "copper_coin"@
                    &&& 1 <= p.count < 6
                },
            sink.floors@ == old(sink).floors@,
            sink.walls@ == old(sink).walls@.push(
                spec_wall_tile(
                    dungeon.rooms@[0].x2 as int,
                    dungeon.rooms@[0].y1 as int,
                    0,
                    248,
                    white(),
                ),
            ),
            sink.transitions@ =~= seq![
                (TransitionRecord {
                    from: (
                        spec_map_pos(dungeon.rooms@[0].x2 as int, dungeon.rooms@[0].y1 as int, 0).0
                            as i64,
                        spec_map_pos(dungeon.rooms@[0].x2 as int, dungeon.rooms@[0].y1 as int, 0).1
                            as i64,
                    ),
                    catchment: 100,
                    to_map: 0,
                    to_location: (720, 1802),
                }),
            ],
            sink.walkable@ == old(sink).walkable@,
        decreases n - i,
    {
        let r = &dungeon.rooms[i];
        let cx = rng.next_in_range(r.x1, r.x2);
        let cy = rng.next_in_range(r.y1, r.y2);
        let count = rng.next_in_range(1, 6);
        let ghost pre = sink.pickups@;
        place_coins(sink, cx, cy, "copper_coin", count as u32);
        proof {
            assert(sink.pickups@.take(old(sink).pickups@.len() as int) =~= old(sink).pickups@);
            assert forall|j: int| 0 <= j < i implies {
                let p = #[trigger] sink.pickups@[old(sink).pickups@.len() + j];
                let r0 = dungeon.rooms@[j + 1];
                &&& r0.x1 <= p.x < r0.x2
                &&& r0.y1 <= p.y < r0.y2
                &&& p.kind@ == "copper_coin"@
                &&& 1 <= p.count < 6
            } by {
                if j < i - 1 {
                    assert(sink.pickups@[old(sink).pickups@.len() + j] == pre[old(
                        sink,
                    ).pickups@.len() + j]);
                } else {
                    assert(sink.pickups@[old(sink).pickups@.len() + j] == sink.pickups@.last());
                }
            }
        }
        i += 1;
    }
}

/// Generates one dungeon into the sink: rooms, corridors, walls, the
/// compacted walkable areas, and the decoration, all driven by the
/// given random source. Everything the result lists is rendered into
/// the sink: the floor log ends with the corridors' floor tiles, the
/// wall log with the rooms' and corridors' walls and the entrance
/// stairs, and each room past the first holds one scattered coin stack.
#[verifier::spinoff_prover]
#[verifier::rlimit(100)]
pub fn generate_dungeon(sink: &mut TileSink, rng: &mut RandomSource) -> (d: Dungeon)
    requires
        polys_wf(old(sink).walkable@),
        total_len(old(sink).walkable@) <= 1000000000,
    ensures
        d.rooms@.len() == 16,
        forall|rx: int, ry: int|
            0 <= rx < 4 && 0 <= ry < 4 ==> room_in_cell(
                d.rooms@[#[trigger] slot_idx(rx, ry)],
                rx,
                ry,
            ),
        d.corridors@.len() == 32,
        forall|k: int| 0 <= k < 32 ==> (#[trigger] d.corridors@[k]).wf(),
        forall|k: int| 0 <= k < 32 ==> no_islands((#[trigger] d.corridors@[k])@),
        forall|rx: int, ry: int|
            0 <= rx < 4 && 0 <= ry < 4 ==> {
                let down = d.corridors@[2 * #[trigger] slot_idx(rx, ry)]@;
                &&& (ry < 3 ==> down.len() >= 2)
                &&& (ry == 3 ==> down.len() == 0)
            },
        forall|rx: int, ry: int|
            0 <= rx < 4 && 0 <= ry < 4 ==> {
                let right = d.corridors@[2 * #[trigger] slot_idx(rx, ry) + 1]@;
                &&& (rx < 3 ==> right.len() >= 2)
                &&& (rx == 3 ==> right.len() == 0)
            },
        d.start_position.0 == spec_map_pos(
            d.rooms@[0].x2 as int - 1,
            d.rooms@[0].y1 as int + 1,
            0,
        ).0,
        d.start_position.1 == spec_map_pos(
            d.rooms@[0].x2 as int - 1,
            d.rooms@[0].y1 as int + 1,
            0,
        ).1,
        ({
            let base = old(sink).floors@.len() as int;
            let mid = final(sink).floors@.len() - corridors_floors(d.corridors@, 32).len();
            &&& base <= mid <= final(sink).floors@.len()
            &&& final(sink).floors@.take(base) == old(sink).floors@
            &&& final(sink).floors@ == final(sink).floors@.take(mid) + corridors_floors(
                d.corridors@,
                32,
            )
            &&& forall|k: int|
                base <= k < mid ==> {
                    let t = #[trigger] final(sink).floors@[k];
                    &&& 51 <= t.tile_id <= 53
                    &&& t.color == crate::sink::room_floor_color()
                    &&& t.pos == (
                        spec_map_pos(t.x as int, t.y as int, 0).0 as i64,
                        spec_map_pos(t.x as int, t.y as int, 0).1 as i64,
                    )
                    &&& exists|j: int| 0 <= j < 16 && #[trigger] in_room(t, d.rooms@[j])
                }
            &&& forall|j: int|
                0 <= j < 16 ==> room_cells_floored(
                    final(sink).floors@,
                    base,
                    mid,
                    #[trigger] d.rooms@[j],
                )
        }),
        exists|es: Seq<Entrances>|
            {
                &&& es.len() == 16
                &&& (forall|rx: int, ry: int|
                    0 <= rx < 4 && 0 <= ry < 4 ==> entrances_in_cell(
                        es[#[trigger] slot_idx(rx, ry)],
                        rx,
                        ry,
                    ))
                &&& slots_ok(d.corridors@, es, 16)
                &&& final(sink).walls@ == old(sink).walls@ + #[trigger] rooms_walls_concat(
                    d.rooms@,
                    es,
                    16,
                ) + corridors_walls(d.corridors@, 32) + seq![
                    crate::sink::spec_wall_tile(
                        d.rooms@[0].x2 as int,
                        d.rooms@[0].y1 as int,
                        0,
                        248,
                        crate::sink::white(),
                    ),
                ]
            },
        final(sink).transitions@ =~= seq![
            (crate::sink::TransitionRecord {
                from: (
                    spec_map_pos(d.rooms@[0].x2 as int, d.rooms@[0].y1 as int, 0).0 as i64,
                    spec_map_pos(d.rooms@[0].x2 as int, d.rooms@[0].y1 as int, 0).1 as i64,
                ),
                catchment: 100,
                to_map: 0,
                to_location: (720, 1802),
            }),
        ],
        final(sink).pickups@.len() == old(sink).pickups@.len() + 15,
        final(sink).pickups@.take(old(sink).pickups@.len() as int) == old(sink).pickups@,
        forall|j: int|
            0 <= j < 15 ==> {
                let p = #[trigger] final(sink).pickups@[old(sink).pickups@.len() + j];
                let r = d.rooms@[j + 1];
                &&& r.x1 <= p.x < r.x2
                &&& r.y1 <= p.y < r.y2
                &&& p.kind@ == "copper_coin"@
                &&& 1 <= p.count < 6
            },
        converged(final(sink).walkable@),
        polys_wf(final(sink).walkable@),
{
    let dungeon = rooms_and_corridors(sink, rng);
    let ghost walls_mid = sink.walls@;
    furnish_dungeon(&dungeon, sink, rng);
    proof {
        let es = choose|es: Seq<Entrances>|
            {
                &&& es.len() == 16
                &&& (forall|rx: int, ry: int|
                    0 <= rx < 4 && 0 <= ry < 4 ==> entrances_in_cell(
                        es[#[trigger] slot_idx(rx, ry)],
                        rx,
                        ry,
                    ))
                &&& slots_ok(dungeon.corridors@, es, 16)
                &&& walls_mid == old(sink).walls@ + #[trigger] rooms_walls_concat(
                    dungeon.rooms@,
                    es,
                    16,
                ) + corridors_walls(dungeon.corridors@, 32)
            };
        assert(sink.walls@ =~= old(sink).walls@ + rooms_walls_concat(dungeon.rooms@, es, 16)
            + corridors_walls(dungeon.corridors@, 32) + seq![
            crate::sink::spec_wall_tile(
                dungeon.rooms@[0].x2 as int,
                dungeon.rooms@[0].y1 as int,
                0,
                248,
                crate::sink::white(),
            ),
        ]);
    }
    dungeon
}

} // verus!
