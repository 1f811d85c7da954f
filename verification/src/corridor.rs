//! Corridor carving: straight runs and the recursive randomized
//! "winding" subdivision between two room entrances.

use vstd::prelude::*;

use crate::floor_set::FloorCoordinateSet;
use crate::floor_set::adjacent;
use crate::floor_set::lemma_path_grow;
use crate::floor_set::lemma_path_step;
use crate::floor_set::lemma_path_trans;
use crate::floor_set::path_between;
use crate::floor_set::tile_connected;
use crate::rng::RandomSource;

verus! {

/// Grid coordinates handed to the corridor carver must stay well inside
/// the `i32` range so that walking and offsetting tiles cannot overflow.
pub const COORD_LIMIT: i32 = 0x2000_0000;

pub open spec fn iabs(x: int) -> int {
    if x < 0 {
        -x
    } else {
        x
    }
}

pub open spec fn imax(a: int, b: int) -> int {
    if a < b {
        b
    } else {
        a
    }
}

pub open spec fn isign(x: int) -> int {
    if x > 0 {
        1
    } else if x < 0 {
        -1
    } else {
        0
    }
}

/// Number of tiles a straight walk from `(sx, sy)` to `(dx, dy)` visits.
pub open spec fn straight_len(sx: int, sy: int, dx: int, dy: int, include_end: bool) -> int {
    imax(iabs(dx - sx), iabs(dy - sy)) + if include_end {
        1int
    } else {
        0int
    }
}

/// The `i`-th tile of the straight walk.
pub open spec fn straight_tile(sx: int, sy: int, dx: int, dy: int, i: int) -> (i32, i32) {
    ((sx + i * isign(dx - sx)) as i32, (sy + i * isign(dy - sy)) as i32)
}

/// All tiles of the straight walk, in visiting order.
pub open spec fn straight_seq(sx: int, sy: int, dx: int, dy: int, include_end: bool) -> Seq<
    (i32, i32),
> {
    Seq::new(
        straight_len(sx, sy, dx, dy, include_end) as nat,
        |i: int| straight_tile(sx, sy, dx, dy, i),
    )
}

pub open spec fn in_coord_range(c: int) -> bool {
    -COORD_LIMIT <= c <= COORD_LIMIT
}

/// Containment in a pushed sequence, spelled out for the loop proofs below.
pub proof fn lemma_push_contains<A>(s: Seq<A>, v: A, p: A)
    ensures
        s.push(v).contains(p) <==> s.contains(p) || p == v,
{
    if s.push(v).contains(p) {
        let k = choose|k: int| 0 <= k < s.push(v).len() && s.push(v)[k] == p;
        if k < s.len() {
            assert(s[k] == p);
        }
    }
    if s.contains(p) {
        let k = choose|k: int| 0 <= k < s.len() && s[k] == p;
        assert(s.push(v)[k] == p);
    }
    if p == v {
        assert(s.push(v)[s.len() as int] == p);
    }
}

/// Containment in the one-longer prefix of a sequence.
pub proof fn lemma_take_succ_contains<A>(s: Seq<A>, i: int, p: A)
    requires
        0 <= i < s.len(),
    ensures
        s.take(i + 1).contains(p) <==> s.take(i).contains(p) || p == s[i],
{
    assert(s.take(i + 1) =~= s.take(i).push(s[i]));
    lemma_push_contains(s.take(i), s[i], p);
}

/// The straight walk never visits the same tile twice.
pub proof fn lemma_straight_seq_no_duplicates(
    sx: int,
    sy: int,
    dx: int,
    dy: int,
    include_end: bool,
)
    requires
        in_coord_range(sx) && in_coord_range(sy) && in_coord_range(dx) && in_coord_range(dy),
    ensures
        straight_seq(sx, sy, dx, dy, include_end).no_duplicates(),
{
    let s = straight_seq(sx, sy, dx, dy, include_end);
    if sx == dx && sy == dy {
        assert(s.len() <= 1);
    } else {
        assert forall|i: int, j: int| 0 <= i < s.len() && 0 <= j < s.len() && i != j implies s[i]
            != s[j] by {
            if dx != sx {
                if dx > sx {
                    assert(sx + i * 1 == sx + i);
                    assert(sx + j * 1 == sx + j);
                    assert(s[i].0 != s[j].0);
                } else {
                    assert(sx + i * -1 == sx - i);
                    assert(sx + j * -1 == sx - j);
                    assert(s[i].0 != s[j].0);
                }
            } else {
                if dy > sy {
                    assert(sy + i * 1 == sy + i);
                    assert(sy + j * 1 == sy + j);
                    assert(s[i].1 != s[j].1);
                } else {
                    assert(sy + i * -1 == sy - i);
                    assert(sy + j * -1 == sy - j);
                    assert(s[i].1 != s[j].1);
                }
            }
        }
    }
}

/// Consecutive tiles of an axis-aligned straight walk are 4-adjacent.
pub proof fn lemma_straight_seq_adjacent(sx: int, sy: int, dx: int, dy: int, include_end: bool)
    requires
        sx == dx || sy == dy,
        in_coord_range(sx) && in_coord_range(sy) && in_coord_range(dx) && in_coord_range(dy),
    ensures
        forall|i: int|
            0 <= i < straight_len(sx, sy, dx, dy, include_end) - 1 ==> adjacent(
                #[trigger] straight_tile(sx, sy, dx, dy, i),
                straight_tile(sx, sy, dx, dy, i + 1),
            ),
{
    let n = straight_len(sx, sy, dx, dy, include_end);
    assert forall|i: int| 0 <= i < n - 1 implies adjacent(
        #[trigger] straight_tile(sx, sy, dx, dy, i),
        straight_tile(sx, sy, dx, dy, i + 1),
    ) by {
        if dx > sx {
            assert(sx + (i + 1) * 1 == sx + i * 1 + 1);
        } else if dx < sx {
            assert(sx + (i + 1) * -1 == sx + i * -1 - 1);
        } else if dy > sy {
            assert(sy + (i + 1) * 1 == sy + i * 1 + 1);
        } else {
            assert(sy + (i + 1) * -1 == sy + i * -1 - 1);
        }
    }
}

/// Containment carries over from a prefix to the longer sequence.
pub proof fn lemma_prefix_contains<A>(s1: Seq<A>, s2: Seq<A>, p: A)
    requires
        s1.is_prefix_of(s2),
        s1.contains(p),
    ensures
        s2.contains(p),
{
    let k = choose|k: int| 0 <= k < s1.len() && s1[k] == p;
    assert(s2[k] == p);
}

/// Connectivity of a tile carries over from a prefix to the longer sequence.
pub proof fn lemma_prefix_connected(s1: Seq<(i32, i32)>, s2: Seq<(i32, i32)>, p: (i32, i32))
    requires
        s1.is_prefix_of(s2),
        tile_connected(s1, p),
    ensures
        tile_connected(s2, p),
{
    let q = choose|q: (i32, i32)| s1.contains(q) && q != p && adjacent(p, q);
    lemma_prefix_contains(s1, s2, q);
}

pub proof fn lemma_prefix_trans<A>(s1: Seq<A>, s2: Seq<A>, s3: Seq<A>)
    requires
        s1.is_prefix_of(s2),
        s2.is_prefix_of(s3),
    ensures
        s1.is_prefix_of(s3),
{
    assert(s1 =~= s3.subrange(0, s1.len() as int));
}

/// Axis-aligned straight walks stay inside the bounding box of their
/// two endpoints.
pub proof fn lemma_straight_tiles_in_box(sx: int, sy: int, dx: int, dy: int, include_end: bool)
    requires
        sx == dx || sy == dy,
        in_coord_range(sx) && in_coord_range(sy) && in_coord_range(dx) && in_coord_range(dy),
    ensures
        forall|i: int|
            0 <= i < straight_len(sx, sy, dx, dy, include_end) ==> {
                let t = #[trigger] straight_tile(sx, sy, dx, dy, i);
                &&& imax(iabs(t.0 as int), iabs(t.1 as int)) <= imax(
                    imax(iabs(sx), iabs(sy)),
                    imax(iabs(dx), iabs(dy)),
                )
            },
{
    let n = straight_len(sx, sy, dx, dy, include_end);
    assert forall|i: int| 0 <= i < n implies {
        let t = #[trigger] straight_tile(sx, sy, dx, dy, i);
        imax(iabs(t.0 as int), iabs(t.1 as int)) <= imax(
            imax(iabs(sx), iabs(sy)),
            imax(iabs(dx), iabs(dy)),
        )
    } by {
        if dx > sx {
            assert(sx + i * 1 == sx + i);
        } else if dx < sx {
            assert(sx + i * -1 == sx - i);
        }
        if dy > sy {
            assert(sy + i * 1 == sy + i);
        } else if dy < sy {
            assert(sy + i * -1 == sy - i);
        }
    }
}

/// The scaled size bound that the corridor carver maintains: a measure of
/// the endpoint magnitudes plus the squared corridor span. Every tile a
/// carving call lays satisfies `8 * |coordinate| <= corridor_env(...)` of
/// that call, which bounds the recursion's lateral excursions.
pub open spec fn corridor_env(sx: int, sy: int, dx: int, dy: int) -> int {
    8 * imax(imax(iabs(sx), iabs(sy)), imax(iabs(dx), iabs(dy))) + imax(
        iabs(dx - sx),
        iabs(dy - sy),
    ) * imax(iabs(dx - sx), iabs(dy - sy))
}

/// A tile whose coordinates fit under the scaled bound `e`.
pub open spec fn within_env(p: (i32, i32), e: int) -> bool {
    8 * iabs(p.0 as int) <= e && 8 * iabs(p.1 as int) <= e
}

/// Lays a straight corridor from `(sx, sy)` to `(dx, dy)` into `floors`,
/// walking unit steps along each non-zero axis. The destination tile is
/// visited only when `include_end` is set. Duplicate tiles are no-ops.
pub fn build_straight_corridor(
    floors: &mut FloorCoordinateSet,
    sx: i32,
    sy: i32,
    dx: i32,
    dy: i32,
    include_end: bool,
)
    requires
        old(floors).wf(),
        sx == dx || sy == dy,
        in_coord_range(sx as int) && in_coord_range(sy as int),
        in_coord_range(dx as int) && in_coord_range(dy as int),
    ensures
        final(floors).wf(),
        old(floors)@.is_prefix_of(final(floors)@),
        forall|p: (i32, i32)|
            final(floors)@.contains(p) <==> old(floors)@.contains(p) || straight_seq(
                sx as int,
                sy as int,
                dx as int,
                dy as int,
                include_end,
            ).contains(p),
        old(floors)@.len() == 0 ==> final(floors)@ == straight_seq(
            sx as int,
            sy as int,
            dx as int,
            dy as int,
            include_end,
        ),
        (sx == dx || sy == dy) && straight_len(sx as int, sy as int, dx as int, dy as int,
            include_end,
        ) >= 2 ==> forall|i: int|
            0 <= i < straight_len(sx as int, sy as int, dx as int, dy as int, include_end)
                ==> tile_connected(
                final(floors)@,
                straight_seq(sx as int, sy as int, dx as int, dy as int, include_end)[i],
            ),
{
    let ghost sq = straight_seq(sx as int, sy as int, dx as int, dy as int, include_end);
    proof {
        lemma_straight_seq_no_duplicates(sx as int, sy as int, dx as int, dy as int, include_end);
    }
    let vx: i32 = if dx > sx {
        1
    } else if dx < sx {
        -1
    } else {
        0
    };
    let vy: i32 = if dy > sy {
        1
    } else if dy < sy {
        -1
    } else {
        0
    };
    let adx: i64 = if dx >= sx {
        dx as i64 - sx as i64
    } else {
        sx as i64 - dx as i64
    };
    let ady: i64 = if dy >= sy {
        dy as i64 - sy as i64
    } else {
        sy as i64 - dy as i64
    };
    let span: i64 = if adx >= ady {
        adx
    } else {
        ady
    };
    let n: i64 = span + if include_end {
        1
    } else {
        0
    };
    assert(n == sq.len());

    let mut x: i32 = sx;
    let mut y: i32 = sy;
    let mut i: i64 = 0;
    while i < n
        invariant
            floors.wf(),
            0 <= i <= n,
            n == sq.len(),
            sq == straight_seq(sx as int, sy as int, dx as int, dy as int, include_end),
            vx == isign(dx as int - sx as int),
            vy == isign(dy as int - sy as int),
            in_coord_range(sx as int) && in_coord_range(sy as int),
            in_coord_range(dx as int) && in_coord_range(dy as int),
            n <= 2 * COORD_LIMIT + 1,
            x == sx as int + i * vx as int,
            y == sy as int + i * vy as int,
            old(floors)@.is_prefix_of(floors@),
            forall|p: (i32, i32)|
                floors@.contains(p) <==> old(floors)@.contains(p) || sq.take(i as int).contains(p),
            old(floors)@.len() == 0 ==> floors@ == sq.take(i as int),
        decreases n - i,
    {
        assert((x, y) == sq[i as int]);
        let ghost pre = floors@;
        proof {
            if old(floors)@.len() == 0 {
                // the next tile is not among the earlier ones, so it is pushed
                assert(sq.no_duplicates());
                if sq.take(i as int).contains(sq[i as int]) {
                    let k = choose|k: int|
                        0 <= k < i && #[trigger] sq.take(i as int)[k] == sq[i as int];
                    assert(sq[k] == sq[i as int]);
                }
            }
        }
        floors.insert(x, y);
        proof {
            assert forall|p: (i32, i32)|
                floors@.contains(p) <==> old(floors)@.contains(p) || sq.take(
                    i as int + 1,
                ).contains(p) by {
                lemma_take_succ_contains(sq, i as int, p);
                if floors@ == pre.push((x, y)) {
                    lemma_push_contains(pre, (x, y), p);
                }
            }
            if old(floors)@.len() == 0 {
                assert(floors@ =~= sq.take(i as int + 1));
            }
        }
        i = i + 1;
        x = x + vx;
        y = y + vy;
    }
    proof {
        assert(sq.take(n as int) =~= sq);
        if (sx == dx || sy == dy) && sq.len() >= 2 {
            lemma_straight_seq_adjacent(sx as int, sy as int, dx as int, dy as int, include_end);
            lemma_straight_seq_no_duplicates(
                sx as int,
                sy as int,
                dx as int,
                dy as int,
                include_end,
            );
            assert forall|k: int| 0 <= k < sq.len() implies tile_connected(floors@, sq[k]) by {
                if k < sq.len() - 1 {
                    assert(adjacent(sq[k], sq[k + 1]));
                    assert(floors@.contains(sq[k + 1]));
                    assert(sq[k + 1] != sq[k]);
                    assert(adjacent(sq[k], sq[k + 1]) ==> adjacent(sq[k], sq[k + 1]));
                } else {
                    assert(adjacent(sq[k - 1], sq[k]));
                    assert(floors@.contains(sq[k - 1]));
                    assert(sq[k - 1] != sq[k]);
                    // adjacency is symmetric by the four cases
                    assert(adjacent(sq[k], sq[k - 1]));
                }
            }
        }
    }
}


/// One random probability draw is an integer from this half-open range,
/// standing for the unit interval in parts per million.
pub const PROB_ONE: i32 = 1000000;

/// The arithmetic core of the detour bound: widening the endpoint
/// magnitude by the lateral offset is paid for by the shrinking span.
proof fn lemma_env_ineq(peak: int, n: int, aoff: int)
    requires
        peak >= 0,
        n >= 6,
        aoff >= 0,
        2 * aoff <= n,
    ensures
        8 * (peak + aoff) + aoff * aoff <= 8 * peak + n * n,
        8 * (peak + aoff) + (n - 4) * (n - 4) <= 8 * peak + n * n,
{
    assert(8 * aoff + aoff * aoff <= n * n) by (nonlinear_arith)
        requires
            n >= 6,
            aoff >= 0,
            2 * aoff <= n,
    ;
    assert(8 * aoff + (n - 4) * (n - 4) <= n * n) by (nonlinear_arith)
        requires
            n >= 6,
            aoff >= 0,
            2 * aoff <= n,
    ;
}

/// The three legs of a sideways detour keep within the scaled bound of
/// the corridor that spawned them.
proof fn lemma_detour_envs(sx: int, sy: int, dx: int, dy: int, off: int)
    requires
        sx == dx || sy == dy,
        imax(iabs(dx - sx), iabs(dy - sy)) >= 6,
        2 * iabs(off) <= imax(iabs(dx - sx), iabs(dy - sy)),
    ensures
        ({
            let vx = isign(dx - sx);
            let vy = isign(dy - sy);
            let n = imax(iabs(dx - sx), iabs(dy - sy));
            let e0x = sx + 2 * vx;
            let e0y = sy + 2 * vy;
            let e1x = sx + (n - 2) * vx;
            let e1y = sy + (n - 2) * vy;
            let l1x = e0x + off * vy;
            let l1y = e0y - off * vx;
            let l2x = e1x + off * vy;
            let l2y = e1y - off * vx;
            &&& corridor_env(e0x, e0y, l1x, l1y) <= corridor_env(sx, sy, dx, dy)
            &&& corridor_env(l1x, l1y, l2x, l2y) <= corridor_env(sx, sy, dx, dy)
            &&& corridor_env(l2x, l2y, e1x, e1y) <= corridor_env(sx, sy, dx, dy)
        }),
{
    let vx = isign(dx - sx);
    let vy = isign(dy - sy);
    let n = imax(iabs(dx - sx), iabs(dy - sy));
    let peak = imax(imax(iabs(sx), iabs(sy)), imax(iabs(dx), iabs(dy)));
    let aoff = iabs(off);
    let e0x = sx + 2 * vx;
    let e0y = sy + 2 * vy;
    let e1x = sx + (n - 2) * vx;
    let e1y = sy + (n - 2) * vy;
    let l1x = e0x + off * vy;
    let l1y = e0y - off * vx;
    let l2x = e1x + off * vy;
    let l2y = e1y - off * vx;
    lemma_env_ineq(peak, n, aoff);
    if sy == dy {
        // horizontal corridor; the detour swings along the y axis
        if dx > sx {
            assert(2 * vx == 2 && (n - 2) * vx == n - 2 && off * vx == off && off * vy == 0);
        } else {
            assert(2 * vx == -2 && (n - 2) * vx == -(n - 2) && off * vx == -off && off * vy == 0);
        }
        assert(iabs(e0x) <= peak && iabs(e1x) <= peak);
        assert(iabs(l1y) <= peak + aoff && iabs(l2y) <= peak + aoff);
        assert(corridor_env(e0x, e0y, l1x, l1y) <= 8 * (peak + aoff) + aoff * aoff);
        assert(corridor_env(l1x, l1y, l2x, l2y) <= 8 * (peak + aoff) + (n - 4) * (n - 4));
        assert(corridor_env(l2x, l2y, e1x, e1y) <= 8 * (peak + aoff) + aoff * aoff);
    } else {
        // vertical corridor; the detour swings along the x axis
        if dy > sy {
            assert(2 * vy == 2 && (n - 2) * vy == n - 2 && off * vy == off && off * vx == 0);
        } else {
            assert(2 * vy == -2 && (n - 2) * vy == -(n - 2) && off * vy == -off && off * vx == 0);
        }
        assert(iabs(e0y) <= peak && iabs(e1y) <= peak);
        assert(iabs(l1x) <= peak + aoff && iabs(l2x) <= peak + aoff);
        assert(corridor_env(e0x, e0y, l1x, l1y) <= 8 * (peak + aoff) + aoff * aoff);
        assert(corridor_env(l1x, l1y, l2x, l2y) <= 8 * (peak + aoff) + (n - 4) * (n - 4));
        assert(corridor_env(l2x, l2y, e1x, e1y) <= 8 * (peak + aoff) + aoff * aoff);
    }
}


/// The sequence `f1` extends `f0` with tiles that are all 4-connected
/// within `f1` and bounded by `env`.
pub open spec fn connected_extension(f0: Seq<(i32, i32)>, f1: Seq<(i32, i32)>, env: int) -> bool {
    &&& f0.is_prefix_of(f1)
    &&& forall|q: (i32, i32)|
        f1.contains(q) && !f0.contains(q) ==> tile_connected(f1, q) && within_env(q, env)
}

/// What one corridor-carving call from `s` to `d` leaves behind: the
/// tile sequence is extended, both endpoints are present, every new tile
/// is bounded, and every tile is 4-connected — except that a fully
/// degenerate call (`s == d`) may leave its single tile on its own.
pub open spec fn carved_corridor(
    f0: Seq<(i32, i32)>,
    f1: Seq<(i32, i32)>,
    env: int,
    s: (i32, i32),
    d: (i32, i32),
) -> bool {
    &&& f0.is_prefix_of(f1)
    &&& f1.contains(s)
    &&& f1.contains(d)
    &&& forall|q: (i32, i32)|
        f1.contains(q) && !f0.contains(q) ==> within_env(q, env) && (tile_connected(f1, q) || (s
            == d && q == s))
    &&& (s != d ==> tile_connected(f1, s) && tile_connected(f1, d))
    &&& path_between(f1, s, d)
}

/// Five carving stages, each a connected extension, compose to one.
proof fn lemma_compose_stages(
    f0: Seq<(i32, i32)>,
    f1: Seq<(i32, i32)>,
    f2: Seq<(i32, i32)>,
    f3: Seq<(i32, i32)>,
    f4: Seq<(i32, i32)>,
    f5: Seq<(i32, i32)>,
    env: int,
)
    requires
        connected_extension(f0, f1, env),
        connected_extension(f1, f2, env),
        connected_extension(f2, f3, env),
        connected_extension(f3, f4, env),
        connected_extension(f4, f5, env),
    ensures
        connected_extension(f0, f5, env),
{
    lemma_prefix_trans(f0, f1, f2);
    lemma_prefix_trans(f0, f2, f3);
    lemma_prefix_trans(f0, f3, f4);
    lemma_prefix_trans(f0, f4, f5);
    lemma_prefix_trans(f1, f2, f3);
    lemma_prefix_trans(f1, f3, f4);
    lemma_prefix_trans(f1, f4, f5);
    lemma_prefix_trans(f2, f3, f4);
    lemma_prefix_trans(f2, f4, f5);
    lemma_prefix_trans(f3, f4, f5);
    assert forall|q: (i32, i32)| f5.contains(q) && !f0.contains(q) implies tile_connected(f5, q)
        && within_env(q, env) by {
        if f1.contains(q) {
            lemma_prefix_connected(f1, f5, q);
        } else if f2.contains(q) {
            lemma_prefix_connected(f2, f5, q);
        } else if f3.contains(q) {
            lemma_prefix_connected(f3, f5, q);
        } else if f4.contains(q) {
            lemma_prefix_connected(f4, f5, q);
        }
    }
}

/// A carved corridor whose degenerate start would be reachable anyway is
/// a connected extension, under any wider bound.
proof fn lemma_carved_to_extension(
    f0: Seq<(i32, i32)>,
    f1: Seq<(i32, i32)>,
    e1: int,
    e2: int,
    s: (i32, i32),
    d: (i32, i32),
)
    requires
        carved_corridor(f0, f1, e1, s, d),
        e1 <= e2,
        s == d ==> tile_connected(f0, s),
    ensures
        connected_extension(f0, f1, e2),
        tile_connected(f1, s),
        tile_connected(f1, d),
{
    if s == d {
        lemma_prefix_connected(f0, f1, s);
    }
    assert forall|q: (i32, i32)| f1.contains(q) && !f0.contains(q) implies tile_connected(f1, q)
        && within_env(q, e2) by {}
}

/// A connected extension that contains two connected endpoints is a
/// carved corridor between them.
proof fn lemma_extension_to_carved(
    f0: Seq<(i32, i32)>,
    f1: Seq<(i32, i32)>,
    env: int,
    s: (i32, i32),
    d: (i32, i32),
)
    requires
        connected_extension(f0, f1, env),
        f1.contains(s),
        f1.contains(d),
        tile_connected(f1, s),
        tile_connected(f1, d),
        path_between(f1, s, d),
    ensures
        carved_corridor(f0, f1, env, s, d),
{
    assert forall|q: (i32, i32)| f1.contains(q) && !f0.contains(q) implies within_env(q, env) && (
    tile_connected(f1, q) || (s == d && q == s)) by {}
}

/// Multiplying by a unit factor is an offset by that magnitude.
proof fn lemma_mul_unit(a: int, v: int)
    requires
        -1 <= v <= 1,
    ensures
        v == 1 ==> a * v == a,
        v == -1 ==> a * v == -a,
        v == 0 ==> a * v == 0,
        iabs(a * v) <= iabs(a),
{
    if v == 1 {
        assert(a * 1 == a);
    } else if v == -1 {
        assert(a * -1 == -a);
    } else {
        assert(a * 0 == 0);
    }
}

/// The second stub tile neighbours the stub's far end.
proof fn lemma_stub_neighbor(sx: i32, sy: i32, vx: i32, vy: i32, e0x: i32, e0y: i32)
    requires
        (vx == 0 || vy == 0) && (vx != 0 || vy != 0),
        -1 <= vx <= 1 && -1 <= vy <= 1,
        in_coord_range(sx as int) && in_coord_range(sy as int),
        e0x as int == sx as int + 2 * (vx as int),
        e0y as int == sy as int + 2 * (vy as int),
    ensures
        ((sx + vx) as i32, (sy + vy) as i32) != (e0x, e0y),
        adjacent((e0x, e0y), ((sx + vx) as i32, (sy + vy) as i32)),
        adjacent(((sx + vx) as i32, (sy + vy) as i32), (e0x, e0y)),
{
    if vx == 1 {
        assert(e0x == sx + 2 && e0y == sy);
    } else if vx == -1 {
        assert(e0x == sx - 2 && e0y == sy);
    } else if vy == 1 {
        assert(e0x == sx && e0y == sy + 2);
    } else {
        assert(e0x == sx && e0y == sy - 2);
    }
}

/// All geometric facts about one detour, derived from the corridor's
/// endpoints, the lateral offset, and the derived leg points.
proof fn lemma_detour_geometry(
    sx: int,
    sy: int,
    dx: int,
    dy: int,
    off: int,
    vx: int,
    vy: int,
    n: int,
    e0x: int,
    e0y: int,
    e1x: int,
    e1y: int,
    l1x: int,
    l1y: int,
    l2x: int,
    l2y: int,
)
    requires
        sx == dx || sy == dy,
        n == imax(iabs(dx - sx), iabs(dy - sy)),
        n >= 6,
        2 * iabs(off) <= n,
        vx == isign(dx - sx),
        vy == isign(dy - sy),
        e0x == sx + 2 * vx,
        e0y == sy + 2 * vy,
        e1x == sx + (n - 2) * vx,
        e1y == sy + (n - 2) * vy,
        l1x == e0x + off * vy,
        l1y == e0y - off * vx,
        l2x == e1x + off * vy,
        l2y == e1y - off * vx,
    ensures
        corridor_env(e0x, e0y, l1x, l1y) <= corridor_env(sx, sy, dx, dy),
        corridor_env(l1x, l1y, l2x, l2y) <= corridor_env(sx, sy, dx, dy),
        corridor_env(l2x, l2y, e1x, e1y) <= corridor_env(sx, sy, dx, dy),
        e0x == l1x || e0y == l1y,
        l1x == l2x || l1y == l2y,
        l2x == e1x || l2y == e1y,
        (l1x, l1y) != (l2x, l2y),
        imax(iabs(l1x - e0x), iabs(l1y - e0y)) < n,
        imax(iabs(l2x - l1x), iabs(l2y - l1y)) < n,
        imax(iabs(e1x - l2x), iabs(e1y - l2y)) < n,
        (e1x == dx && iabs(dy - e1y) == 2) || (e1y == dy && iabs(dx - e1x) == 2),
        8 * imax(imax(iabs(e1x), iabs(e1y)), imax(iabs(dx), iabs(dy))) <= corridor_env(
            sx,
            sy,
            dx,
            dy,
        ),
        iabs(e0x) <= imax(imax(iabs(sx), iabs(sy)), imax(iabs(dx), iabs(dy))) + 2,
        iabs(e0y) <= imax(imax(iabs(sx), iabs(sy)), imax(iabs(dx), iabs(dy))) + 2,
        8 * imax(imax(iabs(sx), iabs(sy)), imax(iabs(dx), iabs(dy))) + 36 <= corridor_env(
            sx,
            sy,
            dx,
            dy,
        ),
{
    lemma_detour_envs(sx, sy, dx, dy, off);
    assert(n * n >= 36) by (nonlinear_arith)
        requires
            n >= 6,
    ;
    if sy == dy {
        if dx > sx {
            assert(2 * vx == 2 && (n - 2) * vx == n - 2 && off * vx == off && off * vy == 0 && 2
                * vy == 0 && (n - 2) * vy == 0);
        } else {
            assert(2 * vx == -2 && (n - 2) * vx == -(n - 2) && off * vx == -off && off * vy == 0
                && 2 * vy == 0 && (n - 2) * vy == 0);
        }
    } else {
        if dy > sy {
            assert(2 * vy == 2 && (n - 2) * vy == n - 2 && off * vy == off && off * vx == 0 && 2
                * vx == 0 && (n - 2) * vx == 0);
        } else {
            assert(2 * vy == -2 && (n - 2) * vy == -(n - 2) && off * vy == -off && off * vx == 0
                && 2 * vx == 0 && (n - 2) * vx == 0);
        }
    }
}

/// Carves a corridor from `(sx, sy)` to `(dx, dy)` along a single axis,
/// either as one straight run (when the span is short or the probability
/// draw exceeds `wriggle_prob`) or as a recursively subdivided sideways
/// detour. The corridor may only run along one axis: a diagonal request
/// is a caller bug, which the precondition rules out.
pub fn subdivide_corridor(
    floors: &mut FloorCoordinateSet,
    rng: &mut RandomSource,
    sx: i32,
    sy: i32,
    dx: i32,
    dy: i32,
    wriggle_prob: i32,
)
    requires
        old(floors).wf(),
        sx == dx || sy == dy,
        corridor_env(sx as int, sy as int, dx as int, dy as int) <= 8 * (COORD_LIMIT as int),
    ensures
        final(floors).wf(),
        carved_corridor(
            old(floors)@,
            final(floors)@,
            corridor_env(sx as int, sy as int, dx as int, dy as int),
            (sx, sy),
            (dx, dy),
        ),
        imax(iabs(dx as int - sx as int), iabs(dy as int - sy as int)) < 6 ==> (forall|
            p: (i32, i32),
        |
            final(floors)@.contains(p) <==> old(floors)@.contains(p) || straight_seq(
                sx as int,
                sy as int,
                dx as int,
                dy as int,
                true,
            ).contains(p)) && (old(floors)@.len() == 0 ==> final(floors)@ == straight_seq(
            sx as int,
            sy as int,
            dx as int,
            dy as int,
            true,
        )),
    decreases imax(iabs(dx as int - sx as int), iabs(dy as int - sy as int)), 2int,
{
    let ghost env = corridor_env(sx as int, sy as int, dx as int, dy as int);
    let adx: i32 = if dx >= sx {
        dx - sx
    } else {
        sx - dx
    };
    let ady: i32 = if dy >= sy {
        dy - sy
    } else {
        sy - dy
    };
    let n: i32 = if adx >= ady {
        adx
    } else {
        ady
    };
    assert(n == imax(iabs(dx as int - sx as int), iabs(dy as int - sy as int)));

    let p: i32 = rng.next_in_range(0, PROB_ONE);

    if n < 6 || p > wriggle_prob {
        // too short to be wriggled, or the draw says straight;
        // build straight and include the end piece
        carve_straight_run(floors, sx, sy, dx, dy, n);
    } else {
        let ghost f0 = floors@;
        carve_detour(floors, rng, sx, sy, dx, dy, wriggle_prob, n);
        proof {
            assert((sx, sy) != (dx, dy));
            lemma_extension_to_carved(f0, floors@, env, (sx, sy), (dx, dy));
        }
    }
}

/// Lays one straight corridor run including its end tile, packaged as a
/// carved corridor.
fn carve_straight_run(floors: &mut FloorCoordinateSet, sx: i32, sy: i32, dx: i32, dy: i32, n: i32)
    requires
        old(floors).wf(),
        sx == dx || sy == dy,
        corridor_env(sx as int, sy as int, dx as int, dy as int) <= 8 * (COORD_LIMIT as int),
        n == imax(iabs(dx as int - sx as int), iabs(dy as int - sy as int)),
    ensures
        final(floors).wf(),
        carved_corridor(
            old(floors)@,
            final(floors)@,
            corridor_env(sx as int, sy as int, dx as int, dy as int),
            (sx, sy),
            (dx, dy),
        ),
        forall|p: (i32, i32)|
            final(floors)@.contains(p) <==> old(floors)@.contains(p) || straight_seq(
                sx as int,
                sy as int,
                dx as int,
                dy as int,
                true,
            ).contains(p),
        old(floors)@.len() == 0 ==> final(floors)@ == straight_seq(
            sx as int,
            sy as int,
            dx as int,
            dy as int,
            true,
        ),
{
    let ghost env = corridor_env(sx as int, sy as int, dx as int, dy as int);
    let ghost f0 = floors@;
    let ghost sq = straight_seq(sx as int, sy as int, dx as int, dy as int, true);
    proof {
        assert(in_coord_range(sx as int) && in_coord_range(sy as int) && in_coord_range(dx as int)
            && in_coord_range(dy as int));
    }
    build_straight_corridor(floors, sx, sy, dx, dy, true);
    proof {
        assert(sq[0] == (sx, sy));
        assert(sq[n as int] == (dx, dy)) by {
            if dx > sx {
                assert(sx + n * 1 == dx);
            } else if dx < sx {
                assert(sx + n * -1 == dx);
            } else if dy > sy {
                assert(sy + n * 1 == dy);
            } else if dy < sy {
                assert(dx == sx);
                assert(iabs(dx as int - sx as int) == 0);
                assert(iabs(dy as int - sy as int) == sy - dy);
                assert(n == sy - dy);
                assert(sy + n * -1 == dy);
            }
        }
        assert(floors@.contains((sx, sy)));
        assert(floors@.contains((dx, dy)));
        lemma_straight_tiles_in_box(sx as int, sy as int, dx as int, dy as int, true);
        if (sx, sy) == (dx, dy) {
            assert(sq.len() == 1);
            assert forall|q: (i32, i32)|
                floors@.contains(q) && !f0.contains(q) implies within_env(q, env) && (
            tile_connected(floors@, q) || ((sx, sy) == (dx, dy) && q == (sx, sy))) by {
                let k = choose|k: int| 0 <= k < sq.len() && #[trigger] sq[k] == q;
                assert(q == straight_tile(sx as int, sy as int, dx as int, dy as int, k));
            }
        } else {
            assert(sq.len() >= 2);
            assert forall|q: (i32, i32)|
                floors@.contains(q) && !f0.contains(q) implies within_env(q, env) && (
            tile_connected(floors@, q) || ((sx, sy) == (dx, dy) && q == (sx, sy))) by {
                let k = choose|k: int| 0 <= k < sq.len() && #[trigger] sq[k] == q;
                assert(q == straight_tile(sx as int, sy as int, dx as int, dy as int, k));
                assert(tile_connected(
                    floors@,
                    straight_seq(sx as int, sy as int, dx as int, dy as int, true)[k],
                ));
            }
            assert(tile_connected(
                floors@,
                straight_seq(sx as int, sy as int, dx as int, dy as int, true)[0],
            ));
            assert(tile_connected(
                floors@,
                straight_seq(sx as int, sy as int, dx as int, dy as int, true)[n as int],
            ));
        }
        // the straight walk itself joins the two endpoints
        lemma_straight_seq_adjacent(sx as int, sy as int, dx as int, dy as int, true);
        assert forall|i: int| 0 <= i < sq.len() implies floors@.contains(#[trigger] sq[i]) by {
            assert(sq.contains(sq[i]));
        }
        assert(crate::floor_set::is_walk(floors@, sq, (sx, sy), (dx, dy)));
        assert(path_between(floors@, (sx, sy), (dx, dy)));
    }
}

/// The recursive wriggle case: a short stub out of each end and a
/// three-legged sideways detour in between, each leg itself a corridor.
#[verifier::rlimit(100)]
fn carve_detour(
    floors: &mut FloorCoordinateSet,
    rng: &mut RandomSource,
    sx: i32,
    sy: i32,
    dx: i32,
    dy: i32,
    wriggle_prob: i32,
    n: i32,
)
    requires
        old(floors).wf(),
        sx == dx || sy == dy,
        corridor_env(sx as int, sy as int, dx as int, dy as int) <= 8 * (COORD_LIMIT as int),
        n == imax(iabs(dx as int - sx as int), iabs(dy as int - sy as int)),
        n >= 6,
    ensures
        final(floors).wf(),
        connected_extension(
            old(floors)@,
            final(floors)@,
            corridor_env(sx as int, sy as int, dx as int, dy as int),
        ),
        final(floors)@.contains((sx, sy)),
        final(floors)@.contains((dx, dy)),
        tile_connected(final(floors)@, (sx, sy)),
        tile_connected(final(floors)@, (dx, dy)),
        path_between(final(floors)@, (sx, sy), (dx, dy)),
    decreases imax(iabs(dx as int - sx as int), iabs(dy as int - sy as int)), 1int,
{
    let ghost env = corridor_env(sx as int, sy as int, dx as int, dy as int);
    let ghost peak = imax(
        imax(iabs(sx as int), iabs(sy as int)),
        imax(iabs(dx as int), iabs(dy as int)),
    );
    let vx: i32 = if dx > sx {
        1
    } else if dx < sx {
        -1
    } else {
        0
    };
    let vy: i32 = if dy > sy {
        1
    } else if dy < sy {
        -1
    } else {
        0
    };
    let min: i32 = 2;
    let max: i32 = n - 2;
    let ghost f0 = floors@;
    proof {
        lemma_mul_unit(min as int, vx as int);
        lemma_mul_unit(min as int, vy as int);
        lemma_mul_unit(max as int, vx as int);
        lemma_mul_unit(max as int, vy as int);
        assert(n as int * n as int >= 36) by (nonlinear_arith)
            requires
                n >= 6,
        ;
    }

    // start stub: a guaranteed straight run out of the room
    let e0x: i32 = sx + min * vx;
    let e0y: i32 = sy + min * vy;
    lay_start_stub(floors, sx, sy, e0x, e0y, vx, vy, Ghost(env), Ghost(peak));
    let ghost f1 = floors@;

    // depth of the sideways turn
    let half: i32 = n / 2;
    let d: i32 = rng.next_in_range(-half, half);
    proof {
        lemma_mul_unit(d as int, vx as int);
        lemma_mul_unit(d as int, vy as int);
    }

    // the three legs of the U-shaped detour
    let l1x: i32 = e0x + d * vy;
    let l1y: i32 = e0y - d * vx;
    let e1x: i32 = sx + max * vx;
    let e1y: i32 = sy + max * vy;
    let l2x: i32 = e1x + d * vy;
    let l2y: i32 = e1y - d * vx;

    proof {
        lemma_detour_geometry(
            sx as int,
            sy as int,
            dx as int,
            dy as int,
            d as int,
            vx as int,
            vy as int,
            n as int,
            e0x as int,
            e0y as int,
            e1x as int,
            e1y as int,
            l1x as int,
            l1y as int,
            l2x as int,
            l2y as int,
        );
        lemma_stub_neighbor(sx, sy, vx, vy, e0x, e0y);
        if (e0x, e0y) == (l1x, l1y) {
            assert(f1.contains(((sx + vx) as i32, (sy + vy) as i32)));
            assert(tile_connected(f1, (e0x, e0y)));
        }
    }
    carve_legs(
        floors,
        rng,
        e0x,
        e0y,
        l1x,
        l1y,
        l2x,
        l2y,
        e1x,
        e1y,
        sx,
        sy,
        dx,
        dy,
        wriggle_prob,
        Ghost(f0),
        Ghost(env),
        Ghost(((sx + vx) as i32, (sy + vy) as i32)),
    );
}

/// The three legs of the detour and the end piece, carved in order.
fn carve_legs(
    floors: &mut FloorCoordinateSet,
    rng: &mut RandomSource,
    e0x: i32,
    e0y: i32,
    l1x: i32,
    l1y: i32,
    l2x: i32,
    l2y: i32,
    e1x: i32,
    e1y: i32,
    sx: i32,
    sy: i32,
    dx: i32,
    dy: i32,
    wriggle_prob: i32,
    Ghost(f0): Ghost<Seq<(i32, i32)>>,
    Ghost(env): Ghost<int>,
    Ghost(sb): Ghost<(i32, i32)>,
)
    requires
        old(floors).wf(),
        env <= 8 * (COORD_LIMIT as int),
        connected_extension(f0, old(floors)@, env),
        old(floors)@.contains((sx, sy)),
        tile_connected(old(floors)@, (sx, sy)),
        old(floors)@.contains(sb),
        path_between(old(floors)@, (sx, sy), sb),
        adjacent(sb, (e0x, e0y)) || sb == (e0x, e0y),
        (e0x == l1x || e0y == l1y),
        (l1x == l2x || l1y == l2y),
        (l2x == e1x || l2y == e1y),
        (l1x, l1y) != (l2x, l2y),
        (e0x, e0y) == (l1x, l1y) ==> tile_connected(old(floors)@, (e0x, e0y)),
        corridor_env(e0x as int, e0y as int, l1x as int, l1y as int) <= env,
        corridor_env(l1x as int, l1y as int, l2x as int, l2y as int) <= env,
        corridor_env(l2x as int, l2y as int, e1x as int, e1y as int) <= env,
        (e1x == dx && iabs(dy as int - e1y as int) == 2) || (e1y == dy && iabs(
            dx as int - e1x as int,
        ) == 2),
        8 * imax(
            imax(iabs(e1x as int), iabs(e1y as int)),
            imax(iabs(dx as int), iabs(dy as int)),
        ) <= env,
    ensures
        final(floors).wf(),
        connected_extension(f0, final(floors)@, env),
        final(floors)@.contains((sx, sy)),
        final(floors)@.contains((dx, dy)),
        tile_connected(final(floors)@, (sx, sy)),
        tile_connected(final(floors)@, (dx, dy)),
        path_between(final(floors)@, (sx, sy), (dx, dy)),
    decreases imax(
        imax(
            imax(iabs(l1x as int - e0x as int), iabs(l1y as int - e0y as int)),
            imax(iabs(l2x as int - l1x as int), iabs(l2y as int - l1y as int)),
        ),
        imax(iabs(e1x as int - l2x as int), iabs(e1y as int - l2y as int)),
    ), 4int,
{
    let ghost f1 = floors@;

    lay_leg(floors, rng, e0x, e0y, l1x, l1y, wriggle_prob, Ghost(env));
    let ghost f2 = floors@;
    proof {
        // the walk from the start reaches the first leg through the stub
        lemma_path_grow(f1, f2, (sx, sy), sb);
        lemma_prefix_contains(f1, f2, sb);
        lemma_path_step(f2, sb, (e0x, e0y));
        lemma_path_trans(f2, (sx, sy), sb, (e0x, e0y));
        lemma_path_trans(f2, (sx, sy), (e0x, e0y), (l1x, l1y));
    }

    lay_leg(floors, rng, l1x, l1y, l2x, l2y, wriggle_prob, Ghost(env));
    let ghost f3 = floors@;
    proof {
        lemma_path_grow(f2, f3, (sx, sy), (l1x, l1y));
        lemma_path_trans(f3, (sx, sy), (l1x, l1y), (l2x, l2y));
    }

    lay_leg(floors, rng, l2x, l2y, e1x, e1y, wriggle_prob, Ghost(env));
    let ghost f4 = floors@;
    proof {
        lemma_path_grow(f3, f4, (sx, sy), (l2x, l2y));
        lemma_path_trans(f4, (sx, sy), (l2x, l2y), (e1x, e1y));
    }

    proof {
        lemma_compose_stages(f0, f1, f2, f3, f4, f4, env);
        lemma_prefix_trans(f1, f2, f3);
        lemma_prefix_trans(f1, f3, f4);
        lemma_prefix_contains(f1, f4, (sx, sy));
        lemma_prefix_connected(f1, f4, (sx, sy));
    }
    finish_detour(floors, sx, sy, dx, dy, e1x, e1y, Ghost(f0), Ghost(env));
}

/// Lays the short straight stub with which every detour leaves its start
/// point, and records that both of its tiles are connected.
fn lay_start_stub(
    floors: &mut FloorCoordinateSet,
    sx: i32,
    sy: i32,
    e0x: i32,
    e0y: i32,
    vx: i32,
    vy: i32,
    Ghost(env): Ghost<int>,
    Ghost(peak): Ghost<int>,
)
    requires
        old(floors).wf(),
        (vx == 0 || vy == 0) && (vx != 0 || vy != 0),
        -1 <= vx <= 1 && -1 <= vy <= 1,
        e0x as int == sx as int + 2 * (vx as int),
        e0y as int == sy as int + 2 * (vy as int),
        iabs(sx as int) <= peak && iabs(sy as int) <= peak,
        iabs(e0x as int) <= peak + 2,
        iabs(e0y as int) <= peak + 2,
        8 * peak + 36 <= env,
        env <= 8 * (COORD_LIMIT as int),
    ensures
        final(floors).wf(),
        connected_extension(old(floors)@, final(floors)@, env),
        final(floors)@.contains((sx, sy)),
        final(floors)@.contains((((sx + vx) as i32), ((sy + vy) as i32))),
        ((sx + vx) as i32, (sy + vy) as i32) != (sx, sy),
        adjacent((sx, sy), ((sx + vx) as i32, (sy + vy) as i32)),
        adjacent(((sx + vx) as i32, (sy + vy) as i32), (sx, sy)),
        tile_connected(final(floors)@, (sx, sy)),
        path_between(final(floors)@, (sx, sy), ((sx + vx) as i32, (sy + vy) as i32)),
{
    let ghost f0 = floors@;
    let ghost stub_sq = straight_seq(sx as int, sy as int, e0x as int, e0y as int, false);
    let ghost s1 = ((sx + vx) as i32, (sy + vy) as i32);
    proof {
        assert(in_coord_range(sx as int) && in_coord_range(sy as int) && in_coord_range(
            e0x as int,
        ) && in_coord_range(e0y as int));
    }
    build_straight_corridor(floors, sx, sy, e0x, e0y, false);
    let ghost f1 = floors@;
    proof {
        assert(straight_len(sx as int, sy as int, e0x as int, e0y as int, false) == 2);
        assert(stub_sq[0] == (sx, sy));
        assert(stub_sq[1] == s1) by {
            if vx == 1 {
                assert(sx + 1 * 1 == sx + vx && sy + 1 * 0 == sy + vy);
            } else if vx == -1 {
                assert(sx + 1 * -1 == sx + vx && sy + 1 * 0 == sy + vy);
            } else if vy == 1 {
                assert(sy + 1 * 1 == sy + vy && sx + 1 * 0 == sx + vx);
            } else {
                assert(sy + 1 * -1 == sy + vy && sx + 1 * 0 == sx + vx);
            }
        }
        lemma_straight_tiles_in_box(sx as int, sy as int, e0x as int, e0y as int, false);
        assert(f1.contains((sx, sy)) && f1.contains(s1));
        assert(s1 != (sx, sy) && adjacent((sx, sy), s1) && adjacent(s1, (sx, sy)));
        lemma_path_step(f1, (sx, sy), s1);
        assert(tile_connected(
            f1,
            straight_seq(sx as int, sy as int, e0x as int, e0y as int, false)[0],
        ));
        assert forall|q: (i32, i32)| f1.contains(q) && !f0.contains(q) implies tile_connected(
            f1,
            q,
        ) && within_env(q, env) by {
            let k = choose|k: int| 0 <= k < stub_sq.len() && #[trigger] stub_sq[k] == q;
            assert(q == straight_tile(sx as int, sy as int, e0x as int, e0y as int, k));
            assert(tile_connected(
                f1,
                straight_seq(sx as int, sy as int, e0x as int, e0y as int, false)[k],
            ));
        }
    }
}

/// One leg of a detour: a corridor whose tiles all end up connected. A
/// leg that collapses to a single tile must start somewhere already
/// reachable, which the precondition records.
fn lay_leg(
    floors: &mut FloorCoordinateSet,
    rng: &mut RandomSource,
    sx: i32,
    sy: i32,
    dx: i32,
    dy: i32,
    wriggle_prob: i32,
    Ghost(env): Ghost<int>,
)
    requires
        old(floors).wf(),
        sx == dx || sy == dy,
        corridor_env(sx as int, sy as int, dx as int, dy as int) <= env,
        env <= 8 * (COORD_LIMIT as int),
        (sx, sy) == (dx, dy) ==> tile_connected(old(floors)@, (sx, sy)),
    ensures
        final(floors).wf(),
        connected_extension(old(floors)@, final(floors)@, env),
        final(floors)@.contains((sx, sy)),
        final(floors)@.contains((dx, dy)),
        tile_connected(final(floors)@, (sx, sy)),
        tile_connected(final(floors)@, (dx, dy)),
        path_between(final(floors)@, (sx, sy), (dx, dy)),
    decreases imax(iabs(dx as int - sx as int), iabs(dy as int - sy as int)), 3int,
{
    let ghost f0 = floors@;
    subdivide_corridor(floors, rng, sx, sy, dx, dy, wriggle_prob);
    proof {
        lemma_carved_to_extension(
            f0,
            floors@,
            corridor_env(sx as int, sy as int, dx as int, dy as int),
            env,
            (sx, sy),
            (dx, dy),
        );
    }
}

/// Lays the end piece into the destination and closes the carving
/// argument: everything laid since `f0` is connected and bounded.
fn finish_detour(
    floors: &mut FloorCoordinateSet,
    sx: i32,
    sy: i32,
    dx: i32,
    dy: i32,
    e1x: i32,
    e1y: i32,
    Ghost(f0): Ghost<Seq<(i32, i32)>>,
    Ghost(env): Ghost<int>,
)
    requires
        old(floors).wf(),
        env <= 8 * (COORD_LIMIT as int),
        (e1x == dx && iabs(dy as int - e1y as int) == 2) || (e1y == dy && iabs(
            dx as int - e1x as int,
        ) == 2),
        8 * imax(
            imax(iabs(e1x as int), iabs(e1y as int)),
            imax(iabs(dx as int), iabs(dy as int)),
        ) <= env,
        connected_extension(f0, old(floors)@, env),
        old(floors)@.contains((sx, sy)),
        tile_connected(old(floors)@, (sx, sy)),
        path_between(old(floors)@, (sx, sy), (e1x, e1y)),
    ensures
        final(floors).wf(),
        connected_extension(f0, final(floors)@, env),
        final(floors)@.contains((sx, sy)),
        final(floors)@.contains((dx, dy)),
        tile_connected(final(floors)@, (sx, sy)),
        tile_connected(final(floors)@, (dx, dy)),
        path_between(final(floors)@, (sx, sy), (dx, dy)),
{
    let ghost f4 = floors@;
    let ghost end_sq = straight_seq(e1x as int, e1y as int, dx as int, dy as int, true);
    proof {
        assert(in_coord_range(e1x as int) && in_coord_range(e1y as int) && in_coord_range(
            dx as int,
        ) && in_coord_range(dy as int));
    }
    build_straight_corridor(floors, e1x, e1y, dx, dy, true);
    proof {
        let f5 = floors@;
        assert(straight_len(e1x as int, e1y as int, dx as int, dy as int, true) == 3);
        assert(end_sq[0] == (e1x, e1y));
        assert(end_sq[2] == (dx, dy)) by {
            if e1x == dx {
                if dy > e1y {
                    assert(e1y + 2 * 1 == dy && e1x + 2 * 0 == dx);
                } else {
                    assert(e1y + 2 * -1 == dy && e1x + 2 * 0 == dx);
                }
            } else {
                if dx > e1x {
                    assert(e1x + 2 * 1 == dx && e1y + 2 * 0 == dy);
                } else {
                    assert(e1x + 2 * -1 == dx && e1y + 2 * 0 == dy);
                }
            }
        }
        lemma_straight_tiles_in_box(e1x as int, e1y as int, dx as int, dy as int, true);
        assert(f5.contains((dx, dy)));
        assert(tile_connected(f5, (dx, dy))) by {
            assert(tile_connected(
                f5,
                straight_seq(e1x as int, e1y as int, dx as int, dy as int, true)[2],
            ));
        }
        assert forall|q: (i32, i32)| f5.contains(q) && !f4.contains(q) implies tile_connected(
            f5,
            q,
        ) && within_env(q, env) by {
            let k = choose|k: int| 0 <= k < end_sq.len() && #[trigger] end_sq[k] == q;
            assert(q == straight_tile(e1x as int, e1y as int, dx as int, dy as int, k));
            assert(tile_connected(
                f5,
                straight_seq(e1x as int, e1y as int, dx as int, dy as int, true)[k],
            ));
        }
        lemma_compose_stages(f0, f4, f5, f5, f5, f5, env);
        lemma_prefix_contains(f4, f5, (sx, sy));
        lemma_prefix_connected(f4, f5, (sx, sy));
        // the end piece extends the walk from the start to the destination
        lemma_path_grow(f4, f5, (sx, sy), (e1x, e1y));
        lemma_straight_seq_adjacent(e1x as int, e1y as int, dx as int, dy as int, true);
        assert forall|i: int| 0 <= i < end_sq.len() implies f5.contains(#[trigger] end_sq[i]) by {
            assert(end_sq.contains(end_sq[i]));
        }
        assert(crate::floor_set::is_walk(f5, end_sq, (e1x, e1y), (dx, dy)));
        assert(path_between(f5, (e1x, e1y), (dx, dy)));
        lemma_path_trans(f5, (sx, sy), (e1x, e1y), (dx, dy));
    }
}


/// An L-route's corner keeps both legs inside the corridor's bound.
proof fn lemma_corner_env(sx: int, sy: int, dx: int, dy: int, cx: int, cy: int)
    requires
        (cx == sx && cy == dy) || (cx == dx && cy == sy),
    ensures
        corridor_env(sx, sy, cx, cy) <= corridor_env(sx, sy, dx, dy),
        corridor_env(cx, cy, dx, dy) <= corridor_env(sx, sy, dx, dy),
{
    let span = imax(iabs(dx - sx), iabs(dy - sy));
    let s1 = imax(iabs(cx - sx), iabs(cy - sy));
    let s2 = imax(iabs(dx - cx), iabs(dy - cy));
    assert(s1 * s1 <= span * span) by (nonlinear_arith)
        requires
            0 <= s1 <= span,
    ;
    assert(s2 * s2 <= span * span) by (nonlinear_arith)
        requires
            0 <= s2 <= span,
    ;
}

/// Carves a corridor between two room entrances. An axis-aligned pair is
/// handed to `subdivide_corridor` directly; otherwise one of the two
/// possible L-shaped routes is picked at random and carved as two
/// straight legs.
pub fn build_winded_corridor(
    floors: &mut FloorCoordinateSet,
    rng: &mut RandomSource,
    sx: i32,
    sy: i32,
    dx: i32,
    dy: i32,
    wriggle_prob: i32,
)
    requires
        old(floors).wf(),
        corridor_env(sx as int, sy as int, dx as int, dy as int) <= 8 * (COORD_LIMIT as int),
    ensures
        final(floors).wf(),
        carved_corridor(
            old(floors)@,
            final(floors)@,
            corridor_env(sx as int, sy as int, dx as int, dy as int),
            (sx, sy),
            (dx, dy),
        ),
{
    let ghost env = corridor_env(sx as int, sy as int, dx as int, dy as int);
    if sx == dx || sy == dy {
        // straight corridor
        subdivide_corridor(floors, rng, sx, sy, dx, dy, wriggle_prob);
    } else {
        // L-shaped corridor, split it into two straight parts;
        // there are two routes to choose from
        let ghost f0 = floors@;
        let via_start_column = rng.next_bool();
        let cx: i32;
        let cy: i32;
        if via_start_column {
            cx = sx;
            cy = dy;
        } else {
            cx = dx;
            cy = sy;
        }
        proof {
            lemma_corner_env(sx as int, sy as int, dx as int, dy as int, cx as int, cy as int);
        }
        subdivide_corridor(floors, rng, sx, sy, cx, cy, wriggle_prob);
        let ghost f1 = floors@;
        subdivide_corridor(floors, rng, cx, cy, dx, dy, wriggle_prob);
        let ghost f2 = floors@;
        proof {
            assert((sx, sy) != (cx, cy) && (cx, cy) != (dx, dy));
            lemma_carved_to_extension(
                f0,
                f1,
                corridor_env(sx as int, sy as int, cx as int, cy as int),
                env,
                (sx, sy),
                (cx, cy),
            );
            lemma_carved_to_extension(
                f1,
                f2,
                corridor_env(cx as int, cy as int, dx as int, dy as int),
                env,
                (cx, cy),
                (dx, dy),
            );
            lemma_compose_stages(f0, f1, f2, f2, f2, f2, env);
            lemma_prefix_contains(f1, f2, (sx, sy));
            lemma_prefix_connected(f1, f2, (sx, sy));
            lemma_path_grow(f1, f2, (sx, sy), (cx, cy));
            lemma_path_trans(f2, (sx, sy), (cx, cy), (dx, dy));
            lemma_extension_to_carved(f0, f2, env, (sx, sy), (dx, dy));
        }
    }
}


/// The straight walk from `(sx, sy)` to `(dx, dy)` along one axis visits
/// exactly `max(|dx-sx|, |dy-sy|)` distinct tiles — one more when the end
/// tile is included — and visits `(dx, dy)` itself exactly when the end
/// tile is included.
pub proof fn lemma_straight_corridor_visits(sx: i32, sy: i32, dx: i32, dy: i32, include_end: bool)
    requires
        sx == dx || sy == dy,
        in_coord_range(sx as int) && in_coord_range(sy as int),
        in_coord_range(dx as int) && in_coord_range(dy as int),
    ensures
        straight_seq(sx as int, sy as int, dx as int, dy as int, include_end).len() == imax(
            iabs(dx as int - sx as int),
            iabs(dy as int - sy as int),
        ) + if include_end {
            1int
        } else {
            0int
        },
        straight_seq(sx as int, sy as int, dx as int, dy as int, include_end).no_duplicates(),
        include_end ==> straight_seq(sx as int, sy as int, dx as int, dy as int, true).contains(
            (dx, dy),
        ),
        !include_end ==> !straight_seq(sx as int, sy as int, dx as int, dy as int, false).contains(
            (dx, dy),
        ),
{
    let sq = straight_seq(sx as int, sy as int, dx as int, dy as int, include_end);
    let n = imax(iabs(dx as int - sx as int), iabs(dy as int - sy as int));
    lemma_straight_seq_no_duplicates(sx as int, sy as int, dx as int, dy as int, include_end);
    if include_end {
        assert(sq[n] == (dx, dy)) by {
            if dx > sx {
                assert(dy == sy);
                assert(n == dx - sx);
                assert(sx + n * 1 == dx);
            } else if dx < sx {
                assert(dy == sy);
                assert(n == sx - dx);
                assert(sx + n * -1 == dx);
            } else if dy > sy {
                assert(dx == sx);
                assert(n == dy - sy);
                assert(sy + n * 1 == dy);
            } else if dy < sy {
                assert(dx == sx);
                assert(iabs(dx as int - sx as int) == 0);
                assert(iabs(dy as int - sy as int) == sy - dy);
                assert(n == sy - dy);
                assert(sy + n * -1 == dy);
            } else {
                assert(sx + 0 * isign(dx as int - sx as int) == dx);
                assert(sy + 0 * isign(dy as int - sy as int) == dy);
            }
        }
    } else {
        if sq.contains((dx, dy)) {
            let k = choose|k: int| 0 <= k < sq.len() && #[trigger] sq[k] == (dx, dy);
            if dx > sx {
                assert(sx + k * 1 == sx + k);
                assert(sq[k].0 as int == sx + k);
                assert(k < n && sx + k < dx);
            } else if dx < sx {
                assert(sx + k * -1 == sx - k);
                assert(k < n && sx - k > dx);
            } else if dy > sy {
                assert(sy + k * 1 == sy + k);
                assert(k < n && sy + k < dy);
            } else if dy < sy {
                assert(sy + k * -1 == sy - k);
                assert(k < n && sy - k > dy);
            }
        }
    }
}

} // verus!
