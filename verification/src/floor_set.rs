//! The deduplicated tile footprint of one corridor segment.
//!
//! Tiles are kept in insertion order; inserting a tile that is already
//! present is a harmless no-op. Later passes (wall synthesis, walkable-area
//! registration) walk the tiles in this order.

use vstd::prelude::*;

verus! {

/// Two grid tiles are 4-adjacent when they differ by one step along
/// exactly one axis.
pub open spec fn adjacent(a: (i32, i32), b: (i32, i32)) -> bool {
    ||| (b.0 == a.0 + 1 && b.1 == a.1)
    ||| (b.0 == a.0 - 1 && b.1 == a.1)
    ||| (b.0 == a.0 && b.1 == a.1 + 1)
    ||| (b.0 == a.0 && b.1 == a.1 - 1)
}

/// Tile `p` has at least one 4-neighbour among the tiles of `s` other
/// than itself.
pub open spec fn tile_connected(s: Seq<(i32, i32)>, p: (i32, i32)) -> bool {
    exists|q: (i32, i32)| s.contains(q) && q != p && adjacent(p, q)
}

/// Every tile of a multi-tile set has a 4-neighbour in the same set.
pub open spec fn no_islands(s: Seq<(i32, i32)>) -> bool {
    s.len() > 1 ==> forall|p: (i32, i32)| s.contains(p) ==> #[trigger] tile_connected(s, p)
}

/// A deduplicated, insertion-ordered collection of floor tile coordinates.
pub struct FloorCoordinateSet {
    tiles: Vec<(i32, i32)>,
}

impl View for FloorCoordinateSet {
    type V = Seq<(i32, i32)>;

    closed spec fn view(&self) -> Seq<(i32, i32)> {
        self.tiles@
    }
}

impl FloorCoordinateSet {
    /// The stored tiles are pairwise distinct.
    pub open spec fn wf(self) -> bool {
        self@.no_duplicates()
    }

    pub fn new() -> (r: FloorCoordinateSet)
        ensures
            r@ =~= Seq::<(i32, i32)>::empty(),
            r.wf(),
    {
        FloorCoordinateSet { tiles: Vec::new() }
    }

    pub fn len(&self) -> (n: usize)
        ensures
            n == self@.len(),
    {
        self.tiles.len()
    }

    /// The tile at position `i` of the insertion order.
    pub fn tile_at(&self, i: usize) -> (p: (i32, i32))
        requires
            i < self@.len(),
        ensures
            p == self@[i as int],
    {
        self.tiles[i]
    }

    pub fn contains(&self, x: i32, y: i32) -> (r: bool)
        ensures
            r == self@.contains((x, y)),
    {
        let n = self.tiles.len();
        let mut i: usize = 0;
        while i < n
            invariant
                n == self@.len(),
                i <= n,
                forall|k: int| 0 <= k < i ==> self@[k] != (x, y),
            decreases n - i,
        {
            let t = self.tiles[i];
            if t.0 == x && t.1 == y {
                return true;
            }
            i += 1;
        }
        false
    }

    /// Membership test for a neighbour offset that may fall outside the
    /// `i32` range; the comparison is made in 64-bit arithmetic.
    pub fn contains_wide(&self, x: i64, y: i64) -> (r: bool)
        ensures
            r == exists|p: (i32, i32)| self@.contains(p) && p.0 == x && p.1 == y,
    {
        let n = self.tiles.len();
        let mut i: usize = 0;
        while i < n
            invariant
                n == self@.len(),
                i <= n,
                forall|k: int| 0 <= k < i ==> !(self@[k].0 == x && self@[k].1 == y),
            decreases n - i,
        {
            let t = self.tiles[i];
            if t.0 as i64 == x && t.1 as i64 == y {
                assert(self@.contains(self@[i as int]));
                return true;
            }
            i += 1;
        }
        false
    }

    /// Inserts the tile unless it is already present.
    pub fn insert(&mut self, x: i32, y: i32)
        requires
            old(self).wf(),
        ensures
            final(self).wf(),
            final(self)@ == if old(self)@.contains((x, y)) {
                old(self)@
            } else {
                old(self)@.push((x, y))
            },
    {
        if !self.contains(x, y) {
            self.tiles.push((x, y));
        }
    }
}


/// A duplicate-free tile sequence whose coordinates all lie within
/// `[-b, b]` cannot hold more tiles than that square has cells.
pub proof fn lemma_bounded_tiles_len(s: Seq<(i32, i32)>, b: int)
    requires
        s.no_duplicates(),
        0 <= b,
        forall|i: int|
            0 <= i < s.len() ==> -b <= (#[trigger] s[i]).0 as int <= b && -b <= s[i].1 as int
                <= b,
    ensures
        s.len() <= (2 * b + 1) * (2 * b + 1),
{
    let m = 2 * b + 1;
    let ks = Seq::new(s.len(), |i: int| (s[i].0 + b) * m + (s[i].1 + b));
    assert forall|i: int, j: int|
        0 <= i < ks.len() && 0 <= j < ks.len() && i != j implies ks[i] != ks[j] by {
        if ks[i] == ks[j] {
            let a1 = s[i].0 + b;
            let c1 = s[i].1 + b;
            let a2 = s[j].0 + b;
            let c2 = s[j].1 + b;
            assert(a1 == a2 && c1 == c2) by (nonlinear_arith)
                requires
                    m > 0,
                    a1 * m + c1 == a2 * m + c2,
                    0 <= c1 < m,
                    0 <= c2 < m,
            ;
            assert(s[i] == s[j]);
        }
    }
    assert forall|i: int| 0 <= i < ks.len() implies 0 <= #[trigger] ks[i] < m * m by {
        let a = s[i].0 + b;
        let c = s[i].1 + b;
        assert(0 <= a * m + c < m * m) by (nonlinear_arith)
            requires
                0 <= a < m,
                0 <= c < m,
                m > 0,
        ;
    }
    ks.unique_seq_to_set();
    assert(ks.to_set().subset_of(vstd::set_lib::set_int_range(0, m * m))) by {
        assert forall|v: int| ks.to_set().contains(v) implies vstd::set_lib::set_int_range(
            0,
            m * m,
        ).contains(v) by {
            let i = choose|i: int| 0 <= i < ks.len() && ks[i] == v;
        }
    }
    vstd::set_lib::lemma_int_range(0, m * m);
    vstd::set_lib::lemma_len_subset(ks.to_set(), vstd::set_lib::set_int_range(0, m * m));
    assert((2 * b + 1) * (2 * b + 1) == m * m);
}


/// A walk through the set from `a` to `b`: every entry is a tile of
/// the set, and consecutive entries are equal or 4-adjacent.
pub open spec fn is_walk(
    s: Seq<(i32, i32)>,
    p: Seq<(i32, i32)>,
    a: (i32, i32),
    b: (i32, i32),
) -> bool {
    &&& p.len() >= 1
    &&& p[0] == a
    &&& p.last() == b
    &&& forall|i: int| 0 <= i < p.len() ==> s.contains(#[trigger] p[i])
    &&& forall|i: int|
        0 <= i < p.len() - 1 ==> adjacent(#[trigger] p[i], p[i + 1]) || p[i] == p[i + 1]
}

/// Tiles `a` and `b` are joined by a walk through the set.
pub open spec fn path_between(s: Seq<(i32, i32)>, a: (i32, i32), b: (i32, i32)) -> bool {
    exists|p: Seq<(i32, i32)>| is_walk(s, p, a, b)
}

/// One equal-or-adjacent step is a walk.
pub proof fn lemma_path_step(s: Seq<(i32, i32)>, a: (i32, i32), b: (i32, i32))
    requires
        s.contains(a),
        s.contains(b),
        adjacent(a, b) || a == b,
    ensures
        path_between(s, a, b),
{
    let p = seq![a, b];
    assert(p[0] == a && p.last() == b);
    assert(is_walk(s, p, a, b));
}

/// Walks join up end to end.
pub proof fn lemma_path_trans(s: Seq<(i32, i32)>, a: (i32, i32), b: (i32, i32), c: (i32, i32))
    requires
        path_between(s, a, b),
        path_between(s, b, c),
    ensures
        path_between(s, a, c),
{
    let p1 = choose|p: Seq<(i32, i32)>| is_walk(s, p, a, b);
    let p2 = choose|p: Seq<(i32, i32)>| is_walk(s, p, b, c);
    let p = p1 + p2;
    assert(p[0] == p1[0]);
    assert(p.last() == p2.last());
    assert forall|i: int| 0 <= i < p.len() implies s.contains(#[trigger] p[i]) by {
        if i < p1.len() {
            assert(p[i] == p1[i]);
        } else {
            assert(p[i] == p2[i - p1.len()]);
        }
    }
    assert forall|i: int|
        0 <= i < p.len() - 1 implies adjacent(#[trigger] p[i], p[i + 1]) || p[i] == p[i
        + 1] by {
        if i + 1 < p1.len() {
            assert(p[i] == p1[i] && p[i + 1] == p1[i + 1]);
        } else if i + 1 == p1.len() {
            assert(p[i] == p1[i] && p1[i] == p1.last());
            assert(p[i + 1] == p2[0]);
        } else {
            assert(p[i] == p2[i - p1.len()] && p[i + 1] == p2[i + 1 - p1.len()]);
        }
    }
    assert(is_walk(s, p, a, c));
}

/// A walk stays valid when the set only gains tiles.
pub proof fn lemma_path_grow(
    s1: Seq<(i32, i32)>,
    s2: Seq<(i32, i32)>,
    a: (i32, i32),
    b: (i32, i32),
)
    requires
        path_between(s1, a, b),
        s1.is_prefix_of(s2),
    ensures
        path_between(s2, a, b),
{
    let p = choose|p: Seq<(i32, i32)>| is_walk(s1, p, a, b);
    assert forall|i: int| 0 <= i < p.len() implies s2.contains(#[trigger] p[i]) by {
        assert(s1.contains(p[i]));
        let k = choose|k: int| 0 <= k < s1.len() && s1[k] == p[i];
        assert(s2[k] == p[i]);
    }
    assert(is_walk(s2, p, a, b));
}

} // verus!
