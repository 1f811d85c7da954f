//! Walkable polygons in world coordinates and the merge pass that
//! coalesces geometrically adjacent ones until no further reduction is
//! possible.

use vstd::prelude::*;

verus! {

/// World coordinates handled by the merge pass must stay under this
/// magnitude so that squared vertex distances fit 64-bit arithmetic.
pub const WORLD_LIMIT: i64 = 1000000000;

/// A quadrilateral (or, after merging, a larger simple polygon) in
/// world coordinates whose interior is navigable ground.
pub struct WalkablePolygon {
    pub points: Vec<(i64, i64)>,
}

impl View for WalkablePolygon {
    type V = Seq<(i64, i64)>;

    closed spec fn view(&self) -> Seq<(i64, i64)> {
        self.points@
    }
}

impl WalkablePolygon {
    /// A polygon the merge pass accepts: at least a triangle, with all
    /// vertex coordinates inside the world range.
    pub open spec fn wf(self) -> bool {
        poly_wf(self@)
    }

    pub fn new(points: Vec<(i64, i64)>) -> (r: WalkablePolygon)
        ensures
            r@ == points@,
    {
        WalkablePolygon { points }
    }

    pub fn len(&self) -> (n: usize)
        ensures
            n == self@.len(),
    {
        self.points.len()
    }

    pub fn point_at(&self, i: usize) -> (p: (i64, i64))
        requires
            i < self@.len(),
        ensures
            p == self@[i as int],
    {
        self.points[i]
    }
}

impl Clone for WalkablePolygon {
    fn clone(&self) -> (r: Self)
        ensures
            r@ == self@,
    {
        let n = self.points.len();
        let mut v: Vec<(i64, i64)> = Vec::new();
        let mut i: usize = 0;
        while i < n
            invariant
                n == self.points@.len(),
                i <= n,
                v@ == self.points@.take(i as int),
            decreases n - i,
        {
            v.push(self.points[i]);
            proof {
                assert(v@ =~= self.points@.take(i as int + 1));
            }
            i += 1;
        }
        proof {
            assert(self.points@.take(n as int) =~= self.points@);
        }
        WalkablePolygon { points: v }
    }
}

pub open spec fn in_world_range(c: int) -> bool {
    -WORLD_LIMIT <= c <= WORLD_LIMIT
}

pub open spec fn poly_wf(p: Seq<(i64, i64)>) -> bool {
    &&& p.len() >= 3
    &&& forall|i: int|
        0 <= i < p.len() ==> in_world_range(#[trigger] p[i].0 as int) && in_world_range(
            p[i].1 as int,
        )
}

/// Squared Euclidean distance between two vertices.
pub open spec fn sq_dist(a: (i64, i64), b: (i64, i64)) -> int {
    (a.0 - b.0) * (a.0 - b.0) + (a.1 - b.1) * (a.1 - b.1)
}

/// Two vertices count as the same corner when their squared distance is
/// below one world unit.
pub open spec fn close(a: (i64, i64), b: (i64, i64)) -> bool {
    sq_dist(a, b) < 1
}

pub open spec fn close_to_some(v: (i64, i64), b: Seq<(i64, i64)>) -> bool {
    exists|j: int| 0 <= j < b.len() && close(v, b[j])
}

/// How many distinct vertices of `a` coincide with a vertex of `b`:
/// the number of matching corner pairs that the merge pass counts.
pub open spec fn match_count(a: Seq<(i64, i64)>, b: Seq<(i64, i64)>) -> int
    decreases a.len(),
{
    if a.len() == 0 {
        0
    } else {
        match_count(a.drop_last(), b) + if close_to_some(a.last(), b) && !a.drop_last().contains(
            a.last(),
        ) {
            1int
        } else {
            0int
        }
    }
}

/// Counts the matching corner pairs between two polygons, each distinct
/// matching vertex of `left` counted once.
pub fn count_matching(left: &WalkablePolygon, right: &WalkablePolygon) -> (c: u64)
    requires
        left@.len() <= 0xffff_ffff,
        forall|i: int|
            0 <= i < left@.len() ==> in_world_range(#[trigger] left@[i].0 as int)
                && in_world_range(left@[i].1 as int),
        forall|i: int|
            0 <= i < right@.len() ==> in_world_range(#[trigger] right@[i].0 as int)
                && in_world_range(right@[i].1 as int),
    ensures
        c == match_count(left@, right@),
{
    let n = left.points.len();
    let m = right.points.len();
    let mut c: u64 = 0;
    let mut i: usize = 0;
    while i < n
        invariant
            n == left@.len(),
            m == right@.len(),
            n <= 0xffff_ffff,
            forall|k: int|
                0 <= k < left@.len() ==> in_world_range(#[trigger] left@[k].0 as int)
                    && in_world_range(left@[k].1 as int),
            forall|k: int|
                0 <= k < right@.len() ==> in_world_range(#[trigger] right@[k].0 as int)
                    && in_world_range(right@[k].1 as int),
            i <= n,
            c == match_count(left@.take(i as int), right@),
            c <= i,
        decreases n - i,
    {
        let v = left.points[i];
        // does this corner coincide with one of the right polygon's?
        let mut matched = false;
        let mut j: usize = 0;
        while j < m
            invariant
                m == right@.len(),
                v == left@[i as int],
                0 <= i < n,
                n == left@.len(),
                forall|k: int|
                    0 <= k < left@.len() ==> in_world_range(#[trigger] left@[k].0 as int)
                        && in_world_range(left@[k].1 as int),
                forall|k: int|
                    0 <= k < right@.len() ==> in_world_range(#[trigger] right@[k].0 as int)
                        && in_world_range(right@[k].1 as int),
                j <= m,
                matched <==> exists|k: int| 0 <= k < j && close(v, right@[k]),
            decreases m - j,
        {
            let w = right.points[j];
            let xd = v.0 - w.0;
            let yd = v.1 - w.1;
            proof {
                assert(xd * xd >= 0 && xd * xd <= 4000000000000000000int) by (nonlinear_arith)
                    requires
                        -2000000000 <= xd <= 2000000000,
                ;
                assert(yd * yd >= 0 && yd * yd <= 4000000000000000000int) by (nonlinear_arith)
                    requires
                        -2000000000 <= yd <= 2000000000,
                ;
            }
            let d2 = xd * xd + yd * yd;
            if d2 < 1 {
                matched = true;
            }
            j += 1;
        }
        // count each distinct corner of the left polygon only once
        let mut seen = false;
        let mut k: usize = 0;
        while k < i
            invariant
                v == left@[i as int],
                0 <= i < n,
                n == left@.len(),
                k <= i,
                seen <==> left@.take(i as int).take(k as int).contains(v),
            decreases i - k,
        {
            let u = left.points[k];
            if u.0 == v.0 && u.1 == v.1 {
                seen = true;
                proof {
                    assert(left@.take(i as int).take(k as int + 1)[k as int] == v);
                }
            }
            proof {
                if left@.take(i as int).take(k as int + 1).contains(v) && !left@.take(
                    i as int,
                ).take(k as int).contains(v) {
                    let w = choose|w: int|
                        0 <= w < k + 1 && #[trigger] left@.take(i as int).take(k as int + 1)[w]
                            == v;
                    if w < k {
                        assert(left@.take(i as int).take(k as int)[w] == v);
                    }
                }
            }
            k += 1;
        }
        proof {
            assert(left@.take(i as int).take(i as int) =~= left@.take(i as int));
            let t = left@.take(i as int + 1);
            assert(t.drop_last() =~= left@.take(i as int));
            assert(t.last() == v);
            if matched {
                assert(close_to_some(v, right@));
            } else {
                assert(!close_to_some(v, right@));
            }
        }
        if matched && !seen {
            c += 1;
        }
        i += 1;
    }
    proof {
        assert(left@.take(n as int) =~= left@);
    }
    c
}


/// Indices `i` of `a` and `j` of `b` bound a shared edge that the two
/// polygon rings traverse in opposite directions.
pub open spec fn shared_edge(a: Seq<(i64, i64)>, b: Seq<(i64, i64)>, i: int, j: int) -> bool {
    &&& 0 <= i < a.len()
    &&& 0 <= j < b.len()
    &&& a[i] == b[(j + 1) % (b.len() as int)]
    &&& a[(i + 1) % (a.len() as int)] == b[j]
}

/// The ring that results from gluing `b` into `a` along the shared edge
/// at `(i, j)`: `a` up to the edge, then `b`'s remaining vertices in
/// ring order, then the rest of `a`.
pub open spec fn spliced_ring(a: Seq<(i64, i64)>, b: Seq<(i64, i64)>, i: int, j: int) -> Seq<
    (i64, i64),
> {
    a.take(i + 1) + Seq::new(
        (b.len() - 2) as nat,
        |k: int| b[(j + 2 + k) % (b.len() as int)],
    ) + a.skip(i + 1)
}

/// Computes the union of two polygons that share at least one edge: the
/// ring of `a` with the ring of `b` glued in along the first shared edge
/// found. When no shared edge exists the left polygon is kept unchanged.
pub fn merge_pair(a: &WalkablePolygon, b: &WalkablePolygon) -> (r: WalkablePolygon)
    requires
        3 <= a@.len() <= 0x3fff_ffff,
        3 <= b@.len() <= 0x3fff_ffff,
    ensures
        r@.len() >= 3,
        forall|k: int|
            0 <= k < r@.len() ==> a@.contains(#[trigger] r@[k]) || b@.contains(r@[k]),
        ({
            if exists|i: int, j: int| shared_edge(a@, b@, i, j) {
                exists|i: int, j: int|
                    shared_edge(a@, b@, i, j) && r@ == spliced_ring(a@, b@, i, j)
            } else {
                r@ == a@
            }
        }),
{
    let m = a.points.len();
    let n = b.points.len();
    let mut i: usize = 0;
    while i < m
        invariant
            m == a@.len(),
            n == b@.len(),
            3 <= m <= 0x3fff_ffff,
            3 <= n <= 0x3fff_ffff,
            i <= m,
            forall|i0: int, j0: int| 0 <= i0 < i && 0 <= j0 < n ==> !shared_edge(a@, b@, i0, j0),
        decreases m - i,
    {
        let mut j: usize = 0;
        while j < n
            invariant
                m == a@.len(),
                n == b@.len(),
                3 <= m <= 0x3fff_ffff,
                3 <= n <= 0x3fff_ffff,
                i < m,
                j <= n,
                forall|i0: int, j0: int|
                    0 <= i0 < i && 0 <= j0 < n ==> !shared_edge(a@, b@, i0, j0),
                forall|j0: int| 0 <= j0 < j ==> !shared_edge(a@, b@, i as int, j0),
            decreases n - j,
        {
            let bj1 = b.points[(j + 1) % n];
            let ai1 = a.points[(i + 1) % m];
            let ai = a.points[i];
            let bj = b.points[j];
            if ai.0 == bj1.0 && ai.1 == bj1.1 && ai1.0 == bj.0 && ai1.1 == bj.1 {
                // found a shared edge: glue the rings together
                assert(shared_edge(a@, b@, i as int, j as int));
                let r = splice_rings(a, b, i, j);
                return r;
            }
            j += 1;
        }
        i += 1;
    }
    proof {
        assert(forall|i0: int, j0: int| shared_edge(a@, b@, i0, j0) ==> 0 <= i0 < m && 0 <= j0
            < n);
    }
    a.clone()
}

/// Builds the glued ring for one known shared edge.
fn splice_rings(a: &WalkablePolygon, b: &WalkablePolygon, i: usize, j: usize) -> (r:
    WalkablePolygon)
    requires
        3 <= a@.len() <= 0x3fff_ffff,
        3 <= b@.len() <= 0x3fff_ffff,
        shared_edge(a@, b@, i as int, j as int),
    ensures
        r@ == spliced_ring(a@, b@, i as int, j as int),
        r@.len() == a@.len() + b@.len() - 2,
        forall|k: int|
            0 <= k < r@.len() ==> a@.contains(#[trigger] r@[k]) || b@.contains(r@[k]),
{
    let m = a.points.len();
    let n = b.points.len();
    let mut v: Vec<(i64, i64)> = Vec::new();

    let mut k: usize = 0;
    while k < i + 1
        invariant
            m == a@.len(),
            i < m <= 0x3fff_ffff,
            k <= i + 1,
            v@ == a@.take(k as int),
        decreases i + 1 - k,
    {
        v.push(a.points[k]);
        proof {
            assert(v@ =~= a@.take(k as int + 1));
        }
        k += 1;
    }

    let ghost mid = Seq::new((n - 2) as nat, |t: int| b@[(j + 2 + t) % (n as int)]);
    let mut t: usize = 0;
    while t < n - 2
        invariant
            m == a@.len(),
            n == b@.len(),
            3 <= n <= 0x3fff_ffff,
            i < m,
            j < n,
            t <= n - 2,
            mid == Seq::new((n - 2) as nat, |t0: int| b@[(j + 2 + t0) % (n as int)]),
            v@ == a@.take(i as int + 1) + mid.take(t as int),
        decreases n - 2 - t,
    {
        let idx = (j + 2 + t) % n;
        proof {
            assert(0 <= (j as int + 2 + t as int) % (n as int) < n as int);
        }
        v.push(b.points[idx]);
        proof {
            assert(mid[t as int] == b@[(j as int + 2 + t as int) % (n as int)]);
            assert(v@ =~= a@.take(i as int + 1) + mid.take(t as int + 1));
        }
        t += 1;
    }

    let mut k2: usize = i + 1;
    while k2 < m
        invariant
            m == a@.len(),
            n == b@.len(),
            i < m <= 0x3fff_ffff,
            i + 1 <= k2 <= m,
            mid == Seq::new((n - 2) as nat, |t0: int| b@[(j + 2 + t0) % (n as int)]),
            v@ == a@.take(i as int + 1) + mid + a@.subrange(i as int + 1, k2 as int),
        decreases m - k2,
    {
        v.push(a.points[k2]);
        proof {
            assert(v@ =~= a@.take(i as int + 1) + mid + a@.subrange(i as int + 1, k2 as int + 1));
        }
        k2 += 1;
    }

    proof {
        assert(mid.take(n as int - 2) =~= mid);
        assert(a@.subrange(i as int + 1, m as int) =~= a@.skip(i as int + 1));
        assert(v@ =~= spliced_ring(a@, b@, i as int, j as int));
        assert forall|k0: int| 0 <= k0 < v@.len() implies a@.contains(#[trigger] v@[k0])
            || b@.contains(v@[k0]) by {
            if k0 <= i {
                assert(v@[k0] == a@[k0]);
            } else if k0 < i + 1 + (n - 2) {
                let t0 = k0 - (i + 1);
                assert(v@[k0] == mid[t0]);
                assert(mid[t0] == b@[(j + 2 + t0) % (n as int)]);
                assert(0 <= (j + 2 + t0) % (n as int) < n as int);
            } else {
                let t0 = k0 - (n - 2);
                assert(v@[k0] == a@[t0]);
            }
        }
    }
    WalkablePolygon { points: v }
}


/// Every polygon in the list is well-formed.
pub open spec fn polys_wf(s: Seq<WalkablePolygon>) -> bool {
    forall|k: int| 0 <= k < s.len() ==> (#[trigger] s[k]).wf()
}

/// Total number of vertices over all polygons of the list.
pub open spec fn total_len(s: Seq<WalkablePolygon>) -> int
    decreases s.len(),
{
    if s.len() == 0 {
        0
    } else {
        s[0]@.len() + total_len(s.drop_first())
    }
}

/// Vertices still owed by the unconsumed polygons from `from` on.
pub open spec fn sel_len(s: Seq<WalkablePolygon>, flags: Seq<bool>, from: int) -> int
    decreases s.len() - from,
{
    if from < 0 || from >= s.len() {
        0
    } else {
        (if flags[from] {
            0int
        } else {
            s[from]@.len() as int
        }) + sel_len(s, flags, from + 1)
    }
}

/// Number of set flags.
pub open spec fn num_true(f: Seq<bool>) -> int
    decreases f.len(),
{
    if f.len() == 0 {
        0
    } else {
        num_true(f.drop_last()) + if f.last() {
            1int
        } else {
            0int
        }
    }
}

/// No two polygons of the list share two or more matching corner pairs:
/// the merge pass can reduce the list no further.
pub open spec fn converged(s: Seq<WalkablePolygon>) -> bool {
    forall|i: int, j: int| 0 <= i < j < s.len() ==> match_count(s[i]@, s[j]@) < 2
}

pub proof fn lemma_total_len_push(s: Seq<WalkablePolygon>, x: WalkablePolygon)
    ensures
        total_len(s.push(x)) == total_len(s) + x@.len(),
    decreases s.len(),
{
    reveal_with_fuel(total_len, 3);
    if s.len() == 0 {
        assert(s.push(x)[0] == x);
        assert(s.push(x).drop_first() =~= Seq::<WalkablePolygon>::empty());
    } else {
        lemma_total_len_push(s.drop_first(), x);
        assert(s.push(x).drop_first() =~= s.drop_first().push(x));
        assert(s.push(x)[0] == s[0]);
    }
}

pub proof fn lemma_total_len_nonneg(s: Seq<WalkablePolygon>)
    ensures
        total_len(s) >= 0,
    decreases s.len(),
{
    if s.len() > 0 {
        lemma_total_len_nonneg(s.drop_first());
    }
}

pub proof fn lemma_sel_len_nonneg(s: Seq<WalkablePolygon>, flags: Seq<bool>, from: int)
    ensures
        sel_len(s, flags, from) >= 0,
    decreases s.len() - from,
{
    if 0 <= from && from < s.len() {
        lemma_sel_len_nonneg(s, flags, from + 1);
    }
}

/// With no polygon consumed, the owed vertices from `from` on are the
/// total of the suffix.
pub proof fn lemma_sel_len_all_false(s: Seq<WalkablePolygon>, flags: Seq<bool>, from: int)
    requires
        flags.len() == s.len(),
        forall|k: int| 0 <= k < flags.len() ==> !flags[k],
        0 <= from <= s.len(),
    ensures
        sel_len(s, flags, from) == total_len(s.skip(from)),
    decreases s.len() - from,
{
    if from >= s.len() {
        assert(s.skip(from).len() == 0);
    } else {
        lemma_sel_len_all_false(s, flags, from + 1);
        let t = s.skip(from);
        assert(t.drop_first() =~= s.skip(from + 1));
        assert(t[0] == s[from]);
    }
}

/// Consuming a polygon at `r` removes its vertices from what is owed.
pub proof fn lemma_sel_len_update(s: Seq<WalkablePolygon>, flags: Seq<bool>, r: int, from: int)
    requires
        flags.len() == s.len(),
        0 <= r < s.len(),
        !flags[r],
        0 <= from <= s.len(),
    ensures
        from <= r ==> sel_len(s, flags.update(r, true), from) == sel_len(s, flags, from)
            - s[r]@.len(),
        from > r ==> sel_len(s, flags.update(r, true), from) == sel_len(s, flags, from),
    decreases s.len() - from,
{
    if from < s.len() {
        lemma_sel_len_update(s, flags, r, from + 1);
    }
}

pub proof fn lemma_num_true_take_step(f: Seq<bool>, k: int)
    requires
        0 <= k < f.len(),
    ensures
        num_true(f.take(k + 1)) == num_true(f.take(k)) + if f[k] {
            1int
        } else {
            0int
        },
{
    assert(f.take(k + 1).drop_last() =~= f.take(k));
}

pub proof fn lemma_num_true_take_update(f: Seq<bool>, r: int, k: int)
    requires
        0 <= k <= r < f.len(),
    ensures
        num_true(f.update(r, true).take(k)) == num_true(f.take(k)),
{
    assert(f.update(r, true).take(k) =~= f.take(k));
}

pub proof fn lemma_num_true_zero(f: Seq<bool>)
    ensures
        (num_true(f) == 0) <==> (forall|k: int| 0 <= k < f.len() ==> !f[k]),
        num_true(f) >= 0,
    decreases f.len(),
{
    if f.len() > 0 {
        lemma_num_true_zero(f.drop_last());
        if num_true(f) == 0 {
            assert forall|k: int| 0 <= k < f.len() implies !f[k] by {
                if k < f.len() - 1 {
                    assert(f.drop_last()[k] == f[k]);
                }
            }
        }
        if forall|k: int| 0 <= k < f.len() ==> !f[k] {
            assert(forall|k: int| 0 <= k < f.len() - 1 ==> !f.drop_last()[k]);
        }
    }
}

/// Setting an unset flag raises the count by one.
pub proof fn lemma_num_true_set(f: Seq<bool>, r: int)
    requires
        0 <= r < f.len(),
        !f[r],
    ensures
        num_true(f.update(r, true)) == num_true(f) + 1,
    decreases f.len(),
{
    if r == f.len() - 1 {
        assert(f.update(r, true).drop_last() =~= f.drop_last());
    } else {
        assert(f.update(r, true).drop_last() =~= f.drop_last().update(r, true));
        lemma_num_true_set(f.drop_last(), r);
    }
}

/// One polygon never holds more vertices than the whole list.
pub proof fn lemma_elem_le_total(s: Seq<WalkablePolygon>, k: int)
    requires
        0 <= k < s.len(),
    ensures
        s[k]@.len() <= total_len(s),
    decreases s.len(),
{
    lemma_total_len_nonneg(s.drop_first());
    if k > 0 {
        lemma_elem_le_total(s.drop_first(), k - 1);
        assert(s.drop_first()[k - 1] == s[k]);
    }
}



/// The union shape `merge_pair` promises: the rings glued along the
/// first shared edge when one exists, the left ring unchanged otherwise.
pub open spec fn merge_result_ok(a: Seq<(i64, i64)>, b: Seq<(i64, i64)>, u: Seq<(i64, i64)>) -> bool {
    if exists|i: int, j: int| shared_edge(a, b, i, j) {
        exists|i: int, j: int| shared_edge(a, b, i, j) && u == spliced_ring(a, b, i, j)
    } else {
        u == a
    }
}

/// How output polygon `k` of one merge pass arose from the input list:
/// kept unchanged from input index `l` (partner `-1`), or built from
/// the matching pair `(l, r)`.
pub open spec fn pass_entry_ok(
    inp: Seq<WalkablePolygon>,
    out: Seq<WalkablePolygon>,
    k: int,
    l: int,
    pr: int,
) -> bool {
    &&& 0 <= l < inp.len()
    &&& if pr == -1 {
        out[k]@ == inp[l]@
    } else {
        &&& l < pr < inp.len()
        &&& match_count(inp[l]@, inp[pr]@) >= 2
        &&& merge_result_ok(inp[l]@, inp[pr]@, out[k]@)
    }
}

/// How often input index `idx` is used by the provenance entries.
pub open spec fn times_used(prov: Seq<(int, int)>, idx: int) -> int
    decreases prov.len(),
{
    if prov.len() == 0 {
        0
    } else {
        times_used(prov.drop_last(), idx) + (if prov.last().0 == idx {
            1int
        } else {
            0int
        }) + (if prov.last().1 == idx {
            1int
        } else {
            0int
        })
    }
}

/// Input index `idx` was consumed as the right partner of one of the
/// first `k` provenance entries.
pub open spec fn consumed_before(prov: Seq<(int, int)>, k: int, idx: int) -> bool {
    exists|k2: int| 0 <= k2 < k && (#[trigger] prov[k2]).1 == idx
}

/// One merge pass partitions the input: every output polygon is either
/// a kept input polygon or the union of one matching pair, the kept and
/// merged left indices increase left to right, every input polygon is
/// used exactly once, and each merge takes the first matching partner
/// still available — a kept polygon had no available match at all.
pub open spec fn pass_partition(
    inp: Seq<WalkablePolygon>,
    out: Seq<WalkablePolygon>,
    prov: Seq<(int, int)>,
) -> bool {
    &&& prov.len() == out.len()
    &&& forall|k: int|
        0 <= k < prov.len() ==> pass_entry_ok(inp, out, k, (#[trigger] prov[k]).0, prov[k].1)
    &&& forall|k: int| 0 <= k < prov.len() - 1 ==> (#[trigger] prov[k]).0 < prov[k + 1].0
    &&& forall|idx: int| 0 <= idx < inp.len() ==> #[trigger] times_used(prov, idx) == 1
    &&& forall|k: int, r: int|
        0 <= k < prov.len() && (#[trigger] prov[k]).1 == -1 && prov[k].0 < r < inp.len()
            ==> consumed_before(prov, k, r) || match_count(inp[prov[k].0]@, #[trigger] inp[r]@)
            < 2
    &&& forall|k: int, r: int|
        0 <= k < prov.len() && (#[trigger] prov[k]).1 != -1 && prov[k].0 < r < prov[k].1
            ==> consumed_before(prov, k, r) || match_count(inp[prov[k].0]@, #[trigger] inp[r]@)
            < 2
}

proof fn lemma_times_used_push(prov: Seq<(int, int)>, e: (int, int), idx: int)
    ensures
        times_used(prov.push(e), idx) == times_used(prov, idx) + (if e.0 == idx {
            1int
        } else {
            0int
        }) + (if e.1 == idx {
            1int
        } else {
            0int
        }),
{
    assert(prov.push(e).drop_last() =~= prov);
    assert(prov.push(e).last() == e);
}

/// One merge pass over the polygon list. For each unconsumed polygon,
/// scanning left to right, the first unconsumed partner further right
/// that shares at least two corners is united with it (first-match
/// greedy); all other polygons are kept. A pass over an
/// already-converged list returns it unchanged.
#[verifier::spinoff_prover]
#[verifier::rlimit(100)]
pub fn merge_polygons(polygons: &Vec<WalkablePolygon>) -> (result: Vec<WalkablePolygon>)
    requires
        polys_wf(polygons@),
        total_len(polygons@) <= 0x3fff_ffff,
    ensures
        polys_wf(result@),
        total_len(result@) <= total_len(polygons@),
        result@.len() <= polygons@.len(),
        converged(polygons@) ==> result@.len() == polygons@.len() && (forall|k: int|
            0 <= k < result@.len() ==> (#[trigger] result@[k])@ == polygons@[k]@),
        !converged(polygons@) ==> result@.len() < polygons@.len(),
        result@.len() >= (polygons@.len() + 1) / 2,
        exists|prov: Seq<(int, int)>| #[trigger] pass_partition(polygons@, result@, prov),
{
    let n = polygons.len();
    let mut result: Vec<WalkablePolygon> = Vec::new();
    let mut flags: Vec<bool> = Vec::new();
    let mut k0: usize = 0;
    while k0 < n
        invariant
            k0 <= n,
            flags@.len() == k0,
            forall|k: int| 0 <= k < k0 ==> !flags@[k],
        decreases n - k0,
    {
        flags.push(false);
        k0 += 1;
    }

    let ghost gpolys = polygons@;
    let ghost mut prov: Seq<(int, int)> = Seq::empty();
    proof {
        lemma_sel_len_all_false(gpolys, flags@, 0);
        assert(gpolys.skip(0) =~= gpolys);
        lemma_num_true_zero(flags@.take(n as int));
        assert(flags@.take(n as int) =~= flags@);
    }
    let mut left: usize = 0;
    while left < n
        invariant
            n == gpolys.len(),
            gpolys == polygons@,
            polys_wf(gpolys),
            total_len(gpolys) <= 0x3fff_ffff,
            left <= n,
            flags@.len() == n,
            polys_wf(result@),
            total_len(result@) + sel_len(gpolys, flags@, left as int) <= total_len(gpolys),
            result@.len() == left - num_true(flags@.take(left as int)),
            num_true(flags@.take(left as int)) >= 0,
            num_true(flags@.take(n as int)) <= result@.len(),
            prov.len() == result@.len(),
            forall|k: int|
                0 <= k < prov.len() ==> pass_entry_ok(
                    gpolys,
                    result@,
                    k,
                    (#[trigger] prov[k]).0,
                    prov[k].1,
                ),
            forall|k: int| 0 <= k < prov.len() ==> (#[trigger] prov[k]).0 < left,
            forall|k: int| 0 <= k < prov.len() - 1 ==> (#[trigger] prov[k]).0 < prov[k + 1].0,
            forall|idx: int|
                0 <= idx < n && (idx < left || flags@[idx]) ==> #[trigger] times_used(prov, idx)
                    == 1,
            forall|idx: int|
                left <= idx < n && !flags@[idx] ==> #[trigger] times_used(prov, idx) == 0,
            forall|idx: int|
                0 <= idx < n ==> (flags@[idx] <==> #[trigger] consumed_before(
                    prov,
                    prov.len() as int,
                    idx,
                )),
            forall|k: int, r: int|
                0 <= k < prov.len() && (#[trigger] prov[k]).1 == -1 && prov[k].0 < r < n
                    ==> consumed_before(prov, k, r) || match_count(
                    gpolys[prov[k].0]@,
                    #[trigger] gpolys[r]@,
                ) < 2,
            forall|k: int, r: int|
                0 <= k < prov.len() && (#[trigger] prov[k]).1 != -1 && prov[k].0 < r < prov[k].1
                    ==> consumed_before(prov, k, r) || match_count(
                    gpolys[prov[k].0]@,
                    #[trigger] gpolys[r]@,
                ) < 2,
            forall|k: int| left <= k < n ==> flags@[k] ==> num_true(flags@.take(n as int)) > 0,
            (forall|k: int| 0 <= k < n ==> !flags@[k]) ==> (result@.len() == left && (forall|
                k: int,
            |
                0 <= k < left ==> (#[trigger] result@[k])@ == gpolys[k]@) && (forall|
                l: int,
                r: int,
            |
                0 <= l < left && l < r < n ==> match_count(gpolys[l]@, gpolys[r]@) < 2)),
            converged(gpolys) ==> forall|k: int| 0 <= k < n ==> !flags@[k],
        decreases n - left,
    {
        let ghost flags0 = flags@;
        let ghost result0 = result@;
        let ghost prov0 = prov;
        if !flags[left] {
            let mut merged = false;
            let mut right = left + 1;
            while right < n && !merged
                invariant
                    n == gpolys.len(),
                    gpolys == polygons@,
                    polys_wf(gpolys),
                    total_len(gpolys) <= 0x3fff_ffff,
                    left < n,
                    left + 1 <= right <= n,
                    flags0.len() == n,
                    !flags0[left as int],
                    prov.len() == result@.len(),
                    !merged ==> flags@ == flags0 && result@ == result0 && prov
                        == prov0,
                    !merged ==> forall|r: int|
                        left < r < right && !flags0[r] ==> match_count(
                            gpolys[left as int]@,
                            #[trigger] gpolys[r]@,
                        ) < 2,
                    merged ==> exists|r: int|
                        left < r < n && !flags0[r] && match_count(
                            gpolys[left as int]@,
                            #[trigger] gpolys[r]@,
                        ) >= 2 && flags@ == flags0.update(r, true) && result@.len() == result0.len()
                            + 1 && result@.take(result0.len() as int) == result0 && (#[trigger] result@[result0.len() as int]).wf()
                            && result@[result0.len() as int]@.len() <= gpolys[left as int]@.len()
                            + gpolys[r]@.len() - 2 && prov == prov0.push((left as int, r))
                            && merge_result_ok(
                            gpolys[left as int]@,
                            gpolys[r]@,
                            result@[result0.len() as int]@,
                        ) && (forall|r0: int|
                            left < r0 < r ==> flags0[r0] || match_count(
                                gpolys[left as int]@,
                                #[trigger] gpolys[r0]@,
                            ) < 2),
                decreases n - right + if merged {
                    0int
                } else {
                    1int
                },
            {
                if !flags[right] {
                    proof {
                        lemma_elem_le_total(gpolys, left as int);
                        lemma_elem_le_total(gpolys, right as int);
                        assert(gpolys[left as int].wf());
                        assert(gpolys[right as int].wf());
                        assert(poly_wf(gpolys[left as int]@) && poly_wf(gpolys[right as int]@));
                        assert(forall|i: int|
                            0 <= i < gpolys[left as int]@.len() ==> in_world_range(
                                #[trigger] gpolys[left as int]@[i].0 as int,
                            ) && in_world_range(gpolys[left as int]@[i].1 as int));
                        assert(forall|i: int|
                            0 <= i < gpolys[right as int]@.len() ==> in_world_range(
                                #[trigger] gpolys[right as int]@[i].0 as int,
                            ) && in_world_range(gpolys[right as int]@[i].1 as int));
                    }
                    let c = count_matching(&polygons[left], &polygons[right]);
                    if c > 1 {
                        // two or more matching corners: unite the pair
                        let u = merge_pair(&polygons[left], &polygons[right]);
                        proof {
                            let a = gpolys[left as int]@;
                            let b = gpolys[right as int]@;
                            assert(u.wf()) by {
                                assert(u@.len() >= 3);
                                assert forall|t: int|
                                    0 <= t < u@.len() implies in_world_range(
                                    #[trigger] u@[t].0 as int,
                                ) && in_world_range(u@[t].1 as int) by {
                                    assert(a.contains(u@[t]) || b.contains(u@[t]));
                                    if a.contains(u@[t]) {
                                        let w = choose|w: int|
                                            0 <= w < a.len() && #[trigger] a[w] == u@[t];
                                        assert(in_world_range(a[w].0 as int) && in_world_range(
                                            a[w].1 as int,
                                        ));
                                    } else {
                                        let w = choose|w: int|
                                            0 <= w < b.len() && #[trigger] b[w] == u@[t];
                                        assert(in_world_range(b[w].0 as int) && in_world_range(
                                            b[w].1 as int,
                                        ));
                                    }
                                }
                            }
                            assert(u@.len() <= a.len() + b.len() - 2) by {
                                if exists|i0: int, j0: int| shared_edge(a, b, i0, j0) {
                                    let (i0, j0) = choose|i0: int, j0: int|
                                        shared_edge(a, b, i0, j0) && u@ == spliced_ring(
                                            a,
                                            b,
                                            i0,
                                            j0,
                                        );
                                    assert(u@.len() == i0 + 1 + (b.len() - 2) + (a.len() - (i0
                                        + 1)));
                                } else {
                                    assert(u@ == a);
                                }
                            }
                        }
                        result.push(u);
                        flags.set(right, true);
                        merged = true;
                        proof {
                            assert(result@.take(result0.len() as int) =~= result0);
                            assert(merge_result_ok(
                                gpolys[left as int]@,
                                gpolys[right as int]@,
                                result@[result0.len() as int]@,
                            ));
                            prov = prov.push((left as int, right as int));
                        }
                    }
                }
                if !merged {
                    right += 1;
                }
            }
            if !merged {
                // keep this polygon as it is
                proof {
                    lemma_elem_le_total(gpolys, left as int);
                }
                let copy = polygons[left].clone();
                result.push(copy);
                proof {
                    lemma_total_len_push(result0, result@.last());
                    assert(result@.drop_last() =~= result0);
                    lemma_sel_len_nonneg(gpolys, flags@, left as int + 1);
                    lemma_num_true_take_step(flags@, left as int);
                    assert(result@ =~= result0.push(result@.last()));
                    prov = prov.push((left as int, -1));
                    assert forall|idx: int| 0 <= idx < n implies #[trigger] times_used(prov, idx)
                        == times_used(prov0, idx) + if idx == left {
                        1int
                    } else {
                        0int
                    } by {
                        lemma_times_used_push(prov0, (left as int, -1), idx);
                    }
                    assert(pass_entry_ok(
                        gpolys,
                        result@,
                        prov.len() - 1,
                        left as int,
                        -1,
                    ));
                    assert forall|k: int|
                        0 <= k < prov.len() implies pass_entry_ok(
                        gpolys,
                        result@,
                        k,
                        (#[trigger] prov[k]).0,
                        prov[k].1,
                    ) by {
                        if k < prov0.len() {
                            assert(prov[k] == prov0[k]);
                            assert(result@[k] == result0[k]);
                        }
                    }
                    // a kept polygon consumed nothing, so the flags still
                    // mirror the consumed partners
                    assert forall|idx: int|
                        0 <= idx < n implies (flags@[idx] <==> #[trigger] consumed_before(
                        prov,
                        prov.len() as int,
                        idx,
                    )) by {
                        if consumed_before(prov, prov.len() as int, idx) {
                            let k2 = choose|k2: int|
                                0 <= k2 < prov.len() && (#[trigger] prov[k2]).1 == idx;
                            if k2 < prov0.len() {
                                assert(prov[k2] == prov0[k2]);
                                assert(consumed_before(prov0, prov0.len() as int, idx));
                            } else {
                                assert(prov[k2].1 == -1);
                            }
                        }
                        if flags@[idx] {
                            assert(consumed_before(prov0, prov0.len() as int, idx));
                            let k2 = choose|k2: int|
                                0 <= k2 < prov0.len() && (#[trigger] prov0[k2]).1 == idx;
                            assert(prov[k2] == prov0[k2]);
                            assert(consumed_before(prov, prov.len() as int, idx));
                        }
                    }
                    // the kept polygon had no available match at all
                    assert forall|r: int|
                        left < r < n implies consumed_before(prov, prov.len() - 1, r)
                        || match_count(gpolys[left as int]@, #[trigger] gpolys[r]@) < 2 by {
                        if flags0[r] {
                            assert(consumed_before(prov0, prov0.len() as int, r));
                            let k2 = choose|k2: int|
                                0 <= k2 < prov0.len() && (#[trigger] prov0[k2]).1 == r;
                            assert(prov[k2] == prov0[k2]);
                        }
                    }
                    // earlier entries keep their first-match facts
                    assert forall|k: int, r: int|
                        0 <= k < prov.len() - 1 && prov[k].0 < r < n implies consumed_before(
                        prov0,
                        k,
                        r,
                    ) ==> #[trigger] consumed_before(prov, k, r) by {
                        if consumed_before(prov0, k, r) {
                            let k2 = choose|k2: int|
                                0 <= k2 < k && (#[trigger] prov0[k2]).1 == r;
                            assert(prov[k2] == prov0[k2]);
                        }
                    }
                }
            } else {
                proof {
                    let r = choose|r: int|
                        left < r < n && !flags0[r] && match_count(
                            gpolys[left as int]@,
                            #[trigger] gpolys[r]@,
                        ) >= 2 && flags@ == flags0.update(r, true) && result@.len() == result0.len()
                            + 1 && result@.take(result0.len() as int) == result0 && (#[trigger] result@[result0.len() as int]).wf()
                            && result@[result0.len() as int]@.len() <= gpolys[left as int]@.len()
                            + gpolys[r]@.len() - 2 && prov == prov0.push((left as int, r))
                            && merge_result_ok(
                            gpolys[left as int]@,
                            gpolys[r]@,
                            result@[result0.len() as int]@,
                        );
                    // accounting: the union's vertices are paid for by the
                    // two consumed polygons
                    lemma_total_len_push(result0, result@[result0.len() as int]);
                    assert(result@ =~= result0.push(result@[result0.len() as int]));
                    lemma_sel_len_update(gpolys, flags0, r, left as int + 1);
                    lemma_sel_len_nonneg(gpolys, flags@, left as int + 1);
                    lemma_num_true_take_step(flags@, left as int);
                    lemma_num_true_take_update(flags0, r, left as int);
                    lemma_num_true_take_update(flags0, r, left as int + 1);
                    assert(flags@[left as int] == flags0[left as int]);
                    // a set flag stays set through to the end of the scan
                    assert(flags@[r] && left < r < n);
                    assert(num_true(flags@.take(n as int)) > 0) by {
                        lemma_num_true_zero(flags@.take(n as int));
                        assert(flags@.take(n as int)[r] == flags@[r]);
                    }
                    // the pass is no longer pure, so the converged case
                    // cannot have taken this branch
                    assert(match_count(gpolys[left as int]@, gpolys[r]@) >= 2);
                    if converged(gpolys) {
                        assert(match_count(gpolys[left as int]@, gpolys[r]@) < 2);
                    }
                    lemma_num_true_set(flags0, r);
                    assert(flags0.take(n as int) =~= flags0);
                    assert(flags@.take(n as int) =~= flags@);
                    assert forall|idx: int| 0 <= idx < n implies #[trigger] times_used(prov, idx)
                        == times_used(prov0, idx) + (if idx == left {
                        1int
                    } else {
                        0int
                    }) + (if idx == r {
                        1int
                    } else {
                        0int
                    }) by {
                        lemma_times_used_push(prov0, (left as int, r), idx);
                    }
                    assert(pass_entry_ok(gpolys, result@, prov.len() - 1, left as int, r));
                    assert forall|k: int|
                        0 <= k < prov.len() implies pass_entry_ok(
                        gpolys,
                        result@,
                        k,
                        (#[trigger] prov[k]).0,
                        prov[k].1,
                    ) by {
                        if k < prov0.len() {
                            assert(prov[k] == prov0[k]);
                            assert(result@[k] == result0[k]);
                        }
                    }
                    // the flags still mirror the consumed partners: the
                    // new pair consumed exactly its right polygon
                    assert forall|idx: int|
                        0 <= idx < n implies (flags@[idx] <==> #[trigger] consumed_before(
                        prov,
                        prov.len() as int,
                        idx,
                    )) by {
                        if idx == r {
                            assert(prov[prov.len() - 1].1 == r);
                        } else {
                            if consumed_before(prov, prov.len() as int, idx) {
                                let k2 = choose|k2: int|
                                    0 <= k2 < prov.len() && (#[trigger] prov[k2]).1 == idx;
                                if k2 < prov0.len() {
                                    assert(prov[k2] == prov0[k2]);
                                    assert(consumed_before(prov0, prov0.len() as int, idx));
                                }
                            }
                            if flags@[idx] {
                                assert(flags0[idx]);
                                assert(consumed_before(prov0, prov0.len() as int, idx));
                                let k2 = choose|k2: int|
                                    0 <= k2 < prov0.len() && (#[trigger] prov0[k2]).1 == idx;
                                assert(prov[k2] == prov0[k2]);
                                assert(consumed_before(prov, prov.len() as int, idx));
                            }
                        }
                    }
                    // this pair took the first partner still available
                    assert forall|r0: int|
                        left < r0 < r implies consumed_before(prov, prov.len() - 1, r0)
                        || match_count(gpolys[left as int]@, #[trigger] gpolys[r0]@) < 2 by {
                        if flags0[r0] {
                            assert(consumed_before(prov0, prov0.len() as int, r0));
                            let k2 = choose|k2: int|
                                0 <= k2 < prov0.len() && (#[trigger] prov0[k2]).1 == r0;
                            assert(prov[k2] == prov0[k2]);
                        }
                    }
                    // earlier entries keep their first-match facts
                    assert forall|k: int, r0: int|
                        0 <= k < prov.len() - 1 && prov[k].0 < r0 < n implies consumed_before(
                        prov0,
                        k,
                        r0,
                    ) ==> #[trigger] consumed_before(prov, k, r0) by {
                        if consumed_before(prov0, k, r0) {
                            let k2 = choose|k2: int|
                                0 <= k2 < k && (#[trigger] prov0[k2]).1 == r0;
                            assert(prov[k2] == prov0[k2]);
                        }
                    }
                }
            }
        } else {
            proof {
                lemma_num_true_take_step(flags@, left as int);
                lemma_num_true_zero(flags@.take(left as int));
            }
        }
        left += 1;
        proof {
            lemma_num_true_zero(flags@.take(left as int));
        }
    }
    proof {
        assert(flags@.take(n as int) =~= flags@);
        lemma_num_true_zero(flags@);
        lemma_sel_len_nonneg(gpolys, flags@, n as int);
        assert(pass_partition(gpolys, result@, prov)) by {
            assert forall|idx: int| 0 <= idx < n implies #[trigger] times_used(prov, idx)
                == 1 by {}
        }
        assert(result@.len() >= (gpolys.len() + 1) / 2) by {
            assert(result@.len() == n - num_true(flags@.take(n as int)));
            assert(num_true(flags@.take(n as int)) <= result@.len());
        }
        if !converged(gpolys) {
            if forall|k: int| 0 <= k < n ==> !flags@[k] {
                assert forall|l: int, r: int| 0 <= l < r < n implies match_count(
                    gpolys[l]@,
                    gpolys[r]@,
                ) < 2 by {}
                assert(converged(gpolys));
            } else {
                let k = choose|k: int| 0 <= k < n && flags@[k];
                assert(num_true(flags@) > 0) by {
                    lemma_num_true_zero(flags@);
                }
            }
        }
    }
    result
}

/// Appended polygons of bounded size add boundedly to the total.
pub proof fn lemma_total_len_suffix_bound(s: Seq<WalkablePolygon>, w0: int, c: int)
    requires
        0 <= w0 <= s.len(),
        0 <= c,
        forall|k: int| w0 <= k < s.len() ==> (#[trigger] s[k])@.len() <= c,
    ensures
        total_len(s) <= total_len(s.take(w0)) + c * (s.len() - w0),
    decreases s.len() - w0,
{
    if s.len() == w0 {
        assert(s.take(w0) =~= s);
        assert(c * (s.len() - w0) == 0) by (nonlinear_arith)
            requires
                s.len() - w0 == 0,
        ;
    } else {
        let sp = s.drop_last();
        assert(sp.push(s.last()) =~= s);
        lemma_total_len_push(sp, s.last());
        assert(sp.take(w0) =~= s.take(w0));
        lemma_total_len_suffix_bound(sp, w0, c);
        assert(c * (s.len() - w0) == c * (sp.len() - w0) + c) by (nonlinear_arith)
            requires
                s.len() == sp.len() + 1,
        ;
    }
}

} // verus!
