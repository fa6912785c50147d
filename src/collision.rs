//! Broad-phase collision detection between axis-aligned bounding boxes (sweep and prune).
//!
//! Coordinates are fixed-point integers. A box is `[x0, y0, x1, y1]` with `x0 <= x1` and
//! `y0 <= y1`. Two boxes collide on an axis when the gap between them on that axis is at most
//! the tolerance.
use vstd::prelude::*;
use crate::order::{is_ranking, order_by_keys};

verus! {

/// An axis-aligned box: `[x0, y0, x1, y1]`.
pub type Bounds = [i64; 4];

/// Lower coordinate of `b` on the y axis when `vertical`, else on the x axis.
pub open spec fn lo(b: Bounds, vertical: bool) -> int {
    if vertical {
        b@[1] as int
    } else {
        b@[0] as int
    }
}

/// Upper coordinate of `b` on the y axis when `vertical`, else on the x axis.
pub open spec fn hi(b: Bounds, vertical: bool) -> int {
    if vertical {
        b@[3] as int
    } else {
        b@[2] as int
    }
}

/// The lower corner of `b` is not beyond its upper corner.
pub open spec fn valid_bounds(b: Bounds) -> bool {
    b@[0] <= b@[2] && b@[1] <= b@[3]
}

pub open spec fn all_valid(s: Seq<Bounds>) -> bool {
    forall|i: int| 0 <= i < s.len() ==> valid_bounds(#[trigger] s[i])
}

/// `a` and `b` overlap on one axis, once the gap `tol` is allowed between them.
pub open spec fn overlap_on(a: Bounds, b: Bounds, tol: int, vertical: bool) -> bool {
    hi(a, vertical) + tol >= lo(b, vertical) && hi(b, vertical) + tol >= lo(a, vertical)
}

/// `a` and `b` collide: they overlap on the sweep axis and, unless `axis_only`, on the other.
pub open spec fn collide(a: Bounds, b: Bounds, tol: int, vertical: bool, axis_only: bool) -> bool {
    overlap_on(a, b, tol, vertical) && (axis_only || overlap_on(a, b, tol, !vertical))
}

/// The all-pairs test: index `j` belongs to the collisions of `a[i]`. With `b` empty the
/// boxes of `a` are tested against each other and a box is not its own collision; otherwise
/// `a[i]` is tested against every box of `b`.
pub open spec fn pair_collides(
    a: Seq<Bounds>,
    b: Seq<Bounds>,
    tol: int,
    vertical: bool,
    axis_only: bool,
    i: int,
    j: int,
) -> bool {
    if b.len() == 0 {
        0 <= j < a.len() && j != i && collide(a[i], a[j], tol, vertical, axis_only)
    } else {
        0 <= j < b.len() && collide(a[i], b[j], tol, vertical, axis_only)
    }
}

pub open spec fn strictly_increasing(s: Seq<usize>) -> bool {
    forall|p: int, q: int| 0 <= p < q < s.len() ==> s[p] < s[q]
}

/// The brute-force answer for `a[i]`: every matching index, in ascending order.
pub open spec fn all_pairs_collisions(
    a: Seq<Bounds>,
    b: Seq<Bounds>,
    tol: int,
    vertical: bool,
    axis_only: bool,
    i: int,
) -> Seq<usize> {
    let m = if b.len() == 0 { a.len() } else { b.len() };
    Seq::new(m, |j: int| j as usize).filter(
        |j: usize| pair_collides(a, b, tol, vertical, axis_only, i, j as int),
    )
}

/// The lists `r` are the answer of the sweep for `a` and `b`: one list per box of `a`, each in
/// ascending order and holding exactly the indices that the all-pairs test accepts.
pub open spec fn collisions_spec(
    a: Seq<Bounds>,
    b: Seq<Bounds>,
    tol: int,
    vertical: bool,
    axis_only: bool,
    r: Seq<Vec<usize>>,
) -> bool {
    &&& r.len() == a.len()
    &&& forall|i: int|
        #![trigger r[i]]
        0 <= i < a.len() ==> {
            &&& strictly_increasing(r[i]@)
            &&& forall|j: usize|
                #[trigger] r[i]@.contains(j) <==> pair_collides(
                    a,
                    b,
                    tol,
                    vertical,
                    axis_only,
                    i,
                    j as int,
                )
        }
}

/// Two ascending sequences with the same elements are equal.
pub proof fn lemma_increasing_unique(s: Seq<usize>, t: Seq<usize>)
    requires
        strictly_increasing(s),
        strictly_increasing(t),
        forall|x: usize| s.contains(x) <==> t.contains(x),
    ensures
        s == t,
    decreases s.len() + t.len(),
{
    if s.len() == 0 {
        if t.len() > 0 {
            assert(t.contains(t[0]));
        }
        assert(t.len() == 0);
    } else if t.len() == 0 {
        assert(s.contains(s[0]));
    } else {
        // the least elements agree
        assert(s.contains(s[0]));
        assert(t.contains(t[0]));
        let p = choose|p: int| 0 <= p < t.len() && t[p] == s[0];
        let q = choose|q: int| 0 <= q < s.len() && s[q] == t[0];
        assert(s[0] == t[0]) by {
            if p > 0 {
                assert(t[0] < t[p]);
                if q > 0 {
                    assert(s[0] < s[q]);
                }
            }
        }
        let s1 = s.drop_first();
        let t1 = t.drop_first();
        assert forall|x: usize| s1.contains(x) <==> t1.contains(x) by {
            if s1.contains(x) {
                let k = choose|k: int| 0 <= k < s1.len() && s1[k] == x;
                assert(s[k + 1] == x);
                assert(s[0] < x);
                assert(s.contains(x));
                let k2 = choose|k2: int| 0 <= k2 < t.len() && t[k2] == x;
                assert(k2 != 0);
                assert(t1[k2 - 1] == x);
            }
            if t1.contains(x) {
                let k = choose|k: int| 0 <= k < t1.len() && t1[k] == x;
                assert(t[k + 1] == x);
                assert(t[0] < x);
                assert(t.contains(x));
                let k2 = choose|k2: int| 0 <= k2 < s.len() && s[k2] == x;
                assert(k2 != 0);
                assert(s1[k2 - 1] == x);
            }
        }
        lemma_increasing_unique(s1, t1);
        assert(s =~= seq![s[0]] + s1);
        assert(t =~= seq![t[0]] + t1);
    }
}

/// Filtering an ascending sequence leaves it ascending.
proof fn lemma_filter_increasing(s: Seq<usize>, pred: spec_fn(usize) -> bool)
    requires
        strictly_increasing(s),
    ensures
        strictly_increasing(s.filter(pred)),
    decreases s.len(),
{
    reveal(Seq::filter);
    if s.len() > 0 {
        let rest = s.drop_last();
        lemma_filter_increasing(rest, pred);
        let f = rest.filter(pred);
        if pred(s.last()) {
            assert forall|p: int, q: int| 0 <= p < q < f.len() + 1 implies f.push(s.last())[p] < f.push(
                s.last(),
            )[q] by {
                if q == f.len() {
                    assert(f.contains(f[p]));
                    rest.lemma_filter_contains_rev(pred, f[p]);
                    let k = choose|k: int| 0 <= k < rest.len() && rest[k] == f[p];
                    assert(s[k] < s[s.len() - 1]);
                }
            }
        }
    }
}

/// The lists that the sweep returns are the all-pairs lists: for every box of `a`, the
/// indices accepted by the brute-force test, in ascending order.
pub proof fn lemma_sweep_is_all_pairs(
    a: Seq<Bounds>,
    b: Seq<Bounds>,
    tol: int,
    vertical: bool,
    axis_only: bool,
    r: Seq<Vec<usize>>,
)
    requires
        collisions_spec(a, b, tol, vertical, axis_only, r),
        a.len() <= usize::MAX,
        b.len() <= usize::MAX,
    ensures
        forall|i: int|
            0 <= i < a.len() ==> #[trigger] r[i]@ == all_pairs_collisions(
                a,
                b,
                tol,
                vertical,
                axis_only,
                i,
            ),
{
    assert forall|i: int| 0 <= i < a.len() implies #[trigger] r[i]@ == all_pairs_collisions(
        a,
        b,
        tol,
        vertical,
        axis_only,
        i,
    ) by {
        let m = if b.len() == 0 {
            a.len()
        } else {
            b.len()
        };
        let base = Seq::new(m, |j: int| j as usize);
        let pred = |j: usize| pair_collides(a, b, tol, vertical, axis_only, i, j as int);
        let f = base.filter(pred);
        assert(strictly_increasing(base));
        lemma_filter_increasing(base, pred);
        assert forall|x: usize| r[i]@.contains(x) <==> f.contains(x) by {
            if f.contains(x) {
                base.lemma_filter_contains_rev(pred, x);
                broadcast use Seq::lemma_filter_pred;
                let q = choose|q: int| 0 <= q < f.len() && f[q] == x;
                assert(pred(f[q]));
            }
            if r[i]@.contains(x) {
                assert(pred(x));
                assert(base[x as int] == x);
                base.lemma_filter_contains(pred, x as int);
            }
        }
        lemma_increasing_unique(r[i]@, f);
    }
}

/// Inserts `x` into the ascending list `v`, keeping it ascending.
fn insert_sorted(v: &mut Vec<usize>, x: usize)
    requires
        strictly_increasing(old(v)@),
        !old(v)@.contains(x),
    ensures
        strictly_increasing(final(v)@),
        forall|y: usize| final(v)@.contains(y) <==> (old(v)@.contains(y) || y == x),
{
    let mut p: usize = v.len();
    while p > 0 && v[p - 1] > x
        invariant
            p <= v@.len(),
            forall|q: int| p <= q < v@.len() ==> v@[q] > x,
        decreases p,
    {
        p = p - 1;
    }
    proof {
        if p > 0 {
            assert(v@[p - 1] != x) by {
                assert(v@.contains(v@[p - 1]));
            }
        }
    }
    let ghost before = v@;
    v.insert(p, x);
    proof {
        assert(v@ == before.subrange(0, p as int).push(x) + before.subrange(p as int, before.len() as int));
        assert forall|y: usize| v@.contains(y) <==> (before.contains(y) || y == x) by {
            if v@.contains(y) {
                let k = choose|k: int| 0 <= k < v@.len() && v@[k] == y;
                if k < p {
                    assert(before[k] == y);
                } else if k > p {
                    assert(before[k - 1] == y);
                }
            }
            if before.contains(y) {
                let k = choose|k: int| 0 <= k < before.len() && before[k] == y;
                if k < p {
                    assert(v@[k] == y);
                } else {
                    assert(v@[k + 1] == y);
                }
            }
            if y == x {
                assert(v@[p as int] == x);
            }
        }
    }
}

/// Tests whether two boxes overlap on one axis, allowing the gap `tol`.
fn overlaps_on(a: &Bounds, b: &Bounds, tol: i64, vertical: bool) -> (r: bool)
    ensures
        r == overlap_on(*a, *b, tol as int, vertical),
{
    let (alo, ahi, blo, bhi) = if vertical {
        (a[1], a[3], b[1], b[3])
    } else {
        (a[0], a[2], b[0], b[2])
    };
    (ahi as i128) + (tol as i128) >= blo as i128 && (bhi as i128) + (tol as i128) >= alo as i128
}

/// Tests whether two boxes collide.
fn collides(a: &Bounds, b: &Bounds, tol: i64, vertical: bool, axis_only: bool) -> (r: bool)
    ensures
        r == collide(*a, *b, tol as int, vertical, axis_only),
{
    overlaps_on(a, b, tol, vertical) && (axis_only || overlaps_on(a, b, tol, !vertical))
}

fn lower(b: &Bounds, vertical: bool) -> (r: i64)
    ensures
        r == lo(*b, vertical),
{
    if vertical {
        b[1]
    } else {
        b[0]
    }
}

fn upper(b: &Bounds, vertical: bool) -> (r: i64)
    ensures
        r == hi(*b, vertical),
{
    if vertical {
        b[3]
    } else {
        b[2]
    }
}

/// What the sweep works on: all boxes (those of `a`, then those of `b` when two sets are
/// compared), how many came from `a`, and the test applied to each pair.
struct Sweep {
    all: Seq<Bounds>,
    len_a: int,
    two: bool,
    tol: int,
    vertical: bool,
    axis_only: bool,
}

impl Sweep {
    /// The index in `all` of entry `k` of a result list.
    spec fn target(self, k: int) -> int {
        if self.two {
            k + self.len_a
        } else {
            k
        }
    }

    /// Number of entries a result list may refer to.
    spec fn width(self) -> int {
        if self.two {
            self.all.len() - self.len_a
        } else {
            self.all.len() as int
        }
    }

    /// Box `u` of `a` and box `w` of `all` form a pair that the result reports.
    spec fn edge(self, u: int, w: int) -> bool {
        &&& 0 <= u < self.len_a
        &&& 0 <= w < self.all.len()
        &&& if self.two {
            w >= self.len_a
        } else {
            w != u
        }
        &&& collide(self.all[u], self.all[w], self.tol, self.vertical, self.axis_only)
    }

    /// The result lists record exactly the pairs for which `seen` holds.
    spec fn records(self, result: Seq<Vec<usize>>, seen: spec_fn(int, int) -> bool) -> bool {
        &&& result.len() == self.len_a
        &&& forall|u: int|
            #![trigger result[u]]
            0 <= u < self.len_a ==> {
                &&& strictly_increasing(result[u]@)
                &&& forall|k: usize|
                    #[trigger] result[u]@.contains(k) <==> (k < self.width() && self.edge(
                        u,
                        self.target(k as int),
                    ) && seen(u, self.target(k as int)))
            }
    }
}

/// `s.push(x)` holds what `s` holds, and `x`.
proof fn lemma_push_contains(s: Seq<usize>, x: usize)
    ensures
        forall|y: usize| #[trigger] s.push(x).contains(y) <==> (s.contains(y) || y == x),
{
    assert forall|y: usize| #[trigger] s.push(x).contains(y) <==> (s.contains(y) || y == x) by {
        if s.push(x).contains(y) && y != x {
            let q = choose|q: int| 0 <= q < s.len() + 1 && s.push(x)[q] == y;
            assert(q != s.len());
            assert(s[q] == y);
        }
        if s.contains(y) {
            let q = choose|q: int| 0 <= q < s.len() && s[q] == y;
            assert(s.push(x)[q] == y);
        }
        if y == x {
            assert(s.push(x)[s.len() as int] == x);
        }
    }
}

/// Pushing an element that is not there keeps a sequence free of duplicates.
proof fn lemma_push_no_duplicates(s: Seq<usize>, x: usize)
    requires
        s.no_duplicates(),
        !s.contains(x),
    ensures
        s.push(x).no_duplicates(),
{
    assert forall|p: int, q: int| 0 <= p < q < s.len() + 1 implies s.push(x)[p] != s.push(x)[q] by {
        if q == s.len() {
            assert(s.contains(s[p]));
        }
    }
}

/// Keeps the entries of `active` whose box reaches `limit` on the sweep axis (within `tol`).
fn prune(all: &Vec<Bounds>, active: &Vec<usize>, tol: i64, vertical: bool, limit: i64) -> (r: Vec<
    usize,
>)
    requires
        forall|t: int| 0 <= t < active@.len() ==> #[trigger] active@[t] < all@.len(),
        active@.no_duplicates(),
    ensures
        r@.no_duplicates(),
        forall|x: usize|
            #[trigger] r@.contains(x) <==> (active@.contains(x) && hi(all@[x as int], vertical)
                + tol >= limit),
{
    let mut kept: Vec<usize> = Vec::new();
    let mut t: usize = 0;
    while t < active.len()
        invariant
            t <= active@.len(),
            forall|q: int| 0 <= q < active@.len() ==> #[trigger] active@[q] < all@.len(),
            active@.no_duplicates(),
            kept@.no_duplicates(),
            forall|x: usize|
                #[trigger] kept@.contains(x) <==> (active@.subrange(0, t as int).contains(x) && hi(
                    all@[x as int],
                    vertical,
                ) + tol >= limit),
        decreases active@.len() - t,
    {
        let x = active[t];
        let ghost done = active@.subrange(0, t as int);
        assert(active@.subrange(0, t + 1) == done.push(x));
        assert(!done.contains(x)) by {
            if done.contains(x) {
                let q = choose|q: int| 0 <= q < done.len() && done[q] == x;
                assert(active@[q] == active@[t as int]);
            }
        }
        proof {
            lemma_push_contains(done, x);
            lemma_push_contains(kept@, x);
        }
        if (upper(&all[x], vertical) as i128) + (tol as i128) >= limit as i128 {
            proof {
                lemma_push_no_duplicates(kept@, x);
            }
            kept.push(x);
        }
        t = t + 1;
    }
    assert(active@.subrange(0, active@.len() as int) == active@);
    kept
}

/// Pairs whose boxes both come before step `k` of the sweep.
spec fn seen_before(rank: Seq<int>, k: int) -> spec_fn(int, int) -> bool {
    |u: int, w: int| rank[u] < k && rank[w] < k
}

/// Pairs seen at step `k` once the boxes `done` have been tested against box `cur`.
spec fn seen_during(rank: Seq<int>, k: int, cur: usize, done: Seq<usize>) -> spec_fn(
    int,
    int,
) -> bool {
    |u: int, w: int|
        (rank[u] < k && rank[w] < k) || (u == cur && done.contains(w as usize)) || (w == cur
            && done.contains(u as usize))
}

/// Records that hold for one notion of "seen" hold for another that agrees on every edge.
proof fn lemma_records_equiv(
    sw: Sweep,
    result: Seq<Vec<usize>>,
    seen: spec_fn(int, int) -> bool,
    seen_after: spec_fn(int, int) -> bool,
)
    requires
        sw.records(result, seen),
        forall|u: int, w: int| sw.edge(u, w) ==> (seen(u, w) <==> seen_after(u, w)),
    ensures
        sw.records(result, seen_after),
{
    assert forall|u: int| 0 <= u < sw.len_a implies #[trigger] strictly_increasing(result[u]@)
        && forall|k: usize|
        #[trigger] result[u]@.contains(k) <==> (k < sw.width() && sw.edge(u, sw.target(k as int))
            && seen_after(u, sw.target(k as int))) by {
        assert forall|k: usize|
            #[trigger] result[u]@.contains(k) <==> (k < sw.width() && sw.edge(
                u,
                sw.target(k as int),
            ) && seen_after(u, sw.target(k as int))) by {
            if sw.edge(u, sw.target(k as int)) {
                assert(seen(u, sw.target(k as int)) <==> seen_after(u, sw.target(k as int)));
            }
        }
    }
}

/// Adding entry `k0` to row `u0` records the edge from `u0` to its target as well.
proof fn lemma_records_insert(
    sw: Sweep,
    before: Seq<Vec<usize>>,
    after: Seq<Vec<usize>>,
    seen: spec_fn(int, int) -> bool,
    u0: int,
    k0: usize,
)
    requires
        sw.records(before, seen),
        0 <= u0 < sw.len_a,
        k0 < sw.width(),
        sw.edge(u0, sw.target(k0 as int)),
        after.len() == before.len(),
        forall|u: int| 0 <= u < after.len() && u != u0 ==> after[u] == before[u],
        strictly_increasing(after[u0]@),
        forall|y: usize| after[u0]@.contains(y) <==> (before[u0]@.contains(y) || y == k0),
        sw.two ==> sw.len_a <= sw.all.len(),
    ensures
        sw.records(
            after,
            |u: int, w: int| seen(u, w) || (u == u0 && w == sw.target(k0 as int)),
        ),
{
    let seen_after = |u: int, w: int| seen(u, w) || (u == u0 && w == sw.target(k0 as int));
    assert forall|u: int| 0 <= u < sw.len_a implies #[trigger] strictly_increasing(after[u]@)
        && forall|k: usize|
        #[trigger] after[u]@.contains(k) <==> (k < sw.width() && sw.edge(u, sw.target(k as int))
            && seen_after(u, sw.target(k as int))) by {
        if u != u0 {
            assert(after[u] == before[u]);
        }
        assert forall|k: usize|
            #[trigger] after[u]@.contains(k) <==> (k < sw.width() && sw.edge(
                u,
                sw.target(k as int),
            ) && seen_after(u, sw.target(k as int))) by {
            if u == u0 && sw.target(k as int) == sw.target(k0 as int) {
                assert(k == k0);
            }
            if u != u0 {
                assert(before[u]@.contains(k) <==> (k < sw.width() && sw.edge(u, sw.target(k as int))
                    && seen(u, sw.target(k as int))));
            } else {
                assert(before[u]@.contains(k) <==> (k < sw.width() && sw.edge(u, sw.target(k as int))
                    && seen(u, sw.target(k as int))));
            }
        }
    }
}

/// The values of a cubic curve: `[x0, y0, x1, y1, x2, y2, x3, y3]` for its four control points.
pub type CurveValues = [i64; 8];

pub open spec fn min4(a: i64, b: i64, c: i64, d: i64) -> i64 {
    let ab = if a <= b { a } else { b };
    let cd = if c <= d { c } else { d };
    if ab <= cd { ab } else { cd }
}

pub open spec fn max4(a: i64, b: i64, c: i64, d: i64) -> i64 {
    let ab = if a >= b { a } else { b };
    let cd = if c >= d { c } else { d };
    if ab >= cd { ab } else { cd }
}

/// The box of the control points of a curve, which holds the whole curve.
pub open spec fn curve_bounds(v: CurveValues) -> Bounds {
    [
        min4(v@[0], v@[2], v@[4], v@[6]),
        min4(v@[1], v@[3], v@[5], v@[7]),
        max4(v@[0], v@[2], v@[4], v@[6]),
        max4(v@[1], v@[3], v@[5], v@[7]),
    ]
}

pub open spec fn curves_bounds(c: Seq<CurveValues>) -> Seq<Bounds> {
    c.map_values(|v: CurveValues| curve_bounds(v))
}

fn min_of(a: i64, b: i64) -> (r: i64)
    ensures
        r == if a <= b { a } else { b },
{
    if a <= b {
        a
    } else {
        b
    }
}

fn max_of(a: i64, b: i64) -> (r: i64)
    ensures
        r == if a >= b { a } else { b },
{
    if a >= b {
        a
    } else {
        b
    }
}

/// Sweep and prune over the boxes of `a` alone, or of `a` against `b`.
pub struct CollisionDetection;

impl CollisionDetection {
    /// Finds, for each box of `bounds_a`, the indices of the boxes it collides with, in
    /// ascending order: those of `bounds_b`, or, when `bounds_b` is empty, the other boxes of
    /// `bounds_a`. Two boxes collide when on the sweep axis (y when `sweep_vertical`, else x)
    /// and, unless `only_sweep_axis_collisions`, on the other axis the gap between them is at
    /// most `tolerance`.
    #[allow(non_snake_case)]
    pub fn findBoundsCollisions(
        &self,
        bounds_a: &Vec<Bounds>,
        bounds_b: &Vec<Bounds>,
        tolerance: i64,
        sweep_vertical: bool,
        only_sweep_axis_collisions: bool,
    ) -> (r: Vec<Vec<usize>>)
        requires
            all_valid(bounds_a@),
            all_valid(bounds_b@),
            tolerance >= 0,
        ensures
            collisions_spec(
                bounds_a@,
                bounds_b@,
                tolerance as int,
                sweep_vertical,
                only_sweep_axis_collisions,
                r@,
            ),
            forall|i: int|
                0 <= i < bounds_a@.len() ==> #[trigger] r@[i]@ == all_pairs_collisions(
                    bounds_a@,
                    bounds_b@,
                    tolerance as int,
                    sweep_vertical,
                    only_sweep_axis_collisions,
                    i,
                ),
    {
        let vertical = sweep_vertical;
        let axis_only = only_sweep_axis_collisions;
        let two = bounds_b.len() > 0;
        let len_a = bounds_a.len();
        let mut all: Vec<Bounds> = Vec::new();
        let mut i: usize = 0;
        while i < len_a
            invariant
                i <= len_a == bounds_a@.len(),
                all@ == bounds_a@.subrange(0, i as int),
            decreases len_a - i,
        {
            all.push(bounds_a[i]);
            i = i + 1;
        }
        if two {
            let mut j: usize = 0;
            while j < bounds_b.len()
                invariant
                    j <= bounds_b@.len(),
                    all@ == bounds_a@ + bounds_b@.subrange(0, j as int),
                decreases bounds_b@.len() - j,
            {
                all.push(bounds_b[j]);
                j = j + 1;
            }
        }
        proof {
            assert(bounds_a@.subrange(0, len_a as int) == bounds_a@);
            assert(bounds_b@.subrange(0, bounds_b@.len() as int) == bounds_b@);
        }
        let ghost sw = Sweep {
            all: all@,
            len_a: len_a as int,
            two,
            tol: tolerance as int,
            vertical,
            axis_only,
        };
        assert(all_valid(all@)) by {
            assert forall|x: int| 0 <= x < all@.len() implies valid_bounds(#[trigger] all@[x]) by {
                if x >= len_a {
                    assert(all@[x] == bounds_b@[x - len_a]);
                }
            }
        }
        let n = all.len();
        let mut keys: Vec<i128> = Vec::new();
        let mut q: usize = 0;
        while q < n
            invariant
                n == all@.len(),
                q <= n,
                keys@.len() == q,
                forall|x: int| 0 <= x < q ==> #[trigger] keys@[x] == lo(all@[x], vertical),
            decreases n - q,
        {
            keys.push(lower(&all[q], vertical) as i128);
            q = q + 1;
        }
        let (order, Ghost(rank)) = order_by_keys(&keys);
        assert forall|m1: int, m2: int| 0 <= m1 < m2 < n implies lo(all@[order@[m1] as int], vertical)
            <= lo(all@[order@[m2] as int], vertical) by {
            assert(keys@[order@[m1] as int] <= keys@[order@[m2] as int]);
        }
        let mut result: Vec<Vec<usize>> = Vec::new();
        let mut i: usize = 0;
        while i < len_a
            invariant
                i <= len_a,
                result@.len() == i,
                forall|u: int| 0 <= u < i ==> #[trigger] result@[u]@.len() == 0,
            decreases len_a - i,
        {
            result.push(Vec::new());
            i = i + 1;
        }
        let mut active: Vec<usize> = Vec::new();
        let mut k: usize = 0;
        while k < n
            invariant
                n == all@.len() == sw.all.len(),
                sw.all == all@,
                sw.len_a == len_a,
                len_a == bounds_a@.len(),
                sw.two == two,
                sw.tol == tolerance,
                sw.vertical == vertical,
                sw.axis_only == axis_only,
                tolerance >= 0,
                two == (bounds_b@.len() > 0),
                all@ == if two { bounds_a@ + bounds_b@ } else { bounds_a@ },
                all_valid(all@),
                k <= n,
                is_ranking(order@, rank, n as int),
                forall|m1: int, m2: int|
                    0 <= m1 < m2 < n ==> lo(all@[order@[m1] as int], vertical) <= lo(
                        all@[order@[m2] as int],
                        vertical,
                    ),
                active@.no_duplicates(),
                forall|t: int|
                    0 <= t < active@.len() ==> #[trigger] active@[t] < n && rank[active@[t] as int]
                        < k,
                forall|x: usize|
                    x < n && rank[x as int] < k && !#[trigger] active@.contains(x) ==> k > 0 && hi(
                        all@[x as int],
                        vertical,
                    ) + tolerance < lo(all@[order@[k - 1] as int], vertical),
                sw.records(result@, seen_before(rank, k as int)),
            decreases n - k,
        {
            let cur = order[k];
            let cur_lo = lower(&all[cur], vertical);
            let kept = prune(&all, &active, tolerance, vertical, cur_lo);
            proof {
                // a box that collides with the current one is still active
                assert forall|x: usize|
                    x < n && rank[x as int] < k && overlap_on(
                        all@[x as int],
                        all@[cur as int],
                        tolerance as int,
                        vertical,
                    ) implies #[trigger] kept@.contains(x) by {
                    if !active@.contains(x) {
                        assert(lo(all@[order@[k - 1] as int], vertical) <= lo(
                            all@[cur as int],
                            vertical,
                        ));
                    }
                }
                assert forall|t: int| 0 <= t < kept@.len() implies #[trigger] kept@[t] < n
                    && rank[kept@[t] as int] < k by {
                    assert(kept@.contains(kept@[t]));
                    let q = choose|q: int| 0 <= q < active@.len() && active@[q] == kept@[t];
                }
            }
            let mut t: usize = 0;
            while t < kept.len()
                invariant
                    n == all@.len() == sw.all.len(),
                    sw.all == all@,
                    sw.len_a == len_a,
                    len_a <= n,
                    sw.two == two,
                    sw.tol == tolerance,
                    sw.vertical == vertical,
                    sw.axis_only == axis_only,
                    two == (n > len_a),
                    !two ==> n == len_a,
                    t <= kept@.len(),
                    k < n,
                    cur == order@[k as int],
                    is_ranking(order@, rank, n as int),
                    kept@.no_duplicates(),
                    forall|q: int|
                        0 <= q < kept@.len() ==> #[trigger] kept@[q] < n && rank[kept@[q] as int]
                            < k,
                    sw.records(result@, seen_during(rank, k as int, cur, kept@.subrange(0, t as int))),
                decreases kept@.len() - t,
            {
                let x = kept[t];
                let ghost done = kept@.subrange(0, t as int);
                proof {
                    assert(kept@.subrange(0, t + 1) == done.push(x));
                    assert(!done.contains(x)) by {
                        if done.contains(x) {
                            let q = choose|q: int| 0 <= q < done.len() && done[q] == x;
                            assert(kept@[q] == kept@[t as int]);
                        }
                    }
                    assert(rank[cur as int] == k);
                    assert(x != cur);
                }
                let pair = if two {
                    (x < len_a) != (cur < len_a)
                } else {
                    true
                };
                let ghost before = result@;
                let ghost p_t = seen_during(rank, k as int, cur, done);
                let ghost p_next = seen_during(rank, k as int, cur, done.push(x));
                proof {
                    lemma_push_contains(done, x);
                    assert(!p_t(cur as int, x as int));
                    assert(!p_t(x as int, cur as int));
                }
                if pair && collides(&all[x], &all[cur], tolerance, vertical, axis_only) {
                    if two {
                        if cur < len_a {
                            assert(sw.target((x - len_a) as int) == x);
                            insert_sorted(&mut result[cur], x - len_a);
                            proof {
                                lemma_records_insert(sw, before, result@, p_t, cur as int, (x - len_a) as usize);
                                lemma_records_equiv(
                                    sw,
                                    result@,
                                    |u: int, w: int| p_t(u, w) || (u == cur && w == sw.target((x - len_a) as int)),
                                    p_next,
                                );
                            }
                        } else {
                            assert(sw.target((cur - len_a) as int) == cur);
                            insert_sorted(&mut result[x], cur - len_a);
                            proof {
                                lemma_records_insert(sw, before, result@, p_t, x as int, (cur - len_a) as usize);
                                lemma_records_equiv(
                                    sw,
                                    result@,
                                    |u: int, w: int| p_t(u, w) || (u == x && w == sw.target((cur - len_a) as int)),
                                    p_next,
                                );
                            }
                        }
                    } else {
                        insert_sorted(&mut result[cur], x);
                        let ghost mid = result@;
                        let ghost p_mid = |u: int, w: int| p_t(u, w) || (u == cur && w == sw.target(x as int));
                        proof {
                            lemma_records_insert(sw, before, mid, p_t, cur as int, x);
                            assert(!p_mid(x as int, cur as int));
                        }
                        insert_sorted(&mut result[x], cur);
                        proof {
                            lemma_records_insert(sw, mid, result@, p_mid, x as int, cur);
                            lemma_records_equiv(
                                sw,
                                result@,
                                |u: int, w: int| p_mid(u, w) || (u == x && w == sw.target(cur as int)),
                                p_next,
                            );
                        }
                    }
                } else {
                    proof {
                        lemma_records_equiv(sw, result@, p_t, p_next);
                    }
                }
                t = t + 1;
            }
            proof {
                assert(kept@.subrange(0, kept@.len() as int) == kept@);
                assert(rank[cur as int] == k);
                assert(!kept@.contains(cur)) by {
                    if kept@.contains(cur) {
                        let q = choose|q: int| 0 <= q < kept@.len() && kept@[q] == cur;
                    }
                }
                assert forall|u: int, w: int| sw.edge(u, w) implies (seen_during(
                    rank,
                    k as int,
                    cur,
                    kept@,
                )(u, w) <==> seen_before(rank, k + 1)(u, w)) by {
                    if rank[u] == k {
                        assert(order@[k as int] == u);
                    }
                    if rank[w] == k {
                        assert(order@[k as int] == w);
                    }
                    if u == cur && rank[w] < k {
                        assert(overlap_on(all@[w], all@[cur as int], tolerance as int, vertical));
                        assert(kept@.contains(w as usize));
                    }
                    if w == cur && rank[u] < k {
                        assert(overlap_on(all@[u], all@[cur as int], tolerance as int, vertical));
                        assert(kept@.contains(u as usize));
                    }
                    if u == cur && kept@.contains(w as usize) {
                        let q = choose|q: int| 0 <= q < kept@.len() && kept@[q] == w as usize;
                    }
                    if w == cur && kept@.contains(u as usize) {
                        let q = choose|q: int| 0 <= q < kept@.len() && kept@[q] == u as usize;
                    }
                }
                lemma_records_equiv(
                    sw,
                    result@,
                    seen_during(rank, k as int, cur, kept@),
                    seen_before(rank, k + 1),
                );
                lemma_push_contains(kept@, cur);
                lemma_push_no_duplicates(kept@, cur);
                assert forall|x: usize|
                    x < n && rank[x as int] < k + 1 && !#[trigger] kept@.push(cur).contains(x) implies hi(
                        all@[x as int],
                        vertical,
                    ) + tolerance < lo(all@[order@[k as int] as int], vertical) by {
                    if rank[x as int] == k {
                        assert(order@[k as int] == x);
                    }
                    if !active@.contains(x) {
                        assert(lo(all@[order@[k - 1] as int], vertical) <= lo(
                            all@[cur as int],
                            vertical,
                        ));
                    }
                }
            }
            active = kept;
            active.push(cur);
            k = k + 1;
        }
        proof {
            lemma_sweep_is_all_pairs(
                bounds_a@,
                bounds_b@,
                tolerance as int,
                vertical,
                axis_only,
                result@,
            );
        }
        result
    }

    /// Finds collisions between the bounding boxes of items: for each item of `items1`, the
    /// items of `items2` (of `items1` itself when `items2` is empty, where each item then
    /// collides with itself) whose boxes collide on both axes, `tolerance` apart at most.
    #[allow(non_snake_case)]
    pub fn findItemBoundsCollisions(&self, items1: &Vec<Bounds>, items2: &Vec<Bounds>, tolerance: i64) -> (r:
        Vec<Vec<usize>>)
        requires
            all_valid(items1@),
            all_valid(items2@),
            tolerance >= 0,
        ensures
            collisions_spec(
                items1@,
                if items2@.len() == 0 { items1@ } else { items2@ },
                tolerance as int,
                false,
                false,
                r@,
            ),
    {
        if items2.len() == 0 {
            self.findBoundsCollisions(items1, items1, tolerance, false, false)
        } else {
            self.findBoundsCollisions(items1, items2, tolerance, false, false)
        }
    }

    /// The boxes of the control points of the given curves.
    #[allow(non_snake_case)]
    fn getBounds(curves: &Vec<CurveValues>) -> (r: Vec<Bounds>)
        ensures
            r@ == curves_bounds(curves@),
            all_valid(r@),
    {
        let mut r: Vec<Bounds> = Vec::new();
        let mut i: usize = 0;
        while i < curves.len()
            invariant
                i <= curves@.len(),
                r@ == curves_bounds(curves@.subrange(0, i as int)),
                all_valid(r@),
            decreases curves@.len() - i,
        {
            let v = curves[i];
            let b: Bounds = [
                min_of(min_of(v[0], v[2]), min_of(v[4], v[6])),
                min_of(min_of(v[1], v[3]), min_of(v[5], v[7])),
                max_of(max_of(v[0], v[2]), max_of(v[4], v[6])),
                max_of(max_of(v[1], v[3]), max_of(v[5], v[7])),
            ];
            assert(b@ == curve_bounds(v)@);
            r.push(b);
            proof {
                assert(curves@.subrange(0, i + 1) == curves@.subrange(0, i as int).push(v));
                assert(curves_bounds(curves@.subrange(0, i + 1)) =~= curves_bounds(
                    curves@.subrange(0, i as int),
                ).push(curve_bounds(v)));
                assert(b == curve_bounds(v));
            }
            i = i + 1;
        }
        assert(curves@.subrange(0, curves@.len() as int) == curves@);
        r
    }

    /// Finds collisions between the boxes of the control points of curves: for each curve of
    /// `curves1`, the curves of `curves2` (of `curves1` itself when `curves2` is empty, where
    /// each curve then collides with itself) whose boxes collide on both axes.
    #[allow(non_snake_case)]
    pub fn findCurveBoundsCollisions(
        &self,
        curves1: &Vec<CurveValues>,
        curves2: &Vec<CurveValues>,
        tolerance: i64,
    ) -> (r: Vec<Vec<usize>>)
        requires
            tolerance >= 0,
        ensures
            collisions_spec(
                curves_bounds(curves1@),
                curves_bounds(if curves2@.len() == 0 { curves1@ } else { curves2@ }),
                tolerance as int,
                false,
                false,
                r@,
            ),
    {
        let bounds1 = Self::getBounds(curves1);
        let bounds2 = if curves2.len() == 0 {
            Self::getBounds(curves1)
        } else {
            Self::getBounds(curves2)
        };
        self.findBoundsCollisions(&bounds1, &bounds2, tolerance, false, false)
    }

    /// Like `findCurveBoundsCollisions`, with the sweep made along each axis and only that
    /// axis tested: for each curve, the pair of lists (along x, along y).
    #[allow(non_snake_case)]
    pub fn findCurveBoundsCollisionsBothAxis(
        &self,
        curves1: &Vec<CurveValues>,
        curves2: &Vec<CurveValues>,
        tolerance: i64,
    ) -> (r: Vec<(Vec<usize>, Vec<usize>)>)
        requires
            tolerance >= 0,
        ensures
            collisions_spec(
                curves_bounds(curves1@),
                curves_bounds(if curves2@.len() == 0 { curves1@ } else { curves2@ }),
                tolerance as int,
                false,
                true,
                r@.map_values(|p: (Vec<usize>, Vec<usize>)| p.0),
            ),
            collisions_spec(
                curves_bounds(curves1@),
                curves_bounds(if curves2@.len() == 0 { curves1@ } else { curves2@ }),
                tolerance as int,
                true,
                true,
                r@.map_values(|p: (Vec<usize>, Vec<usize>)| p.1),
            ),
    {
        let bounds1 = Self::getBounds(curves1);
        let bounds2 = if curves2.len() == 0 {
            Self::getBounds(curves1)
        } else {
            Self::getBounds(curves2)
        };
        let mut hor = self.findBoundsCollisions(&bounds1, &bounds2, tolerance, false, true);
        let mut ver = self.findBoundsCollisions(&bounds1, &bounds2, tolerance, true, true);
        let ghost hor0 = hor@;
        let ghost ver0 = ver@;
        let mut r: Vec<(Vec<usize>, Vec<usize>)> = Vec::new();
        let n = hor.len();
        // take the lists from the back, so that each move is a pop
        while hor.len() > 0
            invariant
                hor@.len() == ver@.len(),
                hor@.len() + r@.len() == n,
                n == hor0.len() == ver0.len(),
                hor@ == hor0.subrange(0, hor@.len() as int),
                ver@ == ver0.subrange(0, ver@.len() as int),
                forall|q: int|
                    0 <= q < r@.len() ==> #[trigger] r@[q].0 == hor0[n - 1 - q] && r@[q].1 == ver0[n
                        - 1 - q],
            decreases hor@.len(),
        {
            let h = hor.pop().unwrap();
            let v = ver.pop().unwrap();
            r.push((h, v));
        }
        // the lists came out in reverse order
        let mut out: Vec<(Vec<usize>, Vec<usize>)> = Vec::new();
        while r.len() > 0
            invariant
                r@.len() + out@.len() == n,
                n == hor0.len() == ver0.len(),
                forall|q: int|
                    0 <= q < r@.len() ==> #[trigger] r@[q].0 == hor0[n - 1 - q] && r@[q].1 == ver0[n
                        - 1 - q],
                forall|q: int|
                    0 <= q < out@.len() ==> #[trigger] out@[q].0 == hor0[q] && out@[q].1 == ver0[q],
            decreases r@.len(),
        {
            let p = r.pop().unwrap();
            out.push(p);
        }
        proof {
            let first = out@.map_values(|p: (Vec<usize>, Vec<usize>)| p.0);
            let second = out@.map_values(|p: (Vec<usize>, Vec<usize>)| p.1);
            assert forall|q: int| 0 <= q < n implies first[q] == hor0[q] && second[q] == ver0[q] by {
                assert(out@.len() == n);
                assert(out@[q].0 == hor0[q]);
                assert(out@[q].1 == ver0[q]);
            }
            assert(first =~= hor0);
            assert(second =~= ver0);
        }
        out
    }
}

} // verus!
