//! Tracing the result contours of a boolean operation: a walk over the segments of both
//! operands, split at their crossings, that keeps to segments whose winding the operator
//! keeps, switches operand at crossings, and backtracks out of dead ends.
use vstd::prelude::*;
use crate::boolean::{WindingInfo, Operator, SegmentRef, is_valid_winding, keeps_segment, start_key, start_key_of};
use crate::chains::IntersectionChains;
use crate::order::{is_ranking, order_by_keys};

verus! {

/// A segment of an operand, once its paths are split at all crossings.
#[derive(Debug, Clone, Copy)]
pub struct TraceSegment {
    pub path_id: u32,
    pub index: u32,
    /// The next segment of its path; `None` at the end of an open path.
    pub next: Option<usize>,
    /// The first segment of its path.
    pub path_first: usize,
    pub path_closed: bool,
    /// The location of the intersection at this segment, if any.
    pub intersection: Option<usize>,
    /// The winding of the curve chain that starts here.
    pub winding: WindingInfo,
}

/// An intersection location: the segment of the other curve that meets there.
#[derive(Debug, Clone, Copy)]
pub struct TraceLocation {
    pub segment: Option<usize>,
    pub overlap: bool,
}

/// A traced contour: its segments in order, and whether it is closed.
#[derive(Debug, Clone)]
pub struct Contour {
    pub segments: Vec<usize>,
    pub closed: bool,
}

/// The segments, locations and chains refer to each other within range.
pub open spec fn trace_input_wf(segs: Seq<TraceSegment>, locs: Seq<TraceLocation>, chains: IntersectionChains) -> bool {
    &&& chains.wf()
    &&& chains.len() == locs.len()
    &&& forall|i: int|
        0 <= i < segs.len() ==> {
            &&& (#[trigger] segs[i]).path_first < segs.len()
            &&& (segs[i].next matches Some(b) ==> b < segs.len())
            &&& (segs[i].intersection matches Some(l) ==> l < locs.len())
        }
    &&& forall|x: int| 0 <= x < locs.len() ==> ((#[trigger] locs[x]).segment matches Some(b) ==> b < segs.len())
}

/// The segment after `a`: the next of its path, or, at the end of an open path, its first.
pub open spec fn succ(segs: Seq<TraceSegment>, a: int) -> int {
    match segs[a].next {
        Some(b) => b as int,
        None => segs[a].path_first as int,
    }
}

/// Where the walk stands at segment `nx`, it may go on with `b`: `nx` itself, or a segment
/// that meets `nx` at an intersection of its location's chain.
pub open spec fn option_at(segs: Seq<TraceSegment>, locs: Seq<TraceLocation>, chains: IntersectionChains, nx: int, b: int) -> bool {
    b == nx || (segs[nx].intersection matches Some(l) && exists|x: int|
        0 <= x < locs.len() && chains.chain_of(x) == chains.chain_of(l as int)
            && #[trigger] locs[x].segment == Some(b as usize))
}

/// `c` is a walk: each segment goes on from where the one before it leads.
pub open spec fn is_trace_walk(segs: Seq<TraceSegment>, locs: Seq<TraceLocation>, chains: IntersectionChains, c: Contour) -> bool {
    &&& c.segments@.len() > 0
    &&& forall|k: int| 0 <= k < c.segments@.len() ==> #[trigger] c.segments@[k] < segs.len()
    &&& forall|k: int|
        0 <= k < c.segments@.len() - 1 ==> option_at(
            segs,
            locs,
            chains,
            succ(segs, #[trigger] c.segments@[k] as int),
            c.segments@[k + 1] as int,
        )
}

/// The walk `c` closes: from its last segment it comes back to its first, or to a segment
/// that meets its first at an intersection.
pub open spec fn closes(segs: Seq<TraceSegment>, locs: Seq<TraceLocation>, chains: IntersectionChains, c: Contour) -> bool {
    exists|e: int|
        #[trigger] option_at(segs, locs, chains, succ(segs, c.segments@.last() as int), e) && (e
            == c.segments@[0] || option_at(segs, locs, chains, c.segments@[0] as int, e))
}

/// The rank of segment `i` among start candidates (see `start_key`).
pub open spec fn trace_key(segs: Seq<TraceSegment>, locs: Seq<TraceLocation>, i: int) -> int {
    start_key(
        SegmentRef {
            path_id: segs[i].path_id,
            index: segs[i].index,
            has_intersection: segs[i].intersection is Some,
            overlap: match segs[i].intersection {
                Some(l) => locs[l as int].overlap,
                None => false,
            },
        },
    )
}

/// No segment appears twice among the contours.
pub open spec fn used_at_most_once(r: Seq<Contour>) -> bool {
    forall|c1: int, k1: int, c2: int, k2: int|
        0 <= c1 < r.len() && 0 <= c2 < r.len() && 0 <= k1 < r[c1].segments@.len() && 0 <= k2
            < r[c2].segments@.len() && (c1 != c2 || k1 != k2) ==> #[trigger] r[c1].segments@[k1]
            != #[trigger] r[c2].segments@[k2]
}

/// No segment carries an intersection.
pub open spec fn no_crossings(segs: Seq<TraceSegment>) -> bool {
    forall|i: int| 0 <= i < segs.len() ==> (#[trigger] segs[i]).intersection is None
}

/// Following the paths from `x`, the walk reaches `t` within `k` segments, passing only
/// segments that are not visited in `v` and whose winding `op` keeps.
pub open spec fn free_run(segs: Seq<TraceSegment>, op: Operator, v: Seq<bool>, x: int, t: int, k: nat) -> bool
    decreases k,
{
    k > 0 && 0 <= x < segs.len() && (x == t || (!v[x] && keeps_segment(op, segs[x].winding) && free_run(
        segs,
        op,
        v,
        succ(segs, x),
        t,
        (k - 1) as nat,
    )))
}

/// Segment `x` has a kept winding and lies on a cycle of successors made of kept segments.
pub open spec fn on_kept_cycle(segs: Seq<TraceSegment>, op: Operator, x: int) -> bool {
    keeps_segment(op, segs[x].winding) && free_run(
        segs,
        op,
        none_visited(segs.len() as int),
        succ(segs, x),
        x,
        segs.len() as nat,
    )
}

/// Nothing visited yet.
pub open spec fn none_visited(n: int) -> Seq<bool> {
    Seq::new(n as nat, |i: int| false)
}

/// Segment `x` belongs to one of the contours.
pub open spec fn in_some_contour(r: Seq<Contour>, x: int) -> bool {
    exists|c: int, k: int| 0 <= c < r.len() && 0 <= k < r[c].segments@.len() && #[trigger] r[c].segments@[k] == x
}

/// A run that ends at `t` still runs once `t` is marked.
proof fn lemma_run_mark_target(segs: Seq<TraceSegment>, op: Operator, v: Seq<bool>, x: int, t: int, k: nat)
    requires
        free_run(segs, op, v, x, t, k),
        v.len() == segs.len(),
        0 <= t < v.len(),
    ensures
        free_run(segs, op, v.update(t, true), x, t, k),
    decreases k,
{
    if x != t {
        lemma_run_mark_target(segs, op, v, succ(segs, x), t, (k - 1) as nat);
    }
}

/// A run stays a run when a segment from which no run of that length starts is marked.
proof fn lemma_run_mark_other(segs: Seq<TraceSegment>, op: Operator, v: Seq<bool>, x: int, t: int, k: nat, z: int)
    requires
        free_run(segs, op, v, x, t, k),
        v.len() == segs.len(),
        0 <= z < v.len(),
        forall|j: nat| j <= k ==> !#[trigger] free_run(segs, op, v, z, t, j),
    ensures
        free_run(segs, op, v.update(z, true), x, t, k),
    decreases k,
{
    if x != t {
        assert(x != z);
        assert forall|j: nat| j <= (k - 1) as nat implies !#[trigger] free_run(segs, op, v, z, t, j) by {}
        lemma_run_mark_other(segs, op, v, succ(segs, x), t, (k - 1) as nat, z);
    }
}

/// The shortest run from `x` to `t`.
proof fn lemma_shortest_run(segs: Seq<TraceSegment>, op: Operator, v: Seq<bool>, x: int, t: int, k: nat) -> (k0: nat)
    requires
        free_run(segs, op, v, x, t, k),
    ensures
        k0 <= k,
        free_run(segs, op, v, x, t, k0),
        forall|j: nat| j < k0 ==> !#[trigger] free_run(segs, op, v, x, t, j),
    decreases k,
{
    if exists|j: nat| j < k && #[trigger] free_run(segs, op, v, x, t, j) {
        let j = choose|j: nat| j < k && #[trigger] free_run(segs, op, v, x, t, j);
        lemma_shortest_run(segs, op, v, x, t, j)
    } else {
        k
    }
}

/// Number of segments not yet visited.
pub open spec fn count_false(s: Seq<bool>) -> nat
    decreases s.len(),
{
    if s.len() == 0 {
        0
    } else {
        count_false(s.drop_last()) + if s.last() { 0nat } else { 1nat }
    }
}

proof fn lemma_count_false_mark(s: Seq<bool>, i: int)
    requires
        0 <= i < s.len(),
        !s[i],
    ensures
        count_false(s.update(i, true)) < count_false(s),
    decreases s.len(),
{
    let t = s.update(i, true);
    if i == s.len() - 1 {
        assert(t.drop_last() == s.drop_last());
    } else {
        assert(t.drop_last() == s.drop_last().update(i, true));
        lemma_count_false_mark(s.drop_last(), i);
    }
}

fn succ_of(segments: &Vec<TraceSegment>, a: usize) -> (r: usize)
    requires
        a < segments@.len(),
    ensures
        r == succ(segments@, a as int),
{
    match segments[a].next {
        Some(b) => b,
        None => segments[a].path_first,
    }
}

/// The ways on from segment `seg`: the segments that meet it at its intersection's chain
/// (crossings first), then `seg` itself.
fn options(segments: &Vec<TraceSegment>, locations: &Vec<TraceLocation>, chains: &IntersectionChains, seg: usize) -> (r: Vec<usize>)
    requires
        trace_input_wf(segments@, locations@, *chains),
        seg < segments@.len(),
    ensures
        r@.contains(seg),
        segments@[seg as int].intersection is None ==> r@ == seq![seg],
        forall|k: int|
            0 <= k < r@.len() ==> #[trigger] r@[k] < segments@.len() && option_at(
                segments@,
                locations@,
                *chains,
                seg as int,
                r@[k] as int,
            ),
{
    let mut out: Vec<usize> = Vec::new();
    assert(segments@[seg as int].path_first < segments@.len());
    match segments[seg].intersection {
        Some(l) => {
            let members = chains.chain_members(l);
            let mut k: usize = 0;
            while k < members.len()
                invariant
                    trace_input_wf(segments@, locations@, *chains),
                    seg < segments@.len(),
                    segments@[seg as int].intersection == Some(l),
                    l < chains.len(),
                    forall|q: int|
                        0 <= q < members@.len() ==> #[trigger] members@[q] < chains.len()
                            && chains.chain_of(members@[q] as int) == chains.chain_of(l as int),
                    forall|q: int|
                        0 <= q < out@.len() ==> #[trigger] out@[q] < segments@.len() && option_at(
                            segments@,
                            locations@,
                            *chains,
                            seg as int,
                            out@[q] as int,
                        ),
                decreases members@.len() - k,
            {
                let x = members[k];
                assert(members@[k as int] < chains.len());
                match locations[x].segment {
                    Some(o) => {
                        if o != seg {
                            assert(locations@[x as int].segment == Some(o));
                            out.push(o);
                        }
                    },
                    None => {},
                }
                k = k + 1;
            }
        },
        None => {},
    }
    let ghost before = out@;
    out.push(seg);
    assert(out@[before.len() as int] == seg);
    out
}

fn contains(v: &Vec<usize>, x: usize) -> (r: bool)
    ensures
        r == v@.contains(x),
{
    let mut i: usize = 0;
    while i < v.len()
        invariant
            i <= v@.len(),
            forall|k: int| 0 <= k < i ==> v@[k] != x,
        decreases v@.len() - i,
    {
        if v[i] == x {
            assert(v@[i as int] == x);
            return true;
        }
        i = i + 1;
    }
    false
}

/// Continues the contour in `path` at segment `seg`, which its last segment leads to. Returns
/// the start segment that closed it, or `None` when every branch ran into a dead end; then
/// `path` and `visited` are as they were.
fn extend(
    segments: &Vec<TraceSegment>,
    locations: &Vec<TraceLocation>,
    chains: &IntersectionChains,
    operator: Operator,
    starts: &Vec<usize>,
    visited: &mut Vec<bool>,
    path: &mut Vec<usize>,
    seg: usize,
) -> (r: Option<usize>)
    requires
        trace_input_wf(segments@, locations@, *chains),
        old(visited)@.len() == segments@.len(),
        seg < segments@.len(),
        old(path)@.len() > 0,
        seg == succ(segments@, old(path)@.last() as int),
    ensures
        final(visited)@.len() == segments@.len(),
        r is None ==> final(visited)@ == old(visited)@ && final(path)@ == old(path)@,
        r matches Some(e) ==> e < segments@.len(),
        r matches Some(e) ==> starts@.contains(e) && option_at(
            segments@,
            locations@,
            *chains,
            succ(segments@, final(path)@.last() as int),
            e as int,
        ),
        forall|t: int, k: nat|
            no_crossings(segments@) && starts@.contains(t as usize) && 0 <= t < segments@.len()
                && #[trigger] free_run(segments@, operator, old(visited)@, seg as int, t, k) ==> r is Some,
        r is Some ==> forall|x: int|
            0 <= x < segments@.len() && #[trigger] final(visited)@[x] ==> old(visited)@[x] || exists|
                k: int,
            | old(path)@.len() <= k < final(path)@.len() && final(path)@[k] == x as usize,
        r is Some ==> {
            let n0 = old(path)@.len() as int;
            let p = final(path)@;
            &&& p.len() >= n0
            &&& p.subrange(0, n0) == old(path)@
            &&& forall|k: int|
                n0 <= k < p.len() ==> #[trigger] p[k] < segments@.len() && !old(visited)@[p[k] as int]
                    && final(visited)@[p[k] as int] && keeps_segment(operator, segments@[p[k] as int].winding)
            &&& forall|k1: int, k2: int| n0 <= k1 < k2 < p.len() ==> #[trigger] p[k1] != #[trigger] p[k2]
            &&& forall|s: int| 0 <= s < segments@.len() && old(visited)@[s] ==> #[trigger] final(visited)@[s]
            &&& forall|k: int|
                n0 - 1 <= k < p.len() - 1 ==> option_at(
                    segments@,
                    locations@,
                    *chains,
                    succ(segments@, #[trigger] p[k] as int),
                    p[k + 1] as int,
                )
        },
    decreases count_false(old(visited)@),
{
    let opts = options(segments, locations, chains, seg);
    let ghost good = exists|t: int, k: nat|
        no_crossings(segments@) && starts@.contains(t as usize) && 0 <= t < segments@.len()
            && #[trigger] free_run(segments@, operator, old(visited)@, seg as int, t, k);
    proof {
        if good {
            assert(segments@[seg as int].intersection is None);
        }
    }
    let mut i: usize = 0;
    while i < opts.len()
        invariant
            good == exists|t: int, k: nat|
                no_crossings(segments@) && starts@.contains(t as usize) && 0 <= t < segments@.len()
                    && #[trigger] free_run(segments@, operator, old(visited)@, seg as int, t, k),
            good ==> i == 0 && opts@ == seq![seg],
            trace_input_wf(segments@, locations@, *chains),
            visited@ == old(visited)@,
            path@ == old(path)@,
            visited@.len() == segments@.len(),
            seg < segments@.len(),
            path@.len() > 0,
            seg == succ(segments@, path@.last() as int),
            forall|k: int|
                0 <= k < opts@.len() ==> #[trigger] opts@[k] < segments@.len() && option_at(
                    segments@,
                    locations@,
                    *chains,
                    seg as int,
                    opts@[k] as int,
                ),
        decreases opts@.len() - i,
    {
        let c = opts[i];
        assert(opts@[i as int] < segments@.len());
        if contains(starts, c) {
            proof {
                assert(path@.subrange(0, path@.len() as int) == path@);
                assert(path@[path@.len() - 1] == path@.last());
            }
            return Some(c);
        }
        if !visited[c] && is_valid_winding(operator, &segments[c].winding) {
            let ghost v0 = visited@;
            let ghost p0 = path@;
            visited.set(c, true);
            path.push(c);
            proof {
                lemma_count_false_mark(v0, c as int);
                assert(path@.last() == c);
            }
            let nx = succ_of(segments, c);
            assert(segments@[c as int].path_first < segments@.len());
            let ghost v1 = visited@;
            let ghost p1 = path@;
            let ghost mut tt: int = 0;
            let ghost mut kk: nat = 0;
            proof {
                if good {
                    let (t, k) = choose|t: int, k: nat|
                        no_crossings(segments@) && starts@.contains(t as usize) && 0 <= t < segments@.len()
                            && #[trigger] free_run(segments@, operator, v0, seg as int, t, k);
                    let k0 = lemma_shortest_run(segments@, operator, v0, seg as int, t, k);
                    assert(c == seg);
                    assert(seg as int != t);
                    lemma_run_mark_other(segments@, operator, v0, nx as int, t, (k0 - 1) as nat, seg as int);
                    assert(v1 == v0.update(seg as int, true));
                    assert(free_run(segments@, operator, v1, nx as int, t, (k0 - 1) as nat));
                    tt = t;
                    kk = (k0 - 1) as nat;
                }
            }
            match extend(segments, locations, chains, operator, starts, visited, path, nx) {
                Some(e) => {
                    proof {
                        let n0 = p0.len() as int;
                        let p = path@;
                        assert(p.subrange(0, n0 + 1) == p1);
                        assert(p1.subrange(0, n0) == p0);
                        assert(p.subrange(0, n0) =~= p0);
                        assert(p[n0] == c);
                        assert(p0[n0 - 1] == p0.last());
                        assert forall|k: int| n0 <= k < p.len() implies #[trigger] p[k] < segments@.len()
                            && !v0[p[k] as int] && visited@[p[k] as int] && keeps_segment(
                            operator,
                            segments@[p[k] as int].winding,
                        ) by {
                            if k > n0 {
                                assert(!v1[p[k] as int]);
                            }
                        }
                        assert forall|k1: int, k2: int| n0 <= k1 < k2 < p.len() implies #[trigger] p[k1]
                            != #[trigger] p[k2] by {
                            if k1 == n0 {
                                assert(!v1[p[k2] as int]);
                                assert(v1[c as int]);
                            }
                        }
                        assert forall|s: int| 0 <= s < segments@.len() && v0[s] implies #[trigger] visited@[s] by {
                            assert(v1[s]);
                        }
                        assert forall|x: int|
                            0 <= x < segments@.len() && #[trigger] visited@[x] implies v0[x] || exists|k: int|
                                n0 <= k < p.len() && p[k] == x as usize by {
                            if !v1[x] {
                                let k = choose|k: int| p1.len() <= k < p.len() && p[k] == x as usize;
                            } else if !v0[x] {
                                assert(x == c as int);
                                assert(p[n0] == x as usize);
                            }
                        }
                        assert forall|k: int| n0 - 1 <= k < p.len() - 1 implies option_at(
                            segments@,
                            locations@,
                            *chains,
                            succ(segments@, #[trigger] p[k] as int),
                            p[k + 1] as int,
                        ) by {
                            if k == n0 - 1 {
                                assert(p[k] == p0.last());
                            }
                        }
                    }
                    return Some(e);
                },
                None => {
                    proof {
                        if good {
                            assert(starts@.contains(tt as usize) && 0 <= tt < segments@.len());
                            assert(free_run(segments@, operator, v1, nx as int, tt, kk));
                        }
                        assert(!good);
                    }
                    path.pop();
                    visited.set(c, false);
                    proof {
                        assert(path@ =~= p0);
                        assert(visited@ =~= v0);
                    }
                },
            }
        } else {
            proof {
                if good {
                    let (t, k) = choose|t: int, k: nat|
                        no_crossings(segments@) && starts@.contains(t as usize) && 0 <= t < segments@.len()
                            && #[trigger] free_run(segments@, operator, old(visited)@, seg as int, t, k);
                    assert(c == seg);
                    assert(seg as int != t);
                }
                assert(!good);
            }
        }
        i = i + 1;
    }
    None
}


/// Follows the path of `s` from `s` along its own segments; when it comes back to `s` with
/// every segment on the way unvisited and kept, they are marked visited and returned in order.
/// Otherwise nothing changes.
fn walk_own_path(segments: &Vec<TraceSegment>, operator: Operator, visited: &mut Vec<bool>, s: usize) -> (r:
    Option<Vec<usize>>)
    requires
        forall|i: int| 0 <= i < segments@.len() ==> (#[trigger] segments@[i]).path_first < segments@.len() && (
        segments@[i].next matches Some(b) ==> b < segments@.len()),
        old(visited)@.len() == segments@.len(),
        s < segments@.len(),
        !old(visited)@[s as int],
        keeps_segment(operator, segments@[s as int].winding),
    ensures
        final(visited)@.len() == segments@.len(),
        r is None ==> final(visited)@ == old(visited)@,
        r matches Some(p) ==> {
            &&& p@.len() > 0
            &&& p@[0] == s
            &&& forall|k: int|
                0 <= k < p@.len() ==> #[trigger] p@[k] < segments@.len() && !old(visited)@[p@[k] as int]
                    && final(visited)@[p@[k] as int] && keeps_segment(operator, segments@[p@[k] as int].winding)
            &&& forall|k1: int, k2: int| 0 <= k1 < k2 < p@.len() ==> #[trigger] p@[k1] != #[trigger] p@[k2]
            &&& forall|x: int| 0 <= x < segments@.len() && old(visited)@[x] ==> #[trigger] final(visited)@[x]
            &&& forall|k: int| 0 <= k < p@.len() - 1 ==> p@[k + 1] == succ(segments@, #[trigger] p@[k] as int)
            &&& succ(segments@, p@.last() as int) == s
        },
{
    let ghost v0 = visited@;
    let mut saved: Vec<bool> = Vec::new();
    let mut i: usize = 0;
    while i < visited.len()
        invariant
            visited@ == v0,
            i <= v0.len(),
            saved@ == v0.subrange(0, i as int),
        decreases v0.len() - i,
    {
        saved.push(visited[i]);
        i = i + 1;
    }
    assert(saved@ =~= v0);
    visited.set(s, true);
    let mut path: Vec<usize> = Vec::new();
    path.push(s);
    let mut cur: usize = s;
    loop
        invariant
            forall|i: int| 0 <= i < segments@.len() ==> (#[trigger] segments@[i]).path_first < segments@.len() && (
            segments@[i].next matches Some(b) ==> b < segments@.len()),
            visited@.len() == segments@.len(),
            v0.len() == segments@.len(),
            v0 == old(visited)@,
            saved@ == v0,
            s < segments@.len(),
            path@.len() > 0,
            path@[0] == s,
            cur == path@.last(),
            forall|k: int|
                0 <= k < path@.len() ==> #[trigger] path@[k] < segments@.len() && !v0[path@[k] as int]
                    && visited@[path@[k] as int] && keeps_segment(operator, segments@[path@[k] as int].winding),
            forall|k1: int, k2: int| 0 <= k1 < k2 < path@.len() ==> #[trigger] path@[k1] != #[trigger] path@[k2],
            forall|x: int| 0 <= x < segments@.len() && v0[x] ==> #[trigger] visited@[x],
            forall|k: int| 0 <= k < path@.len() - 1 ==> path@[k + 1] == succ(segments@, #[trigger] path@[k] as int),
        decreases count_false(visited@),
    {
        assert(path@[path@.len() - 1] == cur);
        assert(segments@[cur as int].path_first < segments@.len());
        let nx = succ_of(segments, cur);
        if nx == s {
            return Some(path);
        }
        if visited[nx] || !is_valid_winding(operator, &segments[nx].winding) {
            // not a loop of free segments: undo the marks
            *visited = saved;
            return None;
        }
        let ghost before = visited@;
        let ghost p0 = path@;
        proof {
            lemma_count_false_mark(before, nx as int);
        }
        visited.set(nx, true);
        path.push(nx);
        proof {
            assert forall|k1: int, k2: int| 0 <= k1 < k2 < path@.len() implies #[trigger] path@[k1]
                != #[trigger] path@[k2] by {
                if k2 == p0.len() {
                    assert(before[p0[k1] as int]);
                }
            }
            assert forall|k: int| 0 <= k < path@.len() - 1 implies path@[k + 1] == succ(
                segments@,
                #[trigger] path@[k] as int,
            ) by {
                if k == p0.len() - 1 {
                    assert(p0[k] == cur);
                }
            }
        }
        cur = nx;
    }
}

/// Marks visited every segment of the path `pid`.
fn mark_path(segments: &Vec<TraceSegment>, visited: &mut Vec<bool>, pid: u32)
    requires
        old(visited)@.len() == segments@.len(),
    ensures
        final(visited)@.len() == segments@.len(),
        forall|x: int| 0 <= x < segments@.len() && old(visited)@[x] ==> #[trigger] final(visited)@[x],
{
    let mut i: usize = 0;
    while i < segments.len()
        invariant
            visited@.len() == segments@.len(),
            i <= segments@.len(),
            forall|x: int| 0 <= x < segments@.len() && old(visited)@[x] ==> #[trigger] visited@[x],
        decreases segments@.len() - i,
    {
        if segments[i].path_id == pid {
            visited.set(i, true);
        }
        i = i + 1;
    }
}

/// Adding a contour of segments not yet visited keeps every segment in one place at most.
proof fn lemma_push_contour(r: Seq<Contour>, p: Seq<usize>, c: Contour, v: Seq<bool>)
    requires
        used_at_most_once(r),
        forall|i: int, k: int|
            0 <= i < r.len() && 0 <= k < r[i].segments@.len() ==> r[i].segments@[k] < v.len() && v[#[trigger] r[i].segments@[k] as int],
        c.segments@ == p,
        forall|k: int| 0 <= k < p.len() ==> #[trigger] p[k] < v.len() && !v[p[k] as int],
        forall|k1: int, k2: int| 0 <= k1 < k2 < p.len() ==> #[trigger] p[k1] != #[trigger] p[k2],
    ensures
        used_at_most_once(r.push(c)),
{
    let q = r.push(c);
    assert forall|c1: int, k1: int, c2: int, k2: int|
        0 <= c1 < q.len() && 0 <= c2 < q.len() && 0 <= k1 < q[c1].segments@.len() && 0 <= k2
            < q[c2].segments@.len() && (c1 != c2 || k1 != k2) implies #[trigger] q[c1].segments@[k1]
            != #[trigger] q[c2].segments@[k2] by {
        if c1 < r.len() && c2 < r.len() {
            assert(q[c1] == r[c1] && q[c2] == r[c2]);
        } else if c1 == r.len() && c2 == r.len() {
            if k1 > k2 {
                assert(p[k2] != p[k1]);
            }
        } else if c1 == r.len() {
            assert(q[c2] == r[c2]);
            assert(v[r[c2].segments@[k2] as int]);
            assert(!v[p[k1] as int]);
        } else {
            assert(q[c1] == r[c1]);
            assert(v[r[c1].segments@[k1] as int]);
            assert(!v[p[k2] as int]);
        }
    }
}

/// `p` is a cycle of successors.
pub open spec fn succ_cycle(segs: Seq<TraceSegment>, p: Seq<usize>) -> bool {
    &&& p.len() > 0
    &&& forall|j: int| 0 <= j < p.len() - 1 ==> p[j + 1] == succ(segs, #[trigger] p[j] as int)
    &&& succ(segs, p.last() as int) == p[0]
}

/// Without intersections a closed walk is a cycle of successors.
proof fn lemma_contour_cycle(segs: Seq<TraceSegment>, locs: Seq<TraceLocation>, chains: IntersectionChains, c: Contour)
    requires
        trace_input_wf(segs, locs, chains),
        no_crossings(segs),
        is_trace_walk(segs, locs, chains, c),
        closes(segs, locs, chains, c),
    ensures
        succ_cycle(segs, c.segments@),
{
    let p = c.segments@;
    assert forall|k: int| 0 <= k < p.len() - 1 implies p[k + 1] == succ(segs, #[trigger] p[k] as int) by {
        assert(option_at(segs, locs, chains, succ(segs, p[k] as int), p[k + 1] as int));
        assert(p[k] < segs.len());
        assert(0 <= succ(segs, p[k] as int) < segs.len()) by {
            assert(segs[p[k] as int].path_first < segs.len());
        }
        assert(segs[succ(segs, p[k] as int)].intersection is None);
    }
    let e = choose|e: int|
        #[trigger] option_at(segs, locs, chains, succ(segs, p.last() as int), e) && (e == p[0] || option_at(
            segs,
            locs,
            chains,
            p[0] as int,
            e,
        ));
    assert(p[p.len() - 1] < segs.len());
    assert(segs[p.last() as int].path_first < segs.len());
    assert(segs[succ(segs, p.last() as int)].intersection is None);
    assert(p[0] < segs.len());
    assert(segs[p[0] as int].intersection is None);
}

/// A run from a segment of a successor cycle stays on the cycle.
proof fn lemma_run_in_cycle(segs: Seq<TraceSegment>, op: Operator, v: Seq<bool>, p: Seq<usize>, i: int, t: int, k: nat)
    requires
        succ_cycle(segs, p),
        0 <= i < p.len(),
        free_run(segs, op, v, p[i] as int, t, k),
    ensures
        exists|j: int| 0 <= j < p.len() && p[j] as int == t,
    decreases k,
{
    if p[i] as int != t {
        let i2 = if i < p.len() - 1 { i + 1 } else { 0 };
        assert(p[i2] as int == succ(segs, p[i] as int));
        lemma_run_in_cycle(segs, op, v, p, i2, t, (k - 1) as nat);
    }
}

/// A run that nothing visited blocks, towards an unvisited target, is still free when every
/// visited segment lies on a closed contour.
proof fn lemma_run_still_free(
    segs: Seq<TraceSegment>,
    op: Operator,
    r: Seq<Contour>,
    v: Seq<bool>,
    y: int,
    t: int,
    k: nat,
)
    requires
        v.len() == segs.len(),
        forall|c: int| 0 <= c < r.len() ==> succ_cycle(segs, (#[trigger] r[c]).segments@),
        forall|c: int, j: int|
            0 <= c < r.len() && 0 <= j < r[c].segments@.len() ==> v[#[trigger] r[c].segments@[j] as int],
        forall|x: int| 0 <= x < segs.len() && #[trigger] v[x] ==> in_some_contour(r, x),
        0 <= t < segs.len(),
        !v[t],
        free_run(segs, op, none_visited(segs.len() as int), y, t, k),
    ensures
        free_run(segs, op, v, y, t, k),
    decreases k,
{
    if y != t {
        if v[y] {
            let (c, j) = choose|c: int, j: int|
                0 <= c < r.len() && 0 <= j < r[c].segments@.len() && #[trigger] r[c].segments@[j] == y;
            assert(succ_cycle(segs, r[c].segments@));
            lemma_run_in_cycle(segs, op, none_visited(segs.len() as int), r[c].segments@, j, t, k);
            let j2 = choose|j2: int| 0 <= j2 < r[c].segments@.len() && r[c].segments@[j2] as int == t;
            assert(v[r[c].segments@[j2] as int]);
        }
        lemma_run_still_free(segs, op, r, v, succ(segs, y), t, (k - 1) as nat);
    }
}

/// Contours only grow by appending, so every segment in one stays in one.
proof fn lemma_in_some_push(r: Seq<Contour>, c: Contour, x: int)
    requires
        in_some_contour(r, x),
    ensures
        in_some_contour(r.push(c), x),
{
    let (i, k) = choose|i: int, k: int| 0 <= i < r.len() && 0 <= k < r[i].segments@.len() && #[trigger] r[i].segments@[k] == x;
    assert(r.push(c)[i] == r[i]);
}

/// Appending a closed contour whose first segment ranks last keeps the contours closed and in
/// start order.
proof fn lemma_append_contour(
    segs: Seq<TraceSegment>,
    locs: Seq<TraceLocation>,
    chains: IntersectionChains,
    before: Seq<Contour>,
    c: Contour,
    bound: int,
)
    requires
        forall|i: int| 0 <= i < before.len() ==> closes(segs, locs, chains, #[trigger] before[i]),
        closes(segs, locs, chains, c),
        forall|c1: int, c2: int|
            0 <= c1 < c2 < before.len() ==> trace_key(segs, locs, #[trigger] before[c1].segments@[0] as int)
                <= trace_key(segs, locs, #[trigger] before[c2].segments@[0] as int),
        forall|i: int|
            0 <= i < before.len() ==> trace_key(segs, locs, #[trigger] before[i].segments@[0] as int) <= bound,
        bound <= trace_key(segs, locs, c.segments@[0] as int),
    ensures
        forall|i: int| 0 <= i < before.push(c).len() ==> closes(segs, locs, chains, #[trigger] before.push(c)[i]),
        forall|c1: int, c2: int|
            0 <= c1 < c2 < before.push(c).len() ==> trace_key(segs, locs, #[trigger] before.push(c)[c1].segments@[0] as int)
                <= trace_key(segs, locs, #[trigger] before.push(c)[c2].segments@[0] as int),
        forall|i: int|
            0 <= i < before.push(c).len() ==> trace_key(segs, locs, #[trigger] before.push(c)[i].segments@[0] as int)
                <= trace_key(segs, locs, c.segments@[0] as int),
{
    let a = before.push(c);
    assert forall|i: int| 0 <= i < a.len() implies closes(segs, locs, chains, #[trigger] a[i]) by {
        if i < before.len() {
            assert(a[i] == before[i]);
        }
    }
    assert forall|c1: int, c2: int|
        0 <= c1 < c2 < a.len() implies trace_key(segs, locs, #[trigger] a[c1].segments@[0] as int)
            <= trace_key(segs, locs, #[trigger] a[c2].segments@[0] as int) by {
        assert(a[c1] == before[c1]);
        if c2 < before.len() {
            assert(a[c2] == before[c2]);
        }
    }
    assert forall|i: int| 0 <= i < a.len() implies trace_key(segs, locs, #[trigger] a[i].segments@[0] as int)
        <= trace_key(segs, locs, c.segments@[0] as int) by {
        if i < before.len() {
            assert(a[i] == before[i]);
        }
    }
}

/// Traces the contours of the result of `operator`. Start segments are tried in the order of
/// `start_key` (no intersection, then crossings, overlaps last; by path and index); a start
/// is taken if it is unvisited and its winding is kept. From it the walk follows the paths,
/// at each intersection trying the crossing segments before going straight on, and goes back
/// to the last branch point when it meets a segment that is visited or not kept. A contour
/// is finished when the walk reaches its start or a segment that meets the start. A start
/// whose branches all end in dead ends gives no contour. `duplicate_of[s]` names, for a
/// segment of a path made of overlaps only, the path it exactly duplicates: such a path is
/// emitted once as it stands and the duplicate's segments are marked visited. Dropping
/// contours of zero area is left to the caller.
///
/// Every contour is a closed walk of kept segments, no segment is used twice, and contours
/// come in the order of their first segments. Without intersections and duplicates, every
/// kept segment on a cycle of kept segments ends up in a contour.
pub fn trace_paths(
    segments: &Vec<TraceSegment>,
    locations: &Vec<TraceLocation>,
    chains: &IntersectionChains,
    operator: Operator,
    duplicate_of: &Vec<Option<u32>>,
) -> (r: Vec<Contour>)
    requires
        trace_input_wf(segments@, locations@, *chains),
        duplicate_of@.len() == segments@.len(),
    ensures
        forall|c: int| 0 <= c < r@.len() ==> is_trace_walk(segments@, locations@, *chains, #[trigger] r@[c]),
        forall|c: int, k: int|
            0 <= c < r@.len() && 0 <= k < r@[c].segments@.len() ==> keeps_segment(
                operator,
                segments@[#[trigger] r@[c].segments@[k] as int].winding,
            ),
        used_at_most_once(r@),
        forall|c: int| 0 <= c < r@.len() ==> closes(segments@, locations@, *chains, #[trigger] r@[c]),
        forall|c1: int, c2: int|
            0 <= c1 < c2 < r@.len() ==> trace_key(segments@, locations@, #[trigger] r@[c1].segments@[0] as int)
                <= trace_key(segments@, locations@, #[trigger] r@[c2].segments@[0] as int),
        no_crossings(segments@) && (forall|i: int| 0 <= i < segments@.len() ==> #[trigger] duplicate_of@[i] is None)
            ==> forall|x: int|
            0 <= x < segments@.len() && on_kept_cycle(segments@, operator, x) ==> #[trigger] in_some_contour(r@, x),
{
    let n = segments.len();
    let mut keys: Vec<i128> = Vec::new();
    let mut i: usize = 0;
    while i < n
        invariant
            trace_input_wf(segments@, locations@, *chains),
            n == segments@.len(),
            i <= n,
            keys@.len() == i,
            forall|x: int| 0 <= x < i ==> #[trigger] keys@[x] == trace_key(segments@, locations@, x),
        decreases n - i,
    {
        let seg = segments[i];
        assert(segments@[i as int] == seg);
        let overlap = match seg.intersection {
            Some(l) => {
                assert(segments@[i as int].intersection == Some(l));
                if l < locations.len() {
                    locations[l].overlap
                } else {
                    false
                }
            },
            None => false,
        };
        let r = SegmentRef {
            path_id: seg.path_id,
            index: seg.index,
            has_intersection: seg.intersection.is_some(),
            overlap,
        };
        keys.push(start_key_of(&r));
        i = i + 1;
    }
    let (order, Ghost(rank)) = order_by_keys(&keys);
    let mut visited: Vec<bool> = Vec::new();
    let mut i: usize = 0;
    while i < n
        invariant
            i <= n,
            visited@.len() == i,
            forall|x: int| 0 <= x < i ==> !#[trigger] visited@[x],
        decreases n - i,
    {
        visited.push(false);
        i = i + 1;
    }
    let mut contours: Vec<Contour> = Vec::new();
    let ghost nodup = no_crossings(segments@) && (forall|i: int|
        0 <= i < segments@.len() ==> #[trigger] duplicate_of@[i] is None);
    let mut m: usize = 0;
    while m < n
        invariant
            nodup == (no_crossings(segments@) && (forall|i: int|
                0 <= i < segments@.len() ==> #[trigger] duplicate_of@[i] is None)),
            nodup ==> forall|c: int| 0 <= c < contours@.len() ==> succ_cycle(segments@, (#[trigger] contours@[c]).segments@),
            nodup ==> forall|x: int| 0 <= x < n && #[trigger] visited@[x] ==> in_some_contour(contours@, x),
            forall|mm: int|
                0 <= mm < m && nodup && on_kept_cycle(segments@, operator, #[trigger] order@[mm] as int)
                    ==> in_some_contour(contours@, order@[mm] as int),
            trace_input_wf(segments@, locations@, *chains),
            n == segments@.len() == keys@.len(),
            duplicate_of@.len() == n,
            is_ranking(order@, rank, n as int),
            m <= n,
            visited@.len() == n,
            forall|c: int| 0 <= c < contours@.len() ==> is_trace_walk(segments@, locations@, *chains, #[trigger] contours@[c]),
            forall|c: int, k: int|
                0 <= c < contours@.len() && 0 <= k < contours@[c].segments@.len() ==> contours@[c].segments@[k]
                    < n && visited@[#[trigger] contours@[c].segments@[k] as int] && keeps_segment(
                    operator,
                    segments@[contours@[c].segments@[k] as int].winding,
                ),
            used_at_most_once(contours@),
            forall|x: int| 0 <= x < n ==> #[trigger] keys@[x] == trace_key(segments@, locations@, x),
            forall|m1: int, m2: int|
                0 <= m1 < m2 < n ==> keys@[order@[m1] as int] <= keys@[order@[m2] as int],
            forall|c: int| 0 <= c < contours@.len() ==> closes(segments@, locations@, *chains, #[trigger] contours@[c]),
            forall|c1: int, c2: int|
                0 <= c1 < c2 < contours@.len() ==> trace_key(segments@, locations@, #[trigger] contours@[c1].segments@[0] as int)
                    <= trace_key(segments@, locations@, #[trigger] contours@[c2].segments@[0] as int),
            m == 0 ==> contours@.len() == 0,
            m > 0 ==> forall|c: int|
                0 <= c < contours@.len() ==> trace_key(segments@, locations@, #[trigger] contours@[c].segments@[0] as int)
                    <= keys@[order@[m - 1] as int],
        decreases n - m,
    {
        let s = order[m];
        proof {
            if m > 0 {
                assert(keys@[order@[m - 1] as int] <= keys@[order@[m as int] as int]);
            }
        }
        assert(order@[m as int] < n);
        let ghost c_top = contours@;
        let ghost v_top = visited@;
        let mut handled = false;
        if !visited[s] && is_valid_winding(operator, &segments[s].winding) {
            match duplicate_of[s] {
                Some(pid) => {
                    assert(duplicate_of@[s as int] is Some);
                    assert(!nodup);
                    let ghost v0 = visited@;
                    match walk_own_path(segments, operator, &mut visited, s) {
                        Some(p) => {
                            let ghost v1 = visited@;
                            proof {
                                assert forall|k: int| 0 <= k < p@.len() - 1 implies option_at(
                                    segments@,
                                    locations@,
                                    *chains,
                                    succ(segments@, #[trigger] p@[k] as int),
                                    p@[k + 1] as int,
                                ) by {}
                            }
                            let contour = Contour { segments: p, closed: segments[s].path_closed };
                            proof {
                                lemma_push_contour(contours@, contour.segments@, contour, v0);
                                assert(option_at(
                                    segments@,
                                    locations@,
                                    *chains,
                                    succ(segments@, contour.segments@.last() as int),
                                    s as int,
                                ));
                                assert(closes(segments@, locations@, *chains, contour));
                                assert(keys@[s as int] == trace_key(segments@, locations@, s as int));
                                lemma_append_contour(
                                    segments@,
                                    locations@,
                                    *chains,
                                    contours@,
                                    contour,
                                    if m > 0 { keys@[order@[m - 1] as int] as int } else { keys@[s as int] as int },
                                );
                            }
                            let ghost before = contours@;
                            contours.push(contour);
                            mark_path(segments, &mut visited, pid);
                            proof {
                                assert forall|c: int| 0 <= c < contours@.len() implies is_trace_walk(
                                    segments@,
                                    locations@,
                                    *chains,
                                    #[trigger] contours@[c],
                                ) by {
                                    if c < before.len() {
                                        assert(contours@[c] == before[c]);
                                    }
                                }
                                assert forall|c: int, k: int|
                                    0 <= c < contours@.len() && 0 <= k < contours@[c].segments@.len() implies contours@[c].segments@[k]
                                        < n && visited@[#[trigger] contours@[c].segments@[k] as int] && keeps_segment(
                                        operator,
                                        segments@[contours@[c].segments@[k] as int].winding,
                                    ) by {
                                    if c < before.len() {
                                        assert(contours@[c] == before[c]);
                                        assert(v1[before[c].segments@[k] as int]);
                                    } else {
                                        assert(v1[p@[k] as int]);
                                    }
                                }
                            }
                            handled = true;
                        },
                        None => {},
                    }
                },
                None => {},
            }
        }
        if !handled && !visited[s] && is_valid_winding(operator, &segments[s].winding) {
            let starts = options(segments, locations, chains, s);
            let ghost v0 = visited@;
            visited.set(s, true);
            let mut path: Vec<usize> = Vec::new();
            path.push(s);
            assert(segments@[s as int].path_first < n);
            let nx = succ_of(segments, s);
            let ghost v1 = visited@;
            assert(path@ =~= seq![s]);
            proof {
                if nodup && on_kept_cycle(segments@, operator, s as int) {
                    lemma_run_still_free(segments@, operator, contours@, v0, nx as int, s as int, n as nat);
                    lemma_run_mark_target(segments@, operator, v0, nx as int, s as int, n as nat);
                    assert(v1 == v0.update(s as int, true));
                    assert(starts@.contains(s));
                    assert(free_run(segments@, operator, v1, nx as int, s as int, n as nat));
                }
            }
            match extend(segments, locations, chains, operator, &starts, &mut visited, &mut path, nx) {
                Some(e) => {
                    let closed = if segments[e].next.is_none() || segments[e].path_first == e {
                        segments[e].path_closed
                    } else {
                        true
                    };
                    let ghost p = path@;
                    proof {
                        assert(p.subrange(0, 1) == seq![s]);
                        assert(p[0] == p.subrange(0, 1)[0]);
                        assert(p[0] == s);
                        assert forall|k: int| 0 <= k < p.len() implies #[trigger] p[k] < n && !v0[p[k] as int] by {
                            if k > 0 {
                                assert(!v1[p[k] as int]);
                            }
                        }
                        assert forall|k1: int, k2: int| 0 <= k1 < k2 < p.len() implies #[trigger] p[k1]
                            != #[trigger] p[k2] by {
                            if k1 == 0 {
                                assert(!v1[p[k2] as int]);
                            }
                        }
                        assert forall|i: int, k: int|
                            0 <= i < contours@.len() && 0 <= k < contours@[i].segments@.len()
                                implies contours@[i].segments@[k] < v0.len() && v0[#[trigger] contours@[i].segments@[k] as int] by {}
                    }
                    let contour = Contour { segments: path, closed };
                    proof {
                        lemma_push_contour(contours@, p, contour, v0);
                        let q = choose|q: int| 0 <= q < starts@.len() && starts@[q] == e;
                        assert(option_at(segments@, locations@, *chains, s as int, starts@[q] as int));
                        assert(option_at(
                            segments@,
                            locations@,
                            *chains,
                            succ(segments@, contour.segments@.last() as int),
                            e as int,
                        ));
                        assert(closes(segments@, locations@, *chains, contour));
                        assert(keys@[s as int] == trace_key(segments@, locations@, s as int));
                        lemma_append_contour(
                            segments@,
                            locations@,
                            *chains,
                            contours@,
                            contour,
                            if m > 0 { keys@[order@[m - 1] as int] as int } else { keys@[s as int] as int },
                        );
                    }
                    let ghost before = contours@;
                    contours.push(contour);
                    proof {
                        assert forall|c: int| 0 <= c < contours@.len() implies is_trace_walk(
                            segments@,
                            locations@,
                            *chains,
                            #[trigger] contours@[c],
                        ) by {
                            if c < before.len() {
                                assert(contours@[c] == before[c]);
                            } else {
                                assert(contours@[c].segments@ == p);
                                assert forall|k: int| 0 <= k < p.len() - 1 implies option_at(
                                    segments@,
                                    locations@,
                                    *chains,
                                    succ(segments@, #[trigger] p[k] as int),
                                    p[k + 1] as int,
                                ) by {}
                            }
                        }
                        assert forall|c: int, k: int|
                            0 <= c < contours@.len() && 0 <= k < contours@[c].segments@.len() implies contours@[c].segments@[k]
                                < n && visited@[#[trigger] contours@[c].segments@[k] as int] && keeps_segment(
                                operator,
                                segments@[contours@[c].segments@[k] as int].winding,
                            ) by {
                            if c < before.len() {
                                assert(contours@[c] == before[c]);
                                assert(v1[before[c].segments@[k] as int]);
                            } else {
                                assert(contours@[c].segments@ == p);
                                if k == 0 {
                                    assert(v1[s as int]);
                                }
                            }
                        }
                        let last = contours@.len() - 1;
                        assert(contours@[last].segments@ == p);
                        assert(contours@ == before.push(contours@[last]));
                        assert(contours@[last].segments@[0] == s);
                        assert(in_some_contour(contours@, s as int));
                        assert forall|mm: int|
                            0 <= mm < m + 1 && nodup && on_kept_cycle(segments@, operator, #[trigger] order@[mm] as int)
                                implies in_some_contour(contours@, order@[mm] as int) by {
                            if mm < m {
                                lemma_in_some_push(before, contours@[last], order@[mm] as int);
                            }
                        }
                        if nodup {
                            assert(is_trace_walk(segments@, locations@, *chains, contours@[last]));
                            assert(closes(segments@, locations@, *chains, contours@[last]));
                            lemma_contour_cycle(segments@, locations@, *chains, contours@[last]);
                            assert forall|c: int| 0 <= c < contours@.len() implies succ_cycle(
                                segments@,
                                (#[trigger] contours@[c]).segments@,
                            ) by {
                                if c < before.len() {
                                    assert(contours@[c] == before[c]);
                                }
                            }
                            assert forall|x: int| 0 <= x < n && #[trigger] visited@[x] implies in_some_contour(contours@, x) by {
                                if v0[x] {
                                    lemma_in_some_push(before, contours@[last], x);
                                } else if x == s as int {
                                } else {
                                    assert(v1[x] == v0[x]);
                                    let k = choose|k: int| 1 <= k < p.len() && p[k] == x as usize;
                                    assert(contours@[last].segments@[k] == x as usize);
                                }
                            }
                        }
                    }
                },
                None => {
                    proof {
                        assert(!(nodup && on_kept_cycle(segments@, operator, s as int)));
                    }
                    visited.set(s, false);
                    proof {
                        assert(visited@ =~= v0);
                    }
                },
            }
        }
        proof {
            if nodup && on_kept_cycle(segments@, operator, s as int) {
                if v_top[s as int] {
                    assert(in_some_contour(c_top, s as int));
                }
            }
        }
        m = m + 1;
    }
    proof {
        assert forall|x: int|
            0 <= x < n && nodup && on_kept_cycle(segments@, operator, x) implies #[trigger] in_some_contour(contours@, x) by {
            assert(order@[rank[x]] == x as usize);
            assert(on_kept_cycle(segments@, operator, order@[rank[x]] as int));
        }
    }
    contours
}

} // verus!
