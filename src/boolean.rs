//! The decisions of the path boolean operations that do not depend on geometry: which
//! winding contributions each operator keeps, and the order in which tracing tries its
//! start segments.
use vstd::prelude::*;
use crate::order::{is_ranking, order_by_keys};

verus! {

/// A boolean operation on two areas.
#[derive(Debug, Clone, Copy, PartialEq, Eq, Structural)]
pub enum Operator {
    Unite,
    Intersect,
    Subtract,
    Exclude,
    Divide,
}

/// Whether a curve with winding contribution `key` belongs to the result of `op`: union keeps
/// 1 and 2, intersection 2, subtraction 1, exclusion 1 and -1 (the latter for paths without
/// crossings, whose windings are signed); division keeps nothing by this table.
pub open spec fn keeps(op: Operator, key: int) -> bool {
    match op {
        Operator::Unite => key == 1 || key == 2,
        Operator::Intersect => key == 2,
        Operator::Subtract => key == 1,
        Operator::Exclude => key == 1 || key == -1,
        Operator::Divide => false,
    }
}

/// The operator's table of winding contributions.
pub fn operators_lookup_table(operator: Operator, key: i32) -> (r: bool)
    ensures
        r == keeps(operator, key as int),
{
    match operator {
        Operator::Unite => key == 1 || key == 2,
        Operator::Intersect => key == 2,
        Operator::Subtract => key == 1,
        Operator::Exclude => key == 1 || key == -1,
        Operator::Divide => false,
    }
}

/// The winding found for a point: the reported winding and the windings counted on its left
/// and on its right, and whether the point lies on a curve.
#[derive(Debug, Clone, Copy, PartialEq, Eq, Structural)]
pub struct WindingInfo {
    pub winding: i32,
    pub winding_l: i32,
    pub winding_r: i32,
    pub on_path: bool,
}

/// Whether a segment of winding `w` goes into the result of `op`. Union drops a segment of
/// winding 2 that has area on both sides: it is a seam inside the result, not its contour.
pub open spec fn keeps_segment(op: Operator, w: WindingInfo) -> bool {
    keeps(op, w.winding as int) && !(op == Operator::Unite && w.winding == 2 && w.winding_l != 0
        && w.winding_r != 0)
}

/// Whether a segment of winding `winding` goes into the result of `operator`.
pub fn is_valid_winding(operator: Operator, winding: &WindingInfo) -> (r: bool)
    ensures
        r == keeps_segment(operator, *winding),
{
    operators_lookup_table(operator, winding.winding) && !(operator == Operator::Unite
        && winding.winding == 2 && winding.winding_l != 0 && winding.winding_r != 0)
}

/// What tracing knows of a segment when choosing where to start: its path and index there,
/// whether it carries an intersection, and whether that intersection is an overlap.
#[derive(Debug, Clone, Copy, PartialEq, Eq, Structural)]
pub struct SegmentRef {
    pub path_id: u32,
    pub index: u32,
    pub has_intersection: bool,
    pub overlap: bool,
}

/// The rank of a segment among start candidates: segments without intersections first, then
/// those with crossings, overlaps last; within each group by path, then by index.
pub open spec fn start_key(s: SegmentRef) -> int {
    (if s.overlap { 4int } else if s.has_intersection { 2int } else { 0int }) * 0x1_0000_0000_0000_0000int
        + s.path_id * 0x1_0000_0000int + s.index
}

pub fn start_key_of(s: &SegmentRef) -> (r: i128)
    ensures
        r == start_key(*s),
{
    let group: i128 = if s.overlap {
        4
    } else if s.has_intersection {
        2
    } else {
        0
    };
    group * 0x1_0000_0000_0000_0000i128 + (s.path_id as i128) * 0x1_0000_0000i128 + (s.index as i128)
}

/// `r` holds the segments of `s` in another order.
pub open spec fn is_reordering(s: Seq<SegmentRef>, r: Seq<SegmentRef>) -> bool {
    exists|order: Seq<usize>, rank: Seq<int>|
        is_ranking(order, rank, s.len() as int) && r.len() == s.len() && forall|m: int|
            0 <= m < r.len() ==> #[trigger] r[m] == s[order[m] as int]
}

/// The start candidates of tracing in the order in which they are tried.
pub fn sort_trace_starts(segments: &Vec<SegmentRef>) -> (r: Vec<SegmentRef>)
    ensures
        is_reordering(segments@, r@),
        forall|m1: int, m2: int|
            0 <= m1 < m2 < r@.len() ==> start_key(#[trigger] r@[m1]) <= start_key(#[trigger] r@[m2]),
{
    let n = segments.len();
    let mut keys: Vec<i128> = Vec::new();
    let mut i: usize = 0;
    while i < n
        invariant
            n == segments@.len(),
            i <= n,
            keys@.len() == i,
            forall|x: int| 0 <= x < i ==> #[trigger] keys@[x] == start_key(segments@[x]),
        decreases n - i,
    {
        keys.push(start_key_of(&segments[i]));
        i = i + 1;
    }
    let (order, Ghost(rank)) = order_by_keys(&keys);
    let mut r: Vec<SegmentRef> = Vec::new();
    let mut m: usize = 0;
    while m < n
        invariant
            n == segments@.len() == keys@.len(),
            is_ranking(order@, rank, n as int),
            m <= n,
            r@.len() == m,
            forall|k: int| 0 <= k < m ==> #[trigger] r@[k] == segments@[order@[k] as int],
        decreases n - m,
    {
        r.push(segments[order[m]]);
        m = m + 1;
    }
    assert forall|m1: int, m2: int| 0 <= m1 < m2 < r@.len() implies start_key(
        #[trigger] r@[m1],
    ) <= start_key(#[trigger] r@[m2]) by {
        assert(keys@[order@[m1] as int] <= keys@[order@[m2] as int]);
    }
    assert(is_ranking(order@, rank, segments@.len() as int) && r@.len() == segments@.len()
        && forall|k: int| 0 <= k < r@.len() ==> #[trigger] r@[k] == segments@[order@[k] as int]);
    r
}


/// How a boolean operation proceeds.
#[derive(Debug, Clone, Copy, PartialEq, Eq, Structural)]
pub enum BooleanStep {
    /// Only split the first operand at the crossings (stroke-like operation).
    Split,
    /// No crossings: decide by nesting and orientation alone.
    Reorient,
    /// Divide at the crossings, propagate windings and trace.
    Trace,
}

/// The decisions of a boolean operation before any geometry is traced.
#[derive(Debug, Clone, Copy, PartialEq, Eq, Structural)]
pub struct BooleanPlan {
    pub step: BooleanStep,
    /// Reverse the second operand, so that it runs against the first for subtraction and
    /// exclusion and with it otherwise.
    pub reverse_second: bool,
}

/// Decides how `operator` proceeds: splitting when tracing is off or a stroke is involved (for
/// subtraction and intersection only), the orientation shortcut when the operands do not
/// cross, tracing otherwise; and whether the second operand is to be reversed.
pub fn plan_boolean(
    operator: Operator,
    trace: bool,
    stroke: bool,
    first_clockwise: bool,
    second_clockwise: bool,
    has_crossings: bool,
) -> (r: BooleanPlan)
    ensures
        r.step == if (!trace || stroke) && (operator == Operator::Subtract || operator
            == Operator::Intersect) {
            BooleanStep::Split
        } else if !has_crossings {
            BooleanStep::Reorient
        } else {
            BooleanStep::Trace
        },
        r.reverse_second == ((operator == Operator::Subtract || operator == Operator::Exclude) != (
        first_clockwise != second_clockwise)),
{
    let opposite = operator == Operator::Subtract || operator == Operator::Exclude;
    let step = if (!trace || stroke) && (operator == Operator::Subtract || operator
        == Operator::Intersect) {
        BooleanStep::Split
    } else if !has_crossings {
        BooleanStep::Reorient
    } else {
        BooleanStep::Trace
    };
    BooleanPlan { step, reverse_second: opposite != (first_clockwise != second_clockwise) }
}

/// Whether splitting keeps a piece of the first operand: never a piece already added; for
/// division every piece; otherwise a piece whose midpoint lies inside the second operand
/// (intersection) or outside it (subtraction).
pub fn keep_piece(operator: Operator, midpoint_inside: bool, added: bool) -> (r: bool)
    ensures
        r == (!added && (operator == Operator::Divide || (midpoint_inside != (operator
            == Operator::Subtract)))),
{
    !added && (operator == Operator::Divide || (midpoint_inside != (operator == Operator::Subtract)))
}

/// Where a division at a curve time lands.
#[derive(Debug, Clone, Copy, PartialEq, Eq, Structural)]
pub enum Landing {
    /// Too close to the start: the curve's first segment is reused.
    First,
    /// Too close to the end: the curve's second segment is reused.
    Second,
    /// The curve is split there.
    Split,
}

/// Decides, for a curve time in fixed point (`one` is time 1, `t_min` the tolerance), whether
/// a division reuses an end segment of the curve or splits it.
pub fn landing(time: i64, t_min: i64, one: i64) -> (r: Landing)
    ensures
        r == if time < t_min {
            Landing::First
        } else if time > one - t_min {
            Landing::Second
        } else {
            Landing::Split
        },
{
    if time < t_min {
        Landing::First
    } else if (time as i128) > (one as i128) - (t_min as i128) {
        Landing::Second
    } else {
        Landing::Split
    }
}

/// The winding kept from samples taken along a chain, tried in order: the best so far is
/// replaced by a sample of strictly higher quality, and sampling stops once the best reaches
/// `half`. Missing samples are skipped; `best` starts as winding 0 with quality -1.
pub open spec fn pick_from(
    samples: Seq<Option<(WindingInfo, u32)>>,
    half: int,
    i: int,
    best: WindingInfo,
    best_q: int,
) -> WindingInfo
    decreases samples.len() - i,
{
    if i < 0 || i >= samples.len() || best_q >= half {
        best
    } else {
        match samples[i] {
            Some((w, q)) => if q > best_q {
                pick_from(samples, half, i + 1, w, q as int)
            } else {
                pick_from(samples, half, i + 1, best, best_q)
            },
            None => pick_from(samples, half, i + 1, best, best_q),
        }
    }
}

pub open spec fn no_winding() -> WindingInfo {
    WindingInfo { winding: 0, winding_l: 0, winding_r: 0, on_path: false }
}

/// Picks the winding of a chain from its samples (winding and fixed-point quality).
pub fn pick_winding(samples: &Vec<Option<(WindingInfo, u32)>>, half: u32) -> (r: WindingInfo)
    ensures
        r == pick_from(samples@, half as int, 0, no_winding(), -1),
{
    let mut best = WindingInfo { winding: 0, winding_l: 0, winding_r: 0, on_path: false };
    let mut best_q: i64 = -1;
    let mut i: usize = 0;
    while i < samples.len() && best_q < half as i64
        invariant
            i <= samples@.len(),
            -1 <= best_q <= u32::MAX,
            pick_from(samples@, half as int, i as int, best, best_q as int) == pick_from(
                samples@,
                half as int,
                0,
                no_winding(),
                -1,
            ),
        decreases samples@.len() - i,
    {
        match samples[i] {
            Some((w, q)) => {
                if q as i64 > best_q {
                    best = w;
                    best_q = q as i64;
                }
            },
            None => {},
        }
        i = i + 1;
    }
    best
}

/// Which windings count as inside an area.
#[derive(Debug, Clone, Copy, PartialEq, Eq, Structural)]
pub enum FillRule {
    NonZero,
    EvenOdd,
    /// Inside where the operator's table keeps the winding.
    Operation(Operator),
}

pub open spec fn inside(rule: FillRule, w: int) -> bool {
    match rule {
        FillRule::NonZero => w != 0,
        FillRule::EvenOdd => w % 2 != 0,
        FillRule::Operation(op) => keeps(op, w),
    }
}

fn is_inside(rule: FillRule, w: i128) -> (r: bool)
    ensures
        r == inside(rule, w as int),
{
    match rule {
        FillRule::NonZero => w != 0,
        FillRule::EvenOdd => w % 2 != 0,
        FillRule::Operation(op) => match op {
            Operator::Unite => w == 1 || w == 2,
            Operator::Intersect => w == 2,
            Operator::Subtract => w == 1,
            Operator::Exclude => w == 1 || w == -1,
            Operator::Divide => false,
        },
    }
}

/// The paths are listed from the largest area to the smallest; `container[i]`, when present,
/// is the earlier path found to contain path `i`.
pub open spec fn containers_ok(clockwise_now: Seq<bool>, container: Seq<Option<usize>>) -> bool {
    &&& clockwise_now.len() == container.len()
    &&& forall|i: int|
        0 <= i < container.len() ==> (#[trigger] container[i] matches Some(j) ==> j < i)
}

/// The winding inside path `i`: its own direction (1 clockwise, -1 otherwise) plus the
/// winding inside its container.
pub open spec fn nest_winding(cw: Seq<bool>, container: Seq<Option<usize>>, i: int) -> int
    decreases i,
{
    let own = if cw[i] { 1int } else { -1int };
    match container[i] {
        Some(j) => if 0 <= j < i {
            own + nest_winding(cw, container, j as int)
        } else {
            own
        },
        None => own,
    }
}

/// The winding just outside path `i`: that inside its container, or 0.
pub open spec fn outer_winding(cw: Seq<bool>, container: Seq<Option<usize>>, i: int) -> int {
    match container[i] {
        Some(j) => nest_winding(cw, container, j as int),
        None => 0,
    }
}

/// Path `i` is dropped when crossing it does not change whether one is inside.
pub open spec fn dropped(rule: FillRule, cw: Seq<bool>, container: Seq<Option<usize>>, i: int) -> bool {
    inside(rule, nest_winding(cw, container, i)) == inside(rule, outer_winding(cw, container, i))
}

/// The kept path whose orientation decides that of path `i`: its container, or, when the
/// container was dropped, the container's own deciding path.
pub open spec fn deciding(rule: FillRule, cw: Seq<bool>, container: Seq<Option<usize>>, i: int) -> Option<
    usize,
>
    decreases i,
{
    match container[i] {
        Some(j) => if 0 <= j < i && dropped(rule, cw, container, j as int) {
            deciding(rule, cw, container, j as int)
        } else {
            Some(j)
        },
        None => None,
    }
}

/// The orientation given to path `i` (`None`: dropped). A kept path runs against the path that
/// decides it; a path with none takes the orientation of the root.
pub open spec fn orientation(
    rule: FillRule,
    cw: Seq<bool>,
    container: Seq<Option<usize>>,
    root: bool,
    i: int,
) -> Option<bool>
    decreases i,
{
    if dropped(rule, cw, container, i) {
        None
    } else {
        match deciding(rule, cw, container, i) {
            Some(d) => if 0 <= d < i {
                match orientation(rule, cw, container, root, d as int) {
                    Some(o) => Some(!o),
                    None => Some(root),
                }
            } else {
                Some(root)
            },
            None => Some(root),
        }
    }
}

proof fn lemma_nest_bound(cw: Seq<bool>, container: Seq<Option<usize>>, i: int)
    requires
        containers_ok(cw, container),
        0 <= i < container.len(),
    ensures
        -(i + 1) <= nest_winding(cw, container, i) <= i + 1,
    decreases i,
{
    if let Some(j) = container[i] {
        lemma_nest_bound(cw, container, j as int);
    }
}

proof fn lemma_deciding_before(rule: FillRule, cw: Seq<bool>, container: Seq<Option<usize>>, i: int)
    requires
        containers_ok(cw, container),
        0 <= i < container.len(),
    ensures
        deciding(rule, cw, container, i) matches Some(d) ==> d < i,
    decreases i,
{
    if let Some(j) = container[i] {
        lemma_deciding_before(rule, cw, container, j as int);
    }
}

/// Decides, for paths listed from the largest area to the smallest, which are kept and in
/// which orientation (`Some(true)`: clockwise). `clockwise_now` is the current orientation
/// of each path and `container[i]` the earlier path found to contain path `i`. The root
/// orientation is `clockwise`, or else that of the largest path.
pub fn reorient_paths(
    clockwise_now: &Vec<bool>,
    container: &Vec<Option<usize>>,
    rule: FillRule,
    clockwise: Option<bool>,
) -> (r: Vec<Option<bool>>)
    requires
        containers_ok(clockwise_now@, container@),
    ensures
        r@.len() == container@.len(),
        forall|i: int|
            0 <= i < r@.len() ==> #[trigger] r@[i] == orientation(
                rule,
                clockwise_now@,
                container@,
                match clockwise {
                    Some(c) => c,
                    None => clockwise_now@[0],
                },
                i,
            ),
{
    let n = container.len();
    let mut out: Vec<Option<bool>> = Vec::new();
    if n == 0 {
        return out;
    }
    let root = match clockwise {
        Some(c) => c,
        None => clockwise_now[0],
    };
    let ghost cw = clockwise_now@;
    let ghost ct = container@;
    let mut winding: Vec<i128> = Vec::new();
    let mut drop: Vec<bool> = Vec::new();
    let mut decider: Vec<Option<usize>> = Vec::new();
    let mut i: usize = 0;
    while i < n
        invariant
            n == ct.len() == cw.len(),
            cw == clockwise_now@,
            ct == container@,
            containers_ok(cw, ct),
            i <= n,
            winding@.len() == i,
            drop@.len() == i,
            decider@.len() == i,
            out@.len() == i,
            n > 0,
            root == match clockwise {
                Some(c) => c,
                None => cw[0],
            },
            forall|k: int| 0 <= k < i ==> #[trigger] winding@[k] == nest_winding(cw, ct, k),
            forall|k: int| 0 <= k < i ==> #[trigger] drop@[k] == dropped(rule, cw, ct, k),
            forall|k: int| 0 <= k < i ==> #[trigger] decider@[k] == deciding(rule, cw, ct, k),
            forall|k: int| 0 <= k < i ==> #[trigger] out@[k] == orientation(rule, cw, ct, root, k),
        decreases n - i,
    {
        proof {
            lemma_nest_bound(cw, ct, i as int);
            lemma_deciding_before(rule, cw, ct, i as int);
        }
        let own: i128 = if clockwise_now[i] {
            1
        } else {
            -1
        };
        let (w, outer) = match container[i] {
            Some(j) => {
                proof {
                    lemma_nest_bound(cw, ct, j as int);
                }
                (own + winding[j], winding[j])
            },
            None => (own, 0),
        };
        let is_dropped = is_inside(rule, w) == is_inside(rule, outer);
        let d = match container[i] {
            Some(j) => if drop[j] {
                decider[j]
            } else {
                Some(j)
            },
            None => None,
        };
        let o = if is_dropped {
            None
        } else {
            match d {
                Some(c) => match out[c] {
                    Some(oc) => Some(!oc),
                    None => Some(root),
                },
                None => Some(root),
            }
        };
        proof {
            let k = i as int;
            assert(w == nest_winding(cw, ct, k));
            assert(outer == outer_winding(cw, ct, k));
            assert(is_dropped == dropped(rule, cw, ct, k));
            assert(d == deciding(rule, cw, ct, k));
            if let Some(c) = d {
                assert(out@[c as int] == orientation(rule, cw, ct, root, c as int));
            }
            assert(o == orientation(rule, cw, ct, root, k));
        }
        winding.push(w);
        drop.push(is_dropped);
        decider.push(d);
        out.push(o);
        i = i + 1;
    }
    out
}


/// Operands whose bounding boxes are disjoint have no crossings, and no path of one contains
/// a path of the other, so the result is decided by orientation alone. With every path made
/// clockwise (as union and intersection prepare them), intersection keeps no path and union
/// keeps every path; with the subtracted paths turned counter-clockwise, subtraction keeps
/// exactly the clockwise paths, those of the first operand.
pub proof fn lemma_disjoint_operands(
    clockwise_now: Seq<bool>,
    container: Seq<Option<usize>>,
    root: bool,
)
    requires
        containers_ok(clockwise_now, container),
        forall|i: int| 0 <= i < container.len() ==> #[trigger] container[i] is None,
    ensures
        (forall|i: int| 0 <= i < container.len() ==> #[trigger] clockwise_now[i]) ==> forall|i: int|
            0 <= i < container.len() ==> #[trigger] orientation(
                FillRule::Operation(Operator::Intersect),
                clockwise_now,
                container,
                root,
                i,
            ) is None,
        (forall|i: int| 0 <= i < container.len() ==> #[trigger] clockwise_now[i]) ==> forall|i: int|
            0 <= i < container.len() ==> #[trigger] orientation(
                FillRule::Operation(Operator::Unite),
                clockwise_now,
                container,
                root,
                i,
            ) == Some(root),
        forall|i: int|
            0 <= i < container.len() ==> (#[trigger] orientation(
                FillRule::Operation(Operator::Subtract),
                clockwise_now,
                container,
                root,
                i,
            ) is Some <==> clockwise_now[i]),
{
    assert forall|i: int| 0 <= i < container.len() implies (orientation(
        FillRule::Operation(Operator::Subtract),
        clockwise_now,
        container,
        root,
        i,
    ) is Some <==> clockwise_now[i]) by {
        assert(container[i] is None);
    }
    if forall|i: int| 0 <= i < container.len() ==> #[trigger] clockwise_now[i] {
        assert forall|i: int| 0 <= i < container.len() implies orientation(
            FillRule::Operation(Operator::Intersect),
            clockwise_now,
            container,
            root,
            i,
        ) is None && orientation(
            FillRule::Operation(Operator::Unite),
            clockwise_now,
            container,
            root,
            i,
        ) == Some(root) by {
            assert(container[i] is None);
            assert(clockwise_now[i]);
        }
    }
}

} // verus!
