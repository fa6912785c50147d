use svgpath::boolean::{Operator, WindingInfo};
use svgpath::chains::IntersectionChains;
use svgpath::trace::{trace_paths, TraceLocation, TraceSegment};

fn w(winding: i32, l: i32, r: i32) -> WindingInfo {
    WindingInfo { winding, winding_l: l, winding_r: r, on_path: false }
}

fn seg(path_id: u32, index: u32, next: usize, first: usize, intersection: Option<usize>, winding: WindingInfo) -> TraceSegment {
    TraceSegment { path_id, index, next: Some(next), path_first: first, path_closed: true, intersection, winding }
}

fn loc(segment: usize) -> TraceLocation {
    TraceLocation { segment: Some(segment), overlap: false }
}

#[test]
fn a_lone_square_is_traced_once() {
    let segs: Vec<TraceSegment> = (0..4).map(|i| seg(1, i as u32, (i + 1) % 4, 0, None, w(1, 1, 0))).collect();
    let chains = IntersectionChains::new(0);
    let out = trace_paths(&segs, &Vec::new(), &chains, Operator::Subtract, &vec![None; 4]);
    assert_eq!(out.len(), 1);
    assert_eq!(out[0].segments, vec![0, 1, 2, 3]);
    assert!(out[0].closed);
    // intersection keeps only winding 2
    assert!(trace_paths(&segs, &Vec::new(), &chains, Operator::Intersect, &vec![None; 4]).is_empty());
}

#[test]
fn the_walk_switches_operand_at_crossings() {
    // operand A: segments 0 -> 1 -> 0; operand B: segments 2 -> 3 -> 2
    // segment 1 meets segment 3, segment 2 meets segment 0
    let segs = vec![
        seg(1, 0, 1, 0, Some(3), w(1, 1, 0)),
        seg(1, 1, 0, 0, Some(0), w(0, 0, 0)),
        seg(2, 0, 3, 2, Some(2), w(0, 0, 0)),
        seg(2, 1, 2, 2, Some(1), w(1, 1, 0)),
    ];
    let locs = vec![loc(3), loc(1), loc(0), loc(2)];
    let mut chains = IntersectionChains::new(4);
    chains.linkIntersections(0, 1);
    chains.linkIntersections(2, 3);
    let out = trace_paths(&segs, &locs, &chains, Operator::Unite, &vec![None; 4]);
    assert_eq!(out.len(), 1);
    assert_eq!(out[0].segments, vec![0, 3]);
}

#[test]
fn dead_ends_give_no_contour() {
    // the only way on from segment 0 leads to a segment that is not kept
    let segs = vec![seg(1, 0, 1, 0, None, w(1, 1, 0)), seg(1, 1, 0, 0, None, w(0, 0, 0))];
    let out = trace_paths(&segs, &Vec::new(), &IntersectionChains::new(0), Operator::Unite, &vec![None; 2]);
    assert!(out.is_empty());
}

#[test]
fn a_duplicated_operand_is_emitted_once() {
    let segs = vec![
        seg(1, 0, 1, 0, None, w(2, 2, 0)),
        seg(1, 1, 0, 0, None, w(2, 2, 0)),
        seg(2, 0, 3, 2, None, w(2, 2, 0)),
        seg(2, 1, 2, 2, None, w(2, 2, 0)),
    ];
    let chains = IntersectionChains::new(0);
    let both = trace_paths(&segs, &Vec::new(), &chains, Operator::Unite, &vec![None; 4]);
    assert_eq!(both.len(), 2);
    let once = trace_paths(&segs, &Vec::new(), &chains, Operator::Unite, &vec![Some(2), Some(2), Some(1), Some(1)]);
    assert_eq!(once.len(), 1);
    assert_eq!(once[0].segments, vec![0, 1]);
}

#[test]
fn union_skips_inner_seams() {
    let segs: Vec<TraceSegment> = (0..3).map(|i| seg(1, i as u32, (i + 1) % 3, 0, None, w(2, 1, 1))).collect();
    let out = trace_paths(&segs, &Vec::new(), &IntersectionChains::new(0), Operator::Unite, &vec![None; 3]);
    assert!(out.is_empty());
}

#[test]
fn every_kept_cycle_is_traced() {
    // two separate triangles, all kept: each becomes one contour
    let mut segs: Vec<TraceSegment> = (0..3).map(|i| seg(1, i as u32, (i + 1) % 3, 0, None, w(1, 1, 0))).collect();
    segs.extend((0..3).map(|i| seg(2, i as u32, 3 + (i + 1) % 3, 3, None, w(1, 1, 0))));
    let out = trace_paths(&segs, &Vec::new(), &IntersectionChains::new(0), Operator::Subtract, &vec![None; 6]);
    assert_eq!(out.len(), 2);
    assert_eq!(out[0].segments, vec![0, 1, 2]);
    assert_eq!(out[1].segments, vec![3, 4, 5]);
}
