use svgpath::boolean::{keep_piece, landing, pick_winding, Landing};
use svgpath::boolean::{plan_boolean, BooleanStep};
use svgpath::boolean::{
    is_valid_winding, operators_lookup_table, reorient_paths, sort_trace_starts, FillRule, Operator, SegmentRef,
    WindingInfo,
};
use svgpath::chains::IntersectionChains;

#[test]
fn operator_tables() {
    for key in -3..=3 {
        assert_eq!(operators_lookup_table(Operator::Unite, key), key == 1 || key == 2);
        assert_eq!(operators_lookup_table(Operator::Intersect, key), key == 2);
        assert_eq!(operators_lookup_table(Operator::Subtract, key), key == 1);
        assert_eq!(operators_lookup_table(Operator::Exclude, key), key == 1 || key == -1);
        assert!(!operators_lookup_table(Operator::Divide, key));
    }
}

#[test]
fn union_drops_inner_seams() {
    let seam = WindingInfo { winding: 2, winding_l: 1, winding_r: 1, on_path: false };
    let contour = WindingInfo { winding: 2, winding_l: 2, winding_r: 0, on_path: false };
    assert!(!is_valid_winding(Operator::Unite, &seam));
    assert!(is_valid_winding(Operator::Unite, &contour));
    assert!(is_valid_winding(Operator::Intersect, &seam));
    let outside = WindingInfo { winding: 0, winding_l: 0, winding_r: 0, on_path: false };
    assert!(!is_valid_winding(Operator::Unite, &outside));
    let single = WindingInfo { winding: 1, winding_l: 1, winding_r: 0, on_path: true };
    assert!(is_valid_winding(Operator::Subtract, &single));
    assert!(!is_valid_winding(Operator::Intersect, &single));
}

fn seg(path_id: u32, index: u32, has_intersection: bool, overlap: bool) -> SegmentRef {
    SegmentRef { path_id, index, has_intersection, overlap }
}

#[test]
fn trace_starts_order() {
    let input = vec![
        seg(1, 0, true, true),
        seg(2, 1, true, false),
        seg(2, 0, false, false),
        seg(1, 3, false, false),
        seg(1, 1, true, false),
        seg(1, 2, false, false),
    ];
    let sorted = sort_trace_starts(&input);
    assert_eq!(
        sorted,
        vec![
            seg(1, 2, false, false),
            seg(1, 3, false, false),
            seg(2, 0, false, false),
            seg(1, 1, true, false),
            seg(2, 1, true, false),
            seg(1, 0, true, true),
        ]
    );
    assert!(sort_trace_starts(&Vec::new()).is_empty());
}

#[test]
fn chains_link_and_merge() {
    let mut c = IntersectionChains::new(4);
    c.linkIntersections(0, 1);
    assert_eq!(c.next(0), Some(1));
    assert_eq!(c.previous(1), Some(0));
    // already linked: nothing changes
    c.linkIntersections(1, 0);
    assert_eq!(c.next(1), None);
    assert_eq!(c.previous(0), None);
    c.linkIntersections(2, 3);
    // the end of the chain of 1 is linked to the start of the chain of 3
    c.linkIntersections(1, 3);
    assert_eq!(c.next(1), Some(2));
    assert_eq!(c.previous(2), Some(1));
    assert_eq!(c.next(2), Some(3));
    // one chain now: linking inside it changes nothing
    c.linkIntersections(0, 3);
    assert_eq!(c.next(3), None);
    assert_eq!(c.previous(0), None);
}

#[test]
fn linking_from_the_middle_goes_to_the_end() {
    let mut c = IntersectionChains::new(5);
    c.linkIntersections(0, 1);
    c.linkIntersections(1, 2);
    c.linkIntersections(3, 4);
    c.linkIntersections(0, 4);
    assert_eq!(c.next(2), Some(3));
    assert_eq!(c.previous(3), Some(2));
}

#[test]
fn annulus_from_subtracting_an_inner_circle() {
    // outer circle (clockwise) and the inner circle it contains, turned counter-clockwise
    // for subtraction: both stay, with opposite orientations
    let out = reorient_paths(&vec![true, false], &vec![None, Some(0)], FillRule::Operation(Operator::Subtract), None);
    assert_eq!(out, vec![Some(true), Some(false)]);
    // with a requested counter-clockwise root, both flip
    let out = reorient_paths(&vec![true, false], &vec![None, Some(0)], FillRule::Operation(Operator::Subtract), Some(false));
    assert_eq!(out, vec![Some(false), Some(true)]);
}

#[test]
fn disjoint_operands() {
    let cw = vec![true, true];
    let none = vec![None, None];
    assert_eq!(reorient_paths(&cw, &none, FillRule::Operation(Operator::Intersect), None), vec![None, None]);
    assert_eq!(reorient_paths(&cw, &none, FillRule::Operation(Operator::Unite), None), vec![Some(true), Some(true)]);
    let subtract = reorient_paths(&vec![true, false], &none, FillRule::Operation(Operator::Subtract), None);
    assert_eq!(subtract, vec![Some(true), None]);
}

#[test]
fn nested_paths_under_fill_rules() {
    // three nested paths of the same orientation
    let cw = vec![true, true, true];
    let nested = vec![None, Some(0), Some(1)];
    // non-zero: the inner two do not change insideness and are dropped
    assert_eq!(reorient_paths(&cw, &nested, FillRule::NonZero, None), vec![Some(true), None, None]);
    // even-odd: every boundary counts, orientations alternate
    assert_eq!(reorient_paths(&cw, &nested, FillRule::EvenOdd, None), vec![Some(true), Some(false), Some(true)]);
    assert!(reorient_paths(&Vec::new(), &Vec::new(), FillRule::NonZero, None).is_empty());
}

#[test]
fn a_dropped_container_passes_on_its_own_container() {
    // under the intersection table only winding 2 is inside: path 0 alone is dropped, path 1
    // (inside it) has no kept container and takes the root orientation, path 2 runs against
    // path 1
    let out = reorient_paths(
        &vec![true, true, false],
        &vec![None, Some(0), Some(1)],
        FillRule::Operation(Operator::Intersect),
        None,
    );
    assert_eq!(out, vec![None, Some(true), Some(false)]);
}

#[test]
fn boolean_plans() {
    let p = plan_boolean(Operator::Subtract, false, false, true, true, true);
    assert_eq!(p.step, BooleanStep::Split);
    assert!(p.reverse_second);
    let p = plan_boolean(Operator::Unite, false, true, true, true, true);
    assert_eq!(p.step, BooleanStep::Trace);
    assert!(!p.reverse_second);
    let p = plan_boolean(Operator::Exclude, true, false, true, false, false);
    assert_eq!(p.step, BooleanStep::Reorient);
    assert!(!p.reverse_second);
    let p = plan_boolean(Operator::Intersect, true, false, true, false, true);
    assert_eq!(p.step, BooleanStep::Trace);
    assert!(p.reverse_second);
}

#[test]
fn chain_members_in_order() {
    let mut c = IntersectionChains::new(5);
    c.linkIntersections(3, 1);
    c.linkIntersections(1, 4);
    assert_eq!(c.chain_members(4), vec![3, 1, 4]);
    assert_eq!(c.chain_members(3), vec![3, 1, 4]);
    assert_eq!(c.chain_members(0), vec![0]);
}

#[test]
fn split_keeps_pieces_by_operator() {
    assert!(keep_piece(Operator::Intersect, true, false));
    assert!(!keep_piece(Operator::Intersect, false, false));
    assert!(keep_piece(Operator::Subtract, false, false));
    assert!(!keep_piece(Operator::Subtract, true, false));
    assert!(keep_piece(Operator::Divide, false, false));
    assert!(!keep_piece(Operator::Divide, true, true));
}

#[test]
fn division_landings() {
    assert_eq!(landing(0, 10, 1000), Landing::First);
    assert_eq!(landing(9, 10, 1000), Landing::First);
    assert_eq!(landing(10, 10, 1000), Landing::Split);
    assert_eq!(landing(990, 10, 1000), Landing::Split);
    assert_eq!(landing(991, 10, 1000), Landing::Second);
}

#[test]
fn winding_samples() {
    let w = |n: i32| WindingInfo { winding: n, winding_l: n, winding_r: 0, on_path: false };
    // the first sample of sufficient quality wins
    assert_eq!(pick_winding(&vec![Some((w(1), 60)), Some((w(2), 100))], 50), w(1));
    // otherwise the best one, the earliest on ties
    assert_eq!(pick_winding(&vec![Some((w(1), 10)), Some((w(2), 30)), Some((w(3), 30))], 50), w(2));
    assert_eq!(pick_winding(&vec![None, Some((w(3), 0))], 50), w(3));
    assert_eq!(pick_winding(&vec![None, None], 50), w(0));
}
