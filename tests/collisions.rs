use svgpath::collision::{Bounds, CollisionDetection};

fn brute_force(a: &[Bounds], b: &[Bounds], tol: i64, vertical: bool, axis_only: bool) -> Vec<Vec<usize>> {
    let overlap = |p: &Bounds, q: &Bounds, v: bool| {
        let (plo, phi, qlo, qhi) = if v { (p[1], p[3], q[1], q[3]) } else { (p[0], p[2], q[0], q[2]) };
        phi + tol >= qlo && qhi + tol >= plo
    };
    let collide = |p: &Bounds, q: &Bounds| overlap(p, q, vertical) && (axis_only || overlap(p, q, !vertical));
    a.iter()
        .enumerate()
        .map(|(i, p)| {
            if b.is_empty() {
                (0..a.len()).filter(|&j| j != i && collide(p, &a[j])).collect()
            } else {
                (0..b.len()).filter(|&j| collide(p, &b[j])).collect()
            }
        })
        .collect()
}

fn grid_boxes() -> Vec<Bounds> {
    let mut out = Vec::new();
    let mut seed: i64 = 17;
    for _ in 0..40 {
        seed = (seed * 1103515245 + 12345) % 2147483648;
        let x = seed % 100;
        seed = (seed * 1103515245 + 12345) % 2147483648;
        let y = seed % 100;
        seed = (seed * 1103515245 + 12345) % 2147483648;
        let w = seed % 15;
        seed = (seed * 1103515245 + 12345) % 2147483648;
        let h = seed % 15;
        out.push([x, y, x + w, y + h]);
    }
    out
}

#[test]
fn sweep_matches_all_pairs_within_one_set() {
    let boxes = grid_boxes();
    let cd = CollisionDetection;
    for &(vertical, axis_only, tol) in &[(false, false, 0), (true, false, 0), (false, true, 2), (true, true, 3)] {
        let got = cd.findBoundsCollisions(&boxes, &Vec::new(), tol, vertical, axis_only);
        assert_eq!(got, brute_force(&boxes, &[], tol, vertical, axis_only));
    }
}

#[test]
fn sweep_matches_all_pairs_between_two_sets() {
    let boxes = grid_boxes();
    let (a, b) = boxes.split_at(15);
    let cd = CollisionDetection;
    for &(vertical, axis_only, tol) in &[(false, false, 0), (true, false, 1), (false, true, 0)] {
        let got = cd.findBoundsCollisions(&a.to_vec(), &b.to_vec(), tol, vertical, axis_only);
        assert_eq!(got, brute_force(a, b, tol, vertical, axis_only));
    }
}

#[test]
fn touching_and_separated_boxes() {
    let cd = CollisionDetection;
    let boxes: Vec<Bounds> = vec![[0, 0, 10, 10], [10, 0, 20, 10], [21, 0, 30, 10]];
    let got = cd.findBoundsCollisions(&boxes, &Vec::new(), 0, false, false);
    assert_eq!(got, vec![vec![1], vec![0], vec![]]);
    let with_tolerance = cd.findBoundsCollisions(&boxes, &Vec::new(), 1, false, false);
    assert_eq!(with_tolerance, vec![vec![1], vec![0, 2], vec![1]]);
}

#[test]
fn a_set_compared_with_itself_holds_each_box() {
    let cd = CollisionDetection;
    let boxes: Vec<Bounds> = vec![[0, 0, 1, 1], [5, 5, 6, 6]];
    let got = cd.findBoundsCollisions(&boxes, &boxes, 0, false, false);
    assert_eq!(got, vec![vec![0], vec![1]]);
}

#[test]
fn empty_input_gives_no_lists() {
    let cd = CollisionDetection;
    let got = cd.findBoundsCollisions(&Vec::new(), &Vec::new(), 0, false, false);
    assert!(got.is_empty());
}

#[test]
fn curve_bounds_collisions_include_the_curve_itself() {
    let cd = CollisionDetection;
    // two curves whose control points overlap, and one far away
    let curves = vec![
        [0, 0, 5, 10, 10, 10, 10, 0],
        [8, -2, 9, 1, 12, 3, 15, 0],
        [100, 100, 101, 101, 102, 102, 103, 103],
    ];
    let got = cd.findCurveBoundsCollisions(&curves, &Vec::new(), 0);
    assert_eq!(got, vec![vec![0, 1], vec![0, 1], vec![2]]);
    let both = cd.findCurveBoundsCollisionsBothAxis(&curves, &Vec::new(), 0);
    assert_eq!(both.len(), 3);
    assert_eq!(both[0].0, vec![0, 1]);
    assert_eq!(both[0].1, vec![0, 1]);
    assert_eq!(both[2].0, vec![2]);
}

#[test]
fn axis_only_ignores_the_other_axis() {
    let cd = CollisionDetection;
    let boxes: Vec<Bounds> = vec![[0, 0, 10, 10], [5, 50, 15, 60]];
    assert_eq!(cd.findBoundsCollisions(&boxes, &Vec::new(), 0, false, true), vec![vec![1], vec![0]]);
    assert_eq!(cd.findBoundsCollisions(&boxes, &Vec::new(), 0, false, false), vec![Vec::<usize>::new(), vec![]]);
    assert_eq!(cd.findBoundsCollisions(&boxes, &Vec::new(), 0, true, true), vec![Vec::<usize>::new(), vec![]]);
}

#[test]
fn item_bounds_collisions() {
    let cd = CollisionDetection;
    let items: Vec<Bounds> = vec![[0, 0, 4, 4], [3, 3, 8, 8], [10, 10, 12, 12]];
    assert_eq!(cd.findItemBoundsCollisions(&items, &Vec::new(), 0), vec![vec![0, 1], vec![0, 1], vec![2]]);
    assert_eq!(cd.findItemBoundsCollisions(&items, &Vec::new(), 2), vec![vec![0, 1], vec![0, 1, 2], vec![1, 2]]);
    let other: Vec<Bounds> = vec![[11, 0, 13, 11]];
    assert_eq!(cd.findItemBoundsCollisions(&items, &other, 0), vec![Vec::<usize>::new(), vec![], vec![0]]);
}
