use quickhull::{extreme_points, get_convex_hull, is_convex_hull, Point};
use std::collections::BTreeSet;

fn pts(coords: &[(i64, i64)]) -> Vec<Point> {
    coords.iter().map(|&(x, y)| Point { x, y }).collect()
}

/// Points at whole units, one unit being `10^9` in fixed point.
fn grid(coords: &[(i64, i64)]) -> Vec<Point> {
    coords.iter().map(|&(x, y)| Point { x: x * 1_000_000_000, y: y * 1_000_000_000 }).collect()
}

fn set(v: &[usize]) -> BTreeSet<usize> {
    v.iter().copied().collect()
}

#[test]
fn small_inputs_are_returned_unchanged() {
    assert_eq!(get_convex_hull(&pts(&[])), Vec::<usize>::new());
    assert_eq!(get_convex_hull(&pts(&[(4, 4)])), vec![0]);
    assert_eq!(get_convex_hull(&pts(&[(4, 4), (4, 4)])), vec![0, 1]);
    assert_eq!(get_convex_hull(&pts(&[(9, 1), (-3, 2)])), vec![0, 1]);
}

#[test]
fn collinear_middle_point_is_dropped() {
    let points = pts(&[(0, 0), (1_000_000_000, 0), (2_000_000_000, 0)]);
    let hull = get_convex_hull(&points);
    assert_eq!(hull, vec![0, 2]);
    assert!(is_convex_hull(&points, &hull));
}

#[test]
fn unit_square_keeps_all_corners() {
    let u = 1_000_000_000;
    let points = pts(&[(0, 0), (0, u), (u, 0), (u, u)]);
    let hull = get_convex_hull(&points);
    assert_eq!(hull, vec![1, 3, 2, 0]);
    assert!(is_convex_hull(&points, &hull));
}

#[test]
fn interior_point_is_dropped() {
    let points = grid(&[(0, 0), (4, 0), (2, 5), (2, 1)]);
    let hull = get_convex_hull(&points);
    assert_eq!(hull, vec![0, 2, 1]);
    assert!(is_convex_hull(&points, &hull));
}

#[test]
fn farthest_point_is_the_pivot() {
    // Above the baseline from (0,0) to (10,0): (5,1) is inside the triangle
    // spanned with the farthest point (5,8) and must not reach the hull.
    let points = grid(&[(0, 0), (10, 0), (5, 1), (5, 8), (1, 2), (9, 2)]);
    let hull = get_convex_hull(&points);
    assert_eq!(hull, vec![0, 4, 3, 5, 1]);
    assert!(is_convex_hull(&points, &hull));
}

#[test]
fn coincident_points_give_one_vertex() {
    let points = grid(&[(5, 5), (5, 5), (5, 5)]);
    let hull = get_convex_hull(&points);
    assert_eq!(hull, vec![0]);
    assert!(is_convex_hull(&points, &hull));
}

#[test]
fn vertical_segment_uses_topmost_point_for_both_extremes() {
    let points = grid(&[(0, 0), (0, 1), (0, 2)]);
    assert_eq!(extreme_points(&points), (2, 2));
    let hull = get_convex_hull(&points);
    assert_eq!(hull, vec![2]);
    assert!(is_convex_hull(&points, &hull));
}

#[test]
fn extreme_points_break_ties_by_greater_y() {
    // The first two x values agree to six decimal places.
    let points = pts(&[(1_000_000_200, 0), (1_000_000_100, 5), (0, 0)]);
    assert_eq!(extreme_points(&points), (1, 2));
    let points = pts(&[(0, 0), (0, 3), (7, 1)]);
    assert_eq!(extreme_points(&points), (2, 1));
}

#[test]
fn validator_rejects_missing_vertex() {
    let points = grid(&[(0, 0), (0, 10), (10, 0), (10, 10)]);
    assert!(!is_convex_hull(&points, &vec![1, 3, 2]));
    assert!(is_convex_hull(&points, &vec![1, 3, 2, 0]));
}

#[test]
fn validator_rejects_wrong_winding() {
    let points = grid(&[(0, 0), (0, 10), (10, 0), (10, 10), (5, 5)]);
    assert!(is_convex_hull(&points, &vec![1, 3, 2, 0]));
    assert!(!is_convex_hull(&points, &vec![0, 2, 3, 1]));
}

#[test]
fn validator_accepts_empty_hull_of_empty_input() {
    assert!(is_convex_hull(&pts(&[]), &vec![]));
}

#[test]
fn hull_of_hull_points_is_the_same_set() {
    let points = grid(&[(0, 0), (10, 1), (12, 9), (3, 11), (-4, 6), (5, 5), (4, 2), (6, 8)]);
    let hull = get_convex_hull(&points);
    assert!(is_convex_hull(&points, &hull));
    let again: Vec<Point> = hull.iter().map(|&i| points[i]).collect();
    let hull2 = get_convex_hull(&again);
    assert_eq!(hull2.len(), again.len());
    let back: Vec<usize> = hull2.iter().map(|&k| hull[k]).collect();
    assert_eq!(set(&back), set(&hull));
}

#[test]
fn hull_has_no_repeated_positions() {
    let points = grid(&[(0, 0), (0, 0), (10, 0), (10, 0), (5, 7), (5, 7), (5, -7)]);
    let hull = get_convex_hull(&points);
    assert_eq!(set(&hull).len(), hull.len());
    assert!(hull.iter().all(|&i| i < points.len()));
    assert!(is_convex_hull(&points, &hull));
}

#[test]
fn near_tie_in_x_can_pick_an_inner_leftmost_point() {
    // All x-coordinates below one millionth truncate alike at six places, so
    // the scan settles the leftmost point by y and picks an inner point.
    let points = pts(&[
        (500, -1_000_000_000),
        (500, 1000),
        (100, 0),
        (999, 1),
        (1_000_000_000, 0),
        (5000, 100),
    ]);
    assert_eq!(extreme_points(&points), (4, 3));
    let hull = get_convex_hull(&points);
    assert_eq!(hull[0], 3);
    assert!(!is_convex_hull(&points, &hull));
}
