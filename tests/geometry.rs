use quickhull::{approx_equal, signed_distance_to_line, to_location, Point};
use itertools::Either;

#[test]
fn approx_equal_truncates_at_six_places() {
    assert!(approx_equal(1_000_000_400, 1_000_000_900, 6));
    assert!(!approx_equal(1_000_000_999, 1_000_001_000, 6));
}

#[test]
fn approx_equal_truncates_toward_zero() {
    assert!(approx_equal(-1_500, -1_999, 6));
    // Rounding down would put -999 below zero and 999 at zero.
    assert!(approx_equal(-999, 999, 6));
    assert!(!approx_equal(-1_000, 999, 6));
}

#[test]
fn approx_equal_at_full_precision() {
    assert!(!approx_equal(5, 6, 9));
    assert!(approx_equal(5, 5, 12));
    assert!(approx_equal(123_456_789, 987_654_321, 0));
    assert!(!approx_equal(1_999_999_999, 2_000_000_000, 0));
}

#[test]
fn distance_to_horizontal_line() {
    let a = Point { x: 0, y: 0 };
    let b = Point { x: 2, y: 0 };
    let line = signed_distance_to_line(&a, &b);
    assert_eq!(line.normal_x, 0);
    assert_eq!(line.normal_y, 2);
    assert_eq!(line.norm, 2);
    assert_eq!(line.eval(&Point { x: 1, y: 1 }), 1);
    assert_eq!(line.eval(&Point { x: 5, y: -3 }), -3);
    assert_eq!(line.eval(&Point { x: 7, y: 0 }), 0);
}

#[test]
fn distance_does_not_grow_with_the_baseline() {
    let a = Point { x: 0, y: 0 };
    let c = Point { x: 0, y: 1_000_000_000 };
    for len in [1_000_000_000i64, 2_000_000_000, 3_000_000_000] {
        let line = signed_distance_to_line(&a, &Point { x: len, y: 0 });
        assert_eq!(line.eval(&c), 1_000_000_000);
    }
    let line = signed_distance_to_line(&a, &Point { x: 3, y: 0 });
    assert_eq!(line.eval(&Point { x: 0, y: 1 }), 1);
}

#[test]
fn distance_to_slanted_line_truncates() {
    // The line y = x, and the point (0, 2): the distance is sqrt(2) = 1.41...
    let a = Point { x: 0, y: 0 };
    let b = Point { x: 1_000_000_000, y: 1_000_000_000 };
    let line = signed_distance_to_line(&a, &b);
    assert_eq!(line.norm, 1_414_213_562);
    assert_eq!(line.eval(&Point { x: 0, y: 2_000_000_000 }), 1_414_213_562);
    assert_eq!(line.eval(&Point { x: 2_000_000_000, y: 0 }), -1_414_213_562);
}

#[test]
fn distance_to_zero_length_line_is_zero() {
    let a = Point { x: 3, y: 4 };
    let line = signed_distance_to_line(&a, &a);
    assert_eq!(line.eval(&Point { x: 100, y: -50 }), 0);
}

#[test]
fn distance_at_coordinate_limits() {
    let m = quickhull::MAX_COORD;
    let a = Point { x: -m, y: -m };
    let b = Point { x: m, y: -m };
    let line = signed_distance_to_line(&a, &b);
    let d = line.eval(&Point { x: m, y: m });
    assert_eq!(d, 2 * m as i128);
}

#[test]
fn location_left_right_and_dropped() {
    assert_eq!(to_location(7, 5, -1), Some(Either::Left((7, 5))));
    assert_eq!(to_location(7, -2, 3), Some(Either::Right((7, 3))));
    assert_eq!(to_location(7, 0, -1), None);
    assert_eq!(to_location(7, -1, 0), None);
    assert_eq!(to_location(7, -1, -1), None);
    assert_eq!(to_location(7, 2, 3), None);
}
