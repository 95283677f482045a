use quickhull::{get_convex_hull, is_convex_hull, Point};
use rand::rngs::StdRng;
use rand::{Rng, SeedableRng};
use std::time::Instant;

const SEED: u64 = 0xdeadbeef;

fn fixed(v: f64) -> i64 {
    (v * 1e9).trunc() as i64
}

fn create_points(seed: u64, amount: i64, width: f64, height: f64) -> Vec<Point> {
    let mut rng = StdRng::seed_from_u64(seed);
    (0..amount)
        .map(|_| Point {
            x: fixed(rng.gen::<f64>() * width - width / 2f64),
            y: fixed(rng.gen::<f64>() * height - height / 2f64),
        })
        .collect()
}

fn run_seeded(amount: i64) {
    for i in 0..50 {
        let points = create_points(SEED + i, amount, 100f64, 100f64);
        let hull = get_convex_hull(&points);
        println!("Points: {:?}", points);
        println!("Hull: {:?}", hull);
        assert!(is_convex_hull(&points, &hull), "Problem in iteration {}", i);
    }
}

#[test]
fn exploration() {
    assert_eq!(2 + 2, 4);
}

#[test]
fn simple_test() {
    let points = vec![
        Point { x: fixed(0f64), y: fixed(0f64) },
        Point { x: fixed(0f64), y: fixed(1f64) },
        Point { x: fixed(1f64), y: fixed(0f64) },
        Point { x: fixed(1f64), y: fixed(1f64) },
    ];
    let hull = get_convex_hull(&points);
    assert!(is_convex_hull(&points, &hull));
}

#[test]
fn test_5() {
    run_seeded(5);
}

#[test]
fn test_10() {
    run_seeded(10);
}

#[test]
fn test_20() {
    run_seeded(20);
}

#[test]
fn test_50() {
    run_seeded(50);
}

#[test]
fn test_100() {
    run_seeded(100);
}

#[test]
fn test_5_no_2() {
    let i = 2;
    let points = create_points(SEED + i, 5, 100f64, 100f64);
    let hull = get_convex_hull(&points);
    println!("Points: {:?}", points);
    println!("Hull: {:?}", hull);
    assert!(is_convex_hull(&points, &hull), "Problem in iteration {}", i);
}

#[test]
fn big_test() {
    let points = create_points(SEED, 10_000_000, 100_f64, 100_f64);
    let now = Instant::now();
    let hull = get_convex_hull(&points);
    println!("Elapsed time: {} ms", now.elapsed().as_millis());
    assert!(is_convex_hull(&points, &hull), "Could not find correct hull for big test");
}
