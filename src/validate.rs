//! The validator: whether a boundary is a convex hull of a point set.

use crate::geometry::{all_in_range, cross, signed_distance_to_line, Line, Point};
use rayon::iter::{IntoParallelRefIterator, ParallelIterator};
use crate::hull::all_below;
use vstd::prelude::*;

verus! {

/// Each point of `points` that `hull` does not hold lies on the inner side of
/// every edge `hull[e] -> hull[e + 1]` (the last edge closing back to the
/// first vertex), or on the edge's line.
pub open spec fn convex_ok(points: Seq<Point>, hull: Seq<usize>) -> bool {
    forall|e: int, i: int|
        0 <= e < hull.len() && 0 <= i < points.len() && !hull.contains(i as usize)
            ==> #[trigger] edge_keeps(points, hull, e, i)
}

/// Point `i` lies on the inner side of edge `e` of `hull`, or on its line.
pub open spec fn edge_keeps(points: Seq<Point>, hull: Seq<usize>, e: int, i: int) -> bool {
    cross(
        points[hull[e] as int],
        points[hull[(e + 1) % (hull.len() as int)] as int],
        points[i],
    ) <= 0
}

/// Relies on rayon's `ParallelIterator::all`: true exactly when the predicate
/// holds of every item, here that point `idx[k]` is on the line or to its right.
#[verifier::external_body]
fn par_all_kept(line: &Line, points: &Vec<Point>, idx: &Vec<usize>) -> (r: bool)
    requires
        line.wf(),
        all_in_range(points@),
        all_below(idx@, points.len() as nat),
    ensures
        r == forall|k: int| 0 <= k < idx.len() ==> line.scaled_dist(points@[#[trigger] idx@[k] as int]) <= 0,
{
    idx.par_iter().all(|i| line.keeps(&points[*i]))
}

/// A flag for each position below `n`: set exactly where `hull` holds it.
fn hull_mask(hull: &Vec<usize>, n: usize) -> (mask: Vec<bool>)
    requires
        all_below(hull@, n as nat),
    ensures
        mask.len() == n,
        forall|i: int| 0 <= i < n ==> #[trigger] mask@[i] == hull@.contains(i as usize),
{
    let mut mask: Vec<bool> = Vec::new();
    let mut i: usize = 0;
    while i < n
        invariant
            i <= n,
            mask.len() == i,
            forall|j: int| 0 <= j < i ==> !#[trigger] mask@[j],
        decreases n - i,
    {
        mask.push(false);
        i = i + 1;
    }
    let mut k: usize = 0;
    while k < hull.len()
        invariant
            all_below(hull@, n as nat),
            k <= hull.len(),
            mask.len() == n,
            forall|j: int| 0 <= j < n ==> #[trigger] mask@[j] == (exists|e: int| 0 <= e < k && hull@[e] == j),
        decreases hull.len() - k,
    {
        let h = hull[k];
        mask.set(h, true);
        proof {
            assert forall|j: int| 0 <= j < n implies #[trigger] mask@[j] == (exists|e: int| 0 <= e < k + 1 && hull@[e] == j) by {
                if j == h {
                    assert(hull@[k as int] == j);
                }
            }
        }
        k = k + 1;
    }
    proof {
        assert forall|i: int| 0 <= i < n implies #[trigger] mask@[i] == hull@.contains(i as usize) by {
            if hull@.contains(i as usize) {
                let e = choose|e: int| 0 <= e < hull.len() && hull@[e] == i as usize;
                assert(hull@[e] == i);
            }
        }
    }
    mask
}

/// Whether `hull` is a convex hull of `points`: every point left out of it
/// lies on the inner side of every edge, or on the edge's line.
pub fn is_convex_hull(points: &Vec<Point>, hull: &Vec<usize>) -> (r: bool)
    requires
        all_in_range(points@),
        all_below(hull@, points.len() as nat),
    ensures
        r == convex_ok(points@, hull@),
{
    let n = points.len();
    let mask = hull_mask(hull, n);
    let mut outside: Vec<usize> = Vec::new();
    let mut i: usize = 0;
    while i < n
        invariant
            n == points.len(),
            i <= n,
            mask.len() == n,
            forall|j: int| 0 <= j < n ==> #[trigger] mask@[j] == hull@.contains(j as usize),
            forall|m: int| 0 <= m < outside.len() ==> #[trigger] outside@[m] < n && !hull@.contains(outside@[m]),
            forall|j: usize| j < i && !hull@.contains(j) ==> #[trigger] outside@.contains(j),
        decreases n - i,
    {
        let ghost before = outside@;
        if !mask[i] {
            assert(mask@[i as int] == hull@.contains(i));
            outside.push(i);
        }
        proof {
            assert forall|j: usize| j < i + 1 && !hull@.contains(j) implies #[trigger] outside@.contains(j) by {
                if j < i {
                    assert(before.contains(j));
                    let m = choose|m: int| 0 <= m < before.len() && before[m] == j;
                    assert(outside@[m] == j);
                } else {
                    assert(outside@[outside.len() - 1] == j);
                }
            }
        }
        i = i + 1;
    }
    let len = hull.len();
    let mut e: usize = 0;
    while e < len
        invariant
            len == hull.len(),
            n == points.len(),
            all_in_range(points@),
            all_below(hull@, n as nat),
            e <= len,
            forall|m: int| 0 <= m < outside.len() ==> #[trigger] outside@[m] < n && !hull@.contains(outside@[m]),
            forall|j: usize| j < n && !hull@.contains(j) ==> #[trigger] outside@.contains(j),
            forall|e2: int, j: int|
                0 <= e2 < e && 0 <= j < n && !hull@.contains(j as usize) ==> #[trigger] edge_keeps(points@, hull@, e2, j),
        decreases len - e,
    {
        let p1 = hull[e];
        let p2 = hull[(e + 1) % len];
        let line_dist = signed_distance_to_line(&points[p1], &points[p2]);
        if !par_all_kept(&line_dist, points, &outside) {
            proof {
                let m = choose|m: int|
                    0 <= m < outside.len() && !(line_dist.scaled_dist(points@[#[trigger] outside@[m] as int]) <= 0);
                assert(!edge_keeps(points@, hull@, e as int, outside@[m] as int));
            }
            return false;
        }
        assert forall|j: int| 0 <= j < n && !hull@.contains(j as usize) implies #[trigger] edge_keeps(points@, hull@, e as int, j) by {
            assert(outside@.contains(j as usize));
            let m2 = choose|m2: int| 0 <= m2 < outside.len() && outside@[m2] == j as usize;
            assert(line_dist.scaled_dist(points@[outside@[m2] as int]) <= 0);
        }
        e = e + 1;
    }
    true
}

} // verus!
