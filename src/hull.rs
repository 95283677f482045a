//! The QuickHull engine: extreme points, the baseline partition and the
//! recursive construction of the boundary.

use crate::geometry::{
    all_in_range, approx_equal, cross, signed_distance_to_line, truncated, Line, Point, MAX_COORD,
};
use itertools::Either;
use rayon::iter::{IntoParallelRefIterator, ParallelIterator};
use vstd::prelude::*;
use vstd::seq_lib::lemma_no_dup_in_concat;

verus! {

/// itertools' `Either` (the `either` crate's), declared with its two variants
/// visible so that verified code can build and match it.
#[verifier::external_type_specification]
#[verifier::reject_recursive_types(L)]
#[verifier::reject_recursive_types(R)]
pub struct ExEither<L, R>(Either<L, R>);

/// A candidate: the position of a point in the input and its distance to the
/// current baseline.
pub type Candidate = (usize, i128);

/// Decimal places at which two x-coordinates count as a tie when the extreme
/// points are picked.
pub const TIE_PLACES: u8 = 6;

/// The positions held in a list of candidates.
pub open spec fn ids(cands: Seq<Candidate>) -> Seq<usize> {
    cands.map_values(|c: Candidate| c.0)
}

/// Every candidate is a point of the input other than `a` and `b`, lies
/// strictly to the left of `a -> b` and carries its distance to that line; no
/// point is a candidate twice.
pub open spec fn candidates_ok(points: Seq<Point>, cands: Seq<Candidate>, a: usize, b: usize) -> bool {
    &&& forall|k: int|
        0 <= k < cands.len() ==> {
            &&& (#[trigger] cands[k]).0 < points.len()
            &&& cands[k].0 != a
            &&& cands[k].0 != b
            &&& cands[k].1 == cross(points[a as int], points[b as int], points[cands[k].0 as int])
            &&& cands[k].1 > 0
        }
    &&& ids(cands).no_duplicates()
}

/// Every entry is a position in the input.
pub open spec fn all_below(s: Seq<usize>, n: nat) -> bool {
    forall|k: int| 0 <= k < s.len() ==> #[trigger] s[k] < n
}

/// Every entry of `s` is held in `t`.
pub open spec fn within(s: Seq<usize>, t: Seq<usize>) -> bool {
    forall|k: int| 0 <= k < s.len() ==> t.contains(#[trigger] s[k])
}

/// `p` replaces `cur` as the rightmost point: greater x, or tied x and greater y.
pub open spec fn beats_max(cur: Point, p: Point) -> bool {
    cur.x < p.x || (truncated(cur.x as int, TIE_PLACES as nat) == truncated(
        p.x as int,
        TIE_PLACES as nat,
    ) && cur.y < p.y)
}

/// `p` replaces `cur` as the leftmost point: smaller x, or tied x and greater y.
pub open spec fn beats_min(cur: Point, p: Point) -> bool {
    cur.x > p.x || (truncated(cur.x as int, TIE_PLACES as nat) == truncated(
        p.x as int,
        TIE_PLACES as nat,
    ) && cur.y < p.y)
}

/// The rightmost point among the first `n` points, scanned in order.
pub open spec fn max_x_index(points: Seq<Point>, n: nat) -> int
    decreases n,
{
    if n <= 1 {
        0
    } else {
        let cur = max_x_index(points, (n - 1) as nat);
        if beats_max(points[cur], points[n - 1]) {
            n - 1
        } else {
            cur
        }
    }
}

/// The leftmost point among the first `n` points, scanned in order.
pub open spec fn min_x_index(points: Seq<Point>, n: nat) -> int
    decreases n,
{
    if n <= 1 {
        0
    } else {
        let cur = min_x_index(points, (n - 1) as nat);
        if beats_min(points[cur], points[n - 1]) {
            n - 1
        } else {
            cur
        }
    }
}

/// Relies on rayon's `ParallelIterator::max_by_key`: on a non-empty input it
/// returns one of the items, whose key no other item's key exceeds.
#[verifier::external_body]
fn par_farthest(cands: &Vec<Candidate>) -> (r: Candidate)
    requires
        cands.len() > 0,
    ensures
        cands@.contains(r),
        forall|k: int| 0 <= k < cands.len() ==> #[trigger] cands[k].1 <= r.1,
{
    *cands.par_iter().max_by_key(|c| c.1).unwrap()
}

/// Relies on rayon's indexed `par_iter().map(..).collect()` into a `Vec`, which
/// keeps the order of the input: entry `k` is the distance of point `idx[k]`.
#[verifier::external_body]
fn par_distances(line: &Line, points: &Vec<Point>, idx: &Vec<usize>) -> (r: Vec<i128>)
    requires
        line.wf(),
        all_in_range(points@),
        all_below(idx@, points.len() as nat),
    ensures
        r.len() == idx.len(),
        forall|k: int| 0 <= k < idx.len() ==> #[trigger] r[k] == line.scaled_dist(points[idx[k] as int]),
{
    idx.par_iter().map(|i| line.scaled_eval(&points[*i])).collect()
}

/// Finds the rightmost and the leftmost point, in that order.
pub fn extreme_points(points: &Vec<Point>) -> (r: (usize, usize))
    requires
        points.len() > 0,
    ensures
        r.0 == max_x_index(points@, points.len() as nat),
        r.1 == min_x_index(points@, points.len() as nat),
        r.0 < points.len(),
        r.1 < points.len(),
{
    let mut max_x: usize = 0;
    let mut min_x: usize = 0;
    let mut i: usize = 1;
    while i < points.len()
        invariant
            1 <= i <= points.len(),
            max_x == max_x_index(points@, i as nat),
            min_x == min_x_index(points@, i as nat),
            max_x < i,
            min_x < i,
        decreases points.len() - i,
    {
        let p = &points[i];
        let cur = &points[max_x];
        if cur.x < p.x || (approx_equal(cur.x, p.x, TIE_PLACES) && cur.y < p.y) {
            max_x = i;
        }
        let cur = &points[min_x];
        if cur.x > p.x || (approx_equal(cur.x, p.x, TIE_PLACES) && cur.y < p.y) {
            min_x = i;
        }
        i = i + 1;
    }
    (max_x, min_x)
}

/// Places a point by its distances to the two new baselines `a -> pivot`
/// (`dist_0`) and `pivot -> b` (`dist_1`): strictly outside the first only goes
/// left, strictly outside the second only goes right, and anything else is
/// dropped.
pub fn to_location(point: usize, dist_0: i128, dist_1: i128) -> (r: Option<Either<Candidate, Candidate>>)
    ensures
        r == if dist_0 > 0 && dist_1 <= 0 {
            Some(Either::<Candidate, Candidate>::Left((point, dist_0)))
        } else if dist_1 > 0 && dist_0 <= 0 {
            Some(Either::<Candidate, Candidate>::Right((point, dist_1)))
        } else {
            None
        },
{
    if dist_0 > 0 && dist_1 <= 0 {
        Some(Either::Left((point, dist_0)))
    } else if dist_1 > 0 && dist_0 <= 0 {
        Some(Either::Right((point, dist_1)))
    } else {
        None
    }
}


/// The positions `pos` pick, in increasing order, from a list without repeats.
pub open spec fn picks(out: Seq<Candidate>, rest: Seq<usize>, pos: Seq<int>) -> bool {
    &&& out.len() == pos.len()
    &&& forall|t: int| 0 <= t < pos.len() ==> 0 <= #[trigger] pos[t] < rest.len() && out[t].0 == rest[pos[t]]
    &&& forall|t1: int, t2: int| 0 <= t1 < t2 < pos.len() ==> pos[t1] < pos[t2]
}

proof fn lemma_picks(out: Seq<Candidate>, rest: Seq<usize>, pos: Seq<int>)
    requires
        rest.no_duplicates(),
        picks(out, rest, pos),
    ensures
        ids(out).no_duplicates(),
        within(ids(out), rest),
{
    assert forall|t1: int, t2: int| 0 <= t1 < ids(out).len() && 0 <= t2 < ids(out).len() && t1 != t2
        implies ids(out)[t1] != ids(out)[t2] by {
        if t1 < t2 {
            assert(pos[t1] < pos[t2]);
        } else {
            assert(pos[t2] < pos[t1]);
        }
    }
    assert forall|t: int| 0 <= t < ids(out).len() implies rest.contains(#[trigger] ids(out)[t]) by {
        assert(rest[pos[t]] == ids(out)[t]);
    }
}

proof fn lemma_within_trans(s: Seq<usize>, t: Seq<usize>, u: Seq<usize>)
    requires
        within(s, t),
        within(t, u),
    ensures
        within(s, u),
{
    assert forall|k: int| 0 <= k < s.len() implies u.contains(#[trigger] s[k]) by {
        let i = choose|i: int| 0 <= i < t.len() && t[i] == s[k];
        assert(u.contains(t[i]));
    }
}

proof fn lemma_cross_reverse(a: Point, b: Point, c: Point)
    ensures
        cross(b, a, c) == -cross(a, b, c),
{
    assert(cross(b, a, c) == -cross(a, b, c)) by (nonlinear_arith);
}

/// A point no farther from the line `a -> b` than the pivot `p` is never
/// strictly outside both new baselines `a -> p` and `p -> b`: the two
/// distances add up to its own distance to `a -> b` less the pivot's.
pub proof fn lemma_pivot_splits(a: Point, b: Point, p: Point, q: Point)
    requires
        cross(a, b, q) <= cross(a, b, p),
    ensures
        cross(a, p, q) + cross(p, b, q) == cross(a, b, q) - cross(a, b, p),
        !(cross(a, p, q) > 0 && cross(p, b, q) > 0),
{
    assert(cross(a, p, q) + cross(p, b, q) == cross(a, b, q) - cross(a, b, p)) by (nonlinear_arith);
}

proof fn lemma_dist_bound(line: Line, c: Point)
    requires
        line.wf(),
        c.in_range(),
    ensures
        -0x7fff_ffff_ffff_ffff_ffff_ffff_ffff_fff0 <= line.scaled_dist(c) <= 0x7fff_ffff_ffff_ffff_ffff_ffff_ffff_fff0,
{
    let m: int = 2 * MAX_COORD;
    let dx = c.x - line.anchor.x;
    let dy = c.y - line.anchor.y;
    assert(m * m == 0x3fff_ffff_ffff_fffe_0000_0000_0000_0004) by (nonlinear_arith)
        requires
            m == 0x7fff_ffff_ffff_fffe,
    ;
    assert(-(m * m) <= dx * line.normal_x <= m * m) by (nonlinear_arith)
        requires
            0 <= m,
            -m <= dx <= m,
            -m <= line.normal_x <= m,
    ;
    assert(-(m * m) <= dy * line.normal_y <= m * m) by (nonlinear_arith)
        requires
            0 <= m,
            -m <= dy <= m,
            -m <= line.normal_y <= m,
    ;
}

/// Builds the part of the boundary strictly to the left of `point_a ->
/// point_b`, from the candidates found there, in winding order from `point_a`
/// to `point_b` (both left out).
fn get_hull(
    points: &Vec<Point>,
    relevant_points: Vec<Candidate>,
    point_a: usize,
    point_b: usize,
) -> (r: Vec<usize>)
    requires
        all_in_range(points@),
        point_a < points.len(),
        point_b < points.len(),
        candidates_ok(points@, relevant_points@, point_a, point_b),
    ensures
        r@.no_duplicates(),
        within(r@, ids(relevant_points@)),
        relevant_points.len() > 0 ==> r.len() > 0,
        relevant_points.len() > 0 ==> exists|k: int|
            0 <= k < relevant_points.len() && #[trigger] r@.contains(relevant_points@[k].0)
                && forall|m: int| 0 <= m < relevant_points.len() ==> relevant_points@[m].1 <= relevant_points@[k].1,
    decreases relevant_points.len(),
{
    let ghost cands = relevant_points@;
    if relevant_points.len() == 0 {
        return Vec::new();
    }
    let highest = par_farthest(&relevant_points);
    let pivot = highest.0;
    let ghost j = choose|j: int| 0 <= j < cands.len() && cands[j] == highest;
    assert(cands[j] == highest);
    let line_0 = signed_distance_to_line(&points[point_a], &points[pivot]);
    let line_1 = signed_distance_to_line(&points[pivot], &points[point_b]);

    // Every candidate but the pivot, with its position among the candidates.
    let mut rest: Vec<usize> = Vec::new();
    let ghost mut pos: Seq<int> = Seq::empty();
    let mut k: usize = 0;
    while k < relevant_points.len()
        invariant
            cands == relevant_points@,
            0 <= j < cands.len(),
            cands[j].0 == pivot,
            0 <= k <= cands.len(),
            rest.len() == pos.len(),
            rest.len() + (if k > j { 1int } else { 0int }) <= k,
            forall|m: int|
                0 <= m < pos.len() ==> 0 <= #[trigger] pos[m] < k && pos[m] != j && cands[pos[m]].0
                    == rest[m],
            forall|m1: int, m2: int| 0 <= m1 < m2 < pos.len() ==> pos[m1] < pos[m2],
        decreases cands.len() - k,
    {
        let id = relevant_points[k].0;
        if id != pivot {
            rest.push(id);
            proof {
                pos = pos.push(k as int);
            }
        }
        k = k + 1;
    }
    proof {
        assert forall|m1: int, m2: int| 0 <= m1 < rest.len() && 0 <= m2 < rest.len() && m1 != m2
            implies rest@[m1] != rest@[m2] by {
            if m1 < m2 {
                assert(pos[m1] < pos[m2]);
            } else {
                assert(pos[m2] < pos[m1]);
            }
            assert(ids(cands)[pos[m1]] == rest@[m1]);
            assert(ids(cands)[pos[m2]] == rest@[m2]);
        }
        assert forall|m: int| 0 <= m < rest.len() implies {
            &&& #[trigger] rest@[m] < points.len()
            &&& rest@[m] != point_a
            &&& rest@[m] != point_b
            &&& rest@[m] != pivot
        } by {
            assert(cands[pos[m]].0 == rest@[m]);
            assert(ids(cands)[pos[m]] == rest@[m]);
            assert(ids(cands)[j] == pivot);
        }
    }
    let dist_0 = par_distances(&line_0, points, &rest);
    let dist_1 = par_distances(&line_1, points, &rest);

    let mut left: Vec<Candidate> = Vec::new();
    let mut right: Vec<Candidate> = Vec::new();
    let ghost mut lpos: Seq<int> = Seq::empty();
    let ghost mut rpos: Seq<int> = Seq::empty();
    let mut m: usize = 0;
    while m < rest.len()
        invariant
            dist_0.len() == rest.len(),
            dist_1.len() == rest.len(),
            0 <= m <= rest.len(),
            left.len() + right.len() <= m,
            picks(left@, rest@, lpos),
            picks(right@, rest@, rpos),
            forall|t: int|
                0 <= t < lpos.len() ==> #[trigger] lpos[t] < m && left@[t].1 == dist_0@[lpos[t]]
                    && dist_0@[lpos[t]] > 0 && dist_1@[lpos[t]] <= 0,
            forall|t: int|
                0 <= t < rpos.len() ==> #[trigger] rpos[t] < m && right@[t].1 == dist_1@[rpos[t]]
                    && dist_1@[rpos[t]] > 0 && dist_0@[rpos[t]] <= 0,
        decreases rest.len() - m,
    {
        match to_location(rest[m], dist_0[m], dist_1[m]) {
            Some(Either::Left(c)) => {
                left.push(c);
                proof {
                    lpos = lpos.push(m as int);
                }
            },
            Some(Either::Right(c)) => {
                right.push(c);
                proof {
                    rpos = rpos.push(m as int);
                }
            },
            None => {},
        }
        m = m + 1;
    }
    proof {
        lemma_picks(left@, rest@, lpos);
        lemma_picks(right@, rest@, rpos);
        assert forall|t: int| 0 <= t < left.len() implies {
            &&& (#[trigger] left@[t]).0 < points.len()
            &&& left@[t].0 != point_a
            &&& left@[t].0 != pivot
            &&& left@[t].1 == cross(points@[point_a as int], points@[pivot as int], points@[left@[t].0 as int])
            &&& left@[t].1 > 0
        } by {
            assert(rest@[lpos[t]] == left@[t].0);
        }
        assert forall|t: int| 0 <= t < right.len() implies {
            &&& (#[trigger] right@[t]).0 < points.len()
            &&& right@[t].0 != point_b
            &&& right@[t].0 != pivot
            &&& right@[t].1 == cross(points@[pivot as int], points@[point_b as int], points@[right@[t].0 as int])
            &&& right@[t].1 > 0
        } by {
            assert(rest@[rpos[t]] == right@[t].0);
        }
    }
    let left_hull = get_hull(points, left, point_a, pivot);
    let mut right_hull = get_hull(points, right, pivot, point_b);
    let ghost lh = left_hull@;
    let ghost rh = right_hull@;
    let mut result = left_hull;
    result.push(pivot);
    result.append(&mut right_hull);
    proof {
        lemma_within_trans(lh, ids(left@), rest@);
        lemma_within_trans(rh, ids(right@), rest@);
        assert(within(rest@, ids(cands))) by {
            assert forall|m: int| 0 <= m < rest.len() implies ids(cands).contains(#[trigger] rest@[m]) by {
                assert(ids(cands)[pos[m]] == rest@[m]);
            }
        }
        lemma_within_trans(lh, rest@, ids(cands));
        lemma_within_trans(rh, rest@, ids(cands));
        assert(ids(cands)[j] == pivot);
        let with_pivot = lh.push(pivot);
        assert forall|x: int, y: int| 0 <= x < lh.len() && 0 <= y < seq![pivot].len() implies lh[x]
            != seq![pivot][y] by {
            assert(rest@.contains(lh[x]));
        }
        lemma_no_dup_in_concat(lh, seq![pivot]);
        assert(lh + seq![pivot] == with_pivot);
        assert forall|x: int, y: int| 0 <= x < with_pivot.len() && 0 <= y < rh.len() implies with_pivot[x]
            != rh[y] by {
            assert(rest@.contains(rh[y]));
            if x < lh.len() {
                let t1 = choose|t: int| 0 <= t < left.len() && ids(left@)[t] == lh[x];
                let t2 = choose|t: int| 0 <= t < right.len() && ids(right@)[t] == rh[y];
                if lh[x] == rh[y] {
                    assert(rest@[lpos[t1]] == rest@[rpos[t2]]);
                }
            }
        }
        lemma_no_dup_in_concat(with_pivot, rh);
        assert(result@ == with_pivot + rh);
        assert(result@[lh.len() as int] == cands[j].0);
        assert(result@.contains(cands[j].0));
        assert forall|x: int| 0 <= x < result.len() implies ids(cands).contains(#[trigger] result@[x]) by {
            if x < lh.len() {
                assert(result@[x] == lh[x]);
            } else if x > lh.len() {
                assert(result@[x] == rh[x - lh.len() - 1]);
            }
        }
    }
    result
}

/// The positions `0, 1, .., n - 1`.
pub open spec fn all_positions(n: nat) -> Seq<usize> {
    Seq::new(n, |i: int| i as usize)
}

/// Computes the convex hull of `points`, as positions into `points`.
///
/// With at most two points the result is every position, in order. Otherwise
/// it starts at the leftmost point, runs along the points strictly to the left
/// of the line from the leftmost to the rightmost point, reaches the rightmost
/// point and comes back along those strictly to the right. When the leftmost
/// and the rightmost point are the same point, the baseline between them has
/// no length, no point lies outside it, and that point alone is returned.
///
/// The extremes are picked with x-coordinates compared after truncation to
/// six decimal places. Where points differ in x by less than that, the scan
/// may settle on a point that is not a vertex of the hull, and the boundary
/// built from it need not enclose every point.
pub fn get_convex_hull(points: &Vec<Point>) -> (hull: Vec<usize>)
    requires
        all_in_range(points@),
    ensures
        points.len() <= 2 ==> hull@ == all_positions(points.len() as nat),
        all_below(hull@, points.len() as nat),
        hull@.no_duplicates(),
        points.len() > 2 ==> {
            let min_x = min_x_index(points@, points.len() as nat);
            let max_x = max_x_index(points@, points.len() as nat);
            &&& hull.len() > 0
            &&& hull[0] == min_x
            &&& hull@.contains(max_x as usize)
            &&& forall|k: int|
                0 <= k < hull.len() && hull[k] != min_x && hull[k] != max_x ==> cross(
                    points[min_x],
                    points[max_x],
                    points[hull[k] as int],
                ) != 0
        },
{
    let n = points.len();
    if n <= 2 {
        let mut all: Vec<usize> = Vec::new();
        let mut i: usize = 0;
        while i < n
            invariant
                n == points.len(),
                i <= n,
                all@ == all_positions(i as nat),
            decreases n - i,
        {
            all.push(i);
            i = i + 1;
            assert(all@ =~= all_positions(i as nat));
        }
        return all;
    }
    let (max_x, min_x) = extreme_points(points);
    if max_x == min_x {
        let hull = vec![min_x];
        assert(hull@.contains(max_x));
        return hull;
    }
    let line_dist = signed_distance_to_line(&points[min_x], &points[max_x]);

    // Every point but the two extremes, in increasing position.
    let mut rest: Vec<usize> = Vec::new();
    let mut i: usize = 0;
    while i < n
        invariant
            n == points.len(),
            i <= n,
            max_x < n,
            min_x < n,
            forall|m: int|
                0 <= m < rest.len() ==> #[trigger] rest@[m] < i && rest@[m] != max_x && rest@[m]
                    != min_x,
            forall|m1: int, m2: int| 0 <= m1 < m2 < rest.len() ==> rest@[m1] < rest@[m2],
        decreases n - i,
    {
        if i != max_x && i != min_x {
            rest.push(i);
        }
        i = i + 1;
    }
    assert(rest@.no_duplicates()) by {
        assert forall|m1: int, m2: int| 0 <= m1 < rest.len() && 0 <= m2 < rest.len() && m1 != m2
            implies rest@[m1] != rest@[m2] by {
            if m1 < m2 {
                assert(rest@[m1] < rest@[m2]);
            } else {
                assert(rest@[m2] < rest@[m1]);
            }
        }
    }
    let dist = par_distances(&line_dist, points, &rest);

    let mut above: Vec<Candidate> = Vec::new();
    let mut below: Vec<Candidate> = Vec::new();
    let ghost mut apos: Seq<int> = Seq::empty();
    let ghost mut bpos: Seq<int> = Seq::empty();
    let mut m: usize = 0;
    while m < rest.len()
        invariant
            dist.len() == rest.len(),
            forall|t: int|
                0 <= t < rest.len() ==> #[trigger] dist@[t] == line_dist.scaled_dist(
                    points@[rest@[t] as int],
                ),
            line_dist.wf(),
            all_in_range(points@),
            all_below(rest@, points.len() as nat),
            0 <= m <= rest.len(),
            picks(above@, rest@, apos),
            picks(below@, rest@, bpos),
            forall|t: int|
                0 <= t < apos.len() ==> #[trigger] apos[t] < m && above@[t].1 == dist@[apos[t]]
                    && dist@[apos[t]] > 0,
            forall|t: int|
                0 <= t < bpos.len() ==> #[trigger] bpos[t] < m && below@[t].1 == -dist@[bpos[t]]
                    && dist@[bpos[t]] < 0,
        decreases rest.len() - m,
    {
        let d = dist[m];
        if d > 0 {
            above.push((rest[m], d));
            proof {
                apos = apos.push(m as int);
            }
        } else if d < 0 {
            proof {
                lemma_dist_bound(line_dist, points@[rest@[m as int] as int]);
            }
            below.push((rest[m], -d));
            proof {
                bpos = bpos.push(m as int);
            }
        }
        m = m + 1;
    }
    proof {
        lemma_picks(above@, rest@, apos);
        lemma_picks(below@, rest@, bpos);
        assert forall|t: int| 0 <= t < above.len() implies {
            &&& (#[trigger] above@[t]).0 < points.len()
            &&& above@[t].0 != min_x
            &&& above@[t].0 != max_x
            &&& above@[t].1 == cross(points@[min_x as int], points@[max_x as int], points@[above@[t].0 as int])
            &&& above@[t].1 > 0
        } by {
            assert(rest@[apos[t]] == above@[t].0);
        }
        assert forall|t: int| 0 <= t < below.len() implies {
            &&& (#[trigger] below@[t]).0 < points.len()
            &&& below@[t].0 != min_x
            &&& below@[t].0 != max_x
            &&& below@[t].1 == cross(points@[max_x as int], points@[min_x as int], points@[below@[t].0 as int])
            &&& below@[t].1 > 0
        } by {
            assert(rest@[bpos[t]] == below@[t].0);
            lemma_cross_reverse(points@[min_x as int], points@[max_x as int], points@[below@[t].0 as int]);
        }
    }
    let ghost above_ids = ids(above@);
    let ghost below_ids = ids(below@);
    let mut below_hull = get_hull(points, below, max_x, min_x);
    let mut above_hull = get_hull(points, above, min_x, max_x);
    let ghost ah = above_hull@;
    let ghost bh = below_hull@;
    let mut hull: Vec<usize> = vec![min_x];
    hull.append(&mut above_hull);
    hull.push(max_x);
    hull.append(&mut below_hull);
    proof {
        lemma_within_trans(ah, above_ids, rest@);
        lemma_within_trans(bh, below_ids, rest@);
        let s1 = seq![min_x];
        assert forall|x: int, y: int| 0 <= x < s1.len() && 0 <= y < ah.len() implies s1[x] != ah[y] by {
            assert(rest@.contains(ah[y]));
        }
        lemma_no_dup_in_concat(s1, ah);
        let s2 = s1 + ah;
        let s3 = seq![max_x];
        assert forall|x: int, y: int| 0 <= x < s2.len() && 0 <= y < s3.len() implies s2[x] != s3[y] by {
            if x > 0 {
                assert(s2[x] == ah[x - 1]);
                assert(rest@.contains(ah[x - 1]));
            }
        }
        lemma_no_dup_in_concat(s2, s3);
        let s4 = s2 + s3;
        assert forall|x: int, y: int| 0 <= x < s4.len() && 0 <= y < bh.len() implies s4[x] != bh[y] by {
            assert(rest@.contains(bh[y]));
            if 0 < x < s4.len() - 1 {
                assert(s4[x] == ah[x - 1]);
                let t1 = choose|t: int| 0 <= t < above.len() && above_ids[t] == ah[x - 1];
                let t2 = choose|t: int| 0 <= t < below.len() && below_ids[t] == bh[y];
                if ah[x - 1] == bh[y] {
                    assert(rest@[apos[t1]] == rest@[bpos[t2]]);
                }
            }
        }
        lemma_no_dup_in_concat(s4, bh);
        assert(hull@ == s4 + bh);
        assert(hull@[ah.len() + 1int] == max_x);
        assert forall|k: int| 0 <= k < hull.len() implies {
            &&& #[trigger] hull@[k] < points.len()
            &&& (hull@[k] != min_x && hull@[k] != max_x ==> cross(
                points@[min_x as int],
                points@[max_x as int],
                points@[hull@[k] as int],
            ) != 0)
        } by {
            if 0 < k < ah.len() + 1 {
                assert(hull@[k] == ah[k - 1]);
                let t = choose|t: int| 0 <= t < above.len() && above_ids[t] == ah[k - 1];
                assert(above@[t].0 == hull@[k]);
            } else if k > ah.len() + 1 {
                assert(hull@[k] == bh[k - ah.len() - 2]);
                let t = choose|t: int| 0 <= t < below.len() && below_ids[t] == bh[k - ah.len() - 2];
                assert(below@[t].0 == hull@[k]);
                lemma_cross_reverse(points@[min_x as int], points@[max_x as int], points@[hull@[k] as int]);
            }
        }
    }
    hull
}

} // verus!
