//! Points with fixed-point coordinates, the signed-distance primitive and the
//! truncating comparator.

use vstd::prelude::*;

verus! {

/// Number of decimal digits after the point in a coordinate: the integer `v`
/// stands for the real value `v / 10^FRACTION_DIGITS`.
pub const FRACTION_DIGITS: u8 = 9;

/// Largest magnitude a coordinate may have. It keeps every difference of two
/// coordinates within `i64` and every cross product within `i128`.
pub const MAX_COORD: i64 = 0x3fff_ffff_ffff_ffff;

/// A point of the plane. Points are never changed once made; the engine refers
/// to them by their position in the input.
#[derive(Clone, Copy, Debug, PartialEq, Eq, Structural)]
pub struct Point {
    pub x: i64,
    pub y: i64,
}

impl Point {
    /// Both coordinates lie within `[-MAX_COORD, MAX_COORD]`.
    pub open spec fn in_range(self) -> bool {
        -MAX_COORD <= self.x <= MAX_COORD && -MAX_COORD <= self.y <= MAX_COORD
    }
}

/// Every point of the sequence is in range.
pub open spec fn all_in_range(points: Seq<Point>) -> bool {
    forall|i: int| 0 <= i < points.len() ==> #[trigger] points[i].in_range()
}

/// The cross product of `b - a` and `c - a`: the signed distance from `c` to the
/// directed line `a -> b`, times the length of `b - a`. Positive to the left of
/// the line, negative to the right, zero on it (and everywhere when `a` and `b`
/// coincide).
pub open spec fn cross(a: Point, b: Point, c: Point) -> int {
    (b.x - a.x) * (c.y - a.y) - (b.y - a.y) * (c.x - a.x)
}

/// `r` is the integer square root of `n`: the largest `r` with `r * r <= n`.
pub open spec fn is_isqrt(n: int, r: int) -> bool {
    0 <= r && r * r <= n < (r + 1) * (r + 1)
}

/// A directed line, kept as its anchor, its normal (the direction of the line
/// turned a quarter turn to the left) and the length of that normal, rounded
/// down to an integer.
#[derive(Clone, Copy, Debug)]
pub struct Line {
    pub anchor: Point,
    pub normal_x: i64,
    pub normal_y: i64,
    pub norm: i128,
}

impl Line {
    /// The anchor is in range, the normal is a difference of two in-range
    /// coordinates and `norm` is the integer square root of its squared length.
    pub open spec fn wf(self) -> bool {
        &&& self.anchor.in_range()
        &&& -2 * MAX_COORD <= self.normal_x <= 2 * MAX_COORD
        &&& -2 * MAX_COORD <= self.normal_y <= 2 * MAX_COORD
        &&& is_isqrt(
            self.normal_x * self.normal_x + self.normal_y * self.normal_y,
            self.norm as int,
        )
    }

    /// The dot product of `c - anchor` with the normal: the signed distance
    /// from `c` to the line times the normal's length. Its sign, and its order
    /// among points measured against one line, are those of the distance.
    pub open spec fn scaled_dist(self, c: Point) -> int {
        (c.x - self.anchor.x) * self.normal_x + (c.y - self.anchor.y) * self.normal_y
    }

    /// The signed perpendicular distance from `c` to the line, in coordinate
    /// units, truncated toward zero: the scaled distance divided by the length
    /// of the normal. It is zero for a line of no length.
    pub open spec fn dist(self, c: Point) -> int {
        if self.norm == 0 {
            0
        } else {
            trunc_div(self.scaled_dist(c), self.norm as int)
        }
    }

    /// Evaluates the signed distance from `c` to this line.
    pub fn eval(&self, c: &Point) -> (r: i128)
        requires
            self.wf(),
            c.in_range(),
        ensures
            r == self.dist(*c),
    {
        let s = self.scaled_eval(c);
        if self.norm == 0 {
            0
        } else if s >= 0 {
            s / self.norm
        } else {
            proof {
                lemma_scaled_bound(*self, *c);
            }
            -((-s) / self.norm)
        }
    }

    /// Whether `c` lies on this line or to its right.
    pub(crate) fn keeps(&self, c: &Point) -> (r: bool)
        requires
            self.wf(),
            c.in_range(),
        ensures
            r == (self.scaled_dist(*c) <= 0),
    {
        self.scaled_eval(c) <= 0
    }

    /// Evaluates the scaled distance from `c` to this line, exactly.
    pub(crate) fn scaled_eval(&self, c: &Point) -> (r: i128)
        requires
            self.wf(),
            c.in_range(),
        ensures
            r == self.scaled_dist(*c),
    {
        let dx = c.x as i128 - self.anchor.x as i128;
        let dy = c.y as i128 - self.anchor.y as i128;
        let nx = self.normal_x as i128;
        let ny = self.normal_y as i128;
        proof {
            lemma_scaled_bound(*self, *c);
        }
        dx * nx + dy * ny
    }
}

/// The largest magnitude of a scaled distance, or of a squared normal length.
proof fn lemma_scaled_bound(line: Line, c: Point)
    requires
        -2 * MAX_COORD <= line.normal_x <= 2 * MAX_COORD,
        -2 * MAX_COORD <= line.normal_y <= 2 * MAX_COORD,
        line.anchor.in_range(),
        c.in_range(),
    ensures
        -0x7fff_ffff_ffff_ffff_ffff_ffff_ffff_fff0 <= line.scaled_dist(c) <= 0x7fff_ffff_ffff_ffff_ffff_ffff_ffff_fff0,
        -0x3fff_ffff_ffff_fffe_0000_0000_0000_0004 <= (c.x - line.anchor.x) * line.normal_x <= 0x3fff_ffff_ffff_fffe_0000_0000_0000_0004,
        -0x3fff_ffff_ffff_fffe_0000_0000_0000_0004 <= (c.y - line.anchor.y) * line.normal_y <= 0x3fff_ffff_ffff_fffe_0000_0000_0000_0004,
        0 <= line.normal_x * line.normal_x + line.normal_y * line.normal_y <= 0x7fff_ffff_ffff_fffc_0000_0000_0000_0008,
{
    let m: int = 2 * MAX_COORD;
    assert(m * m == 0x3fff_ffff_ffff_fffe_0000_0000_0000_0004) by (nonlinear_arith)
        requires
            m == 0x7fff_ffff_ffff_fffe,
    ;
    lemma_product_bound(c.x - line.anchor.x, line.normal_x as int, m);
    lemma_product_bound(c.y - line.anchor.y, line.normal_y as int, m);
    lemma_square_bound(line.normal_x as int);
    lemma_square_bound(line.normal_y as int);
}

proof fn lemma_square_bound(v: int)
    requires
        -2 * MAX_COORD <= v <= 2 * MAX_COORD,
    ensures
        0 <= v * v <= 0x3fff_ffff_ffff_fffe_0000_0000_0000_0004,
{
    let m: int = 2 * MAX_COORD;
    assert(m * m == 0x3fff_ffff_ffff_fffe_0000_0000_0000_0004) by (nonlinear_arith)
        requires
            m == 0x7fff_ffff_ffff_fffe,
    ;
    lemma_product_bound(v, v, m);
    assert(0 <= v * v) by (nonlinear_arith);
}

proof fn lemma_product_bound(x: int, y: int, m: int)
    requires
        0 <= m,
        -m <= x <= m,
        -m <= y <= m,
    ensures
        -(m * m) <= x * y <= m * m,
{
    assert(-(m * m) <= x * y <= m * m) by (nonlinear_arith)
        requires
            0 <= m,
            -m <= x <= m,
            -m <= y <= m,
    ;
}

/// The integer square root of `n`, by bisection.
fn isqrt(n: u128) -> (r: u128)
    requires
        n < 0x8000_0000_0000_0000_0000_0000_0000_0000,
    ensures
        is_isqrt(n as int, r as int),
        r < 0x1_0000_0000_0000_0000u128,
{
    let mut lo: u128 = 0;
    let mut hi: u128 = 0x1_0000_0000_0000_0000;
    assert(hi * hi == 0x1_0000_0000_0000_0000_0000_0000_0000_0000) by (nonlinear_arith)
        requires
            hi == 0x1_0000_0000_0000_0000u128,
    ;
    while hi - lo > 1
        invariant
            lo < hi <= 0x1_0000_0000_0000_0000u128,
            lo * lo <= n,
            n < hi * hi,
        decreases hi - lo,
    {
        let mid = lo + (hi - lo) / 2;
        assert(mid * mid <= 0xffff_ffff_ffff_fffe_0000_0000_0000_0001) by (nonlinear_arith)
            requires
                0 <= mid <= 0xffff_ffff_ffff_ffffu128,
        ;
        if mid * mid <= n {
            lo = mid;
        } else {
            hi = mid;
        }
    }
    assert(hi == lo + 1);
    lo
}

/// Builds the directed line `a -> b`. When `a` and `b` coincide the normal is
/// zero and every distance to the line is zero, so no point is ever found
/// outside such a line.
pub fn signed_distance_to_line(a: &Point, b: &Point) -> (l: Line)
    requires
        a.in_range(),
        b.in_range(),
    ensures
        l.wf(),
        l.anchor == *a,
        l.normal_x == a.y - b.y,
        l.normal_y == b.x - a.x,
        is_isqrt((b.x - a.x) * (b.x - a.x) + (b.y - a.y) * (b.y - a.y), l.norm as int),
        forall|c: Point| #[trigger] l.scaled_dist(c) == cross(*a, *b, c),
        forall|c: Point|
            #[trigger] l.dist(c) == if l.norm == 0 {
                0
            } else {
                trunc_div(cross(*a, *b, c), l.norm as int)
            },
{
    let nx = a.y - b.y;
    let ny = b.x - a.x;
    proof {
        lemma_square_bound(nx as int);
        lemma_square_bound(ny as int);
    }
    let sq = (nx as i128) * (nx as i128) + (ny as i128) * (ny as i128);
    let norm = isqrt(sq as u128) as i128;
    let l = Line { anchor: *a, normal_x: nx, normal_y: ny, norm };
    assert((b.x - a.x) * (b.x - a.x) + (b.y - a.y) * (b.y - a.y) == nx * nx + ny * ny) by (nonlinear_arith)
        requires
            nx == a.y - b.y,
            ny == b.x - a.x,
    ;
    assert forall|c: Point| #[trigger] l.scaled_dist(c) == cross(*a, *b, c) by {
        assert((c.x - a.x) * (a.y - b.y) + (c.y - a.y) * (b.x - a.x) == (b.x - a.x) * (c.y - a.y)
            - (b.y - a.y) * (c.x - a.x)) by (nonlinear_arith);
    }
    assert forall|c: Point|
        #[trigger] l.dist(c) == if l.norm == 0 {
            0
        } else {
            trunc_div(cross(*a, *b, c), l.norm as int)
        } by {
        assert(l.scaled_dist(c) == cross(*a, *b, c));
    }
    l
}

/// `10^n`.
pub open spec fn pow10(n: nat) -> nat
    decreases n,
{
    if n == 0 {
        1
    } else {
        10 * pow10((n - 1) as nat)
    }
}

/// Division of `v` by the positive `d`, rounded toward zero.
pub open spec fn trunc_div(v: int, d: int) -> int {
    if v >= 0 {
        v / d
    } else {
        -((-v) / d)
    }
}

/// The real value of the fixed-point coordinate `v`, scaled by `10^places` and
/// truncated toward zero.
pub open spec fn truncated(v: int, places: nat) -> int {
    if places >= FRACTION_DIGITS {
        v * pow10((places - FRACTION_DIGITS) as nat)
    } else {
        trunc_div(v, pow10((FRACTION_DIGITS - places) as nat) as int)
    }
}

/// Whether `a` and `b` agree once both are scaled by `10^decimal_places` and
/// truncated toward zero. This truncates, it does not round: values on either
/// side of a decimal boundary compare unequal however close they are.
pub fn approx_equal(a: i64, b: i64, decimal_places: u8) -> (r: bool)
    ensures
        r == (truncated(a as int, decimal_places as nat) == truncated(b as int, decimal_places as nat)),
{
    if decimal_places >= FRACTION_DIGITS {
        let ghost p = pow10((decimal_places - FRACTION_DIGITS) as nat) as int;
        proof {
            lemma_pow10_positive((decimal_places - FRACTION_DIGITS) as nat);
            if a != b {
                assert(a * p != b * p) by (nonlinear_arith)
                    requires
                        a != b,
                        p > 0,
                ;
            }
        }
        a == b
    } else {
        let places: u8 = FRACTION_DIGITS - decimal_places;
        let mut factor: i128 = 1;
        let mut k: u8 = 0;
        while k < places
            invariant
                0 <= k <= places <= FRACTION_DIGITS,
                factor == pow10(k as nat),
            decreases places - k,
        {
            proof {
                lemma_pow10_bound(k as nat);
            }
            factor = factor * 10;
            k = k + 1;
        }
        proof {
            lemma_pow10_positive(places as nat);
        }
        let ta = trunc_div_exec(a, factor);
        let tb = trunc_div_exec(b, factor);
        ta == tb
    }
}

fn trunc_div_exec(v: i64, d: i128) -> (r: i128)
    requires
        d > 0,
    ensures
        r == trunc_div(v as int, d as int),
{
    let w = v as i128;
    if w >= 0 {
        w / d
    } else {
        -((-w) / d)
    }
}

proof fn lemma_pow10_positive(n: nat)
    ensures
        pow10(n) > 0,
    decreases n,
{
    if n > 0 {
        lemma_pow10_positive((n - 1) as nat);
    }
}

proof fn lemma_pow10_bound(n: nat)
    requires
        n < FRACTION_DIGITS,
    ensures
        pow10(n) < 1_000_000_000,
    decreases n,
{
    if n > 0 {
        lemma_pow10_bound((n - 1) as nat);
    }
    reveal_with_fuel(pow10, 10);
}

} // verus!
