//! Lattice points and the geometric primitives that the other modules
//! share: squared distance, midpoint, and the meeting point of two segments.

use vstd::prelude::*;

verus! {

/// A point of the integer lattice.
#[derive(Clone, Copy, Debug, PartialEq, Eq, Structural)]
pub struct Point {
    pub x: i32,
    pub y: i32,
}

/// Both coordinates of `p` lie from `lower` up to but not including `upper`.
pub open spec fn point_between(p: Point, lower: int, upper: int) -> bool {
    lower <= p.x < upper && lower <= p.y < upper
}

/// Every point has both coordinates from `lower` up to but not including
/// `upper`.
pub open spec fn points_between(points: Seq<Point>, lower: int, upper: int) -> bool {
    forall|i: int| 0 <= i < points.len() ==> point_between(#[trigger] points[i], lower, upper)
}

/// The exact squared Euclidean distance between two lattice points.
pub open spec fn squared_distance_spec(a: Point, b: Point) -> int {
    (a.x - b.x) * (a.x - b.x) + (a.y - b.y) * (a.y - b.y)
}

/// Quotient rounded toward zero, for a positive divisor.
pub open spec fn div_toward_zero(a: int, b: int) -> int {
    if a >= 0 {
        a / b
    } else {
        -((-a) / b)
    }
}

/// The squared distance between two points, exact for any two points of
/// the lattice.
pub fn squared_distance(a: &Point, b: &Point) -> (d: i128)
    ensures
        d == squared_distance_spec(*a, *b),
{
    let x: i128 = a.x as i128 - b.x as i128;
    let y: i128 = a.y as i128 - b.y as i128;
    assert(x * x <= 0x1_0000_0000 * 0x1_0000_0000) by (nonlinear_arith)
        requires
            -0x1_0000_0000 <= x <= 0x1_0000_0000,
    ;
    assert(y * y <= 0x1_0000_0000 * 0x1_0000_0000) by (nonlinear_arith)
        requires
            -0x1_0000_0000 <= y <= 0x1_0000_0000,
    ;
    assert(x * x >= 0) by (nonlinear_arith);
    assert(y * y >= 0) by (nonlinear_arith);
    (x * x) + (y * y)
}

/// The point halfway between `a` and `b`, each coordinate rounded toward
/// zero.
pub open spec fn midpoint_spec(a: Point, b: Point) -> Point {
    Point {
        x: div_toward_zero(a.x + b.x, 2) as i32,
        y: div_toward_zero(a.y + b.y, 2) as i32,
    }
}

/// The point halfway between `a` and `b`.
pub fn midpoint(a: &Point, b: &Point) -> (m: Point)
    ensures
        m == midpoint_spec(*a, *b),
{
    let x: i64 = (a.x as i64 + b.x as i64) / 2;
    let y: i64 = (a.y as i64 + b.y as i64) / 2;
    Point { x: x as i32, y: y as i32 }
}

/// Rounding toward zero never moves a quotient past zero or past the
/// dividend.
pub proof fn lemma_div_toward_zero_bounds(a: int, b: int)
    requires
        b >= 1,
    ensures
        a >= 0 ==> 0 <= div_toward_zero(a, b) <= a,
        a <= 0 ==> a <= div_toward_zero(a, b) <= 0,
{
    if a >= 0 {
        assert(0 <= a / b <= a) by (nonlinear_arith)
            requires
                a >= 0,
                b >= 1,
        ;
    } else {
        assert(0 <= (-a) / b <= -a) by (nonlinear_arith)
            requires
                -a >= 0,
                b >= 1,
        ;
    }
}

/// The mean of `count` numbers that lie from `lo` to `hi`, rounded toward
/// zero, lies from `lo` to `hi`.
pub proof fn lemma_mean_bounds(sum: int, count: int, lo: int, hi: int)
    requires
        count >= 1,
        lo * count <= sum <= hi * count,
    ensures
        lo <= div_toward_zero(sum, count) <= hi,
{
    if sum >= 0 {
        assert(sum / count <= hi) by (nonlinear_arith)
            requires
                count >= 1,
                0 <= sum <= hi * count,
        ;
        assert(0 <= sum / count) by (nonlinear_arith)
            requires
                count >= 1,
                0 <= sum,
        ;
        if lo > 0 {
            assert(lo <= sum / count) by (nonlinear_arith)
                requires
                    count >= 1,
                    lo * count <= sum,
            ;
        }
    } else {
        assert(lo <= -((-sum) / count)) by (nonlinear_arith)
            requires
                count >= 1,
                lo * count <= sum,
                sum < 0,
        ;
        assert(0 <= (-sum) / count) by (nonlinear_arith)
            requires
                count >= 1,
                0 <= -sum,
        ;
        if hi < 0 {
            assert(-((-sum) / count) <= hi) by (nonlinear_arith)
                requires
                    count >= 1,
                    sum <= hi * count,
                    sum < 0,
            ;
        }
    }
}

/// The determinant of the directions of the segments `a`-`b` and `c`-`d`:
/// zero exactly when the segments are parallel or one of them is a point.
pub open spec fn denominator(a: Point, b: Point, c: Point, d: Point) -> int {
    (a.x - b.x) * (c.y - d.y) - (a.y - b.y) * (c.x - d.x)
}

/// Over `denominator`, how far along `a`-`b` the lines through the two
/// segments meet.
pub open spec fn t_numerator(a: Point, b: Point, c: Point, d: Point) -> int {
    (a.x - c.x) * (c.y - d.y) - (a.y - c.y) * (c.x - d.x)
}

/// Over `denominator`, how far along `c`-`d` the lines through the two
/// segments meet.
pub open spec fn u_numerator(a: Point, b: Point, c: Point, d: Point) -> int {
    -((a.x - b.x) * (a.y - c.y) - (a.y - b.y) * (a.x - c.x))
}

/// The fraction `num / den` is defined and lies from zero to one.
pub open spec fn is_unit_fraction(num: int, den: int) -> bool {
    (den > 0 && 0 <= num <= den) || (den < 0 && den <= num <= 0)
}

/// The two segments meet in exactly one point of each, ends included.
pub open spec fn segments_cross(a: Point, b: Point, c: Point, d: Point) -> bool {
    &&& is_unit_fraction(t_numerator(a, b, c, d), denominator(a, b, c, d))
    &&& is_unit_fraction(u_numerator(a, b, c, d), denominator(a, b, c, d))
}

/// The coordinate the fraction `num / den` of the way from `from` to `to`,
/// the step rounded toward zero.
pub open spec fn along(from: int, to: int, num: int, den: int) -> int {
    if den > 0 {
        from + div_toward_zero(num * (to - from), den)
    } else {
        from + div_toward_zero((-num) * (to - from), -den)
    }
}

/// Where the segments `a`-`b` and `c`-`d` meet, as a lattice point on the
/// way from `a` to `b`.
pub open spec fn crossing_point(a: Point, b: Point, c: Point, d: Point) -> Point {
    Point {
        x: along(a.x as int, b.x as int, t_numerator(a, b, c, d), denominator(a, b, c, d)) as i32,
        y: along(a.y as int, b.y as int, t_numerator(a, b, c, d), denominator(a, b, c, d)) as i32,
    }
}

/// The meeting point of the two segments, if they meet in one point.
pub open spec fn intersection_spec(a: Point, b: Point, c: Point, d: Point) -> Option<Point> {
    if segments_cross(a, b, c, d) {
        Some(crossing_point(a, b, c, d))
    } else {
        None
    }
}

/// A product of two differences of coordinates, which fits easily.
fn product(p: i128, q: i128) -> (r: i128)
    requires
        -0x1_0000_0000 < p < 0x1_0000_0000,
        -0x1_0000_0000 < q < 0x1_0000_0000,
    ensures
        r == p * q,
        -0x1_0000_0000_0000_0000 < r < 0x1_0000_0000_0000_0000,
{
    assert(-0x1_0000_0000_0000_0000 < p * q < 0x1_0000_0000_0000_0000) by (nonlinear_arith)
        requires
            -0x1_0000_0000 < p < 0x1_0000_0000,
            -0x1_0000_0000 < q < 0x1_0000_0000,
    ;
    p * q
}

/// The coordinate `num / den` of the way from `from` to `to`.
fn step_along(from: i32, to: i32, num: i128, den: i128) -> (c: i32)
    requires
        0 <= num <= den,
        0 < den < 0x2_0000_0000_0000_0000,
    ensures
        c == from + div_toward_zero(num * (to - from), den as int),
        from <= c <= to || to <= c <= from,
{
    let span: i128 = to as i128 - from as i128;
    assert(-0x2_0000_0000_0000_0000_0000_0000 < num * span < 0x2_0000_0000_0000_0000_0000_0000)
        by (nonlinear_arith)
        requires
            0 <= num < 0x2_0000_0000_0000_0000,
            -0x1_0000_0000 < span < 0x1_0000_0000,
    ;
    let scaled: i128 = num * span;
    let moved: i128 = scaled / den;
    proof {
        let s = scaled as int;
        let n = num as int;
        let m = den as int;
        let w = span as int;
        if w >= 0 {
            assert(0 <= s <= m * w) by (nonlinear_arith)
                requires
                    s == n * w,
                    0 <= n <= m,
                    w >= 0,
            ;
            assert(0 <= s / m <= w) by (nonlinear_arith)
                requires
                    0 <= s <= m * w,
                    m > 0,
            ;
        } else {
            assert(0 <= -s <= m * (-w)) by (nonlinear_arith)
                requires
                    s == n * w,
                    0 <= n <= m,
                    w < 0,
            ;
            assert(0 <= (-s) / m <= -w) by (nonlinear_arith)
                requires
                    0 <= -s <= m * (-w),
                    m > 0,
            ;
        }
    }
    (from as i128 + moved) as i32
}

/// Where the segment from `a` to `b` meets the segment from `c` to `d`.
///
/// There is a result exactly when the two segments are not parallel and
/// the lines through them meet on both segments, ends included. The result
/// is the meeting point as reached from `a`, each coordinate's step toward
/// `b` rounded toward zero.
pub fn intersection(a: &Point, b: &Point, c: &Point, d: &Point) -> (r: Option<Point>)
    ensures
        r == intersection_spec(*a, *b, *c, *d),
{
    let x1: i128 = a.x as i128;
    let x2: i128 = b.x as i128;
    let x3: i128 = c.x as i128;
    let x4: i128 = d.x as i128;
    let y1: i128 = a.y as i128;
    let y2: i128 = b.y as i128;
    let y3: i128 = c.y as i128;
    let y4: i128 = d.y as i128;
    let den: i128 = product(x1 - x2, y3 - y4) - product(y1 - y2, x3 - x4);
    let t: i128 = product(x1 - x3, y3 - y4) - product(y1 - y3, x3 - x4);
    let u: i128 = -(product(x1 - x2, y1 - y3) - product(y1 - y2, x1 - x3));
    if den > 0 {
        if 0 <= t && t <= den && 0 <= u && u <= den {
            return Some(Point { x: step_along(a.x, b.x, t, den), y: step_along(a.y, b.y, t, den) });
        }
    } else if den < 0 {
        if den <= t && t <= 0 && den <= u && u <= 0 {
            return Some(
                Point { x: step_along(a.x, b.x, -t, -den), y: step_along(a.y, b.y, -t, -den) },
            );
        }
    }
    None
}

/// The two fractions name one and the same point: going `t_numerator` over
/// `denominator` of the way from `a` to `b` leads where going `u_numerator`
/// over `denominator` of the way from `c` to `d` leads. Both sides are
/// written times `denominator`.
pub proof fn lemma_fractions_meet(a: Point, b: Point, c: Point, d: Point)
    ensures
        denominator(a, b, c, d) * a.x + t_numerator(a, b, c, d) * (b.x - a.x) == denominator(
            a,
            b,
            c,
            d,
        ) * c.x + u_numerator(a, b, c, d) * (d.x - c.x),
        denominator(a, b, c, d) * a.y + t_numerator(a, b, c, d) * (b.y - a.y) == denominator(
            a,
            b,
            c,
            d,
        ) * c.y + u_numerator(a, b, c, d) * (d.y - c.y),
{
    let ab_x = a.x - b.x;
    let ab_y = a.y - b.y;
    let cd_x = c.x - d.x;
    let cd_y = c.y - d.y;
    let ac_x = a.x - c.x;
    let ac_y = a.y - c.y;
    let den = denominator(a, b, c, d);
    let t = t_numerator(a, b, c, d);
    let u = u_numerator(a, b, c, d);
    lemma_three_products(ab_x, cd_y, ac_x, ab_y, cd_x, ac_y);
    lemma_three_products(ab_y, cd_x, ac_y, ab_x, cd_y, ac_x);
    assert(den * ac_x - t * ab_x + u * cd_x == 0) by {
        assert(den * ac_x == (ab_x * cd_y) * ac_x - (ab_y * cd_x) * ac_x) by (nonlinear_arith)
            requires
                den == ab_x * cd_y - ab_y * cd_x,
        ;
        assert(t * ab_x == (ac_x * cd_y) * ab_x - (ac_y * cd_x) * ab_x) by (nonlinear_arith)
            requires
                t == ac_x * cd_y - ac_y * cd_x,
        ;
        assert(u * cd_x == (ab_y * ac_x) * cd_x - (ab_x * ac_y) * cd_x) by (nonlinear_arith)
            requires
                u == -(ab_x * ac_y - ab_y * ac_x),
        ;
    }
    assert(den * ac_y - t * ab_y + u * cd_y == 0) by {
        assert(den * ac_y == (ab_x * cd_y) * ac_y - (ab_y * cd_x) * ac_y) by (nonlinear_arith)
            requires
                den == ab_x * cd_y - ab_y * cd_x,
        ;
        assert(t * ab_y == (ac_x * cd_y) * ab_y - (ac_y * cd_x) * ab_y) by (nonlinear_arith)
            requires
                t == ac_x * cd_y - ac_y * cd_x,
        ;
        assert(u * cd_y == (ab_y * ac_x) * cd_y - (ab_x * ac_y) * cd_y) by (nonlinear_arith)
            requires
                u == -(ab_x * ac_y - ab_y * ac_x),
        ;
    }
    assert(den * a.x + t * (b.x - a.x) == den * c.x + u * (d.x - c.x)) by (nonlinear_arith)
        requires
            den * ac_x - t * ab_x + u * cd_x == 0,
            ac_x == a.x - c.x,
            ab_x == a.x - b.x,
            cd_x == c.x - d.x,
    ;
    assert(den * a.y + t * (b.y - a.y) == den * c.y + u * (d.y - c.y)) by (nonlinear_arith)
        requires
            den * ac_y - t * ab_y + u * cd_y == 0,
            ac_y == a.y - c.y,
            ab_y == a.y - b.y,
            cd_y == c.y - d.y,
    ;
}

/// Products of three numbers do not depend on the order of the factors.
proof fn lemma_three_products(p: int, q: int, r: int, u: int, v: int, w: int)
    ensures
        (p * q) * r == (r * q) * p,
        (u * v) * r == (u * r) * v,
        (w * v) * p == (p * w) * v,
        (p * q) * w == (p * w) * q,
        (u * v) * w == (w * v) * u,
        (r * q) * u == (u * r) * q,
{
    assert((p * q) * r == (r * q) * p) by (nonlinear_arith);
    assert((u * v) * r == (u * r) * v) by (nonlinear_arith);
    assert((w * v) * p == (p * w) * v) by (nonlinear_arith);
    assert((p * q) * w == (p * w) * q) by (nonlinear_arith);
    assert((u * v) * w == (w * v) * u) by (nonlinear_arith);
    assert((r * q) * u == (u * r) * q) by (nonlinear_arith);
}

/// A step of a fraction from zero to one of the way lies between the two
/// ends, and less than one lattice unit short of the exact place.
pub proof fn lemma_along_is_near(from: int, to: int, num: int, den: int)
    requires
        is_unit_fraction(num, den),
    ensures
        from <= along(from, to, num, den) <= to || to <= along(from, to, num, den) <= from,
        den > 0 ==> -den < den * (along(from, to, num, den) - from) - num * (to - from) < den,
        den < 0 ==> den < den * (along(from, to, num, den) - from) - num * (to - from) < -den,
{
    let n = if den > 0 {
        num
    } else {
        -num
    };
    let m = if den > 0 {
        den
    } else {
        -den
    };
    let w = to - from;
    let s = n * w;
    let q = div_toward_zero(s, m);
    assert(along(from, to, num, den) == from + q);
    if w >= 0 {
        assert(0 <= s <= m * w) by (nonlinear_arith)
            requires
                s == n * w,
                0 <= n <= m,
                w >= 0,
        ;
        assert(0 <= s / m <= w && 0 <= s - m * (s / m) < m) by (nonlinear_arith)
            requires
                0 <= s <= m * w,
                m > 0,
        ;
    } else {
        assert(0 <= -s <= m * (-w)) by (nonlinear_arith)
            requires
                s == n * w,
                0 <= n <= m,
                w < 0,
        ;
        assert(0 <= (-s) / m <= -w && 0 <= (-s) - m * ((-s) / m) < m) by (nonlinear_arith)
            requires
                0 <= -s <= m * (-w),
                m > 0,
        ;
    }
    assert(-m < m * q - s < m) by (nonlinear_arith)
        requires
            (s >= 0 && q == s / m && 0 <= s - m * (s / m) < m) || (s < 0 && q == -((-s) / m) && 0
                <= (-s) - m * ((-s) / m) < m),
            m > 0,
    ;
    if den > 0 {
        assert(den * (from + q - from) - num * (to - from) == m * q - s) by (nonlinear_arith)
            requires
                den == m,
                num == n,
                s == n * w,
                w == to - from,
        ;
    } else {
        assert(den * (from + q - from) - num * (to - from) == -(m * q - s)) by (nonlinear_arith)
            requires
                den == -m,
                num == -n,
                s == n * w,
                w == to - from,
        ;
    }
}

/// Where two segments cross, the point that `intersection` gives lies in
/// the box spanned by `a` and `b`, and on either axis less than one lattice
/// unit from the point in which the two segments meet.
pub proof fn lemma_crossing_point_is_near(a: Point, b: Point, c: Point, d: Point)
    requires
        segments_cross(a, b, c, d),
    ensures
        ({
            let p = crossing_point(a, b, c, d);
            let den = denominator(a, b, c, d);
            let t = t_numerator(a, b, c, d);
            let u = u_numerator(a, b, c, d);
            let size = if den > 0 {
                den
            } else {
                -den
            };
            &&& a.x <= p.x <= b.x || b.x <= p.x <= a.x
            &&& a.y <= p.y <= b.y || b.y <= p.y <= a.y
            &&& -size < den * (p.x - a.x) - t * (b.x - a.x) < size
            &&& -size < den * (p.y - a.y) - t * (b.y - a.y) < size
            &&& -size < den * (p.x - c.x) - u * (d.x - c.x) < size
            &&& -size < den * (p.y - c.y) - u * (d.y - c.y) < size
        }),
{
    let den = denominator(a, b, c, d);
    let t = t_numerator(a, b, c, d);
    let u = u_numerator(a, b, c, d);
    lemma_along_is_near(a.x as int, b.x as int, t, den);
    lemma_along_is_near(a.y as int, b.y as int, t, den);
    lemma_fractions_meet(a, b, c, d);
    let p = crossing_point(a, b, c, d);
    let px = along(a.x as int, b.x as int, t, den);
    let py = along(a.y as int, b.y as int, t, den);
    assert(p.x == px && p.y == py);
    assert(den * (px - c.x) - u * (d.x - c.x) == den * (px - a.x) - t * (b.x - a.x))
        by (nonlinear_arith)
        requires
            den * a.x + t * (b.x - a.x) == den * c.x + u * (d.x - c.x),
    ;
    assert(den * (py - c.y) - u * (d.y - c.y) == den * (py - a.y) - t * (b.y - a.y))
        by (nonlinear_arith)
        requires
            den * a.y + t * (b.y - a.y) == den * c.y + u * (d.y - c.y),
    ;
}

} // verus!
