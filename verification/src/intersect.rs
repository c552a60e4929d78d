use vstd::prelude::*;

use crate::arith::lemma_mul_bound;
use crate::point::Point;
use crate::point::COORD_BOUND;

verus! {

/// The smaller of two integers.
pub open spec fn smin(a: int, b: int) -> int {
    if a <= b { a } else { b }
}

/// The larger of two integers.
pub open spec fn smax(a: int, b: int) -> int {
    if a <= b { b } else { a }
}

/// Determinant of the two infinite lines through the segments `p0`-`p1` and
/// `q0`-`q1`; zero exactly when the lines are parallel.
pub open spec fn det_s(p0: Point, p1: Point, q0: Point, q1: Point) -> int {
    (p1.y - p0.y) * (q0.x - q1.x) - (q1.y - q0.y) * (p0.x - p1.x)
}

/// Constant of the line through `p0`-`p1` in the form
/// `(p1.y - p0.y) * x + (p0.x - p1.x) * y = c`.
pub open spec fn line_c(p0: Point, p1: Point) -> int {
    (p1.y - p0.y) * p0.x + (p0.x - p1.x) * p0.y
}

/// Numerator of the x coordinate of the line intersection point; the
/// coordinate itself is this divided by the determinant.
pub open spec fn xnum_s(p0: Point, p1: Point, q0: Point, q1: Point) -> int {
    (q0.x - q1.x) * line_c(p0, p1) - (p0.x - p1.x) * line_c(q0, q1)
}

/// Numerator of the y coordinate of the line intersection point.
pub open spec fn ynum_s(p0: Point, p1: Point, q0: Point, q1: Point) -> int {
    (p1.y - p0.y) * line_c(q0, q1) - (q1.y - q0.y) * line_c(p0, p1)
}

/// Whether the rational `num / det` lies in the closed interval `[lo, hi]`,
/// stated by cross-multiplication so that no division is needed.
pub open spec fn within(lo: int, hi: int, num: int, det: int) -> bool {
    if det > 0 {
        lo * det <= num && num <= hi * det
    } else {
        hi * det <= num && num <= lo * det
    }
}

/// Whether the segments `p0`-`p1` and `q0`-`q1` intersect: parallel lines do
/// not; otherwise the intersection point of the two infinite lines must lie
/// within the axis-aligned bounding boxes of both segments, bounds included.
pub open spec fn seg_intersects(p0: Point, p1: Point, q0: Point, q1: Point) -> bool {
    let det = det_s(p0, p1, q0, q1);
    if det == 0 {
        false
    } else {
        let xn = xnum_s(p0, p1, q0, q1);
        let yn = ynum_s(p0, p1, q0, q1);
        within(smin(p0.x as int, p1.x as int), smax(p0.x as int, p1.x as int), xn, det)
            && within(smin(p0.y as int, p1.y as int), smax(p0.y as int, p1.y as int), yn, det)
            && within(smin(q0.x as int, q1.x as int), smax(q0.x as int, q1.x as int), xn, det)
            && within(smin(q0.y as int, q1.y as int), smax(q0.y as int, q1.y as int), yn, det)
    }
}

/// Exact check of `within` on machine integers.
fn within_check(lo: i128, hi: i128, num: i128, det: i128) -> (r: bool)
    requires
        -2097152 <= lo <= 2097152,
        -2097152 <= hi <= 2097152,
        -18446744073709551616 <= num <= 18446744073709551616,
        -8796093022208 <= det <= 8796093022208,
    ensures
        r == within(lo as int, hi as int, num as int, det as int),
{
    proof {
        lemma_mul_bound(lo as int, det as int, 2097152, 8796093022208);
        lemma_mul_bound(hi as int, det as int, 2097152, 8796093022208);
    }
    if det > 0 {
        lo * det <= num && num <= hi * det
    } else {
        hi * det <= num && num <= lo * det
    }
}

/// Determines whether the line segment from `a.0` to `a.1` intersects the
/// line segment from `b.0` to `b.1`, exactly as `seg_intersects` states it.
pub fn intersects(a: (&Point, &Point), b: (&Point, &Point)) -> (r: bool)
    requires
        a.0.in_bounds(),
        a.1.in_bounds(),
        b.0.in_bounds(),
        b.1.in_bounds(),
    ensures
        r == seg_intersects(*a.0, *a.1, *b.0, *b.1),
{
    let ax1: i128 = a.0.x as i128;
    let ay1: i128 = a.0.y as i128;
    let ax2: i128 = a.1.x as i128;
    let ay2: i128 = a.1.y as i128;
    let bx1: i128 = b.0.x as i128;
    let by1: i128 = b.0.y as i128;
    let bx2: i128 = b.1.x as i128;
    let by2: i128 = b.1.y as i128;

    let a1: i128 = ay2 - ay1;
    let b1: i128 = ax1 - ax2;
    let a2: i128 = by2 - by1;
    let b2: i128 = bx1 - bx2;
    proof {
        lemma_mul_bound(a1 as int, ax1 as int, 2097152, 1048576);
        lemma_mul_bound(b1 as int, ay1 as int, 2097152, 1048576);
        lemma_mul_bound(a2 as int, bx1 as int, 2097152, 1048576);
        lemma_mul_bound(b2 as int, by1 as int, 2097152, 1048576);
        lemma_mul_bound(a1 as int, b2 as int, 2097152, 2097152);
        lemma_mul_bound(a2 as int, b1 as int, 2097152, 2097152);
    }
    let c1: i128 = a1 * ax1 + b1 * ay1;
    let c2: i128 = a2 * bx1 + b2 * by1;
    let det: i128 = a1 * b2 - a2 * b1;

    if det == 0 {
        false
    } else {
        proof {
            lemma_mul_bound(b2 as int, c1 as int, 2097152, 4398046511104);
            lemma_mul_bound(b1 as int, c2 as int, 2097152, 4398046511104);
            lemma_mul_bound(a1 as int, c2 as int, 2097152, 4398046511104);
            lemma_mul_bound(a2 as int, c1 as int, 2097152, 4398046511104);
        }
        let xn: i128 = b2 * c1 - b1 * c2;
        let yn: i128 = a1 * c2 - a2 * c1;

        let lox: i128 = if ax1 <= ax2 { ax1 } else { ax2 };
        let hix: i128 = if ax1 <= ax2 { ax2 } else { ax1 };
        let loy: i128 = if ay1 <= ay2 { ay1 } else { ay2 };
        let hiy: i128 = if ay1 <= ay2 { ay2 } else { ay1 };
        let lbx: i128 = if bx1 <= bx2 { bx1 } else { bx2 };
        let hbx: i128 = if bx1 <= bx2 { bx2 } else { bx1 };
        let lby: i128 = if by1 <= by2 { by1 } else { by2 };
        let hby: i128 = if by1 <= by2 { by2 } else { by1 };

        within_check(lox, hix, xn, det) && within_check(loy, hiy, yn, det)
            && within_check(lbx, hbx, xn, det) && within_check(lby, hby, yn, det)
    }
}

/// Swapping the two segments cannot change whether they intersect: the
/// determinant and both intersection-point numerators merely change sign,
/// and the interval checks are invariant under that sign change.
pub proof fn lemma_intersects_symmetric(p0: Point, p1: Point, q0: Point, q1: Point)
    ensures
        seg_intersects(p0, p1, q0, q1) == seg_intersects(q0, q1, p0, p1),
{
    assert(det_s(q0, q1, p0, p1) == -det_s(p0, p1, q0, q1));
    assert(xnum_s(q0, q1, p0, p1) == -xnum_s(p0, p1, q0, q1));
    assert(ynum_s(q0, q1, p0, p1) == -ynum_s(p0, p1, q0, q1));
    let det = det_s(p0, p1, q0, q1);
    if det != 0 {
        let xn = xnum_s(p0, p1, q0, q1);
        let yn = ynum_s(p0, p1, q0, q1);
        lemma_within_neg(smin(p0.x as int, p1.x as int), smax(p0.x as int, p1.x as int), xn, det);
        lemma_within_neg(smin(p0.y as int, p1.y as int), smax(p0.y as int, p1.y as int), yn, det);
        lemma_within_neg(smin(q0.x as int, q1.x as int), smax(q0.x as int, q1.x as int), xn, det);
        lemma_within_neg(smin(q0.y as int, q1.y as int), smax(q0.y as int, q1.y as int), yn, det);
    }
}

/// Negating both the numerator and the determinant leaves `within` unchanged.
proof fn lemma_within_neg(lo: int, hi: int, num: int, det: int)
    ensures
        within(lo, hi, -num, -det) == within(lo, hi, num, det),
{
    assert(lo * -det == -(lo * det)) by (nonlinear_arith);
    assert(hi * -det == -(hi * det)) by (nonlinear_arith);
}

} // verus!
