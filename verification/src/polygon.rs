use vstd::prelude::*;

use crate::arith::lemma_mul_bound;
use crate::point::Point;

verus! {

/// Whether a ray cast from `p` towards positive x crosses the directed edge
/// `a`-`b`.  The edge is counted only when `p.y` lies in the half-open
/// vertical span of the edge, which both skips horizontal edges and counts
/// each vertex level once; the strict comparison places the crossing strictly
/// to the right of `p`, stated by cross-multiplication.
pub open spec fn crossing(p: Point, a: Point, b: Point) -> bool {
    if a.y <= p.y < b.y {
        (p.x - a.x) * (b.y - a.y) < (b.x - a.x) * (p.y - a.y)
    } else if b.y <= p.y < a.y {
        (p.x - a.x) * (b.y - a.y) > (b.x - a.x) * (p.y - a.y)
    } else {
        false
    }
}

/// The edges of a polygon given as its vertex list, in traversal order, the
/// last vertex connecting back to the first.
pub open spec fn edges(poly: Seq<Point>) -> Seq<(Point, Point)> {
    Seq::new(poly.len(), |i: int| (poly[i], if i + 1 < poly.len() { poly[i + 1] } else { poly[0] }))
}

/// How many of the given edges the rightward ray from `p` crosses.
pub open spec fn cross_count(p: Point, es: Seq<(Point, Point)>) -> nat
    decreases es.len(),
{
    if es.len() == 0 {
        0
    } else {
        cross_count(p, es.drop_last()) + if crossing(p, es.last().0, es.last().1) { 1nat } else { 0nat }
    }
}

/// Even-odd containment test: `p` is inside the polygon when the rightward
/// ray from `p` crosses an odd number of its edges.  Polygons of two or fewer
/// vertices contain nothing.
pub open spec fn pip(p: Point, poly: Seq<Point>) -> bool {
    poly.len() > 2 && cross_count(p, edges(poly)) % 2 == 1
}

/// Even-odd (parity) point-in-polygon test over the polygon's edges in
/// sequence, the polygon implicitly closed from its last vertex back to its
/// first.  Returns false for polygons of 2 or fewer vertices.
pub fn point_in_polygon(point: &Point, polygon: &Vec<Point>) -> (r: bool)
    requires
        point.in_bounds(),
        forall|i: int| 0 <= i < polygon@.len() ==> #[trigger] polygon@[i].in_bounds(),
    ensures
        r == pip(*point, polygon@),
{
    let n = polygon.len();
    if n <= 2 {
        return false;
    }

    let mut inout: u64 = 0;
    let mut i: usize = 0;
    while i < n
        invariant
            n == polygon@.len(),
            2 < n,
            0 <= i <= n,
            point.in_bounds(),
            forall|j: int| 0 <= j < polygon@.len() ==> #[trigger] polygon@[j].in_bounds(),
            inout == cross_count(*point, edges(polygon@).take(i as int)),
            inout <= i,
        decreases n - i,
    {
        let v0 = polygon[i];
        let v1 = if i + 1 < n { polygon[i + 1] } else { polygon[0] };
        proof {
            assert(polygon@[i as int].in_bounds());
            assert(polygon@[0].in_bounds());
            if i + 1 < n {
                assert(polygon@[i + 1].in_bounds());
            }
        }

        let crosses: bool = if (v0.y <= point.y && point.y < v1.y) || (v1.y <= point.y && point.y < v0.y) {
            proof {
                lemma_mul_bound((point.x - v0.x) as int, (v1.y - v0.y) as int, 2097152, 2097152);
                lemma_mul_bound((v1.x - v0.x) as int, (point.y - v0.y) as int, 2097152, 2097152);
            }
            let lhs: i128 = ((point.x - v0.x) as i128) * ((v1.y - v0.y) as i128);
            let rhs: i128 = ((v1.x - v0.x) as i128) * ((point.y - v0.y) as i128);
            if v0.y <= point.y { lhs < rhs } else { lhs > rhs }
        } else {
            false
        };

        proof {
            let es = edges(polygon@);
            assert(es.take(i + 1).drop_last() =~= es.take(i as int));
            assert(es.take(i + 1).last() == es[i as int]);
            assert(es[i as int].0 == polygon@[i as int]);
        }
        if crosses {
            inout = inout + 1;
        }
        i = i + 1;
    }
    proof {
        assert(edges(polygon@).take(n as int) =~= edges(polygon@));
    }
    inout % 2 != 0
}

/// Whether every one of the given points lies inside the polygon.
pub fn multiple_point_in_polygon(points: &Vec<Point>, hull: &Vec<Point>) -> (r: bool)
    requires
        forall|i: int| 0 <= i < points@.len() ==> #[trigger] points@[i].in_bounds(),
        forall|i: int| 0 <= i < hull@.len() ==> #[trigger] hull@[i].in_bounds(),
    ensures
        r == forall|i: int| 0 <= i < points@.len() ==> pip(#[trigger] points@[i], hull@),
{
    let mut i: usize = 0;
    while i < points.len()
        invariant
            0 <= i <= points@.len(),
            forall|j: int| 0 <= j < points@.len() ==> #[trigger] points@[j].in_bounds(),
            forall|j: int| 0 <= j < hull@.len() ==> #[trigger] hull@[j].in_bounds(),
            forall|j: int| 0 <= j < i ==> pip(#[trigger] points@[j], hull@),
        decreases points@.len() - i,
    {
        if !point_in_polygon(&points[i], hull) {
            return false;
        }
        i = i + 1;
    }
    true
}

/// Crossing counts add up over a split of the edge list.
proof fn lemma_cross_count_concat(p: Point, s: Seq<(Point, Point)>, t: Seq<(Point, Point)>)
    ensures
        cross_count(p, s + t) == cross_count(p, s) + cross_count(p, t),
    decreases t.len(),
{
    if t.len() == 0 {
        assert(s + t =~= s);
    } else {
        lemma_cross_count_concat(p, s, t.drop_last());
        assert((s + t).drop_last() =~= s + t.drop_last());
        assert((s + t).last() == t.last());
    }
}

/// The vertex list of `poly`, rotated so that it starts at index `r`: the
/// same cyclic sequence of vertices read from a different starting vertex.
pub open spec fn rotated(poly: Seq<Point>, r: int) -> Seq<Point> {
    poly.subrange(r, poly.len() as int) + poly.subrange(0, r)
}

/// Rotating the polygon's vertex list does not change the even-odd
/// containment test: the rotated polygon has the same cyclic edge set, so the
/// ray from `p` crosses the same edges.
pub proof fn lemma_pip_rotation(p: Point, poly: Seq<Point>, r: int)
    requires
        0 <= r <= poly.len(),
    ensures
        pip(p, rotated(poly, r)) == pip(p, poly),
{
    let n = poly.len() as int;
    let es = edges(poly);
    let rot = rotated(poly, r);
    if r == 0 || r == n {
        assert(rot =~= poly);
        assert(edges(rot) =~= es);
    } else {
        assert(rot.len() == n);
        assert forall|i: int| 0 <= i < n implies #[trigger] edges(rot)[i] == (es.subrange(r, n)
            + es.subrange(0, r))[i] by {
            if i < n - r {
                assert(rot[i] == poly[i + r]);
                if i + 1 < n - r {
                    assert(rot[i + 1] == poly[i + r + 1]);
                } else if i + 1 < n {
                    assert(rot[i + 1] == poly[i + 1 - (n - r)]);
                } else {
                    assert(rot[0] == poly[r]);
                }
            } else {
                assert(rot[i] == poly[i - (n - r)]);
                if i + 1 < n {
                    assert(rot[i + 1] == poly[i + 1 - (n - r)]);
                } else {
                    assert(rot[0] == poly[r]);
                }
            }
        };
        assert(edges(rot) =~= es.subrange(r, n) + es.subrange(0, r));
        lemma_cross_count_concat(p, es.subrange(r, n), es.subrange(0, r));
        lemma_cross_count_concat(p, es.subrange(0, r), es.subrange(r, n));
        assert(es.subrange(0, r) + es.subrange(r, n) =~= es);
        assert(cross_count(p, edges(rot)) == cross_count(p, es));
    }
}

} // verus!
