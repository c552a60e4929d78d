#![allow(unused_imports)]
use vstd::prelude::*;

pub mod arith;
pub mod intersect;
pub mod neighbors;
pub mod point;
pub mod polygon;

use crate::arith::lemma_mul_bound;
use crate::intersect::intersects;
use crate::intersect::lemma_intersects_symmetric;
use crate::intersect::seg_intersects;
use crate::neighbors::copy_points;
use crate::neighbors::knn_spec;
use crate::neighbors::lemma_first_id_bounds;
use crate::neighbors::lemma_first_id_lower;
use crate::neighbors::lemma_knn_loop_elements;
use crate::neighbors::remove_first_id;
use crate::neighbors::distance_sq;
use crate::neighbors::nearest_n;
use crate::neighbors::remove_by_id;
use crate::point::bear_den;
use crate::point::bear_num;
use crate::point::bearing;
use crate::point::bearing_spec;
use crate::point::Angle;
use crate::point::Point;
use crate::point::PointValue;
use crate::point::BEARING_DEN_BOUND;
use crate::point::COORD_BOUND;
use vstd::multiset::Multiset;

use crate::polygon::multiple_point_in_polygon;
use crate::polygon::pip;

verus! {

broadcast use vstd::seq_lib::group_to_multiset_ensures;

/// Every point of the sequence has in-range coordinates.
pub open spec fn all_in_bounds(s: Seq<Point>) -> bool {
    forall|i: int| 0 <= i < s.len() ==> #[trigger] s[i].in_bounds()
}

/// Each point's identifier is its position in the sequence, the assignment
/// the entry points establish before any processing begins.
pub open spec fn dense_ids(s: Seq<Point>) -> bool {
    forall|i: int| 0 <= i < s.len() ==> #[trigger] s[i].id == i
}

/// The vertex list ends where it started: the hull polygon is closed.
pub open spec fn closes(h: Seq<Point>) -> bool {
    h.len() >= 2 && h.last().same_coords(h[0])
}

/// No edge of the vertex chain intersects a non-adjacent edge.  When the
/// chain closes back onto its first vertex, the closing edge and the opening
/// edge share that vertex, so that single pair is adjacent as well.
pub open spec fn hull_simple(h: Seq<Point>) -> bool {
    forall|i: int, j: int|
        0 <= i && i + 2 <= j && j + 1 < h.len() && !(i == 0 && j + 2 == h.len() && closes(h))
            ==> !#[trigger] seg_intersects(h[i], h[i + 1], h[j], h[j + 1])
}

/// Every input point is either a hull vertex (matched by identifier) or lies
/// inside the hull polygon.
pub open spec fn hull_contains_all(points: Seq<Point>, h: Seq<Point>) -> bool {
    forall|i: int|
        0 <= i < points.len() ==> (exists|j: int|
            0 <= j < h.len() && #[trigger] h[j].id == points[i].id) || pip(
            #[trigger] points[i],
            h,
        )
}

/// Every hull vertex is an input point, except possibly the synthetic copy
/// of the starting vertex that closes the polygon: it carries the input
/// length as its identifier and the coordinates of the first vertex.
pub open spec fn from_input_or_start_clone(points: Seq<Point>, h: Seq<Point>) -> bool {
    forall|j: int|
        0 <= j < h.len() ==> (exists|i: int| 0 <= i < points.len() && points[i] == #[trigger] h[j])
            || (h[j].id == points.len() && h.len() > 0 && h[j].same_coords(h[0]))
}

/// `a` comes no later than `b` in the order "lowest y first, ties broken by
/// lowest x".
pub open spec fn y_then_x_le(a: Point, b: Point) -> bool {
    a.y < b.y || (a.y == b.y && a.x <= b.x)
}

/// `a` comes strictly before `b` in the same order.
pub open spec fn y_then_x_lt(a: Point, b: Point) -> bool {
    a.y < b.y || (a.y == b.y && a.x < b.x)
}

/// The best of `best` and the points of `s` at or after `i`, in the order
/// "lowest y first, ties broken by lowest x", earliest winner kept on ties.
pub open spec fn min_from(s: Seq<Point>, i: int, best: Point) -> Point
    decreases s.len() - i,
{
    if i < 0 || i >= s.len() {
        best
    } else {
        min_from(s, i + 1, if y_then_x_lt(s[i], best) { s[i] } else { best })
    }
}

/// The first point with minimal y coordinate, ties broken by minimal x.
pub open spec fn min_pt(s: Seq<Point>) -> Point
    recommends
        s.len() > 0,
{
    min_from(s, 1, s[0])
}

/// The first point with minimal y coordinate, ties broken by minimal x.
fn find_min_y_point(points: &Vec<Point>) -> (r: Point)
    requires
        points@.len() > 0,
    ensures
        r == min_pt(points@),
        forall|j: int| 0 <= j < points@.len() ==> y_then_x_le(r, #[trigger] points@[j]),
        exists|i: int|
            0 <= i < points@.len() && #[trigger] points@[i] == r && forall|j: int|
                0 <= j < i ==> !y_then_x_le(#[trigger] points@[j], r),
{
    let mut best = points[0];
    let mut best_i: usize = 0;
    let mut i: usize = 1;
    while i < points.len()
        invariant
            1 <= i <= points@.len(),
            0 <= best_i < i,
            points@[best_i as int] == best,
            forall|j: int| 0 <= j < i ==> y_then_x_le(best, #[trigger] points@[j]),
            forall|j: int| 0 <= j < best_i ==> !y_then_x_le(#[trigger] points@[j], best),
            min_from(points@, i as int, best) == min_pt(points@),
        decreases points@.len() - i,
    {
        let p = points[i];
        if p.y < best.y || (p.y == best.y && p.x < best.x) {
            best = p;
            best_i = i;
        }
        i = i + 1;
    }
    proof {
        assert(points@[best_i as int] == best);
    }
    best
}

/// Whether some point of the vector carries the given identifier.
fn contains_id(v: &Vec<Point>, id: u64) -> (r: bool)
    ensures
        r == exists|j: int| 0 <= j < v@.len() && #[trigger] v@[j].id == id,
{
    let mut i: usize = 0;
    while i < v.len()
        invariant
            0 <= i <= v@.len(),
            forall|j: int| 0 <= j < i ==> #[trigger] v@[j].id != id,
        decreases v@.len() - i,
    {
        if v[i].id == id {
            return true;
        }
        i = i + 1;
    }
    false
}

/// The identifier of `p` matches no vertex of the hull.
pub open spec fn outside_hull(hull: Seq<Point>, p: Point) -> bool {
    forall|j: int| 0 <= j < hull.len() ==> (#[trigger] hull[j]).id != p.id
}

/// The input points that are not hull vertices: exactly those whose
/// identifier matches no vertex of the hull, in input order.
fn remove_hull(points: &Vec<Point>, hull: &Vec<Point>) -> (rest: Vec<Point>)
    ensures
        rest@ == points@.filter(|p: Point| outside_hull(hull@, p)),
        forall|i: int|
            0 <= i < points@.len() ==> (exists|j: int|
                0 <= j < hull@.len() && #[trigger] hull@[j].id == points@[i].id)
                || rest@.contains(#[trigger] points@[i]),
        forall|m: int| 0 <= m < rest@.len() ==> points@.contains(#[trigger] rest@[m]),
        forall|m: int, j: int|
            0 <= m < rest@.len() && 0 <= j < hull@.len() ==> (#[trigger] hull@[j]).id != (
            #[trigger] rest@[m]).id,
{
    let mut rest: Vec<Point> = Vec::new();
    proof {
        reveal(Seq::filter);
        assert(rest@ == points@.take(0).filter(|p: Point| outside_hull(hull@, p)));
    }
    let mut i: usize = 0;
    while i < points.len()
        invariant
            0 <= i <= points@.len(),
            rest@ == points@.take(i as int).filter(|p: Point| outside_hull(hull@, p)),
            forall|t: int|
                0 <= t < i ==> (exists|j: int|
                    0 <= j < hull@.len() && #[trigger] hull@[j].id == points@[t].id)
                    || rest@.contains(#[trigger] points@[t]),
            forall|m: int| 0 <= m < rest@.len() ==> points@.contains(#[trigger] rest@[m]),
            forall|m: int, j: int|
                0 <= m < rest@.len() && 0 <= j < hull@.len() ==> (#[trigger] hull@[j]).id != (
                #[trigger] rest@[m]).id,
        decreases points@.len() - i,
    {
        let ghost old_rest = rest@;
        let p = points[i];
        if !contains_id(hull, p.id) {
            rest.push(p);
            proof {
                assert(points@.contains(points@[i as int]));
            }
        }
        proof {
            reveal(Seq::filter);
            let pred = |q: Point| outside_hull(hull@, q);
            let ext = points@.take(i + 1);
            assert(ext.drop_last() =~= points@.take(i as int));
            assert(ext.last() == points@[i as int]);
            assert(ext.filter(pred) == if pred(points@[i as int]) {
                points@.take(i as int).filter(pred).push(points@[i as int])
            } else {
                points@.take(i as int).filter(pred)
            });
            assert(pred == (|p: Point| outside_hull(hull@, p)));
            assert(rest@ == points@.take(i + 1).filter(|p: Point| outside_hull(hull@, p)));
            assert forall|t: int|
                0 <= t < i + 1 implies (exists|j: int|
                0 <= j < hull@.len() && #[trigger] hull@[j].id == points@[t].id) || rest@.contains(
                #[trigger] points@[t],
            ) by {
                if t < i {
                    if old_rest.contains(points@[t]) {
                        let m = choose|m: int| 0 <= m < old_rest.len() && old_rest[m] == points@[t];
                        assert(rest@[m] == points@[t]);
                    }
                } else {
                    if rest@.len() > 0 && rest@.last() == points@[t] {
                        assert(rest@.contains(points@[t]));
                    }
                }
            };
        }
        i = i + 1;
    }
    proof {
        assert(points@.take(points@.len() as int) =~= points@);
    }
    rest
}

/// Denominator of the bearing from `from` to `p` taken relative to `prev`.
pub open spec fn rel_den(from: Point, prev: Angle, p: Point) -> int {
    bear_den(from, p) * prev.den
}

/// Raw numerator of the relative bearing, before folding into `[0, 4)`.
pub open spec fn rel_raw(from: Point, prev: Angle, p: Point) -> int {
    bear_num(from, p) * prev.den - prev.num * bear_den(from, p)
}

/// Numerator of the relative bearing folded into `[0, 4)` quarter turns.
pub open spec fn rel_num(from: Point, prev: Angle, p: Point) -> int {
    if rel_raw(from, prev, p) < 0 {
        rel_raw(from, prev, p) + 4 * rel_den(from, prev, p)
    } else {
        rel_raw(from, prev, p)
    }
}

/// The relative bearing of `a` is at least that of `b`, compared exactly by
/// cross-multiplication.
pub open spec fn rel_ge(from: Point, prev: Angle, a: Point, b: Point) -> bool {
    rel_num(from, prev, a) * rel_den(from, prev, b) >= rel_num(from, prev, b) * rel_den(
        from,
        prev,
        a,
    )
}

/// Position of the candidate with the largest relative bearing among `s[m]`
/// and those at or after `j`, earliest winner kept on ties.
pub open spec fn argmax_from(s: Seq<Point>, from: Point, prev: Angle, j: int, m: int) -> int
    decreases s.len() - j,
{
    if j < 0 || j >= s.len() {
        m
    } else {
        argmax_from(s, from, prev, j + 1, if !rel_ge(from, prev, s[m], s[j]) { j } else { m })
    }
}

proof fn lemma_argmax_from_range(s: Seq<Point>, from: Point, prev: Angle, j: int, m: int)
    requires
        0 <= m < s.len(),
    ensures
        0 <= argmax_from(s, from, prev, j, m) < s.len(),
    decreases s.len() - j,
{
    if 0 <= j < s.len() {
        lemma_argmax_from_range(s, from, prev, j + 1, if !rel_ge(from, prev, s[m], s[j]) { j } else { m });
    }
}

/// Repeatedly moves the most clockwise remaining candidate to the end of
/// `out` until none remain.
pub open spec fn sort_loop(rest: Seq<Point>, from: Point, prev: Angle, out: Seq<Point>) -> Seq<Point>
    decreases rest.len() via sort_loop_decreases
{
    if rest.len() == 0 {
        out
    } else {
        let m = argmax_from(rest, from, prev, 1, 0);
        sort_loop(rest.remove(m), from, prev, out.push(rest[m]))
    }
}

#[via_fn]
proof fn sort_loop_decreases(rest: Seq<Point>, from: Point, prev: Angle, out: Seq<Point>) {
    if rest.len() > 0 {
        lemma_argmax_from_range(rest, from, prev, 1, 0);
    }
}

/// The candidates ordered by descending bearing relative to `prev`, earliest
/// input position winning ties.
pub open spec fn sort_spec(pts: Seq<Point>, from: Point, prev: Angle) -> Seq<Point> {
    sort_loop(pts, from, prev, Seq::empty())
}

/// The difference of two values in `[0, 4)` lies strictly between whole
/// turns, so folding it once lands in `[0, 4)`.
proof fn lemma_rel_range(bn: int, bd: int, pn: int, pd: int)
    by (nonlinear_arith)
    requires
        0 <= bn < 4 * bd,
        0 <= pn < 4 * pd,
        1 <= bd,
        1 <= pd,
    ensures
        -4 * (bd * pd) < bn * pd - pn * bd < 4 * (bd * pd),
        1 <= bd * pd,
{
}

/// The bearing from `from` to `p` taken relative to `prev_angle` and folded
/// into the canonical range, as an exact normalized angle.
fn relative_key(from: &Point, prev: Angle, p: &Point) -> (key: Angle)
    requires
        from.in_bounds(),
        p.in_bounds(),
        prev.normalized(),
        prev.bearing_sized(),
    ensures
        key.num == rel_num(*from, prev, *p),
        key.den == rel_den(*from, prev, *p),
        key.normalized(),
{
    let b = bearing(from, p);
    proof {
        lemma_mul_bound(b.num as int, prev.den as int, 4 * BEARING_DEN_BOUND as int, BEARING_DEN_BOUND as int);
        lemma_mul_bound(prev.num as int, b.den as int, 4 * BEARING_DEN_BOUND as int, BEARING_DEN_BOUND as int);
        lemma_mul_bound(b.den as int, prev.den as int, BEARING_DEN_BOUND as int, BEARING_DEN_BOUND as int);
        lemma_rel_range(b.num as int, b.den as int, prev.num as int, prev.den as int);
    }
    let raw: i64 = b.num * prev.den - prev.num * b.den;
    let den: i64 = b.den * prev.den;
    let den4: i64 = den + den + den + den;
    if raw < 0 {
        Angle { num: raw + den4, den }
    } else {
        Angle { num: raw, den }
    }
}

/// Orders the candidate points by their bearing relative to `prev_angle`, in
/// descending order, so that the sharpest available clockwise turn comes
/// first; returns the points in that order.
pub fn sort_by_angle(values: &Vec<PointValue>, from: &Point, prev_angle: Angle) -> (r: Vec<Point>)
    requires
        from.in_bounds(),
        forall|i: int| 0 <= i < values@.len() ==> #[trigger] values@[i].point.in_bounds(),
        prev_angle.normalized(),
        prev_angle.bearing_sized(),
    ensures
        r@.len() == values@.len(),
        forall|i: int|
            0 <= i < r@.len() ==> values@.map_values(|pv: PointValue| pv.point).contains(
                #[trigger] r@[i],
            ),
        r@.to_multiset() == values@.map_values(|pv: PointValue| pv.point).to_multiset(),
        forall|i: int, j: int|
            0 <= i <= j < r@.len() ==> rel_ge(*from, prev_angle, #[trigger] r@[i], #[trigger] r@[j]),
        r@ == sort_spec(values@.map_values(|pv: PointValue| pv.point), *from, prev_angle),
{
    let ghost pts = values@.map_values(|pv: PointValue| pv.point);
    let mut rest: Vec<PointValue> = Vec::new();
    let mut i: usize = 0;
    while i < values.len()
        invariant
            0 <= i <= values@.len(),
            rest@.len() == i,
            from.in_bounds(),
            prev_angle.normalized(),
            prev_angle.bearing_sized(),
            forall|j: int| 0 <= j < values@.len() ==> #[trigger] values@[j].point.in_bounds(),
            forall|t: int| 0 <= t < i ==> #[trigger] rest@[t].point == values@[t].point,
            forall|t: int|
                0 <= t < i ==> (#[trigger] rest@[t].angle).num == rel_num(
                    *from,
                    prev_angle,
                    rest@[t].point,
                ) && rest@[t].angle.den == rel_den(*from, prev_angle, rest@[t].point)
                    && rest@[t].angle.normalized(),
        decreases values@.len() - i,
    {
        let p = values[i].point;
        let d = values[i].distance;
        let key = relative_key(from, prev_angle, &p);
        rest.push(PointValue { point: p, distance: d, angle: key });
        i = i + 1;
    }
    proof {
        assert(rest@.map_values(|pv: PointValue| pv.point) =~= pts);
        assert forall|t: int| 0 <= t < rest@.len() implies pts.contains(
            #[trigger] rest@[t].point,
        ) by {
            assert(pts[t] == rest@[t].point);
        };
    }

    let mut out: Vec<Point> = Vec::new();
    while rest.len() > 0
        invariant
            from.in_bounds(),
            prev_angle.normalized(),
            prev_angle.bearing_sized(),
            out@.len() + rest@.len() == pts.len(),
            pts == values@.map_values(|pv: PointValue| pv.point),
            pts.len() == values@.len(),
            forall|t: int|
                0 <= t < rest@.len() ==> (#[trigger] rest@[t].angle).num == rel_num(
                    *from,
                    prev_angle,
                    rest@[t].point,
                ) && rest@[t].angle.den == rel_den(*from, prev_angle, rest@[t].point)
                    && rest@[t].angle.normalized(),
            forall|t: int| 0 <= t < rest@.len() ==> pts.contains(#[trigger] rest@[t].point),
            forall|t: int| 0 <= t < out@.len() ==> pts.contains(#[trigger] out@[t]),
            out@.to_multiset().add(rest@.map_values(|pv: PointValue| pv.point).to_multiset())
                == pts.to_multiset(),
            forall|i1: int, j1: int|
                0 <= i1 <= j1 < out@.len() ==> rel_ge(
                    *from,
                    prev_angle,
                    #[trigger] out@[i1],
                    #[trigger] out@[j1],
                ),
            forall|i1: int, j1: int|
                0 <= i1 < out@.len() && 0 <= j1 < rest@.len() ==> rel_ge(
                    *from,
                    prev_angle,
                    #[trigger] out@[i1],
                    (#[trigger] rest@[j1]).point,
                ),
            sort_loop(rest@.map_values(|pv: PointValue| pv.point), *from, prev_angle, out@)
                == sort_spec(pts, *from, prev_angle),
        decreases rest@.len(),
    {
        let mut m: usize = 0;
        let mut j: usize = 1;
        while j < rest.len()
            invariant
                0 <= m < j <= rest@.len(),
                1 <= rest@.len(),
                forall|t: int| 0 <= t < rest@.len() ==> (#[trigger] rest@[t].angle).normalized(),
                forall|t: int|
                    0 <= t < j ==> (rest@[m as int].angle).ge_spec(#[trigger] rest@[t].angle),
                forall|t: int|
                    0 <= t < rest@.len() ==> (#[trigger] rest@[t].angle).num == rel_num(
                        *from,
                        prev_angle,
                        rest@[t].point,
                    ) && rest@[t].angle.den == rel_den(*from, prev_angle, rest@[t].point),
                argmax_from(
                    rest@.map_values(|pv: PointValue| pv.point),
                    *from,
                    prev_angle,
                    j as int,
                    m as int,
                ) == argmax_from(
                    rest@.map_values(|pv: PointValue| pv.point),
                    *from,
                    prev_angle,
                    1,
                    0,
                ),
            decreases rest@.len() - j,
        {
            proof {
                let f = |pv: PointValue| pv.point;
                assert(rest@.map_values(f)[m as int] == rest@[m as int].point);
                assert(rest@.map_values(f)[j as int] == rest@[j as int].point);
            }
            if !crate::point::angle_ge(&rest[m].angle, &rest[j].angle) {
                proof {
                    assert((rest@[j as int].angle).ge_spec(rest@[j as int].angle));
                    assert forall|t: int| 0 <= t < j + 1 implies (rest@[j as int].angle).ge_spec(
                        #[trigger] rest@[t].angle,
                    ) by {
                        if t < j {
                            lemma_ge_spec_trans(
                                rest@[j as int].angle,
                                rest@[m as int].angle,
                                rest@[t].angle,
                            );
                        }
                    };
                }
                m = j;
            }
            j = j + 1;
        }
        let chosen = rest[m];
        let ghost old_rest = rest@;
        let ghost old_out = out@;
        proof {
            let f = |pv: PointValue| pv.point;
            assert(m as int == argmax_from(old_rest.map_values(f), *from, prev_angle, 1, 0));
            assert(old_rest.map_values(f)[m as int] == chosen.point);
            assert(sort_loop(old_rest.map_values(f), *from, prev_angle, old_out) == sort_loop(
                old_rest.map_values(f).remove(m as int),
                *from,
                prev_angle,
                old_out.push(chosen.point),
            ));
        }
        rest.remove(m);
        out.push(chosen.point);
        proof {
            let f = |pv: PointValue| pv.point;
            assert(rest@.map_values(f) =~= old_rest.map_values(f).remove(m as int));
            assert(old_rest.map_values(f)[m as int] == chosen.point);
            assert(old_rest.map_values(f).to_multiset().contains(chosen.point));
            assert(rest@.map_values(f).to_multiset() == old_rest.map_values(
                f,
            ).to_multiset().remove(chosen.point));
            assert(out@.to_multiset() == old_out.to_multiset().insert(chosen.point));
            assert(out@.to_multiset().add(rest@.map_values(f).to_multiset())
                =~= old_out.to_multiset().add(old_rest.map_values(f).to_multiset()));
            assert forall|j1: int| 0 <= j1 < rest@.len() implies rel_ge(
                *from,
                prev_angle,
                chosen.point,
                (#[trigger] rest@[j1]).point,
            ) by {
                let t = if j1 < m { j1 } else { j1 + 1 };
                assert(rest@[j1] == old_rest[t]);
                assert((old_rest[m as int].angle).ge_spec(old_rest[t].angle));
            };
            assert forall|t: int| 0 <= t < rest@.len() implies pts.contains(
                #[trigger] rest@[t].point,
            ) by {
                let t0 = if t < m { t } else { t + 1 };
                assert(rest@[t] == old_rest[t0]);
            };
        }
    }
    proof {
        assert(rest@.map_values(|pv: PointValue| pv.point) =~= Seq::<Point>::empty());
        assert(out@.to_multiset().add(Seq::<Point>::empty().to_multiset()) == pts.to_multiset());
        assert(Seq::<Point>::empty().to_multiset() =~= Multiset::<Point>::empty());
        assert(out@.to_multiset() =~= pts.to_multiset());
        assert(sort_loop(rest@.map_values(|pv: PointValue| pv.point), *from, prev_angle, out@)
            == out@);
    }
    out
}

/// `ge_spec` on angles is transitive.
proof fn lemma_ge_spec_trans(a: Angle, b: Angle, c: Angle)
    by (nonlinear_arith)
    requires
        a.valid(),
        b.valid(),
        c.valid(),
        a.ge_spec(b),
        b.ge_spec(c),
    ensures
        a.ge_spec(c),
{
}

/// The prospective edge from the last hull vertex to `cand` meets no
/// existing hull edge it would have to avoid: every edge from index `lp`
/// (1 when the hull is closing onto `cand`, else 0) up to the edge before
/// the adjacent one.
pub open spec fn scan_ok(h: Seq<Point>, step: int, first: Point, cand: Point) -> bool {
    forall|e: int|
        (if cand == first { 1int } else { 0int }) <= e <= step - 3 ==> !seg_intersects(
            h[step - 1],
            cand,
            #[trigger] h[e],
            h[e + 1],
        )
}

/// Position of the first candidate at or after `ci` whose prospective edge
/// passes the intersection checks; the candidate count when none does.
pub open spec fn scan_from(c: Seq<Point>, h: Seq<Point>, step: int, first: Point, ci: int) -> int
    decreases c.len() - ci,
{
    if ci < 0 || ci >= c.len() {
        c.len() as int
    } else if scan_ok(h, step, first, c[ci]) {
        ci
    } else {
        scan_from(c, h, step, first, ci + 1)
    }
}

proof fn lemma_scan_from_skip(c: Seq<Point>, h: Seq<Point>, step: int, first: Point, lo: int, ci: int)
    requires
        0 <= lo <= ci <= c.len(),
        forall|t: int| lo <= t < ci ==> !scan_ok(h, step, first, #[trigger] c[t]),
    ensures
        scan_from(c, h, step, first, lo) == scan_from(c, h, step, first, ci),
    decreases ci - lo,
{
    if lo < ci {
        lemma_scan_from_skip(c, h, step, first, lo + 1, ci);
    }
}

/// Everything `sort_loop` hands out was already in `out` or among the
/// candidates.
proof fn lemma_sort_loop_elements(rest: Seq<Point>, from: Point, prev: Angle, out: Seq<Point>)
    ensures
        forall|x: Point|
            sort_loop(rest, from, prev, out).contains(x) ==> out.contains(x) || rest.contains(x),
    decreases rest.len(),
{
    if rest.len() > 0 {
        let m = argmax_from(rest, from, prev, 1, 0);
        lemma_argmax_from_range(rest, from, prev, 1, 0);
        lemma_sort_loop_elements(rest.remove(m), from, prev, out.push(rest[m]));
        assert forall|x: Point|
            sort_loop(rest, from, prev, out).contains(x) implies out.contains(x)
            || rest.contains(x) by {
            assert(out.push(rest[m]).contains(x) || rest.remove(m).contains(x));
            if out.push(rest[m]).contains(x) {
                let idx = choose|idx: int|
                    0 <= idx < out.push(rest[m]).len() && out.push(rest[m])[idx] == x;
                if idx < out.len() {
                    assert(out[idx] == x);
                } else {
                    assert(x == rest[m]);
                }
            } else {
                let idx = choose|idx: int|
                    0 <= idx < rest.remove(m).len() && rest.remove(m)[idx] == x;
                let idx2 = if idx < m { idx } else { idx + 1 };
                assert(rest[idx2] == x);
            }
        };
    }
}

proof fn lemma_scan_from_lower(c: Seq<Point>, h: Seq<Point>, step: int, first: Point, lo: int)
    requires
        0 <= lo <= c.len(),
    ensures
        lo <= scan_from(c, h, step, first, lo) <= c.len(),
    decreases c.len() - lo,
{
    if lo < c.len() && !scan_ok(h, step, first, c[lo]) {
        lemma_scan_from_lower(c, h, step, first, lo + 1);
    }
}

/// One growth round of the hull-building attempt, as a function of the whole
/// working state: the remaining work of the loop in `build_once`, from the
/// given state to the attempt's outcome.  The state is the hull built so
/// far, the working set, the growth point, the point whose selection closes
/// the hull, the reference bearing and the round number.
pub open spec fn grow(
    points: Seq<Point>,
    k: int,
    hull: Seq<Point>,
    avail: Seq<Point>,
    current: Point,
    first: Point,
    prev: Angle,
    step: int,
) -> Option<Seq<Point>>
    decreases avail.len() + if step <= 4 { 1int } else { 0int } via grow_decreases
{
    if (current == first && step != 1) || hull.len() == points.len() {
        if forall|i: int|
            0 <= i < points.len() ==> (exists|j: int|
                0 <= j < hull.len() && #[trigger] hull[j].id == points[i].id) || pip(
                #[trigger] points[i],
                hull,
            ) {
            Some(hull)
        } else {
            None
        }
    } else {
        let first1 = if step == 4 {
            Point { x: hull[0].x, y: hull[0].y, id: points.len() as u64 }
        } else {
            first
        };
        let avail1 = if step == 4 {
            avail.push(first1)
        } else {
            avail
        };
        let sorted = sort_spec(knn_spec(avail1, current, k), current, prev);
        let ci = scan_from(sorted, hull, step, first1, 0);
        if ci >= sorted.len() {
            None
        } else {
            grow(
                points,
                k,
                hull.push(sorted[ci]),
                remove_first_id(avail1, sorted[ci].id),
                sorted[ci],
                first1,
                bearing_spec(sorted[ci], current),
                step + 1,
            )
        }
    }
}

#[via_fn]
proof fn grow_decreases(
    points: Seq<Point>,
    k: int,
    hull: Seq<Point>,
    avail: Seq<Point>,
    current: Point,
    first: Point,
    prev: Angle,
    step: int,
) {
    if !((current == first && step != 1) || hull.len() == points.len()) {
        let first1 = if step == 4 {
            Point { x: hull[0].x, y: hull[0].y, id: points.len() as u64 }
        } else {
            first
        };
        let avail1 = if step == 4 {
            avail.push(first1)
        } else {
            avail
        };
        let cands = knn_spec(avail1, current, k);
        let sorted = sort_spec(cands, current, prev);
        let ci = scan_from(sorted, hull, step, first1, 0);
        if ci < sorted.len() {
            lemma_scan_from_lower(sorted, hull, step, first1, 0);
            let cand = sorted[ci];
            assert(sorted.contains(cand));
            lemma_sort_loop_elements(cands, current, prev, Seq::empty());
            assert(cands.contains(cand));
            lemma_knn_loop_elements(avail1, current, k, Seq::empty());
            assert(avail1.contains(cand));
            let w = choose|w: int| 0 <= w < avail1.len() && avail1[w] == cand;
            lemma_first_id_bounds(avail1, cand.id, 0, w);
            lemma_first_id_lower(avail1, cand.id, 0);
            assert(remove_first_id(avail1, cand.id).len() == avail1.len() - 1);
        }
    }
}

/// The outcome of one hull-growing attempt with neighbourhood size `k`, from
/// the fresh working set: the exact value `build_once` computes.
pub open spec fn build_spec(points: Seq<Point>, k: int) -> Option<Seq<Point>> {
    if points.len() <= 3 {
        Some(points)
    } else {
        let start = min_pt(points);
        grow(
            points,
            k,
            seq![start],
            remove_first_id(points, start.id),
            start,
            start,
            Angle { num: 0, den: 1 },
            1,
        )
    }
}

/// One hull-growing attempt with neighbourhood size `k`.
///
/// Point sets of up to three points are their own hull.  Otherwise the hull
/// is grown edge by edge from the lowest point, each new vertex chosen among
/// the `k` nearest remaining candidates, ordered by sharpest clockwise turn,
/// such that the new edge crosses no non-adjacent hull edge; the attempt
/// fails (`None`) when no candidate qualifies or when, after growth stops,
/// some unused input point lies outside the finished polygon.  A returned
/// hull is therefore free of self-intersections and contains every input
/// point, as the postconditions state.
#[verifier::rlimit(50)]
#[verifier::spinoff_prover]
#[verifier::loop_isolation(false)]
pub fn build_once(points: &Vec<Point>, k: usize) -> (res: Option<Vec<Point>>)
    requires
        all_in_bounds(points@),
        dense_ids(points@),
    ensures
        points@.len() <= 3 ==> (res matches Some(h) && h@ == points@),
        res matches Some(h) ==> {
            &&& all_in_bounds(h@)
            &&& hull_simple(h@)
            &&& hull_contains_all(points@, h@)
            &&& from_input_or_start_clone(points@, h@)
            &&& (points@.len() > 0 ==> h@.len() > 0)
            &&& (points@.len() > 3 ==> points@.contains(h@[0]) && forall|j: int|
                0 <= j < points@.len() ==> y_then_x_le(h@[0], #[trigger] points@[j]))
        },
        (res is Some) == (build_spec(points@, k as int) is Some),
        res matches Some(h) ==> build_spec(points@, k as int) == Some(h@),
{
    let n = points.len();
    if n <= 3 {
        let h = copy_points(points);
        proof {
            assert forall|i: int|
                0 <= i < points@.len() implies (exists|j: int|
                0 <= j < h@.len() && #[trigger] h@[j].id == points@[i].id) || pip(
                #[trigger] points@[i],
                h@,
            ) by {
                assert(0 <= i < h@.len() && h@[i].id == points@[i].id);
            };
            assert forall|j: int|
                0 <= j < h@.len() implies (exists|i: int|
                0 <= i < points@.len() && points@[i] == #[trigger] h@[j]) || (h@[j].id
                == points@.len() && h@.len() > 0 && h@[j].same_coords(h@[0])) by {
                assert(0 <= j < points@.len() && points@[j] == h@[j]);
            };
        }
        proof {
            assert(build_spec(points@, k as int) == Some(points@));
        }
        return Some(h);
    }

    let start = find_min_y_point(points);
    proof {
        let i0 = choose|i0: int|
            0 <= i0 < points@.len() && #[trigger] points@[i0] == start && forall|j: int|
                0 <= j < i0 ==> !y_then_x_le(#[trigger] points@[j], start);
        assert(points@[i0].id == i0);
        assert(start.id < n);
        assert(start.in_bounds());
    }
    let mut avail = copy_points(points);
    remove_by_id(&mut avail, start.id);
    proof {
        let ghost pre = points@;
        let ri = choose|ri: int|
            0 <= ri < pre.len() && pre[ri].id == start.id && avail@ == pre.remove(ri)
                && (forall|z: int| 0 <= z < ri ==> pre[z].id != start.id);
        assert forall|t: int|
            0 <= t < avail@.len() implies {
            &&& points@.contains(#[trigger] avail@[t])
            &&& avail@[t].in_bounds()
            &&& avail@[t].id != start.id
            &&& avail@[t].id < n
        } by {
            let t0 = if t < ri { t } else { t + 1 };
            assert(avail@[t] == points@[t0]);
            assert(points@[t0].id == t0);
            assert(points@[ri].id == ri);
        };
    }

    let mut hull: Vec<Point> = Vec::new();
    hull.push(start);
    let mut first = start;
    let mut current = start;
    let mut prev_angle = Angle { num: 0, den: 1 };
    let mut step: usize = 1;
    let ghost clone_pt = Point { x: start.x, y: start.y, id: n as u64 };
    proof {
        assert(hull@ =~= seq![start]);
        assert(grow(points@, k as int, hull@, avail@, current, first, prev_angle, 1)
            == build_spec(points@, k as int));
    }

    while (!(current == first) || step == 1) && hull.len() != n
        invariant
            step == hull@.len(),
            1 <= step <= n,
            hull@[0] == start,
            current == hull@.last(),
            step <= 4 ==> first == start,
            step > 4 ==> first == clone_pt,
            forall|t: int|
                0 <= t < avail@.len() ==> points@.contains(#[trigger] avail@[t]) || avail@[t]
                    == clone_pt,
            forall|t: int| 0 <= t < avail@.len() ==> (#[trigger] avail@[t]).in_bounds(),
            forall|t: int| 0 <= t < avail@.len() ==> (#[trigger] avail@[t]).id != start.id,
            step <= 4 ==> forall|t: int| 0 <= t < avail@.len() ==> (#[trigger] avail@[t]).id < n,
            forall|t: int|
                0 <= t < hull@.len() ==> points@.contains(#[trigger] hull@[t]) || hull@[t]
                    == clone_pt,
            forall|t: int| 0 <= t < hull@.len() ==> (#[trigger] hull@[t]).in_bounds(),
            forall|t: int|
                0 <= t < hull@.len() ==> ((#[trigger] hull@[t]).id == n as u64 ==> hull@[t]
                    == clone_pt),
            step <= 4 ==> forall|t: int|
                0 <= t < hull@.len() ==> (#[trigger] hull@[t]).id != n as u64,
            forall|i: int, j: int|
                0 <= i && i + 2 <= j && j + 1 < hull@.len() && !(i == 0 && j + 2 == hull@.len()
                    && hull@.last().id == n as u64) ==> !#[trigger] seg_intersects(
                    hull@[i],
                    hull@[i + 1],
                    hull@[j],
                    hull@[j + 1],
                ),
            prev_angle.normalized(),
            prev_angle.bearing_sized(),
            grow(points@, k as int, hull@, avail@, current, first, prev_angle, step as int)
                == build_spec(points@, k as int),
        decreases avail@.len() + if step <= 4 { 1int } else { 0int },
    {
        proof {
            if current.id == n as u64 {
                assert(hull@[hull@.len() - 1] == current);
                assert(current == clone_pt);
                if step > 4 {
                    assert(current == first);
                    assert(false);
                } else {
                    assert(false);
                }
            }
        }
        let ghost g_hull = hull@;
        let ghost g_avail = avail@;
        let ghost g_current = current;
        let ghost g_first = first;
        let ghost g_prev = prev_angle;
        let ghost g_step = step as int;
        let ghost g_first1 = if g_step == 4 {
            Point { x: g_hull[0].x, y: g_hull[0].y, id: points@.len() as u64 }
        } else {
            g_first
        };
        let ghost g_avail1 = if g_step == 4 {
            g_avail.push(g_first1)
        } else {
            g_avail
        };
        if step == 4 {
            first.id = n as u64;
            let ghost old_avail = avail@;
            avail.push(first);
            proof {
                assert(first == clone_pt);
                assert forall|t: int|
                    0 <= t < avail@.len() implies {
                    &&& (points@.contains(#[trigger] avail@[t]) || avail@[t] == clone_pt)
                    &&& avail@[t].in_bounds()
                    &&& avail@[t].id != start.id
                } by {
                    if t < old_avail.len() {
                        assert(avail@[t] == old_avail[t]);
                    } else {
                        assert(avail@[t] == clone_pt);
                    }
                };
            }
        }

        proof {
            assert(first == g_first1);
            assert(avail@ == g_avail1);
        }
        let cand_pts = nearest_n(&avail, &current, k);
        let mut vals: Vec<PointValue> = Vec::new();
        let mut vi: usize = 0;
        while vi < cand_pts.len()
            invariant
                0 <= vi <= cand_pts@.len(),
                vals@.len() == vi,
                forall|t: int| 0 <= t < vi ==> #[trigger] vals@[t].point == cand_pts@[t],
            decreases cand_pts@.len() - vi,
        {
            let p = cand_pts[vi];
            let d = distance_sq(&current, &p);
            let a = bearing(&current, &p);
            vals.push(PointValue { point: p, distance: d, angle: a });
            vi = vi + 1;
        }
        proof {
            assert forall|t: int|
                0 <= t < vals@.len() implies (#[trigger] vals@[t].point).in_bounds() by {
                assert(avail@.contains(cand_pts@[t]));
            };
        }
        let c_points = sort_by_angle(&vals, &current, prev_angle);
        proof {
            assert(vals@.map_values(|pv: PointValue| pv.point) =~= cand_pts@);
            assert(c_points@ == sort_spec(knn_spec(g_avail1, g_current, k as int), g_current, g_prev));
        }

        let mut its = true;
        let mut ci: usize = 0;
        while its && ci < c_points.len()
            invariant
                0 <= ci <= c_points@.len(),
                !its ==> ci < c_points@.len() && scan_ok(
                    hull@,
                    step as int,
                    first,
                    c_points@[ci as int],
                ),
                forall|t: int|
                    0 <= t < ci ==> !scan_ok(hull@, step as int, first, #[trigger] c_points@[t]),
            decreases c_points@.len() - ci + if its { 1int } else { 0int },
        {
            let cand = c_points[ci];
            let last_point: usize = if cand == first {
                1
            } else {
                0
            };
            let mut j: usize = 2;
            its = false;
            while !its && j < hull.len() - last_point
                invariant
                    2 <= j,
                    last_point == if cand == first { 1int } else { 0int },
                    j <= if step - last_point > 2 { step - last_point } else { 2int },
                    !its ==> forall|jj: int|
                        2 <= jj < j ==> !seg_intersects(
                            hull@[step - 1],
                            cand,
                            #[trigger] hull@[step - jj - 1],
                            hull@[step - jj],
                        ),
                    its ==> !scan_ok(hull@, step as int, first, cand),
                decreases step - last_point - j + if its { 0int } else { 1int },
            {
                let line1a = hull[step - 1];
                let line2a = hull[step - j - 1];
                let line2b = hull[step - j];
                its = intersects((&line1a, &cand), (&line2a, &line2b));
                proof {
                    if its {
                        let e0 = step - j - 1;
                        assert(hull@[e0] == line2a && hull@[e0 + 1] == line2b);
                        assert((if cand == first { 1int } else { 0int }) <= e0 <= step - 3);
                        assert(!scan_ok(hull@, step as int, first, cand));
                    }
                }
                j = j + 1;
            }
            if its {
                proof {
                    assert(!scan_ok(hull@, step as int, first, c_points@[ci as int]));
                }
                ci = ci + 1;
            } else {
                proof {
                    assert forall|e: int|
                        (if cand == first { 1int } else { 0int }) <= e <= step - 3
                        implies !seg_intersects(
                        hull@[step - 1],
                        cand,
                        #[trigger] hull@[e],
                        hull@[e + 1],
                    ) by {
                        let jj = step - e - 1;
                        assert(2 <= jj < j);
                        assert(!seg_intersects(
                            hull@[step - 1],
                            cand,
                            hull@[step - jj - 1],
                            hull@[step - jj],
                        ));
                    };
                }
            }
        }
        if its {
            proof {
                lemma_scan_from_skip(c_points@, g_hull, g_step, g_first1, 0, ci as int);
                assert(scan_from(c_points@, g_hull, g_step, g_first1, 0) == c_points@.len());
                assert(grow(points@, k as int, g_hull, g_avail, g_current, g_first, g_prev, g_step)
                    is None);
            }
            return None;
        }
        let cand = c_points[ci];

        proof {
            let f = |pv: PointValue| pv.point;
            assert(vals@.map_values(f).contains(cand));
            let cj = choose|cj: int|
                0 <= cj < vals@.map_values(f).len() && vals@.map_values(f)[cj] == cand;
            assert(vals@[cj].point == cand);
            assert(vals@[cj].point == cand_pts@[cj]);
            assert(avail@.contains(cand));
            let ai = choose|ai: int| 0 <= ai < avail@.len() && avail@[ai] == cand;
            assert(avail@[ai].id == cand.id);
            assert(cand.in_bounds());
            assert(cand.id != start.id);
            assert(points@.contains(cand) || cand == clone_pt);
            if step <= 3 {
                assert(cand.id < n);
            }
        }

        let ghost old_hull = hull@;
        let ghost old_avail = avail@;
        hull.push(cand);
        prev_angle = bearing(&cand, &current);
        remove_by_id(&mut avail, cand.id);
        proof {
            // the working set shrinks by the committed point
            let ri = choose|ri: int|
                0 <= ri < old_avail.len() && old_avail[ri].id == cand.id && avail@
                    == old_avail.remove(ri) && (forall|z: int|
                    0 <= z < ri ==> old_avail[z].id != cand.id);
            assert forall|t: int|
                0 <= t < avail@.len() implies {
                &&& (points@.contains(#[trigger] avail@[t]) || avail@[t] == clone_pt)
                &&& avail@[t].in_bounds()
                &&& avail@[t].id != start.id
                &&& (step + 1 <= 4 ==> avail@[t].id < n)
            } by {
                let t0 = if t < ri { t } else { t + 1 };
                assert(avail@[t] == old_avail[t0]);
            };

            // the new vertex keeps the hull's bookkeeping invariants
            if cand.id == n as u64 {
                if points@.contains(cand) {
                    let w = choose|w: int| 0 <= w < points@.len() && points@[w] == cand;
                    assert(points@[w].id == w);
                    assert(false);
                }
                assert(cand == clone_pt);
            }

            // the new edge crosses no non-adjacent older edge
            let h = hull@;
            assert(h == old_hull.push(cand));
            assert(old_hull.last().id != n as u64);
            assert forall|i: int, j: int|
                0 <= i && i + 2 <= j && j + 1 < h.len() && !(i == 0 && j + 2 == h.len()
                    && h.last().id == n as u64) implies !#[trigger] seg_intersects(
                h[i],
                h[i + 1],
                h[j],
                h[j + 1],
            ) by {
                assert(h.last() == cand);
                if j + 2 == h.len() {
                    assert(j == step - 1);
                    assert(h[j] == old_hull[step - 1]);
                    assert(h[i] == old_hull[i] && h[i + 1] == old_hull[i + 1]);
                    if cand == first {
                        assert(first == clone_pt);
                        assert(h.last().id == n as u64);
                        assert(i >= 1);
                    }
                    assert(!seg_intersects(old_hull[step - 1], cand, old_hull[i], old_hull[i + 1]));
                    lemma_intersects_symmetric(h[i], h[i + 1], h[j], h[j + 1]);
                } else {
                    assert(h[i] == old_hull[i] && h[i + 1] == old_hull[i + 1] && h[j] == old_hull[j]
                        && h[j + 1] == old_hull[j + 1]);
                }
            };

            // this commit is exactly one spec growth round
            assert(scan_ok(g_hull, g_step, g_first1, c_points@[ci as int]));
            lemma_scan_from_skip(c_points@, g_hull, g_step, g_first1, 0, ci as int);
            assert(scan_from(c_points@, g_hull, g_step, g_first1, 0) == ci as int);
            assert(grow(points@, k as int, g_hull, g_avail, g_current, g_first, g_prev, g_step)
                == grow(
                points@,
                k as int,
                g_hull.push(cand),
                remove_first_id(g_avail1, cand.id),
                cand,
                g_first1,
                bearing_spec(cand, g_current),
                g_step + 1,
            ));
            assert(hull@ == g_hull.push(cand));
            assert(avail@ == remove_first_id(g_avail1, cand.id));
            assert(prev_angle == bearing_spec(cand, g_current));
        }
        current = cand;
        step = step + 1;
    }

    let rest = remove_hull(points, &hull);
    proof {
        assert forall|m: int| 0 <= m < rest@.len() implies (#[trigger] rest@[m]).in_bounds() by {
            assert(points@.contains(rest@[m]));
            let w = choose|w: int| 0 <= w < points@.len() && points@[w] == rest@[m];
        };
    }
    let ok = multiple_point_in_polygon(&rest, &hull);
    proof {
        // the attempt's outcome in the spec model is decided by the same test
        let gr = grow(points@, k as int, hull@, avail@, current, first, prev_angle, step as int);
        let ok_spec = forall|i: int|
            0 <= i < points@.len() ==> (exists|j: int|
                0 <= j < hull@.len() && #[trigger] hull@[j].id == points@[i].id) || pip(
                #[trigger] points@[i],
                hull@,
            );
        assert(gr == (if ok_spec {
            Some(hull@)
        } else {
            None::<Seq<Point>>
        }));
        if ok {
            assert forall|i: int|
                0 <= i < points@.len() implies (exists|j: int|
                0 <= j < hull@.len() && #[trigger] hull@[j].id == points@[i].id) || pip(
                #[trigger] points@[i],
                hull@,
            ) by {
                if !exists|j: int| 0 <= j < hull@.len() && #[trigger] hull@[j].id
                    == points@[i].id {
                    assert(rest@.contains(points@[i]));
                    let m = choose|m: int| 0 <= m < rest@.len() && rest@[m] == points@[i];
                    assert(pip(rest@[m], hull@));
                }
            };
            assert(ok_spec);
        } else {
            assert(exists|m: int| 0 <= m < rest@.len() && !pip(#[trigger] rest@[m], hull@));
            let m = choose|m: int| 0 <= m < rest@.len() && !pip(#[trigger] rest@[m], hull@);
            assert(points@.contains(rest@[m]));
            let w = choose|w: int| 0 <= w < points@.len() && points@[w] == rest@[m];
            if ok_spec {
                assert((exists|j: int| 0 <= j < hull@.len() && #[trigger] hull@[j].id
                    == points@[w].id) || pip(points@[w], hull@));
                assert(!exists|j: int| 0 <= j < hull@.len() && #[trigger] hull@[j].id
                    == points@[w].id);
                assert(false);
            }
            assert(!ok_spec);
        }
    }
    if ok {
        proof {
            // every non-vertex input point passed the containment check
            assert forall|i: int|
                0 <= i < points@.len() implies (exists|j: int|
                0 <= j < hull@.len() && #[trigger] hull@[j].id == points@[i].id) || pip(
                #[trigger] points@[i],
                hull@,
            ) by {
                if !exists|j: int| 0 <= j < hull@.len() && #[trigger] hull@[j].id == points@[i].id {
                    assert(rest@.contains(points@[i]));
                    let m = choose|m: int| 0 <= m < rest@.len() && rest@[m] == points@[i];
                    assert(pip(rest@[m], hull@));
                }
            };
            // the closing exemption coincides with the geometric one
            assert forall|i: int, j: int|
                0 <= i && i + 2 <= j && j + 1 < hull@.len() && !(i == 0 && j + 2 == hull@.len()
                    && closes(hull@)) implies !#[trigger] seg_intersects(
                hull@[i],
                hull@[i + 1],
                hull@[j],
                hull@[j + 1],
            ) by {
                if i == 0 && j + 2 == hull@.len() && hull@.last().id == n as u64 {
                    assert(hull@.last() == clone_pt);
                    assert(hull@.last().same_coords(hull@[0]));
                    assert(closes(hull@));
                }
            };
            // provenance of each vertex
            assert forall|j: int|
                0 <= j < hull@.len() implies (exists|i: int|
                0 <= i < points@.len() && points@[i] == #[trigger] hull@[j]) || (hull@[j].id
                == points@.len() && hull@.len() > 0 && hull@[j].same_coords(hull@[0])) by {
                if points@.contains(hull@[j]) {
                    let w = choose|w: int| 0 <= w < points@.len() && points@[w] == hull@[j];
                } else {
                    assert(hull@[j] == clone_pt);
                }
            };
        }
        Some(hull)
    } else {
        None
    }
}

/// The hull the driver returns: the outcome of the first successful attempt
/// among neighbourhood sizes `k`, `k + 1`, ... below the point count (only
/// `k` itself unless `iterate` holds), and the empty sequence when every
/// attempt fails.  Point sets of up to three points are their own hull.
pub open spec fn hull_spec(points: Seq<Point>, k: int, iterate: bool) -> Seq<Point>
    decreases points.len() - k,
{
    if points.len() <= 3 {
        points
    } else if k >= points.len() {
        Seq::empty()
    } else {
        match build_spec(points, k) {
            Some(h) => h,
            None => if !iterate {
                Seq::empty()
            } else {
                hull_spec(points, k + 1, iterate)
            },
        }
    }
}

/// Monotonic retry: when the attempt with neighbourhood size `k` fails on a
/// set of more than three points, the iterating driver concludes exactly
/// what it would conclude starting from `k + 1` -- the next neighbourhood
/// size is tried before failure is reported, on up to the point count.
pub proof fn lemma_monotonic_retry(points: Seq<Point>, k: int)
    requires
        3 < points.len(),
        0 <= k < points.len(),
        build_spec(points, k) is None,
    ensures
        hull_spec(points, k, true) == hull_spec(points, k + 1, true),
{
}

/// Computes the concave hull of the dataset.
///
/// Point sets of up to three points are returned unchanged, whatever `k`.
/// Otherwise hull-growing attempts run with neighbourhood sizes `k`,
/// `k + 1`, ... (only `k` itself unless `iterate` is set), strictly below
/// the point count; the first success is returned, and an empty vector
/// reports that no attempt produced a hull that contains every input point.
#[verifier::loop_isolation(false)]
pub fn concave_hull(dataset: &Vec<Point>, k: usize, iterate: bool) -> (hull: Vec<Point>)
    requires
        all_in_bounds(dataset@),
        dense_ids(dataset@),
    ensures
        dataset@.len() <= 3 ==> hull@ == dataset@,
        hull@.len() > 0 ==> {
            &&& all_in_bounds(hull@)
            &&& hull_simple(hull@)
            &&& hull_contains_all(dataset@, hull@)
            &&& from_input_or_start_clone(dataset@, hull@)
        },
        dataset@.len() > 3 && hull@.len() > 0 ==> dataset@.contains(hull@[0]) && forall|j: int|
            0 <= j < dataset@.len() ==> y_then_x_le(hull@[0], #[trigger] dataset@[j]),
        hull@ == hull_spec(dataset@, k as int, iterate),
{
    let n = dataset.len();
    if n <= 3 {
        if let Some(h) = build_once(dataset, k) {
            return h;
        }
        return Vec::new();
    }
    let mut kk = k;
    while kk < n
        invariant
            k <= kk,
            hull_spec(dataset@, kk as int, iterate) == hull_spec(dataset@, k as int, iterate),
        decreases n - kk,
    {
        if let Some(h) = build_once(dataset, kk) {
            return h;
        }
        if !iterate {
            return Vec::new();
        }
        kk = kk + 1;
    }
    Vec::new()
}

/// The coordinate pairs as identified points, each carrying its position in
/// the input as its identifier.
pub open spec fn with_ids(coords: Seq<(i64, i64)>) -> Seq<Point> {
    Seq::new(coords.len(), |i: int| Point { x: coords[i].0, y: coords[i].1, id: i as u64 })
}

/// Computes the concave hull of a sequence of coordinate pairs: assigns each
/// pair its position as identifier, then proceeds as `concave_hull` does.
pub fn concave_hull_from_coords(coords: &Vec<(i64, i64)>, k: usize, iterate: bool) -> (hull: Vec<
    Point,
>)
    requires
        forall|i: int|
            0 <= i < coords@.len() ==> -COORD_BOUND <= (#[trigger] coords@[i]).0 <= COORD_BOUND
                && -COORD_BOUND <= coords@[i].1 <= COORD_BOUND,
    ensures
        coords@.len() <= 3 ==> hull@ == with_ids(coords@),
        hull@.len() > 0 ==> {
            &&& all_in_bounds(hull@)
            &&& hull_simple(hull@)
            &&& hull_contains_all(with_ids(coords@), hull@)
            &&& from_input_or_start_clone(with_ids(coords@), hull@)
        },
        hull@ == hull_spec(with_ids(coords@), k as int, iterate),
{
    let mut pts: Vec<Point> = Vec::new();
    let mut i: usize = 0;
    while i < coords.len()
        invariant
            0 <= i <= coords@.len(),
            forall|t: int|
                0 <= t < coords@.len() ==> -COORD_BOUND <= (#[trigger] coords@[t]).0 <= COORD_BOUND
                    && -COORD_BOUND <= coords@[t].1 <= COORD_BOUND,
            pts@ == with_ids(coords@).take(i as int),
        decreases coords@.len() - i,
    {
        let c = coords[i];
        pts.push(Point { x: c.0, y: c.1, id: i as u64 });
        proof {
            assert(with_ids(coords@)[i as int] == (Point {
                x: coords@[i as int].0,
                y: coords@[i as int].1,
                id: i as u64,
            }));
            assert(with_ids(coords@).take(i + 1) =~= with_ids(coords@).take(i as int).push(
                with_ids(coords@)[i as int],
            ));
        }
        i = i + 1;
    }
    proof {
        assert(with_ids(coords@).take(coords@.len() as int) =~= with_ids(coords@));
        assert(pts@ == with_ids(coords@));
        assert forall|t: int| 0 <= t < pts@.len() implies (#[trigger] pts@[t]).in_bounds() by {
            assert(pts@[t] == with_ids(coords@)[t]);
        };
        assert forall|t: int| 0 <= t < pts@.len() implies (#[trigger] pts@[t]).id == t by {
            assert(pts@[t] == with_ids(coords@)[t]);
        };
    }
    concave_hull(&pts, k, iterate)
}

} // verus!
