use vstd::prelude::*;

use crate::arith::lemma_mul_bound;
use crate::point::Point;

verus! {

broadcast use vstd::seq_lib::group_to_multiset_ensures;

/// Squared Euclidean distance between two points.
pub open spec fn dist_sq(a: Point, b: Point) -> int {
    (b.x - a.x) * (b.x - a.x) + (b.y - a.y) * (b.y - a.y)
}

/// Exact squared Euclidean distance.
pub fn distance_sq(a: &Point, b: &Point) -> (d: i64)
    requires
        a.in_bounds(),
        b.in_bounds(),
    ensures
        d == dist_sq(*a, *b),
        0 <= d,
{
    let dx: i64 = b.x - a.x;
    let dy: i64 = b.y - a.y;
    proof {
        lemma_mul_bound(dx as int, dx as int, 2097152, 2097152);
        lemma_mul_bound(dy as int, dy as int, 2097152, 2097152);
        assert(dx * dx >= 0) by (nonlinear_arith);
        assert(dy * dy >= 0) by (nonlinear_arith);
    }
    dx * dx + dy * dy
}

/// A fresh vector holding the same points.
pub fn copy_points(v: &Vec<Point>) -> (r: Vec<Point>)
    ensures
        r@ == v@,
{
    let mut r: Vec<Point> = Vec::new();
    let mut i: usize = 0;
    while i < v.len()
        invariant
            0 <= i <= v@.len(),
            r@ == v@.take(i as int),
        decreases v@.len() - i,
    {
        r.push(v[i]);
        proof {
            assert(v@.take(i + 1) =~= v@.take(i as int).push(v@[i as int]));
        }
        i = i + 1;
    }
    proof {
        assert(v@.take(v@.len() as int) =~= v@);
    }
    r
}

/// Position of the first point with the given identifier at or after `i`;
/// the sequence length when there is none.
pub open spec fn first_id_from(s: Seq<Point>, id: u64, i: int) -> int
    decreases s.len() - i,
{
    if i < 0 || i >= s.len() {
        s.len() as int
    } else if s[i].id == id {
        i
    } else {
        first_id_from(s, id, i + 1)
    }
}

/// The sequence with the first point carrying the given identifier taken
/// out; unchanged when no point carries it.
pub open spec fn remove_first_id(s: Seq<Point>, id: u64) -> Seq<Point> {
    if first_id_from(s, id, 0) < s.len() {
        s.remove(first_id_from(s, id, 0))
    } else {
        s
    }
}

/// Removes the first point carrying the given identifier.
pub fn remove_by_id(v: &mut Vec<Point>, id: u64)
    requires
        exists|i: int| 0 <= i < old(v)@.len() && old(v)@[i].id == id,
    ensures
        final(v)@ == remove_first_id(old(v)@, id),
        exists|i: int|
            {
                &&& 0 <= i < old(v)@.len()
                &&& old(v)@[i].id == id
                &&& final(v)@ == old(v)@.remove(i)
                &&& forall|j: int| 0 <= j < i ==> old(v)@[j].id != id
            },
{
    let mut i: usize = 0;
    while i < v.len()
        invariant
            0 <= i <= v@.len(),
            v@ == old(v)@,
            exists|m: int| i <= m < v@.len() && v@[m].id == id,
            forall|j: int| 0 <= j < i ==> v@[j].id != id,
            first_id_from(v@, id, i as int) == first_id_from(v@, id, 0),
        decreases v@.len() - i,
    {
        if v[i].id == id {
            proof {
                assert(first_id_from(v@, id, i as int) == i as int);
            }
            v.remove(i);
            return;
        }
        i = i + 1;
    }
}

/// Position of the closest point to `c` among `s[m]` and the points at or
/// after `i`, earliest winner kept on ties.
pub open spec fn argmin_from(s: Seq<Point>, c: Point, i: int, m: int) -> int
    decreases s.len() - i,
{
    if i < 0 || i >= s.len() {
        m
    } else {
        argmin_from(s, c, i + 1, if dist_sq(c, s[i]) < dist_sq(c, s[m]) { i } else { m })
    }
}

proof fn lemma_argmin_from_range(s: Seq<Point>, c: Point, i: int, m: int)
    requires
        0 <= m < s.len(),
    ensures
        0 <= argmin_from(s, c, i, m) < s.len(),
    decreases s.len() - i,
{
    if 0 <= i < s.len() {
        lemma_argmin_from_range(s, c, i + 1, if dist_sq(c, s[i]) < dist_sq(c, s[m]) { i } else { m });
    }
}

/// Repeatedly moves the closest remaining point to the end of `out` until
/// `out` holds `k` points or none remain.
pub open spec fn knn_loop(avail: Seq<Point>, c: Point, k: int, out: Seq<Point>) -> Seq<Point>
    decreases avail.len() via knn_loop_decreases
{
    if out.len() >= k || avail.len() == 0 {
        out
    } else {
        let m = argmin_from(avail, c, 1, 0);
        knn_loop(avail.remove(m), c, k, out.push(avail[m]))
    }
}

#[via_fn]
proof fn knn_loop_decreases(avail: Seq<Point>, c: Point, k: int, out: Seq<Point>) {
    if !(out.len() >= k || avail.len() == 0) {
        lemma_argmin_from_range(avail, c, 1, 0);
    }
}

/// The `k` nearest points to `c`, closest first, earliest input position
/// winning ties.
pub open spec fn knn_spec(avail: Seq<Point>, c: Point, k: int) -> Seq<Point> {
    knn_loop(avail, c, k, Seq::empty())
}

/// `first_id_from` never answers before the position it starts from, nor
/// past the end.
pub(crate) proof fn lemma_first_id_lower(s: Seq<Point>, id: u64, i: int)
    requires
        0 <= i <= s.len(),
    ensures
        i <= first_id_from(s, id, i) <= s.len(),
    decreases s.len() - i,
{
    if i < s.len() && s[i].id != id {
        lemma_first_id_lower(s, id, i + 1);
    }
}

/// A point carrying the identifier bounds where the first one can sit.
pub(crate) proof fn lemma_first_id_bounds(s: Seq<Point>, id: u64, i: int, w: int)
    requires
        0 <= i <= w < s.len(),
        s[w].id == id,
    ensures
        first_id_from(s, id, i) <= w,
    decreases w - i,
{
    if i < w && s[i].id != id {
        lemma_first_id_bounds(s, id, i + 1, w);
    }
}

/// Everything `knn_loop` hands out was already in `out` or in the working
/// set.
pub(crate) proof fn lemma_knn_loop_elements(avail: Seq<Point>, c: Point, k: int, out: Seq<Point>)
    ensures
        forall|x: Point|
            knn_loop(avail, c, k, out).contains(x) ==> out.contains(x) || avail.contains(x),
    decreases avail.len(),
{
    if !(out.len() >= k || avail.len() == 0) {
        let m = argmin_from(avail, c, 1, 0);
        lemma_argmin_from_range(avail, c, 1, 0);
        lemma_knn_loop_elements(avail.remove(m), c, k, out.push(avail[m]));
        assert forall|x: Point|
            knn_loop(avail, c, k, out).contains(x) implies out.contains(x) || avail.contains(
            x,
        ) by {
            assert(out.push(avail[m]).contains(x) || avail.remove(m).contains(x));
            if out.push(avail[m]).contains(x) {
                let idx = choose|idx: int|
                    0 <= idx < out.push(avail[m]).len() && out.push(avail[m])[idx] == x;
                if idx < out.len() {
                    assert(out[idx] == x);
                } else {
                    assert(x == avail[m]);
                }
            } else {
                let idx = choose|idx: int|
                    0 <= idx < avail.remove(m).len() && avail.remove(m)[idx] == x;
                let idx2 = if idx < m { idx } else { idx + 1 };
                assert(avail[idx2] == x);
            }
        };
    }
}

/// The `k` nearest of the given points to `center`, by squared Euclidean
/// distance, closest first; all of them when there are fewer than `k`.
/// Any point left out lies at least as far away as every point returned.
pub fn nearest_n(avail: &Vec<Point>, center: &Point, k: usize) -> (res: Vec<Point>)
    requires
        center.in_bounds(),
        forall|i: int| 0 <= i < avail@.len() ==> #[trigger] avail@[i].in_bounds(),
    ensures
        res@.len() == vstd::math::min(k as int, avail@.len() as int),
        forall|i: int, j: int|
            0 <= i <= j < res@.len() ==> dist_sq(*center, #[trigger] res@[i]) <= dist_sq(
                *center,
                #[trigger] res@[j],
            ),
        res@.to_multiset().subset_of(avail@.to_multiset()),
        forall|i: int| 0 <= i < res@.len() ==> avail@.contains(#[trigger] res@[i]),
        forall|p: Point|
            avail@.to_multiset().count(p) > res@.to_multiset().count(p) ==> forall|i: int|
                0 <= i < res@.len() ==> dist_sq(*center, #[trigger] res@[i]) <= dist_sq(*center, p),
        res@ == knn_spec(avail@, *center, k as int),
{
    let mut rest = copy_points(avail);
    let mut out: Vec<Point> = Vec::new();
    while out.len() < k && rest.len() > 0
        invariant
            center.in_bounds(),
            forall|i: int| 0 <= i < avail@.len() ==> #[trigger] avail@[i].in_bounds(),
            out@.len() + rest@.len() == avail@.len(),
            out@.len() <= k,
            out@.to_multiset().add(rest@.to_multiset()) == avail@.to_multiset(),
            forall|i: int| 0 <= i < rest@.len() ==> #[trigger] rest@[i].in_bounds(),
            forall|i: int| 0 <= i < out@.len() ==> #[trigger] out@[i].in_bounds(),
            forall|i: int, j: int|
                0 <= i <= j < out@.len() ==> dist_sq(*center, #[trigger] out@[i]) <= dist_sq(
                    *center,
                    #[trigger] out@[j],
                ),
            forall|i: int, j: int|
                0 <= i < out@.len() && 0 <= j < rest@.len() ==> dist_sq(
                    *center,
                    #[trigger] out@[i],
                ) <= dist_sq(*center, #[trigger] rest@[j]),
            knn_loop(rest@, *center, k as int, out@) == knn_spec(avail@, *center, k as int),
        decreases rest@.len(),
    {
        let mut m: usize = 0;
        let mut best: i64 = distance_sq(center, &rest[0]);
        let mut i: usize = 1;
        while i < rest.len()
            invariant
                0 <= m < i <= rest@.len(),
                1 <= rest@.len(),
                center.in_bounds(),
                forall|j: int| 0 <= j < rest@.len() ==> #[trigger] rest@[j].in_bounds(),
                best == dist_sq(*center, rest@[m as int]),
                forall|j: int| 0 <= j < i ==> best <= dist_sq(*center, #[trigger] rest@[j]),
                argmin_from(rest@, *center, i as int, m as int) == argmin_from(rest@, *center, 1, 0),
            decreases rest@.len() - i,
        {
            let d = distance_sq(center, &rest[i]);
            if d < best {
                m = i;
                best = d;
            }
            i = i + 1;
        }
        let chosen = rest[m];
        let ghost old_rest = rest@;
        let ghost old_out = out@;
        proof {
            assert(m as int == argmin_from(old_rest, *center, 1, 0));
            assert(knn_loop(old_rest, *center, k as int, old_out) == knn_loop(
                old_rest.remove(m as int),
                *center,
                k as int,
                old_out.push(old_rest[m as int]),
            ));
        }
        rest.remove(m);
        out.push(chosen);
        proof {
            assert(out@ == old_out.push(chosen));
            assert(rest@ == old_rest.remove(m as int));
            assert(old_rest.to_multiset().contains(chosen));
            assert(out@.to_multiset() == old_out.to_multiset().insert(chosen));
            assert(rest@.to_multiset() == old_rest.to_multiset().remove(chosen));
            assert(out@.to_multiset().add(rest@.to_multiset()) =~= old_out.to_multiset().add(
                old_rest.to_multiset(),
            ));
            assert(forall|j: int|
                0 <= j < rest@.len() ==> dist_sq(*center, chosen) <= dist_sq(
                    *center,
                    #[trigger] rest@[j],
                ));
        }
    }
    proof {
        assert(out@.len() == vstd::math::min(k as int, avail@.len() as int));
        assert forall|p: Point|
            avail@.to_multiset().count(p) > out@.to_multiset().count(p) implies forall|i: int|
            0 <= i < out@.len() ==> dist_sq(*center, #[trigger] out@[i]) <= dist_sq(*center, p) by {
            assert(rest@.to_multiset().count(p) > 0);
            assert(rest@.to_multiset().contains(p));
            assert(rest@.contains(p));
            let j = choose|j: int| 0 <= j < rest@.len() && rest@[j] == p;
            assert(forall|i: int|
                0 <= i < out@.len() ==> dist_sq(*center, #[trigger] out@[i]) <= dist_sq(
                    *center,
                    rest@[j],
                ));
        };
        assert forall|i: int| 0 <= i < out@.len() implies avail@.contains(#[trigger] out@[i]) by {
            assert(out@.to_multiset().contains(out@[i]));
            assert(out@.to_multiset().count(out@[i]) > 0);
            assert(avail@.to_multiset().count(out@[i]) > 0);
            assert(avail@.to_multiset().contains(out@[i]));
        };
    }
    out
}

} // verus!
