//! What holds of the sides of every closed ring of vertices.
use vstd::prelude::*;
use vstd::seq_lib::*;
use crate::geometry::Point;
use crate::edge::{Edge, ring_sides, sides_upto};
use crate::scan::{active, crossing};

verus! {

/// The rows of the vertices of `v`.
pub open spec fn ys(v: Seq<Point>) -> Seq<int> {
    v.map_values(|p: Point| p.y as int)
}

/// The columns of the vertices of `v`.
pub open spec fn xs(v: Seq<Point>) -> Seq<int> {
    v.map_values(|p: Point| p.x as int)
}

/// The topmost row that holds a vertex of `v`.
pub open spec fn min_y(v: Seq<Point>) -> int {
    ys(v).min()
}

/// The bottommost row that holds a vertex of `v`.
pub open spec fn max_y(v: Seq<Point>) -> int {
    ys(v).max()
}

/// The leftmost column that holds a vertex of `v`.
pub open spec fn min_x(v: Seq<Point>) -> int {
    xs(v).min()
}

/// The rightmost column that holds a vertex of `v`.
pub open spec fn max_x(v: Seq<Point>) -> int {
    xs(v).max()
}

/// Every vertex lies between the extreme rows and columns, and each extreme
/// is reached by a vertex.
pub proof fn lemma_extremes(v: Seq<Point>)
    requires
        v.len() > 0,
    ensures
        forall|i: int| 0 <= i < v.len() ==> min_y(v) <= (#[trigger] v[i]).y <= max_y(v),
        forall|i: int| 0 <= i < v.len() ==> min_x(v) <= (#[trigger] v[i]).x <= max_x(v),
        exists|i: int| 0 <= i < v.len() && (#[trigger] v[i]).y == min_y(v),
        exists|i: int| 0 <= i < v.len() && (#[trigger] v[i]).y == max_y(v),
        exists|i: int| 0 <= i < v.len() && (#[trigger] v[i]).x == min_x(v),
        exists|i: int| 0 <= i < v.len() && (#[trigger] v[i]).x == max_x(v),
{
    ys(v).min_ensures();
    ys(v).max_ensures();
    xs(v).min_ensures();
    xs(v).max_ensures();
    assert forall|i: int| 0 <= i < v.len() implies min_y(v) <= (#[trigger] v[i]).y <= max_y(
        v,
    ) by {
        assert(ys(v)[i] == v[i].y);
    }
    assert forall|i: int| 0 <= i < v.len() implies min_x(v) <= (#[trigger] v[i]).x <= max_x(
        v,
    ) by {
        assert(xs(v)[i] == v[i].x);
    }
    let a = choose|i: int| 0 <= i < ys(v).len() && ys(v)[i] == ys(v).min();
    assert(v[a].y == min_y(v));
    let b = choose|i: int| 0 <= i < ys(v).len() && ys(v)[i] == ys(v).max();
    assert(v[b].y == max_y(v));
    let c = choose|i: int| 0 <= i < xs(v).len() && xs(v)[i] == xs(v).min();
    assert(v[c].x == min_x(v));
    let d = choose|i: int| 0 <= i < xs(v).len() && xs(v)[i] == xs(v).max();
    assert(v[d].x == max_x(v));
}

/// The number of sides that leave the first `k` vertices and cross row `y`.
pub open spec fn crossed(v: Seq<Point>, k: int, y: int) -> nat {
    active(sides_upto(v, k), y).len()
}

/// The side that leaves vertex `k - 1` crosses row `y` exactly if the row
/// separates its two ends.
proof fn lemma_crossed_step(v: Seq<Point>, k: int, y: int)
    requires
        1 <= k <= v.len(),
    ensures
        crossed(v, k, y) == crossed(v, k - 1, y) + (if (v[k - 1].y <= y) != (v[k % (
            v.len() as int)].y <= y) {
            1nat
        } else {
            0nat
        }),
{
    let a = v[k - 1];
    let b = v[k % (v.len() as int)];
    let earlier = sides_upto(v, k - 1);
    match Edge::spanning(a, b) {
        Some(e) => {
            earlier.lemma_filter_push(e, crossing(y));
            assert(e.crosses(y) <==> ((a.y <= y) != (b.y <= y)));
        },
        None => {},
    }
}

/// The index of the vertex that follows vertex `k - 1` on the ring.
proof fn lemma_next_index(n: int, k: int)
    requires
        1 <= k <= n,
    ensures
        k < n ==> k % n == k,
        k == n ==> k % n == 0,
        0 <= k % n < n,
{
    assert(k < n ==> k % n == k) by (nonlinear_arith)
        requires
            1 <= k <= n,
    ;
    assert(k == n ==> k % n == 0) by (nonlinear_arith)
        requires
            1 <= k <= n,
    ;
}

/// A row is crossed an even number of times on the way from the first
/// vertex to another one exactly if both lie on the same side of it.
proof fn lemma_parity(v: Seq<Point>, k: int, y: int)
    requires
        0 <= k <= v.len(),
        v.len() > 0,
    ensures
        (crossed(v, k, y) % 2 == 0) <==> ((v[0].y <= y) == (v[k % (v.len() as int)].y <= y)),
    decreases k,
{
    let n = v.len() as int;
    if k == 0 {
        reveal(Seq::filter);
        assert(0int % n == 0) by (nonlinear_arith)
            requires
                n > 0,
        ;
    } else {
        lemma_parity(v, k - 1, y);
        lemma_crossed_step(v, k, y);
        lemma_next_index(n, k);
        if k - 1 >= 1 {
            lemma_next_index(n, k - 1);
        } else {
            assert(0int % n == 0) by (nonlinear_arith)
                requires
                    n > 0,
            ;
        }
    }
}

/// Where no side crosses a row, all vertices passed lie on the same side
/// of it.
proof fn lemma_uncrossed(v: Seq<Point>, k: int, y: int)
    requires
        0 <= k <= v.len(),
        v.len() > 0,
        crossed(v, k, y) == 0,
    ensures
        forall|i: int| 0 <= i < k ==> ((#[trigger] v[i]).y <= y) == (v[0].y <= y),
    decreases k,
{
    if k > 1 {
        lemma_crossed_step(v, k, y);
        lemma_crossed_step(v, k - 1, y);
        lemma_next_index(v.len() as int, k - 1);
        lemma_uncrossed(v, k - 1, y);
    }
}

/// Every side lies between the extreme rows of the ring.
proof fn lemma_sides_within(v: Seq<Point>, k: int)
    requires
        0 <= k <= v.len(),
    ensures
        forall|i: int|
            0 <= i < sides_upto(v, k).len() ==> min_y(v) <= (#[trigger] sides_upto(v, k)[i]).top.y
                && sides_upto(v, k)[i].bottom.y <= max_y(v),
    decreases k,
{
    if k > 0 {
        lemma_sides_within(v, k - 1);
        lemma_extremes(v);
        lemma_next_index(v.len() as int, k);
        let earlier = sides_upto(v, k - 1);
        let a = v[k - 1];
        let b = v[k % (v.len() as int)];
        assert forall|i: int| 0 <= i < sides_upto(v, k).len() implies min_y(v) <= (
        #[trigger] sides_upto(v, k)[i]).top.y && sides_upto(v, k)[i].bottom.y <= max_y(v) by {
            if i < earlier.len() {
                assert(sides_upto(v, k)[i] == earlier[i]);
            }
        }
    }
}

/// The sides of a closed ring cross every row an even number of times: what
/// goes down across a row must come up across it again.
pub proof fn lemma_ring_crossed_evenly(v: Seq<Point>, y: int)
    ensures
        active(ring_sides(v), y).len() % 2 == 0,
{
    if v.len() < 3 {
        reveal(Seq::filter);
    } else {
        lemma_parity(v, v.len() as int, y);
        lemma_next_index(v.len() as int, v.len() as int);
    }
}

/// The rows that the sides of a ring cross are those from its topmost row
/// down to the row above its bottommost one.
pub proof fn lemma_ring_extent(v: Seq<Point>, y: int)
    requires
        v.len() >= 3,
    ensures
        active(ring_sides(v), y).len() > 0 <==> min_y(v) <= y < max_y(v),
{
    let n = v.len() as int;
    let sides = ring_sides(v);
    lemma_extremes(v);
    if min_y(v) <= y < max_y(v) {
        if active(sides, y).len() == 0 {
            lemma_uncrossed(v, n, y);
            let a = choose|i: int| 0 <= i < v.len() && (#[trigger] v[i]).y == min_y(v);
            let b = choose|i: int| 0 <= i < v.len() && (#[trigger] v[i]).y == max_y(v);
            assert((v[a].y <= y) == (v[0].y <= y));
            assert((v[b].y <= y) == (v[0].y <= y));
        }
    } else {
        lemma_sides_within(v, n);
        let found = active(sides, y);
        if found.len() > 0 {
            sides.lemma_filter_pred(crossing(y), 0);
            assert(found.contains(found[0]));
            sides.lemma_filter_contains_rev(crossing(y), found[0]);
            let i = choose|i: int| 0 <= i < sides.len() && sides[i] == found[0];
            assert(sides[i].crosses(y));
        }
    }
}

} // verus!
