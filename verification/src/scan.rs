//! The sweep over the rows of an edge table.
use vstd::prelude::*;
use vstd::multiset::*;
use vstd::seq_lib::*;
use vstd::relations::{sorted_by, total_ordering};
use crate::edge::{Edge, EdgeTable, ordered};
use crate::rounding::{
    round_div, round_div_exec, lemma_round_div_between, lemma_round_div_monotone,
    lemma_round_div_whole,
};
use crate::seq_facts::{lemma_filter_multiset, lemma_map_multiset, lemma_same_items_index};
use crate::pairing::{paired, pair_up};

verus! {

/// The test for an edge that crosses row `y`.
pub open spec fn crossing(y: int) -> spec_fn(Edge) -> bool {
    |e: Edge| e.crosses(y)
}

/// The map from an edge to the pixel column where it crosses row `y`.
pub open spec fn column(y: int) -> spec_fn(Edge) -> int {
    |e: Edge| e.x_at(y)
}

/// The edges of `edges` that cross row `y`.
pub open spec fn active(edges: Seq<Edge>, y: int) -> Seq<Edge> {
    edges.filter(crossing(y))
}

/// The pixel columns where the edges of `edges` cross row `y`, in ascending
/// order. Every edge that crosses the row gives one column, the one nearest
/// to its crossing point, so the list is as long as the edges are many.
pub open spec fn crossings(edges: Seq<Edge>, y: int) -> Seq<int> {
    active(edges, y).map_values(column(y)).sort()
}

/// The crossing point of a well-formed edge with any row between its ends
/// lies between the columns of its ends.
pub proof fn lemma_intercept_between(e: Edge, y: int)
    requires
        e.wf(),
        e.top.y <= y <= e.bottom.y,
    ensures
        e.top.x <= e.bottom.x ==> e.top.x * e.rise() <= e.intercept_num(y) <= e.bottom.x
            * e.rise(),
        e.top.x >= e.bottom.x ==> e.bottom.x * e.rise() <= e.intercept_num(y) <= e.top.x
            * e.rise(),
        e.top.x <= e.bottom.x ==> e.top.x <= e.x_at(y) <= e.bottom.x,
        e.top.x >= e.bottom.x ==> e.bottom.x <= e.x_at(y) <= e.top.x,
{
    let k = y - e.top.y;
    let rise = e.rise();
    let run = e.run();
    let tx = e.top.x as int;
    let bx = e.bottom.x as int;
    assert(bx * rise == tx * rise + rise * run) by (nonlinear_arith)
        requires
            run == bx - tx,
    ;
    if run >= 0 {
        assert(0 <= k * run <= rise * run) by (nonlinear_arith)
            requires
                0 <= k <= rise,
                run >= 0,
        ;
        lemma_round_div_between(e.intercept_num(y), rise, tx, bx);
    }
    if run <= 0 {
        assert(rise * run <= k * run <= 0) by (nonlinear_arith)
            requires
                0 <= k <= rise,
                run <= 0,
        ;
        lemma_round_div_between(e.intercept_num(y), rise, bx, tx);
    }
}

/// Of two edges that cross a row, the one that crosses it further left has
/// the smaller column, or the same. The ascending columns of a row so are
/// the crossing points in ascending order, each rounded.
pub proof fn lemma_columns_keep_order(e: Edge, f: Edge, y: int)
    requires
        e.wf(),
        f.wf(),
        e.intercept_num(y) * f.rise() <= f.intercept_num(y) * e.rise(),
    ensures
        e.x_at(y) <= f.x_at(y),
{
    lemma_round_div_monotone(e.intercept_num(y), e.rise(), f.intercept_num(y), f.rise());
}

/// One step down a row moves the crossing point by the inverse slope.
pub proof fn lemma_intercept_step(e: Edge, y: int)
    ensures
        e.intercept_num(y + 1) == e.intercept_num(y) + e.run(),
        e.intercept_num(e.top.y as int) == e.top.x * e.rise(),
{
    let run = e.run();
    let k = y - e.top.y;
    assert((k + 1) * run == k * run + run) by (nonlinear_arith);
    assert((e.top.y - e.top.y) * run == 0) by (nonlinear_arith);
}

/// An edge on the active list, with its crossing point on the current row.
#[derive(Clone, Copy)]
struct Active {
    edge: Edge,
    /// The crossing point is `num / edge.rise()`.
    num: i128,
    /// The crossing point rounded to a pixel column.
    x: i32,
}

impl Active {
    /// The entry is up to date for row `y`, which its edge crosses.
    spec fn at(self, y: int) -> bool {
        &&& self.edge.wf()
        &&& self.edge.crosses(y)
        &&& self.num == self.edge.intercept_num(y)
        &&& self.x == self.edge.x_at(y)
    }

    /// The entry of an edge on the row of its upper end.
    fn enter(edge: Edge) -> (a: Active)
        requires
            edge.wf(),
        ensures
            a.edge == edge,
            a.at(edge.top.y as int),
    {
        let rise: i128 = edge.bottom.y as i128 - edge.top.y as i128;
        let tx: i128 = edge.top.x as i128;
        proof {
            assert(-0x8000_0000_0000_0000 <= tx * rise <= 0x8000_0000_0000_0000)
                by (nonlinear_arith)
                requires
                    -0x8000_0000 <= tx <= 0x8000_0000,
                    0 < rise <= 0x1_0000_0000,
            ;
            lemma_intercept_step(edge, edge.top.y as int);
            lemma_round_div_whole(edge.top.x as int, edge.rise());
        }
        Active { edge, num: tx * rise, x: edge.top.x }
    }

    /// The entry one row further down.
    fn step(self, y: i32) -> (a: Active)
        requires
            self.at(y - 1),
            y < self.edge.bottom.y,
        ensures
            a.edge == self.edge,
            a.at(y as int),
    {
        let rise: i128 = self.edge.bottom.y as i128 - self.edge.top.y as i128;
        let run: i128 = self.edge.bottom.x as i128 - self.edge.top.x as i128;
        proof {
            lemma_intercept_step(self.edge, y - 1);
            lemma_intercept_between(self.edge, y - 1);
            lemma_intercept_between(self.edge, y as int);
            let tx = self.edge.top.x as int;
            let bx = self.edge.bottom.x as int;
            assert(-0x8000_0000_0000_0000 <= tx * rise <= 0x8000_0000_0000_0000)
                by (nonlinear_arith)
                requires
                    -0x8000_0000 <= tx <= 0x8000_0000,
                    0 < rise <= 0x1_0000_0000,
            ;
            assert(-0x8000_0000_0000_0000 <= bx * rise <= 0x8000_0000_0000_0000)
                by (nonlinear_arith)
                requires
                    -0x8000_0000 <= bx <= 0x8000_0000,
                    0 < rise <= 0x1_0000_0000,
            ;
        }
        let num: i128 = self.num + run;
        let x: i128 = round_div_exec(num, rise);
        Active { edge: self.edge, num, x: x as i32 }
    }
}

/// The edges of a list of entries.
spec fn edge_of() -> spec_fn(Active) -> Edge {
    |a: Active| a.edge
}

spec fn edges_of(ael: Seq<Active>) -> Seq<Edge> {
    ael.map_values(edge_of())
}

/// The test for an edge whose lower end lies below row `y`.
spec fn alive(y: int) -> spec_fn(Edge) -> bool {
    |e: Edge| e.bottom.y > y
}

/// The test for an edge whose lower end is not on row `y`.
spec fn outlives(y: int) -> spec_fn(Edge) -> bool {
    |e: Edge| e.bottom.y != y
}

/// Entry `a` crosses the current row at the same point as entry `b`, or
/// to the left of it.
spec fn left_of(a: Active, b: Active) -> bool {
    a.num * b.edge.rise() <= b.num * a.edge.rise()
}

/// The entries are in ascending order of their crossing points.
spec fn sorted_x(ael: Seq<Active>) -> bool {
    forall|i: int, j: int| 0 <= i < j < ael.len() ==> left_of(ael[i], ael[j])
}

/// What lies left of something that lies left of a third lies left of the
/// third.
proof fn lemma_left_of_transitive(a: Active, b: Active, c: Active)
    requires
        a.edge.wf(),
        b.edge.wf(),
        c.edge.wf(),
        left_of(a, b),
        left_of(b, c),
    ensures
        left_of(a, c),
{
    let d = a.edge.rise();
    let e = b.edge.rise();
    let f = c.edge.rise();
    let (p, q, r) = (a.num as int, b.num as int, c.num as int);
    assert((p * e) * f <= (q * d) * f) by (nonlinear_arith)
        requires
            p * e <= q * d,
            f > 0,
    ;
    assert((q * f) * d <= (r * e) * d) by (nonlinear_arith)
        requires
            q * f <= r * e,
            d > 0,
    ;
    assert((p * e) * f == (p * f) * e && (q * d) * f == (q * f) * d && (r * e) * d == (r * d)
        * e) by (nonlinear_arith);
    assert(p * f <= r * d) by (nonlinear_arith)
        requires
            (p * f) * e <= (r * d) * e,
            e > 0,
    ;
}

/// The crossing point of an entry is within the grid.
proof fn lemma_num_bound(a: Active, y: int)
    requires
        a.at(y),
    ensures
        -0x8000_0000_0000_0000 <= a.num <= 0x8000_0000_0000_0000,
        0 < a.edge.rise() <= 0xffff_ffff,
{
    lemma_intercept_between(a.edge, y);
    let rise = a.edge.rise();
    let tx = a.edge.top.x as int;
    let bx = a.edge.bottom.x as int;
    assert(-0x8000_0000_0000_0000 <= tx * rise <= 0x8000_0000_0000_0000) by (nonlinear_arith)
        requires
            -0x8000_0000 <= tx <= 0x8000_0000,
            0 < rise <= 0x1_0000_0000,
    ;
    assert(-0x8000_0000_0000_0000 <= bx * rise <= 0x8000_0000_0000_0000) by (nonlinear_arith)
        requires
            -0x8000_0000 <= bx <= 0x8000_0000,
            0 < rise <= 0x1_0000_0000,
    ;
}

/// The entries are up to date for row `y`, and their edges are those among
/// the first `g` of the table whose lower end lies below that row.
spec fn tracks(ael: Seq<Active>, table: Seq<Edge>, g: int, y: int) -> bool {
    &&& forall|i: int| 0 <= i < ael.len() ==> (#[trigger] ael[i]).at(y)
    &&& edges_of(ael).to_multiset() == table.take(g).to_multiset().filter(alive(y))
}

/// The first `g` edges of the table start on or above row `y`, the others
/// below it.
spec fn split_at(table: Seq<Edge>, g: int, y: int) -> bool {
    &&& 0 <= g <= table.len()
    &&& forall|j: int| 0 <= j < g ==> (#[trigger] table[j]).top.y <= y
    &&& forall|j: int| g <= j < table.len() ==> (#[trigger] table[j]).top.y > y
}

/// Whether entry `a` crosses the current row strictly to the right of
/// entry `b`.
fn right_of(a: &Active, b: &Active, Ghost(y): Ghost<int>) -> (r: bool)
    requires
        a.at(y),
        b.at(y),
    ensures
        r == !left_of(*a, *b),
{
    let rise_a: i128 = a.edge.bottom.y as i128 - a.edge.top.y as i128;
    let rise_b: i128 = b.edge.bottom.y as i128 - b.edge.top.y as i128;
    proof {
        lemma_num_bound(*a, y);
        lemma_num_bound(*b, y);
        let (p, q) = (a.num as int, b.num as int);
        assert(-0x8000_0000_0000_0000_0000_0000 <= p * rise_b <= 0x8000_0000_0000_0000_0000_0000)
            by (nonlinear_arith)
            requires
                -0x8000_0000_0000_0000 <= p <= 0x8000_0000_0000_0000,
                0 < rise_b <= 0x1_0000_0000,
        ;
        assert(-0x8000_0000_0000_0000_0000_0000 <= q * rise_a <= 0x8000_0000_0000_0000_0000_0000)
            by (nonlinear_arith)
            requires
                -0x8000_0000_0000_0000 <= q <= 0x8000_0000_0000_0000,
                0 < rise_a <= 0x1_0000_0000,
        ;
    }
    a.num * rise_b > b.num * rise_a
}

/// Puts the entries in ascending order of their crossing points. Entries
/// that cross the row at the same point keep their order.
fn sort_by_x(ael: &mut Vec<Active>, Ghost(y): Ghost<int>)
    requires
        forall|i: int| 0 <= i < old(ael)@.len() ==> (#[trigger] old(ael)@[i]).at(y),
    ensures
        final(ael)@.to_multiset() == old(ael)@.to_multiset(),
        sorted_x(final(ael)@),
{
    let n = ael.len();
    let mut i: usize = 0;
    while i < n
        invariant
            n == ael@.len(),
            i <= n,
            ael@.to_multiset() == old(ael)@.to_multiset(),
            forall|k: int| 0 <= k < ael@.len() ==> (#[trigger] ael@[k]).at(y),
            sorted_x(ael@.take(i as int)),
        decreases n - i,
    {
        let cur = ael[i];
        let mut j: usize = i;
        while j > 0 && right_of(&ael[j - 1], &cur, Ghost(y))
            invariant
                j <= i < n,
                n == ael@.len(),
                cur == ael@[i as int],
                forall|k: int| 0 <= k < ael@.len() ==> (#[trigger] ael@[k]).at(y),
                forall|k: int| j <= k < i ==> !left_of(ael@[k], cur),
            decreases j,
        {
            j -= 1;
        }
        let ghost before = ael@;
        if j < i {
            let moved = ael.remove(i);
            ael.insert(j, moved);
            proof {
                broadcast use group_multiset_axioms;

                to_multiset_remove(before, i as int);
                to_multiset_insert(before.remove(i as int), j as int, cur);
                assert(before.to_multiset().count(cur) > 0) by {
                    broadcast use group_to_multiset_ensures;

                    assert(before.contains(cur));
                }
                assert(ael@.to_multiset() =~= before.to_multiset());
                assert forall|k: int| 0 <= k < ael@.len() implies (#[trigger] ael@[k]).at(y) by {
                    if k < j {
                        assert(ael@[k] == before[k]);
                    } else if k == j {
                        assert(ael@[k] == before[i as int]);
                    } else if k <= i {
                        assert(ael@[k] == before[k - 1]);
                    } else {
                        assert(ael@[k] == before[k]);
                    }
                }
            }
        }
        proof {
            let t = ael@.take(i + 1);
            let s = before.take(i as int);
            assert forall|k: int| 0 <= k < s.len() implies (#[trigger] s[k]).at(y) by {
                assert(s[k] == before[k]);
            }
            assert(cur.at(y)) by {
                assert(cur == before[i as int]);
            }
            assert forall|a: int, b: int| 0 <= a < b < t.len() implies left_of(t[a], t[b]) by {
                if j < i {
                    let sa = if a < j { a } else { a - 1 };
                    let sb = if b < j { b } else { b - 1 };
                    if a != j {
                        assert(t[a] == s[sa]);
                    } else {
                        assert(t[a] == cur);
                    }
                    if b != j {
                        assert(t[b] == s[sb]);
                    } else {
                        assert(t[b] == cur);
                    }
                    if b == j {
                        assert(left_of(s[j - 1], cur));
                        if a < j - 1 {
                            assert(left_of(s[a], s[j - 1]));
                            lemma_left_of_transitive(s[a], s[j - 1], cur);
                        }
                    } else if a == j {
                        assert(!left_of(s[sb], cur));
                    } else {
                        assert(left_of(s[sa], s[sb]));
                    }
                } else {
                    if b < i {
                        assert(t[a] == s[a] && t[b] == s[b]);
                    } else {
                        assert(t[a] == s[a] && t[b] == cur);
                        assert(left_of(s[i - 1], cur));
                        if a < i - 1 {
                            assert(left_of(s[a], s[i - 1]));
                            lemma_left_of_transitive(s[a], s[i - 1], cur);
                        }
                    }
                }
            }
        }
        i += 1;
    }
    assert(ael@.take(n as int) =~= ael@);
}

/// Drops the entries whose edge ends on row `y` and moves the others down
/// to that row.
fn advance(ael: &Vec<Active>, y: i32) -> (next: Vec<Active>)
    requires
        forall|i: int| 0 <= i < ael@.len() ==> (#[trigger] ael@[i]).at(y - 1),
    ensures
        forall|i: int| 0 <= i < next@.len() ==> (#[trigger] next@[i]).at(y as int),
        edges_of(next@) == edges_of(ael@).filter(outlives(y as int)),
{
    let mut next: Vec<Active> = Vec::new();
    let mut i: usize = 0;
    proof {
        reveal(Seq::filter);
        assert(edges_of(ael@.take(0)) =~= Seq::<Edge>::empty());
        assert(edges_of(next@) =~= Seq::<Edge>::empty());
    }
    while i < ael.len()
        invariant
            i <= ael@.len(),
            forall|k: int| 0 <= k < ael@.len() ==> (#[trigger] ael@[k]).at(y - 1),
            forall|k: int| 0 <= k < next@.len() ==> (#[trigger] next@[k]).at(y as int),
            edges_of(next@) == edges_of(ael@.take(i as int)).filter(outlives(y as int)),
        decreases ael@.len() - i,
    {
        let a = ael[i];
        proof {
            assert(ael@.take(i + 1) =~= ael@.take(i as int).push(a));
            assert(edges_of(ael@.take(i + 1)) =~= edges_of(ael@.take(i as int)).push(a.edge));
            edges_of(ael@.take(i as int)).lemma_filter_push(a.edge, outlives(y as int));
        }
        if a.edge.bottom.y != y {
            let ghost earlier = next@;
            let b = a.step(y);
            next.push(b);
            proof {
                assert(edges_of(next@) =~= edges_of(earlier).push(b.edge));
            }
        }
        i += 1;
    }
    assert(ael@.take(ael@.len() as int) =~= ael@);
    next
}

/// One row of a filled polygon.
pub struct Scanline {
    /// The row.
    pub y: i32,
    /// The spans of the row from left to right, each by the columns of its
    /// two ends.
    pub spans: Vec<(i32, i32)>,
}

impl Scanline {
    /// The spans over the mathematical integers.
    pub open spec fn spec_spans(&self) -> Seq<(int, int)> {
        self.spans@.map_values(|s: (i32, i32)| (s.0 as int, s.1 as int))
    }

    /// The row is `y`, and its spans are the consecutive pairs of the
    /// ascending crossings of `edges` with that row.
    pub open spec fn shows(&self, edges: Seq<Edge>, y: int) -> bool {
        &&& self.y == y
        &&& self.spec_spans() == paired(crossings(edges, y))
    }
}

/// Row `k` of `rows` shows row `first + k` of the sweep over `edges`, and
/// every one of these rows is crossed by an edge.
pub open spec fn swept(rows: Seq<Scanline>, edges: Seq<Edge>, first: int) -> bool {
    forall|k: int|
        0 <= k < rows.len() ==> (#[trigger] rows[k]).shows(edges, first + k) && active(
            edges,
            first + k,
        ).len() > 0
}

/// Two lists that hold the same edges, in whatever order, are crossed by a
/// row in the same columns.
pub proof fn lemma_active_same_items(a: Seq<Edge>, b: Seq<Edge>, y: int)
    requires
        a.to_multiset() == b.to_multiset(),
    ensures
        active(a, y).to_multiset() == active(b, y).to_multiset(),
        active(a, y).len() == active(b, y).len(),
        crossings(a, y) == crossings(b, y),
        crossings(a, y).len() == active(a, y).len(),
{
    lemma_filter_multiset(a, crossing(y));
    lemma_filter_multiset(b, crossing(y));
    to_multiset_len(active(a, y));
    to_multiset_len(active(b, y));
    lemma_map_multiset(active(a, y), active(b, y), column(y));
    let xa = active(a, y).map_values(column(y));
    let xb = active(b, y).map_values(column(y));
    xa.lemma_sort_ensures();
    xb.lemma_sort_ensures();
    let leq = |p: int, q: int| p <= q;
    assert(sorted_by(xa.sort(), leq));
    assert(sorted_by(xb.sort(), leq));
    assert(total_ordering(leq));
    lemma_sorted_unique(xa.sort(), xb.sort(), leq);
    to_multiset_len(xa);
    to_multiset_len(xa.sort());
}

/// Entries that track the first `g` edges of a table hold the edges that
/// cross the current row, once the table is split there.
proof fn lemma_tracks_active(ael: Seq<Active>, table: Seq<Edge>, g: int, y: int)
    requires
        tracks(ael, table, g, y),
        split_at(table, g, y),
    ensures
        edges_of(ael).to_multiset() == active(table, y).to_multiset(),
        ael.len() == active(table, y).len(),
{
    broadcast use group_multiset_axioms;
    broadcast use group_to_multiset_ensures;

    lemma_filter_multiset(table, crossing(y));
    let head = table.take(g);
    let tail = table.skip(g);
    assert(table =~= head + tail);
    lemma_multiset_commutative(head, tail);
    assert forall|v: Edge|
        table.to_multiset().filter(crossing(y)).count(v) == head.to_multiset().filter(
            alive(y),
        ).count(v) by {
        if head.to_multiset().count(v) > 0 {
            assert(head.contains(v));
            let i = choose|i: int| 0 <= i < head.len() && head[i] == v;
            assert(table[i] == v);
        }
        if tail.to_multiset().count(v) > 0 {
            assert(tail.contains(v));
            let i = choose|i: int| 0 <= i < tail.len() && tail[i] == v;
            assert(table[g + i] == v);
        }
    }
    assert(table.to_multiset().filter(crossing(y)) =~= head.to_multiset().filter(alive(y)));
    to_multiset_len(edges_of(ael));
    to_multiset_len(active(table, y));
}

/// Reordering the entries does not change what they track.
proof fn lemma_tracks_permuted(
    before: Seq<Active>,
    after: Seq<Active>,
    table: Seq<Edge>,
    g: int,
    y: int,
)
    requires
        tracks(before, table, g, y),
        after.to_multiset() == before.to_multiset(),
    ensures
        tracks(after, table, g, y),
        after.len() == before.len(),
{
    broadcast use group_to_multiset_ensures;

    lemma_map_multiset(after, before, edge_of());
    to_multiset_len(after);
    to_multiset_len(before);
    assert forall|i: int| 0 <= i < after.len() implies (#[trigger] after[i]).at(y) by {
        let j = lemma_same_items_index(after, before, i);
    }
}

/// After the step to row `y` the entries track the same part of the table
/// on that row.
proof fn lemma_tracks_advanced(
    ael: Seq<Active>,
    next: Seq<Active>,
    table: Seq<Edge>,
    g: int,
    y: int,
)
    requires
        tracks(ael, table, g, y - 1),
        forall|i: int| 0 <= i < next.len() ==> (#[trigger] next[i]).at(y),
        edges_of(next) == edges_of(ael).filter(outlives(y)),
    ensures
        tracks(next, table, g, y),
{
    broadcast use group_multiset_axioms;

    lemma_filter_multiset(edges_of(ael), outlives(y));
    let head = table.take(g).to_multiset();
    assert(head.filter(alive(y - 1)).filter(outlives(y)) =~= head.filter(alive(y)));
}

/// The row that a sorted active list shows.
fn row_of(ael: &Vec<Active>, y: i32, Ghost(table): Ghost<Seq<Edge>>) -> (row: Scanline)
    requires
        sorted_x(ael@),
        forall|i: int| 0 <= i < ael@.len() ==> (#[trigger] ael@[i]).at(y as int),
        edges_of(ael@).to_multiset() == active(table, y as int).to_multiset(),
    ensures
        row.shows(table, y as int),
{
    let mut xs: Vec<i32> = Vec::new();
    let mut i: usize = 0;
    while i < ael.len()
        invariant
            i <= ael@.len(),
            xs@.len() == i,
            forall|k: int| 0 <= k < i ==> xs@[k] == ael@[k].x,
        decreases ael@.len() - i,
    {
        xs.push(ael[i].x);
        i += 1;
    }
    let spans = pair_up(&xs);
    let row = Scanline { y, spans };
    proof {
        let xi = xs@.map_values(|x: i32| x as int);
        let found = active(table, y as int).map_values(column(y as int));
        assert(xi =~= edges_of(ael@).map_values(column(y as int)));
        lemma_map_multiset(edges_of(ael@), active(table, y as int), column(y as int));
        found.lemma_sort_ensures();
        let leq = |a: int, b: int| a <= b;
        assert forall|i: int, j: int| 0 <= i < j < xi.len() implies leq(xi[i], xi[j]) by {
            assert(left_of(ael@[i], ael@[j]));
            assert(ael@[i].at(y as int) && ael@[j].at(y as int));
            lemma_columns_keep_order(ael@[i].edge, ael@[j].edge, y as int);
        }
        assert(sorted_by(xi, leq));
        assert(sorted_by(found.sort(), leq));
        assert(total_ordering(leq));
        lemma_sorted_unique(xi, found.sort(), leq);
        assert(row.spec_spans() =~= paired(xi));
    }
    row
}

impl EdgeTable {
    /// Moves the edges that start on row `y` from position `from` of the
    /// table onto the active list.
    fn take_in(&self, ael: &mut Vec<Active>, from: usize, y: i32) -> (g: usize)
        requires
            self.wf(),
            from <= self@.len(),
            forall|j: int| 0 <= j < from ==> (#[trigger] self@[j]).top.y < y,
            forall|j: int| from <= j < self@.len() ==> (#[trigger] self@[j]).top.y >= y,
            tracks(old(ael)@, self@, from as int, y as int),
        ensures
            from <= g <= self@.len(),
            split_at(self@, g as int, y as int),
            tracks(final(ael)@, self@, g as int, y as int),
            final(ael)@.len() == old(ael)@.len() + (g - from),
    {
        let mut g: usize = from;
        while g < self.edges.len() && self.edges[g].top.y == y
            invariant
                self.wf(),
                from <= g <= self@.len(),
                forall|j: int| 0 <= j < g ==> (#[trigger] self@[j]).top.y <= y,
                forall|j: int| g <= j < self@.len() ==> (#[trigger] self@[j]).top.y >= y,
                tracks(ael@, self@, g as int, y as int),
                ael@.len() == old(ael)@.len() + (g - from),
            decreases self@.len() - g,
        {
            let e = self.edges[g];
            let ghost prior = ael@;
            let a = Active::enter(e);
            ael.push(a);
            proof {
                broadcast use group_multiset_axioms;

                assert(edges_of(ael@) =~= edges_of(prior).push(e));
                assert(self@.take(g + 1) =~= self@.take(g as int).push(e));
                to_multiset_build(edges_of(prior), e);
                to_multiset_build(self@.take(g as int), e);
                assert(alive(y as int)(e));
                assert(edges_of(ael@).to_multiset() =~= self@.take(g + 1).to_multiset().filter(
                    alive(y as int),
                ));
            }
            g += 1;
        }
        proof {
            assert forall|j: int| g <= j < self@.len() implies (#[trigger] self@[j]).top.y > y by {
                if j > g {
                    assert(!self@[j].before(self@[g as int]));
                }
            }
        }
        g
    }

    /// Sweeps a horizontal line down the rows of the table, from the row of
    /// its first edge to the first row that no edge crosses, and returns one
    /// entry for every row swept, in that order.
    ///
    /// On each row the edges that cross it are listed by their crossing
    /// points in ascending order; the first and the second bound the first
    /// span, the third and the fourth the second, and so on. Where their
    /// number is odd the last has no partner and bounds nothing.
    pub fn sweep(&self) -> (rows: Vec<Scanline>)
        requires
            self.wf(),
        ensures
            self@.len() == 0 ==> rows@.len() == 0,
            self@.len() > 0 ==> rows@.len() >= 1,
            self@.len() > 0 ==> swept(rows@, self@, self@[0].top.y as int),
            self@.len() > 0 ==> active(self@, self@[0].top.y + rows@.len()).len() == 0,
    {
        let mut rows: Vec<Scanline> = Vec::new();
        if self.edges.len() == 0 {
            return rows;
        }
        let first: i32 = self.edges[0].top.y;
        let mut scan: i32 = first;
        let mut ael: Vec<Active> = Vec::new();
        proof {
            broadcast use group_multiset_axioms;

            assert(edges_of(ael@) =~= Seq::<Edge>::empty());
            assert(self@.take(0) =~= Seq::<Edge>::empty());
            to_multiset_len(Seq::<Edge>::empty());
            lemma_multiset_empty_len(Seq::<Edge>::empty().to_multiset());
            assert(Multiset::<Edge>::empty().filter(alive(scan as int)) =~= Multiset::<
                Edge,
            >::empty());
            assert forall|j: int| 0 <= j < self@.len() implies (#[trigger] self@[j]).top.y
                >= scan by {
                if j > 0 {
                    assert(!self@[j].before(self@[0]));
                }
            }
        }
        let mut g: usize = self.take_in(&mut ael, 0, scan);
        assert(g > 0) by {
            if g == 0 {
                assert(self@[0].top.y > scan);
            }
        }
        loop
            invariant_except_break
                ael@.len() > 0,
                tracks(ael@, self@, g as int, scan as int),
                split_at(self@, g as int, scan as int),
            invariant
                self.wf(),
                self@.len() > 0,
                first == self@[0].top.y,
                first <= scan,
                rows@.len() == scan - first,
                swept(rows@, self@, first as int),
            ensures
                rows@.len() >= 1,
                active(self@, first + rows@.len()).len() == 0,
            decreases i32::MAX - scan,
        {
            let ghost unsorted = ael@;
            sort_by_x(&mut ael, Ghost(scan as int));
            proof {
                lemma_tracks_permuted(unsorted, ael@, self@, g as int, scan as int);
                lemma_tracks_active(ael@, self@, g as int, scan as int);
            }
            let row = row_of(&ael, scan, Ghost(self@));
            let ghost earlier = rows@;
            rows.push(row);
            assert(swept(rows@, self@, first as int)) by {
                assert forall|k: int| 0 <= k < rows@.len() implies (#[trigger] rows@[k]).shows(
                    self@,
                    first + k,
                ) && active(self@, first + k).len() > 0 by {
                    if k < earlier.len() {
                        assert(rows@[k] == earlier[k]);
                    }
                }
            }
            assert(ael@[0].at(scan as int));
            scan = scan + 1;
            let mut next = advance(&ael, scan);
            proof {
                lemma_tracks_advanced(ael@, next@, self@, g as int, scan as int);
            }
            g = self.take_in(&mut next, g, scan);
            ael = next;
            if ael.len() == 0 {
                proof {
                    lemma_tracks_active(ael@, self@, g as int, scan as int);
                }
                assert(rows@.len() == scan - first);
                assert(first <= scan);
                break;
            }
        }
        rows
    }
}

} // verus!
