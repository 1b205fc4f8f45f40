//! The sides of a polygon and the table that orders them for the sweep.
use vstd::prelude::*;
use vstd::seq_lib::*;
use crate::geometry::Point;
use crate::rounding::round_div;

verus! {

/// A side of a polygon that is not horizontal, held by its upper and its
/// lower end. Its inverse slope is `run / rise`.
#[derive(Clone, Copy, Debug, PartialEq, Eq, Structural)]
pub struct Edge {
    /// The end with the smaller `y`.
    pub top: Point,
    /// The end with the larger `y`.
    pub bottom: Point,
}

impl Edge {
    /// The upper end lies strictly above the lower end.
    pub open spec fn wf(self) -> bool {
        self.top.y < self.bottom.y
    }

    /// The number of rows between the two ends.
    pub open spec fn rise(self) -> int {
        self.bottom.y - self.top.y
    }

    /// The horizontal distance covered from the upper to the lower end.
    pub open spec fn run(self) -> int {
        self.bottom.x - self.top.x
    }

    /// Whether the edge crosses row `y`. The upper end counts, the lower end
    /// does not, so two sides that meet in a vertex cross its row once
    /// together.
    pub open spec fn crosses(self, y: int) -> bool {
        self.top.y <= y < self.bottom.y
    }

    /// The crossing point with row `y` is `intercept_num(y) / rise()`.
    pub open spec fn intercept_num(self, y: int) -> int {
        self.top.x * self.rise() + (y - self.top.y) * self.run()
    }

    /// The pixel column nearest to the crossing point with row `y`.
    pub open spec fn x_at(self, y: int) -> int {
        round_div(self.intercept_num(y), self.rise())
    }

    /// The strict order of the table: by the upper end's `y`, then by its `x`.
    pub open spec fn before(self, other: Edge) -> bool {
        self.top.y < other.top.y || (self.top.y == other.top.y && self.top.x < other.top.x)
    }

    /// The side between two vertices, if they differ in `y`.
    pub open spec fn spanning(a: Point, b: Point) -> Option<Edge> {
        if a.y == b.y {
            None
        } else if a.y < b.y {
            Some(Edge { top: a, bottom: b })
        } else {
            Some(Edge { top: b, bottom: a })
        }
    }

    /// The side between two vertices. Two vertices on one row span no edge:
    /// a horizontal side never crosses a row.
    pub fn between(a: Point, b: Point) -> (e: Option<Edge>)
        ensures
            e == Edge::spanning(a, b),
            e.is_some() ==> e.unwrap().wf(),
    {
        if a.y == b.y {
            None
        } else if a.y < b.y {
            Some(Edge { top: a, bottom: b })
        } else {
            Some(Edge { top: b, bottom: a })
        }
    }

    /// Whether `self` comes strictly before `other` in the table's order.
    pub fn precedes(&self, other: &Edge) -> (b: bool)
        ensures
            b == self.before(*other),
    {
        self.top.y < other.top.y || (self.top.y == other.top.y && self.top.x < other.top.x)
    }
}

/// The sides that leave the first `k` vertices of the ring `v`, in the order
/// of the vertices. The side that leaves the last vertex returns to the first.
pub open spec fn sides_upto(v: Seq<Point>, k: int) -> Seq<Edge>
    decreases k,
{
    if k <= 0 {
        Seq::empty()
    } else {
        let earlier = sides_upto(v, k - 1);
        match Edge::spanning(v[k - 1], v[k % (v.len() as int)]) {
            Some(e) => earlier.push(e),
            None => earlier,
        }
    }
}

/// The sides of the closed ring `v` that are not horizontal. Fewer than three
/// vertices enclose nothing and have no sides.
pub open spec fn ring_sides(v: Seq<Point>) -> Seq<Edge> {
    if v.len() < 3 {
        Seq::empty()
    } else {
        sides_upto(v, v.len() as int)
    }
}

/// No edge of `s` comes strictly before an earlier one.
pub open spec fn ordered(s: Seq<Edge>) -> bool {
    forall|i: int, j: int| 0 <= i < j < s.len() ==> !(#[trigger] s[j]).before(#[trigger] s[i])
}

/// The number of leading edges of `s` that come strictly before `e`.
pub open spec fn slot(s: Seq<Edge>, e: Edge) -> int
    decreases s.len(),
{
    if s.len() == 0 || !s[0].before(e) {
        0
    } else {
        1 + slot(s.drop_first(), e)
    }
}

/// `s` with `e` put in front of the first edge that does not come before it.
pub open spec fn place(s: Seq<Edge>, e: Edge) -> Seq<Edge> {
    s.insert(slot(s, e), e)
}

/// The table that results from placing the edges of `sides` one after the
/// other into an empty table.
pub open spec fn table_of(sides: Seq<Edge>) -> Seq<Edge>
    decreases sides.len(),
{
    if sides.len() == 0 {
        Seq::empty()
    } else {
        place(table_of(sides.drop_last()), sides.last())
    }
}

/// What `slot` finds: all edges before it come before `e`, the edge at it
/// does not.
pub proof fn lemma_slot(s: Seq<Edge>, e: Edge)
    ensures
        0 <= slot(s, e) <= s.len(),
        forall|k: int| 0 <= k < slot(s, e) ==> (#[trigger] s[k]).before(e),
        slot(s, e) < s.len() ==> !s[slot(s, e)].before(e),
    decreases s.len(),
{
    if s.len() == 0 || !s[0].before(e) {
    } else {
        let rest = s.drop_first();
        lemma_slot(rest, e);
        assert forall|k: int| 0 <= k < slot(s, e) implies (#[trigger] s[k]).before(e) by {
            if k > 0 {
                assert(s[k] == rest[k - 1]);
            }
        }
        if slot(s, e) < s.len() {
            assert(s[slot(s, e)] == rest[slot(rest, e)]);
        }
    }
}

/// Placing an edge keeps a table ordered and adds that edge and no other.
pub proof fn lemma_place(s: Seq<Edge>, e: Edge)
    requires
        ordered(s),
    ensures
        ordered(place(s, e)),
        place(s, e).to_multiset() == s.to_multiset().insert(e),
        place(s, e).len() == s.len() + 1,
{
    lemma_slot(s, e);
    let k = slot(s, e);
    let t = place(s, e);
    to_multiset_insert(s, k, e);
    assert forall|i: int, j: int| 0 <= i < j < t.len() implies !(#[trigger] t[j]).before(
        #[trigger] t[i],
    ) by {
        if j < k {
            assert(t[i] == s[i] && t[j] == s[j]);
        } else if j == k {
            assert(t[i] == s[i]);
            assert(s[i].before(e));
        } else if i < k {
            assert(t[i] == s[i] && t[j] == s[j - 1]);
        } else if i == k {
            assert(t[j] == s[j - 1]);
            if j - 1 > k {
                assert(!s[j - 1].before(s[k]));
            }
        } else {
            assert(t[i] == s[i - 1] && t[j] == s[j - 1]);
        }
    }
}

/// The table of a list of sides is ordered and holds exactly those sides.
pub proof fn lemma_table_of(sides: Seq<Edge>)
    ensures
        ordered(table_of(sides)),
        table_of(sides).to_multiset() == sides.to_multiset(),
        table_of(sides).len() == sides.len(),
    decreases sides.len(),
{
    broadcast use group_to_multiset_ensures;

    if sides.len() == 0 {
        assert(table_of(sides).to_multiset() =~= sides.to_multiset());
    } else {
        lemma_table_of(sides.drop_last());
        lemma_place(table_of(sides.drop_last()), sides.last());
        assert(sides =~= sides.drop_last().push(sides.last()));
        to_multiset_build(sides.drop_last(), sides.last());
    }
}

/// Every side that leaves one of the first `k` vertices has its upper end
/// strictly above its lower end.
proof fn lemma_sides_slanted(v: Seq<Point>, k: int)
    ensures
        forall|i: int| 0 <= i < sides_upto(v, k).len() ==> (#[trigger] sides_upto(v, k)[i]).wf(),
    decreases k,
{
    if k > 0 {
        lemma_sides_slanted(v, k - 1);
        let earlier = sides_upto(v, k - 1);
        assert forall|i: int| 0 <= i < sides_upto(v, k).len() implies (#[trigger] sides_upto(
            v,
            k,
        )[i]).wf() by {
            if i < earlier.len() {
                assert(sides_upto(v, k)[i] == earlier[i]);
            }
        }
    }
}

/// No side of a ring is horizontal, whatever its vertices: two neighbours
/// on one row add nothing to the sides, and so nothing to the crossings of
/// any row.
pub proof fn lemma_ring_sides_slanted(v: Seq<Point>)
    ensures
        forall|i: int| 0 <= i < ring_sides(v).len() ==> (#[trigger] ring_sides(v)[i]).wf(),
{
    lemma_sides_slanted(v, v.len() as int);
}

/// The edges of a polygon, ordered for a sweep from the top row down: by
/// the row of the upper end, and within one row by its column.
pub struct EdgeTable {
    pub edges: Vec<Edge>,
}

impl View for EdgeTable {
    type V = Seq<Edge>;

    open spec fn view(&self) -> Seq<Edge> {
        self.edges@
    }
}

impl EdgeTable {
    /// The table is ordered and every edge in it is well formed.
    pub open spec fn wf(&self) -> bool {
        &&& ordered(self@)
        &&& forall|i: int| 0 <= i < self@.len() ==> (#[trigger] self@[i]).wf()
    }

    /// The table without edges.
    pub fn new() -> (t: EdgeTable)
        ensures
            t@ == Seq::<Edge>::empty(),
            t.wf(),
    {
        EdgeTable { edges: Vec::new() }
    }

    /// Puts `e` in front of the first edge that does not come before it, so
    /// that the table stays ordered without being sorted again.
    pub fn insert(&mut self, e: Edge)
        requires
            old(self).wf(),
            e.wf(),
        ensures
            final(self)@ == place(old(self)@, e),
            final(self).wf(),
    {
        let mut at: usize = 0;
        assert(self.edges@.skip(0) =~= self.edges@);
        while at < self.edges.len() && self.edges[at].precedes(&e)
            invariant
                at <= self.edges.len(),
                self.edges@ == old(self).edges@,
                slot(self.edges@, e) == at + slot(self.edges@.skip(at as int), e),
            decreases self.edges.len() - at,
        {
            proof {
                let rest = self.edges@.skip(at as int);
                assert(rest[0] == self.edges@[at as int]);
                assert(rest.drop_first() =~= self.edges@.skip(at + 1));
            }
            at += 1;
        }
        proof {
            let rest = self.edges@.skip(at as int);
            if at < self.edges.len() {
                assert(rest[0] == self.edges@[at as int]);
            }
            assert(slot(rest, e) == 0);
            lemma_place(self.edges@, e);
            let t = place(self.edges@, e);
            assert forall|i: int| 0 <= i < t.len() implies (#[trigger] t[i]).wf() by {
                if i < at {
                    assert(t[i] == self.edges@[i]);
                } else if i > at {
                    assert(t[i] == self.edges@[i - 1]);
                }
            }
        }
        self.edges.insert(at, e);
    }

    /// The table of the closed ring `ring`: every side between two
    /// neighbouring vertices, and between the last and the first, except the
    /// horizontal ones. A ring of fewer than three vertices has an empty
    /// table.
    pub fn from_ring(ring: &[Point]) -> (t: EdgeTable)
        ensures
            t@ == table_of(ring_sides(ring@)),
            t.wf(),
            t@.to_multiset() == ring_sides(ring@).to_multiset(),
    {
        let mut table = EdgeTable::new();
        let n = ring.len();
        if n < 3 {
            proof {
                lemma_table_of(ring_sides(ring@));
            }
            return table;
        }
        let mut i: usize = 0;
        while i < n
            invariant
                n == ring@.len(),
                n >= 3,
                i <= n,
                table.wf(),
                table@ == table_of(sides_upto(ring@, i as int)),
            decreases n - i,
        {
            let next = if i + 1 == n { 0 } else { i + 1 };
            assert(next == (i + 1) % (n as int)) by (nonlinear_arith)
                requires
                    0 <= i < n,
                    next == if i + 1 == n { 0 } else { i + 1 },
            ;
            let side = Edge::between(ring[i], ring[next]);
            proof {
                let earlier = sides_upto(ring@, i as int);
                if side.is_some() {
                    assert(sides_upto(ring@, i + 1) == earlier.push(side.unwrap()));
                    assert(earlier.push(side.unwrap()).drop_last() =~= earlier);
                } else {
                    assert(sides_upto(ring@, i + 1) == earlier);
                }
            }
            match side {
                Some(e) => {
                    table.insert(e);
                },
                None => {},
            }
            i += 1;
        }
        proof {
            lemma_table_of(ring_sides(ring@));
        }
        table
    }
}

} // verus!
