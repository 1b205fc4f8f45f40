//! Polygons in the plane.
use vstd::prelude::*;
use crate::geometry::{Point, Rectangle};
use crate::edge::{Edge, EdgeTable, ring_sides, ordered, table_of, lemma_table_of};
use crate::scan::{Scanline, active, swept, lemma_active_same_items};
use crate::ring::{min_x, max_x, min_y, max_y, lemma_extremes, lemma_ring_extent, lemma_ring_crossed_evenly};
use crate::style::{Style, StyleError, Drawing};

verus! {

/// The vertices `v`, each moved by `by`.
pub open spec fn moved(v: Seq<Point>, by: Point) -> Seq<Point> {
    v.map_values(|p: Point| Point { x: (p.x + by.x) as i32, y: (p.y + by.y) as i32 })
}

/// Every vertex of `v` is still on the grid after it has been moved by `by`.
pub open spec fn movable(v: Seq<Point>, by: Point) -> bool {
    forall|i: int|
        0 <= i < v.len() ==> i32::MIN <= (#[trigger] v[i]).x + by.x <= i32::MAX && i32::MIN
            <= v[i].y + by.y <= i32::MAX
}

/// `rows` are the rows of the filled ring `ring`.
///
/// There is one for every row from the topmost vertex down to the row above
/// the bottommost one, in that order. Each lists, from left to right, the
/// spans between the first and the second, the third and the fourth, and
/// so on, of the points where the sides of the ring cross it, and no
/// crossing is left without a partner. A ring of fewer than three vertices
/// has no rows, and neither has one whose vertices all lie on one row.
pub open spec fn filled(rows: Seq<Scanline>, ring: Seq<Point>) -> bool {
    if ring.len() < 3 {
        rows.len() == 0
    } else {
        &&& rows.len() == max_y(ring) - min_y(ring)
        &&& forall|k: int|
            0 <= k < rows.len() ==> (#[trigger] rows[k]).shows(ring_sides(ring), min_y(ring) + k)
                && 2 * rows[k].spans@.len() == active(ring_sides(ring), min_y(ring) + k).len()
    }
}

/// The sweep over the table of a ring yields the rows of the filled ring.
pub proof fn lemma_sweep_fills(ring: Seq<Point>, table: Seq<Edge>, rows: Seq<Scanline>)
    requires
        ordered(table),
        table.to_multiset() == ring_sides(ring).to_multiset(),
        table.len() == 0 ==> rows.len() == 0,
        table.len() > 0 ==> rows.len() >= 1,
        table.len() > 0 ==> swept(rows, table, table[0].top.y as int),
        table.len() > 0 ==> active(table, table[0].top.y + rows.len()).len() == 0,
    ensures
        filled(rows, ring),
{
    let sides = ring_sides(ring);
    vstd::seq_lib::to_multiset_len(table);
    vstd::seq_lib::to_multiset_len(sides);
    if ring.len() >= 3 {
        let top = min_y(ring);
        let bottom = max_y(ring);
        lemma_extremes(ring);
        if table.len() == 0 {
            if top < bottom {
                lemma_ring_extent(ring, top);
                reveal(Seq::filter);
            }
        } else {
            let first = table[0].top.y as int;
            let len = rows.len() as int;
            // The first row is the topmost one.
            assert(rows[0].shows(table, first + 0));
            lemma_active_same_items(table, sides, first);
            lemma_ring_extent(ring, first);
            lemma_active_same_items(table, sides, top);
            lemma_ring_extent(ring, top);
            let found = active(table, top);
            assert(found.contains(found[0]));
            table.lemma_filter_contains_rev(crate::scan::crossing(top), found[0]);
            table.lemma_filter_pred(crate::scan::crossing(top), 0);
            let j = choose|j: int| 0 <= j < table.len() && table[j] == found[0];
            if j > 0 {
                assert(!table[j].before(table[0]));
            }
            assert(first == top);
            // The last row is the one above the bottommost one.
            lemma_active_same_items(table, sides, first + len);
            lemma_ring_extent(ring, first + len);
            if first + len > bottom {
                assert(rows[bottom - first].shows(table, first + (bottom - first)));
                lemma_active_same_items(table, sides, bottom);
                lemma_ring_extent(ring, bottom);
            }
            assert(len == bottom - top);
            assert forall|k: int| 0 <= k < rows.len() implies (#[trigger] rows[k]).shows(
                sides,
                top + k,
            ) && 2 * rows[k].spans@.len() == active(sides, top + k).len() by {
                assert(rows[k].shows(table, first + k));
                lemma_active_same_items(table, sides, top + k);
                lemma_ring_crossed_evenly(ring, top + k);
                assert(rows[k].spec_spans().len() == rows[k].spans@.len());
            }
        }
    }
}

/// A polygon: the closed ring through `vertices`, the last joined to the
/// first, moved by `translate` before it is drawn.
pub struct Polygon<'a> {
    pub translate: Point,
    pub vertices: &'a [Point],
}

impl<'a> Polygon<'a> {
    /// The polygon through `vertices`, not moved.
    pub fn new(vertices: &'a [Point]) -> (p: Self)
        ensures
            p.translate == (Point { x: 0, y: 0 }),
            p.vertices@ == vertices@,
    {
        Polygon { translate: Point::zero(), vertices }
    }

    /// The vertices where they are drawn.
    pub open spec fn ring(&self) -> Seq<Point> {
        moved(self.vertices@, self.translate)
    }

    /// The polygon is still on the grid where it is drawn.
    pub open spec fn fits(&self) -> bool {
        movable(self.vertices@, self.translate)
    }

    /// Whether the polygon is still on the grid where it is drawn.
    pub fn on_grid(&self) -> (b: bool)
        ensures
            b == self.fits(),
    {
        can_move(self.vertices, self.translate)
    }

    /// The smallest rectangle that holds every vertex, before the polygon
    /// is moved. Its width and height are the distances between the extreme
    /// columns and rows.
    pub fn bounding_box(&self) -> (r: Rectangle)
        requires
            self.vertices@.len() > 0,
        ensures
            r.top_left.x == min_x(self.vertices@),
            r.top_left.y == min_y(self.vertices@),
            r.width == max_x(self.vertices@) - min_x(self.vertices@),
            r.height == max_y(self.vertices@) - min_y(self.vertices@),
    {
        bounds(self.vertices)
    }

    /// The vertices where they are drawn.
    pub fn translated(&self) -> (ring: Vec<Point>)
        requires
            self.fits(),
        ensures
            ring@ == self.ring(),
    {
        move_all(self.vertices, self.translate)
    }

    /// The points of the outline: the vertices where they are drawn,
    /// followed by the first of them once more. A polygon of `n` vertices
    /// so has `n` segments, and the last of them returns to where the first
    /// began.
    pub fn outline(&self) -> (points: Vec<Point>)
        requires
            self.fits(),
            self.vertices@.len() > 0,
        ensures
            points@ == closed(self.ring()),
    {
        let mut points = self.translated();
        let first = points[0];
        points.push(first);
        points
    }

    /// The rows of the filled polygon.
    pub fn fill(&self) -> (rows: Vec<Scanline>)
        requires
            self.fits(),
        ensures
            filled(rows@, self.ring()),
    {
        let ring = self.translated();
        fill_ring(ring.as_slice())
    }

    /// What is to be drawn for the polygon in `style`: its fill where the
    /// stroke width is zero, its outline otherwise. A fill needs a fill
    /// colour.
    pub fn draw_styled<C: Copy>(&self, style: &Style<C>) -> (r: Result<Drawing<C>, StyleError>)
        requires
            self.fits(),
            style.stroke_width > 0 ==> self.vertices@.len() > 0,
        ensures
            drawn(r, *style, self.ring()),
    {
        if style.stroke_width == 0 {
            match style.fill_color {
                Some(color) => Ok(Drawing::Fill { color, rows: self.fill() }),
                None => Err(StyleError::MissingFillColor),
            }
        } else {
            Ok(Drawing::Outline { points: self.outline() })
        }
    }
}

/// `r` is what is to be drawn for the ring `ring` in `style`.
///
/// With a stroke width of zero it is the fill in the style's fill colour,
/// or the error that the style names none. With any other stroke width it
/// is the closed outline.
pub open spec fn drawn<C>(r: Result<Drawing<C>, StyleError>, style: Style<C>, ring: Seq<Point>)
    -> bool {
    if style.stroke_width > 0 {
        r matches Ok(Drawing::Outline { points }) && points@ == closed(ring)
    } else {
        match style.fill_color {
            Some(c) => r matches Ok(Drawing::Fill { color, rows }) && color == c && filled(
                rows@,
                ring,
            ),
            None => r matches Err(StyleError::MissingFillColor),
        }
    }
}

/// The ring `v` with its first vertex repeated at the end.
pub open spec fn closed(v: Seq<Point>) -> Seq<Point> {
    v.push(v[0])
}

/// The segments of a closed ring of `n` vertices: segment `i` runs from
/// vertex `i` to the vertex after it on the ring, so the last one runs from
/// the last vertex back to the first.
pub proof fn lemma_closed_loop(v: Seq<Point>)
    requires
        v.len() > 0,
    ensures
        closed(v).len() == v.len() + 1,
        closed(v).first() == closed(v).last(),
        forall|i: int|
            0 <= i < v.len() ==> (#[trigger] closed(v)[i]) == v[i] && closed(v)[i + 1] == v[(i
                + 1) % (v.len() as int)],
{
    let n = v.len() as int;
    assert forall|i: int| 0 <= i < v.len() implies (#[trigger] closed(v)[i]) == v[i] && closed(
        v,
    )[i + 1] == v[(i + 1) % n] by {
        assert(i + 1 < n ==> (i + 1) % n == i + 1) by (nonlinear_arith)
            requires
                0 <= i < n,
        ;
        assert(i + 1 == n ==> (i + 1) % n == 0) by (nonlinear_arith)
            requires
                0 <= i < n,
        ;
    }
}

/// Whether every vertex of `v` is still on the grid after it has been moved
/// by `by`.
pub fn can_move(v: &[Point], by: Point) -> (b: bool)
    ensures
        b == movable(v@, by),
{
    let mut i: usize = 0;
    while i < v.len()
        invariant
            i <= v@.len(),
            movable(v@.take(i as int), by),
        decreases v@.len() - i,
    {
        let p = v[i];
        let x: i64 = p.x as i64 + by.x as i64;
        let y: i64 = p.y as i64 + by.y as i64;
        if x < i32::MIN as i64 || x > i32::MAX as i64 || y < i32::MIN as i64 || y > i32::MAX as i64 {
            return false;
        }
        assert forall|k: int| 0 <= k < i + 1 implies i32::MIN <= (#[trigger] v@.take(i + 1)[k]).x
            + by.x <= i32::MAX && i32::MIN <= v@.take(i + 1)[k].y + by.y <= i32::MAX by {
            if k < i {
                assert(v@.take(i + 1)[k] == v@.take(i as int)[k]);
            }
        }
        i += 1;
    }
    assert(v@.take(v@.len() as int) =~= v@);
    true
}

/// The vertices of `v`, each moved by `by`.
pub fn move_all(v: &[Point], by: Point) -> (ring: Vec<Point>)
    requires
        movable(v@, by),
    ensures
        ring@ == moved(v@, by),
{
    let mut ring: Vec<Point> = Vec::new();
    let mut i: usize = 0;
    while i < v.len()
        invariant
            i <= v@.len(),
            movable(v@, by),
            ring@ == moved(v@.take(i as int), by),
        decreases v@.len() - i,
    {
        let p = v[i];
        ring.push(Point { x: p.x + by.x, y: p.y + by.y });
        assert(v@.take(i + 1) =~= v@.take(i as int).push(p));
        assert(ring@ =~= moved(v@.take(i + 1), by));
        i += 1;
    }
    assert(v@.take(v@.len() as int) =~= v@);
    ring
}

/// The smallest rectangle that holds every vertex of `v`.
pub fn bounds(v: &[Point]) -> (r: Rectangle)
    requires
        v@.len() > 0,
    ensures
        r.top_left.x == min_x(v@),
        r.top_left.y == min_y(v@),
        r.width == max_x(v@) - min_x(v@),
        r.height == max_y(v@) - min_y(v@),
{
    let mut left: i32 = v[0].x;
    let mut right: i32 = v[0].x;
    let mut top: i32 = v[0].y;
    let mut bottom: i32 = v[0].y;
    let ghost mut at_left: int = 0;
    let ghost mut at_right: int = 0;
    let ghost mut at_top: int = 0;
    let ghost mut at_bottom: int = 0;
    let mut i: usize = 1;
    while i < v.len()
        invariant
            1 <= i <= v@.len(),
            0 <= at_left < i && v@[at_left].x == left,
            0 <= at_right < i && v@[at_right].x == right,
            0 <= at_top < i && v@[at_top].y == top,
            0 <= at_bottom < i && v@[at_bottom].y == bottom,
            forall|k: int| 0 <= k < i ==> left <= (#[trigger] v@[k]).x <= right,
            forall|k: int| 0 <= k < i ==> top <= (#[trigger] v@[k]).y <= bottom,
        decreases v@.len() - i,
    {
        let p = v[i];
        if p.x < left {
            left = p.x;
            proof {
                at_left = i as int;
            }
        }
        if p.x > right {
            right = p.x;
            proof {
                at_right = i as int;
            }
        }
        if p.y < top {
            top = p.y;
            proof {
                at_top = i as int;
            }
        }
        if p.y > bottom {
            bottom = p.y;
            proof {
                at_bottom = i as int;
            }
        }
        i += 1;
    }
    proof {
        lemma_extremes(v@);
    }
    let width: i64 = right as i64 - left as i64;
    let height: i64 = bottom as i64 - top as i64;
    Rectangle { top_left: Point { x: left, y: top }, width: width as u32, height: height as u32 }
}

/// The rows of the filled ring `ring`.
pub fn fill_ring(ring: &[Point]) -> (rows: Vec<Scanline>)
    ensures
        filled(rows@, ring@),
{
    let table = EdgeTable::from_ring(ring);
    let rows = table.sweep();
    proof {
        lemma_sweep_fills(ring@, table@, rows@);
    }
    rows
}

} // verus!
