//! Polygons whose vertices carry depths, drawn through a depth map.
use vstd::prelude::*;
use vstd::relations::sorted_by;
use crate::geometry::{Point, Rectangle};
use crate::edge::{Edge, ring_sides};
use crate::scan::{Scanline, active, column, crossings, lemma_active_same_items};
use crate::pairing::paired;
use crate::ring::{min_x, max_x, min_y, max_y, lemma_extremes, lemma_ring_extent};
use crate::polygon::{moved, movable, closed, filled, can_move, bounds, fill_ring};
use crate::depth::{MAX_VERTICES, depth_at, point_depth, lemma_depth_between, lemma_depth_defined};
use crate::depth_map::DepthMap;
use crate::style::{Style, StyleError, Drawing};

verus! {

/// Whether column `x` lies in one of the spans. A span holds its first
/// column and not its second.
pub open spec fn in_spans(spans: Seq<(int, int)>, x: int) -> bool {
    exists|j: int| 0 <= j < spans.len() && (#[trigger] spans[j]).0 <= x < spans[j].1
}

/// Whether the filled ring covers the pixel in column `x` of row `y`.
pub open spec fn covered(ring: Seq<Point>, x: int, y: int) -> bool {
    in_spans(paired(crossings(ring_sides(ring), y)), x)
}

/// No span ends before it begins, and none begins before an earlier one has
/// ended.
pub open spec fn spans_ordered(spans: Seq<(int, int)>) -> bool {
    &&& forall|j: int| 0 <= j < spans.len() ==> (#[trigger] spans[j]).0 <= spans[j].1
    &&& forall|i: int, j: int|
        0 <= i < j < spans.len() ==> (#[trigger] spans[i]).1 <= (#[trigger] spans[j]).0
}

/// The spans of a row never overlap.
pub proof fn lemma_spans_ordered(edges: Seq<Edge>, y: int)
    ensures
        spans_ordered(paired(crossings(edges, y))),
{
    let found = active(edges, y).map_values(column(y));
    found.lemma_sort_ensures();
    let xs = found.sort();
    let leq = |a: int, b: int| a <= b;
    assert(sorted_by(xs, leq));
    let spans = paired(xs);
    assert forall|j: int| 0 <= j < spans.len() implies (#[trigger] spans[j]).0 <= spans[j].1 by {
        assert(leq(xs[2 * j], xs[2 * j + 1]));
    }
    assert forall|i: int, j: int| 0 <= i < j < spans.len() implies (#[trigger] spans[i]).1 <= (
    #[trigger] spans[j]).0 by {
        assert(leq(xs[2 * i + 1], xs[2 * j]));
    }
}

/// Only the rows between the topmost and the bottommost vertex of a ring of
/// three or more vertices hold covered pixels.
pub proof fn lemma_covered_row(ring: Seq<Point>, x: int, y: int)
    requires
        covered(ring, x, y),
    ensures
        ring.len() >= 3,
        min_y(ring) <= y < max_y(ring),
{
    let sides = ring_sides(ring);
    lemma_active_same_items(sides, sides, y);
    assert(active(sides, y).len() > 0);
    if ring.len() < 3 {
        reveal(Seq::filter);
    } else {
        lemma_ring_extent(ring, y);
    }
}

/// The vertices without their depths.
pub open spec fn points_of(vs: Seq<(Point, i32)>) -> Seq<Point> {
    vs.map_values(|v: (Point, i32)| v.0)
}

/// The vertices `vs`, each moved by `by` and with its depth kept.
pub open spec fn placed(vs: Seq<(Point, i32)>, by: Point) -> Seq<(Point, i32)> {
    vs.map_values(
        |v: (Point, i32)| (Point { x: (v.0.x + by.x) as i32, y: (v.0.y + by.y) as i32 }, v.1),
    )
}

/// Whether the pixel in column `x` of row `y` passes the depth test on the
/// map `m`: the map has a cell for it, and the depth that the vertices `vs`
/// give it is strictly greater than the depth in that cell.
pub open spec fn passes(m: DepthMap, vs: Seq<(Point, i32)>, x: int, y: int) -> bool {
    &&& m.holds(x, y)
    &&& depth_at(vs, x, y) matches Some(d) && m.cell(x, y) < d
}

/// Whether the polygon with the vertices `vs` is written to the pixel in
/// column `x` of row `y` on the map `m`: it covers the pixel, and the pixel
/// passes the depth test.
pub open spec fn wins(m: DepthMap, vs: Seq<(Point, i32)>, x: int, y: int) -> bool {
    covered(points_of(vs), x, y) && passes(m, vs, x, y)
}

/// Pixel `p` comes before pixel `q` in drawing order: it is in a row further
/// up, or in the same row and further left.
pub open spec fn draws_before(p: Point, q: Point) -> bool {
    p.y < q.y || (p.y == q.y && p.x < q.x)
}

/// Drawing the polygon with the vertices `vs` through the map `before`
/// leaves the map `after` and writes the pixels `pixels`.
///
/// The map keeps its extent. A cell takes the polygon's depth at its pixel
/// where the polygon is written to that pixel, and keeps its depth
/// otherwise. The pixels written are exactly those where the polygon is
/// written, each once, in drawing order.
pub open spec fn composited(
    before: DepthMap,
    after: DepthMap,
    pixels: Seq<Point>,
    vs: Seq<(Point, i32)>,
) -> bool {
    &&& after.spec_width() == before.spec_width()
    &&& after.spec_height() == before.spec_height()
    &&& forall|a: int, b: int|
        #[trigger] after.cell(a, b) == if wins(before, vs, a, b) {
            depth_at(vs, a, b).unwrap()
        } else {
            before.cell(a, b) as int
        }
    &&& forall|i: int, j: int|
        0 <= i < j < pixels.len() ==> draws_before(#[trigger] pixels[i], #[trigger] pixels[j])
    &&& forall|p: Point| #[trigger] pixels.contains(p) <==> wins(before, vs, p.x as int, p.y as int)
}

/// Whether `x` is one of the columns `cols`.
pub open spec fn lists(cols: Seq<i32>, x: int) -> bool {
    exists|i: int| 0 <= i < cols.len() && #[trigger] cols[i] == x
}

/// The columns of the pixels of a row, from left to right.
pub fn columns_of(row: &Scanline) -> (cols: Vec<i32>)
    requires
        spans_ordered(row.spec_spans()),
    ensures
        forall|i: int, j: int| 0 <= i < j < cols@.len() ==> cols@[i] < cols@[j],
        forall|x: int| in_spans(row.spec_spans(), x) <==> lists(cols@, x),
{
    let ghost spans = row.spec_spans();
    let mut cols: Vec<i32> = Vec::new();
    let mut j: usize = 0;
    while j < row.spans.len()
        invariant
            j <= row.spans@.len(),
            spans == row.spec_spans(),
            spans_ordered(spans),
            forall|i: int, k: int| 0 <= i < k < cols@.len() ==> cols@[i] < cols@[k],
            forall|i: int| 0 <= i < cols@.len() ==> in_spans(spans.take(j as int), cols@[i] as int),
            forall|x: int| in_spans(spans.take(j as int), x) ==> lists(cols@, x),
        decreases row.spans@.len() - j,
    {
        let (start, end) = row.spans[j];
        assert(spans[j as int] == (start as int, end as int));
        let mut x: i32 = start;
        while x < end
            invariant
                j < row.spans@.len(),
                spans == row.spec_spans(),
                spans_ordered(spans),
                spans[j as int] == (start as int, end as int),
                start <= x <= end,
                forall|i: int, k: int| 0 <= i < k < cols@.len() ==> cols@[i] < cols@[k],
                forall|i: int|
                    0 <= i < cols@.len() ==> in_spans(spans.take(j as int), cols@[i] as int) || (
                    start <= cols@[i] < x),
                forall|v: int| in_spans(spans.take(j as int), v) || start <= v < x ==> lists(cols@, v),
            decreases end - x,
        {
            let ghost earlier = cols@;
            cols.push(x);
            proof {
                assert forall|i: int, k: int| 0 <= i < k < cols@.len() implies cols@[i]
                    < cols@[k] by {
                    if k == earlier.len() {
                        assert(cols@[i] == earlier[i]);
                        if in_spans(spans.take(j as int), earlier[i] as int) {
                            let w = choose|w: int|
                                0 <= w < spans.take(j as int).len() && (#[trigger] spans.take(
                                    j as int,
                                )[w]).0 <= earlier[i] < spans.take(j as int)[w].1;
                            assert(spans.take(j as int)[w] == spans[w]);
                            assert(spans[w].1 <= spans[j as int].0);
                        }
                    } else {
                        assert(cols@[i] == earlier[i] && cols@[k] == earlier[k]);
                    }
                }
                assert forall|i: int| 0 <= i < cols@.len() implies in_spans(
                    spans.take(j as int),
                    cols@[i] as int,
                ) || (start <= cols@[i] < x + 1) by {
                    if i < earlier.len() {
                        assert(cols@[i] == earlier[i]);
                    }
                }
                assert forall|v: int|
                    in_spans(spans.take(j as int), v) || start <= v < x + 1 implies lists(
                    cols@,
                    v,
                ) by {
                    if v == x {
                        assert(cols@[earlier.len() as int] == x);
                    } else {
                        assert(lists(earlier, v));
                        let w = choose|w: int| 0 <= w < earlier.len() && #[trigger] earlier[w] == v;
                        assert(cols@[w] == v);
                    }
                }
            }
            x = x + 1;
        }
        proof {
            let now = spans.take(j as int);
            let next = spans.take(j + 1);
            assert forall|v: int| in_spans(next, v) <==> in_spans(now, v) || start <= v < end by {
                if in_spans(next, v) {
                    let w = choose|w: int|
                        0 <= w < next.len() && (#[trigger] next[w]).0 <= v < next[w].1;
                    if w < j {
                        assert(now[w] == next[w]);
                    }
                }
                if in_spans(now, v) {
                    let w = choose|w: int| 0 <= w < now.len() && (#[trigger] now[w]).0 <= v < now[w].1;
                    assert(next[w] == now[w]);
                }
                if start <= v < end {
                    assert(next[j as int] == spans[j as int]);
                }
            }
            assert forall|i: int| 0 <= i < cols@.len() implies in_spans(next, cols@[i] as int) by {
                assert(in_spans(now, cols@[i] as int) || start <= cols@[i] < end);
            }
        }
        j += 1;
    }
    assert(spans.take(row.spans@.len() as int) =~= spans);
    cols
}

/// Draws the pixels in the columns `cols` of row `y` through the depth map:
/// a pixel that passes the depth test is added to `pixels`, and its cell
/// takes the pixel's depth.
pub fn composite_row(
    vs: &[(Point, i32)],
    y: i32,
    cols: &Vec<i32>,
    depth_map: &mut DepthMap,
    pixels: &mut Vec<Point>,
)
    requires
        vs@.len() <= MAX_VERTICES,
        forall|i: int, j: int| 0 <= i < j < cols@.len() ==> cols@[i] < cols@[j],
    ensures
        final(depth_map).spec_width() == old(depth_map).spec_width(),
        final(depth_map).spec_height() == old(depth_map).spec_height(),
        forall|a: int, b: int|
            #[trigger] final(depth_map).cell(a, b) == if b == y && lists(cols@, a) && passes(
                *old(depth_map),
                vs@,
                a,
                b,
            ) {
                depth_at(vs@, a, b).unwrap()
            } else {
                old(depth_map).cell(a, b) as int
            },
        final(pixels)@.len() >= old(pixels)@.len(),
        final(pixels)@.take(old(pixels)@.len() as int) == old(pixels)@,
        forall|i: int|
            old(pixels)@.len() <= i < final(pixels)@.len() ==> (#[trigger] final(pixels)@[i]).y == y
                && lists(cols@, final(pixels)@[i].x as int) && passes(
                *old(depth_map),
                vs@,
                final(pixels)@[i].x as int,
                y as int,
            ),
        forall|i: int, j: int|
            old(pixels)@.len() <= i < j < final(pixels)@.len() ==> final(pixels)@[i].x < final(pixels)@[j].x,
        forall|a: int|
            lists(cols@, a) && passes(*old(depth_map), vs@, a, y as int) ==> final(pixels)@.contains(
                Point { x: a as i32, y },
            ),
{
    let ghost base = old(pixels)@.len() as int;
    let mut c: usize = 0;
    while c < cols.len()
        invariant
            c <= cols@.len(),
            vs@.len() <= MAX_VERTICES,
            base == old(pixels)@.len(),
            forall|i: int, j: int| 0 <= i < j < cols@.len() ==> cols@[i] < cols@[j],
            depth_map.spec_width() == old(depth_map).spec_width(),
            depth_map.spec_height() == old(depth_map).spec_height(),
            forall|a: int, b: int|
                #[trigger] depth_map.cell(a, b) == if b == y && lists(cols@.take(c as int), a)
                    && passes(*old(depth_map), vs@, a, b) {
                    depth_at(vs@, a, b).unwrap()
                } else {
                    old(depth_map).cell(a, b) as int
                },
            pixels@.len() >= base,
            pixels@.take(base) == old(pixels)@,
            forall|i: int|
                base <= i < pixels@.len() ==> (#[trigger] pixels@[i]).y == y && lists(
                    cols@.take(c as int),
                    pixels@[i].x as int,
                ) && passes(*old(depth_map), vs@, pixels@[i].x as int, y as int),
            forall|i: int, j: int| base <= i < j < pixels@.len() ==> pixels@[i].x < pixels@[j].x,
            forall|a: int|
                lists(cols@.take(c as int), a) && passes(*old(depth_map), vs@, a, y as int)
                    ==> pixels@.contains(Point { x: a as i32, y }),
        decreases cols@.len() - c,
    {
        let x = cols[c];
        let ghost seen = cols@.take(c as int);
        let ghost more = cols@.take(c + 1);
        let ghost earlier = pixels@;
        let ghost mid = *depth_map;
        proof {
            assert(more =~= seen.push(x));
            assert(!lists(seen, x as int)) by {
                if lists(seen, x as int) {
                    let w = choose|w: int| 0 <= w < seen.len() && #[trigger] seen[w] == x;
                    assert(cols@[w] < cols@[c as int]);
                }
            }
            assert forall|a: int| lists(more, a) <==> lists(seen, a) || a == x by {
                if lists(seen, a) {
                    let w = choose|w: int| 0 <= w < seen.len() && #[trigger] seen[w] == a;
                    assert(more[w] == a);
                }
                if a == x {
                    assert(more[c as int] == x);
                }
                if lists(more, a) {
                    let w = choose|w: int| 0 <= w < more.len() && #[trigger] more[w] == a;
                    if w < c {
                        assert(seen[w] == a);
                    }
                }
            }
            assert(depth_map.cell(x as int, y as int) == old(depth_map).cell(x as int, y as int));
        }
        let mut written = false;
        match point_depth(vs, x, y) {
            Some(d) => {
                match depth_map.get(x, y) {
                    Some(stored) => {
                        if stored < d {
                            depth_map.set(x, y, d);
                            pixels.push(Point { x, y });
                            written = true;
                        }
                    },
                    None => {},
                }
            },
            None => {},
        }
        proof {
            assert(written == passes(*old(depth_map), vs@, x as int, y as int));
            assert forall|a: int, b: int|
                #[trigger] depth_map.cell(a, b) == if b == y && lists(more, a) && passes(
                    *old(depth_map),
                    vs@,
                    a,
                    b,
                ) {
                    depth_at(vs@, a, b).unwrap()
                } else {
                    old(depth_map).cell(a, b) as int
                } by {
                if (a, b) != (x as int, y as int) {
                    assert(depth_map.cell(a, b) == mid.cell(a, b));
                }
            }
            assert(pixels@.take(base) =~= earlier.take(base));
            assert forall|i: int| base <= i < pixels@.len() implies (#[trigger] pixels@[i]).y == y
                && lists(more, pixels@[i].x as int) && passes(
                *old(depth_map),
                vs@,
                pixels@[i].x as int,
                y as int,
            ) by {
                if i < earlier.len() {
                    assert(pixels@[i] == earlier[i]);
                }
            }
            assert forall|i: int, j: int| base <= i < j < pixels@.len() implies pixels@[i].x
                < pixels@[j].x by {
                if j < earlier.len() {
                    assert(pixels@[i] == earlier[i] && pixels@[j] == earlier[j]);
                } else {
                    assert(pixels@[i] == earlier[i]);
                    assert(lists(seen, earlier[i].x as int));
                    let w = choose|w: int|
                        0 <= w < seen.len() && #[trigger] seen[w] == earlier[i].x as int;
                    assert(cols@[w] < cols@[c as int]);
                }
            }
            assert forall|a: int|
                lists(more, a) && passes(*old(depth_map), vs@, a, y as int) implies pixels@.contains(
                Point { x: a as i32, y },
            ) by {
                if a == x {
                    assert(pixels@[earlier.len() as int] == Point { x, y });
                } else {
                    assert(earlier.contains(Point { x: a as i32, y }));
                    let w = choose|w: int|
                        0 <= w < earlier.len() && earlier[w] == (Point { x: a as i32, y });
                    assert(pixels@[w] == earlier[w]);
                }
            }
        }
        c += 1;
    }
    assert(cols@.take(cols@.len() as int) =~= cols@);
}

/// The vertices of `vs` without their depths.
pub fn points(vs: &[(Point, i32)]) -> (ring: Vec<Point>)
    ensures
        ring@ == points_of(vs@),
{
    let mut ring: Vec<Point> = Vec::new();
    let mut i: usize = 0;
    while i < vs.len()
        invariant
            i <= vs@.len(),
            ring@ == points_of(vs@.take(i as int)),
        decreases vs@.len() - i,
    {
        let p = vs[i].0;
        ring.push(p);
        assert(vs@.take(i + 1) =~= vs@.take(i as int).push(vs@[i as int]));
        assert(ring@ =~= points_of(vs@.take(i + 1)));
        i += 1;
    }
    assert(vs@.take(vs@.len() as int) =~= vs@);
    ring
}

/// The vertices of `vs`, each moved by `by` and with its depth kept.
pub fn place_all(vs: &[(Point, i32)], by: Point) -> (out: Vec<(Point, i32)>)
    requires
        movable(points_of(vs@), by),
    ensures
        out@ == placed(vs@, by),
        points_of(out@) == moved(points_of(vs@), by),
{
    let mut out: Vec<(Point, i32)> = Vec::new();
    let mut i: usize = 0;
    while i < vs.len()
        invariant
            i <= vs@.len(),
            movable(points_of(vs@), by),
            out@ == placed(vs@.take(i as int), by),
        decreases vs@.len() - i,
    {
        let p = vs[i].0;
        let z = vs[i].1;
        assert(points_of(vs@)[i as int] == p);
        out.push((Point { x: p.x + by.x, y: p.y + by.y }, z));
        assert(vs@.take(i + 1) =~= vs@.take(i as int).push(vs@[i as int]));
        assert(out@ =~= placed(vs@.take(i + 1), by));
        i += 1;
    }
    assert(vs@.take(vs@.len() as int) =~= vs@);
    assert(points_of(out@) =~= moved(points_of(vs@), by));
    out
}

/// `r` is what is to be drawn for the polygon with the vertices `vs`,
/// already moved to where they are drawn, in `style` through the map
/// `before`, which the drawing leaves as `after`.
///
/// With a stroke width of zero it is the pixels that pass the depth test,
/// in the style's fill colour, or the error that the style names none.
/// With any other stroke width it is the closed outline. Only a fill
/// changes the map.
pub open spec fn drawn_through<C>(
    r: Result<Drawing<C>, StyleError>,
    style: Style<C>,
    vs: Seq<(Point, i32)>,
    before: DepthMap,
    after: DepthMap,
) -> bool {
    if style.stroke_width > 0 {
        &&& r matches Ok(Drawing::Outline { points }) && points@ == closed(points_of(vs))
        &&& after == before
    } else {
        match style.fill_color {
            Some(c) => r matches Ok(Drawing::Pixels { color, pixels }) && color == c && composited(
                before,
                after,
                pixels@,
                vs,
            ),
            None => (r matches Err(StyleError::MissingFillColor)) && after == before,
        }
    }
}

/// A polygon whose vertices carry depths: the closed ring through
/// `vertices`, the last joined to the first, moved by `translate` before it
/// is drawn. A greater depth is nearer to the viewer.
pub struct Polygon3d<'a> {
    pub translate: Point,
    pub vertices: &'a [(Point, i32)],
}

impl<'a> Polygon3d<'a> {
    /// The polygon through `vertices`, not moved.
    pub fn new(vertices: &'a [(Point, i32)]) -> (p: Self)
        ensures
            p.translate == (Point { x: 0, y: 0 }),
            p.vertices@ == vertices@,
    {
        Polygon3d { translate: Point::zero(), vertices }
    }

    /// The vertices where they are drawn, with their depths.
    pub open spec fn placed(&self) -> Seq<(Point, i32)> {
        placed(self.vertices@, self.translate)
    }

    /// The polygon is still on the grid where it is drawn, and has no more
    /// vertices than the depth of a pixel can be computed from.
    pub open spec fn fits(&self) -> bool {
        &&& movable(points_of(self.vertices@), self.translate)
        &&& self.vertices@.len() <= MAX_VERTICES
    }

    /// Whether the polygon can be drawn.
    pub fn on_grid(&self) -> (b: bool)
        ensures
            b == self.fits(),
    {
        if self.vertices.len() > MAX_VERTICES {
            return false;
        }
        let ring = points(self.vertices);
        can_move(ring.as_slice(), self.translate)
    }

    /// The smallest rectangle that holds every vertex, before the polygon
    /// is moved.
    pub fn bounding_box(&self) -> (r: Rectangle)
        requires
            self.vertices@.len() > 0,
        ensures
            r.top_left.x == min_x(points_of(self.vertices@)),
            r.top_left.y == min_y(points_of(self.vertices@)),
            r.width == max_x(points_of(self.vertices@)) - min_x(points_of(self.vertices@)),
            r.height == max_y(points_of(self.vertices@)) - min_y(points_of(self.vertices@)),
    {
        let ring = points(self.vertices);
        bounds(ring.as_slice())
    }

    /// The vertices where they are drawn, with their depths.
    pub fn translated(&self) -> (vs: Vec<(Point, i32)>)
        requires
            self.fits(),
        ensures
            vs@ == self.placed(),
    {
        place_all(self.vertices, self.translate)
    }

    /// The points of the outline: the vertices where they are drawn,
    /// followed by the first of them once more.
    pub fn outline(&self) -> (points: Vec<Point>)
        requires
            self.fits(),
            self.vertices@.len() > 0,
        ensures
            points@ == closed(points_of(self.placed())),
    {
        let vs = self.translated();
        let mut ring = points(vs.as_slice());
        let first = ring[0];
        ring.push(first);
        ring
    }

    /// Fills the polygon through the depth map and returns the pixels that
    /// are to be written.
    ///
    /// Every pixel that the polygon covers is given the polygon's depth at
    /// that pixel. Where the map holds a strictly smaller depth for the
    /// pixel, the pixel is written and the map takes the new depth. A pixel
    /// off the map is passed over.
    pub fn fill(&self, depth_map: &mut DepthMap) -> (pixels: Vec<Point>)
        requires
            self.fits(),
        ensures
            composited(*old(depth_map), *final(depth_map), pixels@, self.placed()),
    {
        let vs = self.translated();
        let ring = points(vs.as_slice());
        let rows = fill_ring(ring.as_slice());
        let mut pixels: Vec<Point> = Vec::new();
        let ghost top: int = if ring@.len() >= 3 {
            min_y(ring@)
        } else {
            0
        };
        let mut k: usize = 0;
        proof {
            assert forall|a: int, b: int| wins(*old(depth_map), vs@, a, b) implies top <= b by {
                lemma_covered_row(ring@, a, b);
            }
        }
        while k < rows.len()
            invariant
                k <= rows@.len(),
                filled(rows@, ring@),
                ring@ == points_of(vs@),
                vs@.len() <= MAX_VERTICES,
                top == if ring@.len() >= 3 {
                    min_y(ring@)
                } else {
                    0
                },
                depth_map.spec_width() == old(depth_map).spec_width(),
                depth_map.spec_height() == old(depth_map).spec_height(),
                forall|a: int, b: int|
                    #[trigger] depth_map.cell(a, b) == if b < top + k && wins(
                        *old(depth_map),
                        vs@,
                        a,
                        b,
                    ) {
                        depth_at(vs@, a, b).unwrap()
                    } else {
                        old(depth_map).cell(a, b) as int
                    },
                forall|i: int, j: int|
                    0 <= i < j < pixels@.len() ==> draws_before(
                        #[trigger] pixels@[i],
                        #[trigger] pixels@[j],
                    ),
                forall|i: int| 0 <= i < pixels@.len() ==> (#[trigger] pixels@[i]).y < top + k,
                forall|p: Point|
                    #[trigger] pixels@.contains(p) <==> p.y < top + k && wins(
                        *old(depth_map),
                        vs@,
                        p.x as int,
                        p.y as int,
                    ),
            decreases rows@.len() - k,
        {
            let row = &rows[k];
            let y = row.y;
            proof {
                assert(rows@[k as int].shows(ring_sides(ring@), top + k));
                lemma_spans_ordered(ring_sides(ring@), top + k);
            }
            let cols = columns_of(row);
            let ghost mid = *depth_map;
            let ghost earlier = pixels@;
            composite_row(vs.as_slice(), y, &cols, depth_map, &mut pixels);
            proof {
                assert forall|a: int|
                    passes(mid, vs@, a, y as int) == passes(*old(depth_map), vs@, a, y as int) by {
                    assert(mid.cell(a, y as int) == old(depth_map).cell(a, y as int));
                }
                assert forall|a: int| lists(cols@, a) == covered(ring@, a, y as int) by {}
                assert forall|a: int, b: int|
                    #[trigger] depth_map.cell(a, b) == if b < top + k + 1 && wins(
                        *old(depth_map),
                        vs@,
                        a,
                        b,
                    ) {
                        depth_at(vs@, a, b).unwrap()
                    } else {
                        old(depth_map).cell(a, b) as int
                    } by {
                    assert(mid.cell(a, b) == if b < top + k && wins(*old(depth_map), vs@, a, b) {
                        depth_at(vs@, a, b).unwrap()
                    } else {
                        old(depth_map).cell(a, b) as int
                    });
                    if b == y {
                        assert(passes(mid, vs@, a, y as int) == passes(
                            *old(depth_map),
                            vs@,
                            a,
                            y as int,
                        ));
                        assert(lists(cols@, a) == covered(ring@, a, y as int));
                    }
                }
                assert forall|i: int| 0 <= i < pixels@.len() implies (#[trigger] pixels@[i]).y
                    < top + k + 1 by {
                    if i < earlier.len() {
                        assert(pixels@[i] == pixels@.take(earlier.len() as int)[i]);
                    }
                }
                assert forall|i: int, j: int| 0 <= i < j < pixels@.len() implies draws_before(
                    #[trigger] pixels@[i],
                    #[trigger] pixels@[j],
                ) by {
                    if i < earlier.len() {
                        assert(pixels@[i] == pixels@.take(earlier.len() as int)[i]);
                    }
                    if j < earlier.len() {
                        assert(pixels@[j] == pixels@.take(earlier.len() as int)[j]);
                    }
                }
                assert forall|p: Point| #[trigger]
                    pixels@.contains(p) <==> p.y < top + k + 1 && wins(
                        *old(depth_map),
                        vs@,
                        p.x as int,
                        p.y as int,
                    ) by {
                    if pixels@.contains(p) {
                        let i = choose|i: int| 0 <= i < pixels@.len() && pixels@[i] == p;
                        if i < earlier.len() {
                            assert(pixels@[i] == pixels@.take(earlier.len() as int)[i]);
                            assert(earlier.contains(p));
                        } else {
                            assert(lists(cols@, p.x as int) == covered(ring@, p.x as int, y as int));
                            assert(passes(mid, vs@, p.x as int, y as int) == passes(
                                *old(depth_map),
                                vs@,
                                p.x as int,
                                y as int,
                            ));
                        }
                    }
                    if p.y < top + k + 1 && wins(*old(depth_map), vs@, p.x as int, p.y as int) {
                        if p.y < top + k {
                            assert(earlier.contains(p));
                            let i = choose|i: int| 0 <= i < earlier.len() && earlier[i] == p;
                            assert(pixels@[i] == pixels@.take(earlier.len() as int)[i]);
                        } else {
                            assert(lists(cols@, p.x as int) == covered(ring@, p.x as int, y as int));
                            assert(passes(mid, vs@, p.x as int, y as int) == passes(
                                *old(depth_map),
                                vs@,
                                p.x as int,
                                y as int,
                            ));
                            assert(p == Point { x: (p.x as int) as i32, y });
                        }
                    }
                }
            }
            k += 1;
        }
        proof {
            assert forall|a: int, b: int| wins(*old(depth_map), vs@, a, b) implies b < top + k by {
                lemma_covered_row(ring@, a, b);
            }
        }
        pixels
    }

    /// What is to be drawn for the polygon in `style`: its fill through the
    /// depth map where the stroke width is zero, its outline otherwise. A
    /// fill needs a fill colour.
    pub fn draw_styled<C: Copy>(&self, style: &Style<C>, depth_map: &mut DepthMap) -> (r: Result<
        Drawing<C>,
        StyleError,
    >)
        requires
            self.fits(),
            style.stroke_width > 0 ==> self.vertices@.len() > 0,
        ensures
            drawn_through(r, *style, self.placed(), *old(depth_map), *final(depth_map)),
    {
        if style.stroke_width == 0 {
            match style.fill_color {
                Some(color) => Ok(Drawing::Pixels { color, pixels: self.fill(depth_map) }),
                None => Err(StyleError::MissingFillColor),
            }
        } else {
            Ok(Drawing::Outline { points: self.outline() })
        }
    }
}

/// A polygon that covers a pixel has a depth there.
pub proof fn lemma_covered_has_depth(vs: Seq<(Point, i32)>, x: int, y: int)
    requires
        covered(points_of(vs), x, y),
    ensures
        depth_at(vs, x, y).is_some(),
{
    let ring = points_of(vs);
    lemma_covered_row(ring, x, y);
    lemma_extremes(ring);
    let i = choose|i: int| 0 <= i < ring.len() && (#[trigger] ring[i]).y == max_y(ring);
    assert(vs[i].0 == ring[i]);
    lemma_depth_defined(vs, x, y, i);
}

/// The depth that two polygons leave in a cell does not depend on the order
/// in which they are drawn.
pub proof fn lemma_depth_order_free(
    a: Seq<(Point, i32)>,
    b: Seq<(Point, i32)>,
    start: DepthMap,
    after_a: DepthMap,
    after_ab: DepthMap,
    after_b: DepthMap,
    after_ba: DepthMap,
    pixels_a: Seq<Point>,
    pixels_ab: Seq<Point>,
    pixels_b: Seq<Point>,
    pixels_ba: Seq<Point>,
    x: int,
    y: int,
)
    requires
        composited(start, after_a, pixels_a, a),
        composited(after_a, after_ab, pixels_ab, b),
        composited(start, after_b, pixels_b, b),
        composited(after_b, after_ba, pixels_ba, a),
    ensures
        after_ab.cell(x, y) == after_ba.cell(x, y),
{
    assert(after_a.cell(x, y) == if wins(start, a, x, y) {
        depth_at(a, x, y).unwrap()
    } else {
        start.cell(x, y) as int
    });
    assert(after_b.cell(x, y) == if wins(start, b, x, y) {
        depth_at(b, x, y).unwrap()
    } else {
        start.cell(x, y) as int
    });
    assert(after_ab.cell(x, y) == if wins(after_a, b, x, y) {
        depth_at(b, x, y).unwrap()
    } else {
        after_a.cell(x, y) as int
    });
    assert(after_ba.cell(x, y) == if wins(after_b, a, x, y) {
        depth_at(a, x, y).unwrap()
    } else {
        after_b.cell(x, y) as int
    });
    lemma_depth_between(a, x, y, i32::MIN as int, i32::MAX as int);
    lemma_depth_between(b, x, y, i32::MIN as int, i32::MAX as int);
}

/// Where two polygons both cover a pixel and every vertex of the one is
/// deeper than every vertex of the other, the deeper one shows, whichever
/// is drawn first.
///
/// Drawn second, the deeper polygon is written to the pixel exactly if it
/// would have been written when drawn first; and it is written whenever the
/// other one was written before it. Drawn first, it is never written over
/// by the other one.
pub proof fn lemma_deeper_polygon_shows(
    shallow: Seq<(Point, i32)>,
    deep: Seq<(Point, i32)>,
    start: DepthMap,
    after_shallow: DepthMap,
    after_both: DepthMap,
    after_deep: DepthMap,
    after_both_reversed: DepthMap,
    shallow_first: Seq<Point>,
    deep_second: Seq<Point>,
    deep_first: Seq<Point>,
    shallow_second: Seq<Point>,
    p: Point,
)
    requires
        composited(start, after_shallow, shallow_first, shallow),
        composited(after_shallow, after_both, deep_second, deep),
        composited(start, after_deep, deep_first, deep),
        composited(after_deep, after_both_reversed, shallow_second, shallow),
        forall|i: int, j: int|
            0 <= i < shallow.len() && 0 <= j < deep.len() ==> (#[trigger] shallow[i]).1 < (
            #[trigger] deep[j]).1,
        covered(points_of(shallow), p.x as int, p.y as int),
        covered(points_of(deep), p.x as int, p.y as int),
    ensures
        deep_second.contains(p) == deep_first.contains(p),
        shallow_first.contains(p) ==> deep_second.contains(p),
        !shallow_second.contains(p),
        after_both.cell(p.x as int, p.y as int) == after_both_reversed.cell(p.x as int, p.y as int),
{
    let x = p.x as int;
    let y = p.y as int;
    lemma_covered_has_depth(shallow, x, y);
    lemma_covered_has_depth(deep, x, y);
    let ds = depth_at(shallow, x, y).unwrap();
    let dd = depth_at(deep, x, y).unwrap();
    assert forall|j: int| 0 <= j < deep.len() implies ds + 1 <= (#[trigger] deep[j]).1 by {
        assert forall|i: int| 0 <= i < shallow.len() implies i32::MIN <= (#[trigger] shallow[i]).1
            <= deep[j].1 - 1 by {}
        lemma_depth_between(shallow, x, y, i32::MIN as int, deep[j].1 - 1);
    }
    lemma_depth_between(deep, x, y, ds + 1, i32::MAX as int);
    lemma_depth_between(shallow, x, y, i32::MIN as int, i32::MAX as int);
    assert(ds < dd);
    assert(after_shallow.cell(x, y) == if wins(start, shallow, x, y) {
        ds
    } else {
        start.cell(x, y) as int
    });
    assert(after_deep.cell(x, y) == if wins(start, deep, x, y) {
        dd
    } else {
        start.cell(x, y) as int
    });
    assert(shallow_first.contains(p) == wins(start, shallow, x, y));
    assert(deep_second.contains(p) == wins(after_shallow, deep, x, y));
    assert(deep_first.contains(p) == wins(start, deep, x, y));
    assert(shallow_second.contains(p) == wins(after_deep, shallow, x, y));
    lemma_depth_order_free(
        shallow,
        deep,
        start,
        after_shallow,
        after_both,
        after_deep,
        after_both_reversed,
        shallow_first,
        deep_second,
        deep_first,
        shallow_second,
        x,
        y,
    );
}

} // verus!
