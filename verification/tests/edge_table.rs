use polygon_raster::edge::{Edge, EdgeTable};
use polygon_raster::geometry::Point;

fn edge(tx: i32, ty: i32, bx: i32, by: i32) -> Edge {
    Edge { top: Point::new(tx, ty), bottom: Point::new(bx, by) }
}

#[test]
fn an_edge_runs_from_its_upper_to_its_lower_end() {
    let a = Point::new(3, 9);
    let b = Point::new(8, 2);
    assert_eq!(Edge::between(a, b), Some(Edge { top: b, bottom: a }));
    assert_eq!(Edge::between(b, a), Some(Edge { top: b, bottom: a }));
}

#[test]
fn two_vertices_on_one_row_span_no_edge() {
    assert_eq!(Edge::between(Point::new(0, 5), Point::new(9, 5)), None);
    assert_eq!(Edge::between(Point::new(4, 4), Point::new(4, 4)), None);
}

#[test]
fn edges_are_ordered_by_row_then_by_column() {
    let low = edge(0, 5, 0, 9);
    assert!(edge(9, 1, 0, 2).precedes(&low));
    assert!(edge(-1, 5, 0, 6).precedes(&low));
    assert!(!edge(0, 5, 7, 6).precedes(&low));
    assert!(!edge(1, 5, 0, 6).precedes(&low));
    assert!(!edge(-5, 6, 0, 7).precedes(&low));
}

#[test]
fn insertion_keeps_the_table_ordered() {
    let mut table = EdgeTable::new();
    for e in [edge(5, 3, 0, 9), edge(1, 1, 0, 9), edge(2, 3, 0, 9), edge(9, 0, 0, 9), edge(7, 3, 0, 9)]
    {
        table.insert(e);
    }
    assert_eq!(
        table.edges,
        vec![edge(9, 0, 0, 9), edge(1, 1, 0, 9), edge(2, 3, 0, 9), edge(5, 3, 0, 9), edge(7, 3, 0, 9)]
    );
}

#[test]
fn an_edge_goes_in_front_of_those_with_the_same_upper_end() {
    let mut table = EdgeTable::new();
    table.insert(edge(4, 2, 0, 6));
    table.insert(edge(4, 2, 9, 8));
    table.insert(edge(4, 2, 5, 3));
    assert_eq!(table.edges, vec![edge(4, 2, 5, 3), edge(4, 2, 9, 8), edge(4, 2, 0, 6)]);
}

#[test]
fn the_table_of_a_ring_leaves_out_horizontal_sides() {
    let ring = [Point::new(0, 0), Point::new(4, 0), Point::new(0, 4)];
    let table = EdgeTable::from_ring(&ring);
    assert_eq!(table.edges, vec![edge(0, 0, 0, 4), edge(4, 0, 0, 4)]);
}

#[test]
fn the_table_of_a_ring_closes_it() {
    let ring = [Point::new(2, 5), Point::new(0, 0), Point::new(4, 1)];
    let table = EdgeTable::from_ring(&ring);
    assert_eq!(table.edges, vec![edge(0, 0, 4, 1), edge(0, 0, 2, 5), edge(4, 1, 2, 5)]);
}

#[test]
fn a_ring_of_two_vertices_has_an_empty_table() {
    let ring = [Point::new(0, 0), Point::new(3, 7)];
    assert!(EdgeTable::from_ring(&ring).edges.is_empty());
    assert!(EdgeTable::from_ring(&[]).edges.is_empty());
}

#[test]
fn sweeping_an_empty_table_yields_no_rows() {
    assert!(EdgeTable::new().sweep().is_empty());
}

#[test]
fn a_lone_edge_is_swept_without_a_partner() {
    let mut table = EdgeTable::new();
    table.insert(edge(0, 0, 3, 3));
    let rows = table.sweep();
    assert_eq!(rows.len(), 3);
    assert!(rows.iter().all(|row| row.spans.is_empty()));
}

#[test]
fn the_sweep_stops_at_the_first_row_that_nothing_crosses() {
    let mut table = EdgeTable::new();
    for e in [edge(0, 0, 0, 2), edge(5, 0, 5, 2), edge(0, 10, 0, 12), edge(5, 10, 5, 12)] {
        table.insert(e);
    }
    let rows = table.sweep();
    assert_eq!(rows.len(), 2);
    assert_eq!(rows[0].y, 0);
    assert_eq!(rows[1].y, 1);
    assert_eq!(rows[1].spans, vec![(0, 5)]);
}

#[test]
fn a_third_crossing_bounds_nothing() {
    let mut table = EdgeTable::new();
    for e in [edge(0, 0, 0, 2), edge(5, 0, 5, 2), edge(9, 0, 9, 1)] {
        table.insert(e);
    }
    let rows = table.sweep();
    assert_eq!(rows[0].spans, vec![(0, 5)]);
    assert_eq!(rows[1].spans, vec![(0, 5)]);
}
