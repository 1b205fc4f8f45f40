use polygon_raster::geometry::Point;
use polygon_raster::polygon::Polygon;
use polygon_raster::style::{Drawing, Style, StyleError};

fn points(raw: &[(i32, i32)]) -> Vec<Point> {
    raw.iter().map(|&(x, y)| Point::new(x, y)).collect()
}

#[test]
fn new_polygons_are_not_moved() {
    let vertices = points(&[(1, 2), (3, 4), (5, 0)]);
    let polygon = Polygon::new(&vertices);
    assert_eq!(polygon.translate, Point::zero());
    assert_eq!(polygon.vertices, &vertices[..]);
}

#[test]
fn the_outline_returns_to_its_first_vertex() {
    let vertices = points(&[(16, 20), (28, 10), (28, 16), (22, 10), (10, 10), (10, 16)]);
    let outline = Polygon::new(&vertices).outline();
    assert_eq!(outline.len(), vertices.len() + 1);
    assert_eq!(&outline[..vertices.len()], &vertices[..]);
    assert_eq!(outline[vertices.len()], vertices[0]);
    let segments: Vec<(Point, Point)> = outline.windows(2).map(|w| (w[0], w[1])).collect();
    assert_eq!(segments.len(), 6);
    assert_eq!(segments[5], (vertices[5], vertices[0]));
}

#[test]
fn the_outline_is_moved_by_the_translation() {
    let vertices = points(&[(0, 0), (4, 0), (0, 4)]);
    let mut polygon = Polygon::new(&vertices);
    polygon.translate = Point::new(-2, 10);
    assert_eq!(polygon.outline(), points(&[(-2, 10), (2, 10), (-2, 14), (-2, 10)]));
}

#[test]
fn a_stroke_width_of_zero_fills() {
    let vertices = points(&[(0, 0), (4, 0), (0, 4)]);
    match Polygon::new(&vertices).draw_styled(&Style::with_fill(7u8)) {
        Ok(Drawing::Fill { color, rows }) => {
            assert_eq!(color, 7);
            assert_eq!(rows.len(), 4);
            assert_eq!(rows[2].spans, vec![(0, 2)]);
        }
        _ => panic!("a fill was asked for"),
    }
}

#[test]
fn any_other_stroke_width_draws_the_outline() {
    let vertices = points(&[(0, 0), (4, 0), (0, 4)]);
    for width in [1, 2, 40] {
        match Polygon::new(&vertices).draw_styled(&Style::with_stroke('x', width)) {
            Ok(Drawing::Outline { points: outline }) => {
                assert_eq!(outline, points(&[(0, 0), (4, 0), (0, 4), (0, 0)]));
            }
            _ => panic!("an outline was asked for"),
        }
    }
}

#[test]
fn the_stroke_width_decides_even_with_a_fill_colour() {
    let vertices = points(&[(0, 0), (4, 0), (0, 4)]);
    let style = Style { fill_color: Some(1u8), stroke_color: Some(2u8), stroke_width: 3 };
    assert!(matches!(
        Polygon::new(&vertices).draw_styled(&style),
        Ok(Drawing::Outline { .. })
    ));
}

#[test]
fn a_fill_without_a_fill_colour_is_an_error() {
    let vertices = points(&[(0, 0), (4, 0), (0, 4)]);
    let style: Style<u8> = Style { fill_color: None, stroke_color: Some(9), stroke_width: 0 };
    match Polygon::new(&vertices).draw_styled(&style) {
        Err(e) => assert_eq!(e, StyleError::MissingFillColor),
        Ok(_) => panic!("there is no colour to fill with"),
    }
}

#[test]
fn styles_are_built_for_one_purpose() {
    let fill = Style::with_fill(5u16);
    assert_eq!((fill.fill_color, fill.stroke_color, fill.stroke_width), (Some(5), None, 0));
    let stroke = Style::with_stroke(6u16, 2);
    assert_eq!((stroke.fill_color, stroke.stroke_color, stroke.stroke_width), (None, Some(6), 2));
}
