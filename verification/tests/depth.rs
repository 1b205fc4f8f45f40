use polygon_raster::depth::point_depth;
use polygon_raster::depth_map::DepthMap;
use polygon_raster::geometry::{Point, Rectangle};
use polygon_raster::polygon_3d::{columns_of, Polygon3d};
use polygon_raster::scan::Scanline;
use polygon_raster::style::{Drawing, Style, StyleError};

fn vertices(raw: &[(i32, i32, i32)]) -> Vec<(Point, i32)> {
    raw.iter().map(|&(x, y, z)| (Point::new(x, y), z)).collect()
}

fn square(left: i32, top: i32, side: i32, depth: i32) -> Vec<(Point, i32)> {
    vertices(&[
        (left, top, depth),
        (left + side, top, depth),
        (left + side, top + side, depth),
        (left, top + side, depth),
    ])
}

fn cells(map: &DepthMap) -> Vec<Vec<Option<i32>>> {
    (0..map.height() as i32)
        .map(|y| (0..map.width() as i32).map(|x| map.get(x, y)).collect())
        .collect()
}

#[test]
fn a_new_map_holds_one_depth_everywhere() {
    let map = DepthMap::new(3, 4, 7);
    assert_eq!(map.width(), 3);
    assert_eq!(map.height(), 4);
    for x in 0..3 {
        for y in 0..4 {
            assert_eq!(map.get(x, y), Some(7));
        }
    }
}

#[test]
fn pixels_off_the_map_have_no_depth() {
    let map = DepthMap::new(3, 4, 7);
    assert_eq!(map.get(2, 3), Some(7));
    assert_eq!(map.get(3, 2), None);
    assert_eq!(map.get(0, 4), None);
    assert_eq!(map.get(-1, 0), None);
    assert_eq!(map.get(0, -1), None);
    assert_eq!(map.get(i32::MAX, i32::MAX), None);
    assert_eq!(map.get(i32::MIN, 0), None);
}

#[test]
fn a_map_without_cells_holds_nothing() {
    let map = DepthMap::new(0, 5, 1);
    assert_eq!((map.width(), map.height()), (0, 5));
    assert_eq!(map.get(0, 0), None);
}

#[test]
fn setting_a_cell_changes_that_cell_only() {
    let mut map = DepthMap::new(3, 4, 7);
    map.set(1, 2, 99);
    for x in 0..3 {
        for y in 0..4 {
            assert_eq!(map.get(x, y), Some(if (x, y) == (1, 2) { 99 } else { 7 }));
        }
    }
    assert_eq!((map.width(), map.height()), (3, 4));
}

#[test]
fn far_vertices_weigh_more() {
    let vs = vertices(&[(0, 0, 10), (4, 0, 20), (0, 4, 30)]);
    // Squared distances from (1, 1): 2, 10 and 10. (10*2 + 20*10 + 30*10) / 22 = 23.6...
    assert_eq!(point_depth(&vs, 1, 1), Some(23));
    // On the first vertex only the two others count: (20*16 + 30*16) / 32.
    assert_eq!(point_depth(&vs, 0, 0), Some(25));
}

#[test]
fn depths_are_rounded_down() {
    let vs = vertices(&[(0, 0, -10), (4, 0, -20), (0, 4, -30)]);
    assert_eq!(point_depth(&vs, 1, 1), Some(-24));
    let vs = vertices(&[(0, 0, -1), (2, 0, 0)]);
    // (-1*1 + 0*1) / 2 = -1/2.
    assert_eq!(point_depth(&vs, 1, 0), Some(-1));
    let vs = vertices(&[(0, 0, 1), (2, 0, 0)]);
    assert_eq!(point_depth(&vs, 1, 0), Some(0));
}

#[test]
fn equal_depths_give_that_depth() {
    let vs = square(0, 0, 4, 10);
    for x in -3..8 {
        for y in -3..8 {
            assert_eq!(point_depth(&vs, x, y), Some(10));
        }
    }
}

#[test]
fn a_pixel_under_every_vertex_has_no_depth() {
    assert_eq!(point_depth(&vertices(&[(1, 1, 5)]), 1, 1), None);
    assert_eq!(point_depth(&vertices(&[(1, 1, 5), (1, 1, 9)]), 1, 1), None);
    assert_eq!(point_depth(&[], 0, 0), None);
    assert_eq!(point_depth(&vertices(&[(1, 1, 5)]), 1, 2), Some(5));
}

#[test]
fn the_extreme_depths_fit() {
    let vs = vertices(&[
        (i32::MIN, i32::MIN, i32::MAX),
        (i32::MAX, i32::MAX, i32::MAX),
        (i32::MIN, i32::MAX, i32::MAX),
    ]);
    assert_eq!(point_depth(&vs, 0, 0), Some(i32::MAX));
    let vs = vertices(&[(i32::MIN, i32::MIN, i32::MIN), (i32::MAX, i32::MAX, i32::MIN)]);
    assert_eq!(point_depth(&vs, i32::MAX, i32::MIN), Some(i32::MIN));
}

#[test]
fn the_columns_of_a_row_leave_out_the_end_of_each_span() {
    let row = Scanline { y: 3, spans: vec![(-2, 1), (1, 1), (4, 6)] };
    assert_eq!(columns_of(&row), vec![-2, -1, 0, 4, 5]);
    assert!(columns_of(&Scanline { y: 0, spans: vec![] }).is_empty());
}

#[test]
fn a_square_is_written_row_by_row() {
    let vs = square(0, 0, 2, 10);
    let mut map = DepthMap::new(4, 4, 0);
    let pixels = Polygon3d::new(&vs).fill(&mut map);
    assert_eq!(
        pixels,
        vec![Point::new(0, 0), Point::new(1, 0), Point::new(0, 1), Point::new(1, 1)]
    );
    assert_eq!(
        cells(&map),
        vec![
            vec![Some(10), Some(10), Some(0), Some(0)],
            vec![Some(10), Some(10), Some(0), Some(0)],
            vec![Some(0); 4],
            vec![Some(0); 4],
        ]
    );
}

#[test]
fn an_equal_depth_does_not_pass() {
    let vs = square(0, 0, 2, 10);
    let mut map = DepthMap::new(4, 4, 10);
    assert!(Polygon3d::new(&vs).fill(&mut map).is_empty());
    let mut map = DepthMap::new(4, 4, 9);
    assert_eq!(Polygon3d::new(&vs).fill(&mut map).len(), 4);
    assert!(Polygon3d::new(&vs).fill(&mut map).is_empty());
}

#[test]
fn the_deeper_polygon_shows_whichever_is_drawn_first() {
    let shallow = square(0, 0, 4, 10);
    let deep = square(2, 2, 4, 20);
    let overlap = [Point::new(2, 2), Point::new(3, 2), Point::new(2, 3), Point::new(3, 3)];

    let mut one = DepthMap::new(8, 8, i32::MIN);
    let shallow_first = Polygon3d::new(&shallow).fill(&mut one);
    let deep_second = Polygon3d::new(&deep).fill(&mut one);
    assert_eq!(shallow_first.len(), 16);
    assert_eq!(deep_second.len(), 16);

    let mut other = DepthMap::new(8, 8, i32::MIN);
    let deep_first = Polygon3d::new(&deep).fill(&mut other);
    let shallow_second = Polygon3d::new(&shallow).fill(&mut other);
    assert_eq!(deep_first, deep_second);
    assert_eq!(shallow_second.len(), 12);

    for p in overlap {
        assert!(deep_second.contains(&p));
        assert!(deep_first.contains(&p));
        assert!(!shallow_second.contains(&p));
        assert_eq!(one.get(p.x, p.y), Some(20));
    }
    assert_eq!(cells(&one), cells(&other));
    assert_eq!(one.get(0, 0), Some(10));
    assert_eq!(one.get(5, 5), Some(20));
    assert_eq!(one.get(6, 6), Some(i32::MIN));
}

#[test]
fn a_polygon_larger_than_the_map_is_clipped() {
    let vs = square(0, 0, 4, 10);
    let mut map = DepthMap::new(3, 2, 0);
    let pixels = Polygon3d::new(&vs).fill(&mut map);
    assert_eq!(
        pixels,
        vec![
            Point::new(0, 0),
            Point::new(1, 0),
            Point::new(2, 0),
            Point::new(0, 1),
            Point::new(1, 1),
            Point::new(2, 1),
        ]
    );
    assert_eq!(cells(&map), vec![vec![Some(10); 3]; 2]);
}

#[test]
fn pixels_left_of_and_above_the_map_are_passed_over() {
    let vs = square(0, 0, 4, 10);
    let mut polygon = Polygon3d::new(&vs);
    polygon.translate = Point::new(-2, -3);
    let mut map = DepthMap::new(5, 5, 0);
    let pixels = polygon.fill(&mut map);
    assert_eq!(pixels, vec![Point::new(0, 0), Point::new(1, 0)]);
    assert_eq!(map.get(0, 0), Some(10));
    assert_eq!(map.get(1, 0), Some(10));
    assert_eq!(map.get(2, 0), Some(0));
    assert_eq!(map.get(0, 1), Some(0));
}

#[test]
fn a_polygon_far_off_the_map_changes_nothing() {
    let vs = square(1000, -1000, 10, 50);
    let mut map = DepthMap::new(4, 4, 0);
    assert!(Polygon3d::new(&vs).fill(&mut map).is_empty());
    assert_eq!(cells(&map), vec![vec![Some(0); 4]; 4]);
}

#[test]
fn depths_vary_across_a_polygon() {
    let vs = vertices(&[(0, 0, 0), (4, 0, 100), (0, 4, 0)]);
    let mut map = DepthMap::new(5, 5, -1);
    let pixels = Polygon3d::new(&vs).fill(&mut map);
    // Rows 0 to 3 hold 4, 3, 2 and 1 pixels.
    assert_eq!(pixels.len(), 10);
    // At (0, 0): 100 * 16 / (0 + 16 + 16) = 50.
    assert_eq!(map.get(0, 0), Some(50));
    // At (3, 0): 100 * 1 / (9 + 1 + 25) = 2.8...
    assert_eq!(map.get(3, 0), Some(2));
    // At (1, 1): 100 * 10 / (2 + 10 + 10) = 45.4...
    assert_eq!(map.get(1, 1), Some(45));
    assert_eq!(map.get(4, 0), Some(-1));
}

#[test]
fn fewer_than_three_vertices_write_nothing() {
    let mut map = DepthMap::new(4, 4, 0);
    assert!(Polygon3d::new(&[]).fill(&mut map).is_empty());
    assert!(Polygon3d::new(&vertices(&[(0, 0, 9), (3, 3, 9)])).fill(&mut map).is_empty());
    assert_eq!(cells(&map), vec![vec![Some(0); 4]; 4]);
}

#[test]
fn a_polygon_with_depths_is_measured_like_a_flat_one() {
    let vs = vertices(&[(10, 10, 1), (28, 10, 2), (28, 16, 3), (10, 16, 4)]);
    let polygon = Polygon3d::new(&vs);
    assert_eq!(polygon.translate, Point::zero());
    assert_eq!(
        polygon.bounding_box(),
        Rectangle { top_left: Point::new(10, 10), width: 18, height: 6 }
    );
    assert!(polygon.on_grid());
    assert_eq!(polygon.translated(), vs);
    assert_eq!(
        polygon.outline(),
        vec![
            Point::new(10, 10),
            Point::new(28, 10),
            Point::new(28, 16),
            Point::new(10, 16),
            Point::new(10, 10),
        ]
    );
}

#[test]
fn a_translation_off_the_grid_is_recognised_with_depths() {
    let vs = vertices(&[(0, 0, 1), (5, i32::MIN, 1), (0, 4, 1)]);
    let mut polygon = Polygon3d::new(&vs);
    assert!(polygon.on_grid());
    polygon.translate = Point::new(0, -1);
    assert!(!polygon.on_grid());
}

#[test]
fn a_fill_through_the_map_reports_its_pixels() {
    let vs = square(0, 0, 2, 10);
    let mut map = DepthMap::new(4, 4, 0);
    match Polygon3d::new(&vs).draw_styled(&Style::with_fill("red"), &mut map) {
        Ok(Drawing::Pixels { color, pixels }) => {
            assert_eq!(color, "red");
            assert_eq!(pixels.len(), 4);
        }
        _ => panic!("a fill was asked for"),
    }
    assert_eq!(map.get(1, 1), Some(10));
}

#[test]
fn an_outline_leaves_the_map_alone() {
    let vs = square(0, 0, 2, 10);
    let mut map = DepthMap::new(4, 4, 0);
    match Polygon3d::new(&vs).draw_styled(&Style::with_stroke("red", 1), &mut map) {
        Ok(Drawing::Outline { points }) => {
            assert_eq!(points.len(), 5);
            assert_eq!(points[4], points[0]);
        }
        _ => panic!("an outline was asked for"),
    }
    assert_eq!(cells(&map), vec![vec![Some(0); 4]; 4]);
}

#[test]
fn a_fill_through_the_map_needs_a_colour() {
    let vs = square(0, 0, 2, 10);
    let mut map = DepthMap::new(4, 4, 0);
    let style: Style<u8> = Style { fill_color: None, stroke_color: None, stroke_width: 0 };
    match Polygon3d::new(&vs).draw_styled(&style, &mut map) {
        Err(e) => assert_eq!(e, StyleError::MissingFillColor),
        Ok(_) => panic!("there is no colour to fill with"),
    }
    assert_eq!(cells(&map), vec![vec![Some(0); 4]; 4]);
}
