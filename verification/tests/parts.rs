use polygon_raster::depth_map::DepthMap;
use polygon_raster::geometry::{Point, Rectangle};
use polygon_raster::polygon::{bounds, can_move, fill_ring, move_all};
use polygon_raster::polygon_3d::{composite_row, place_all, points};
use polygon_raster::rounding::round_div_exec;

#[test]
fn fractions_round_to_the_nearest_integer() {
    assert_eq!(round_div_exec(0, 5), 0);
    assert_eq!(round_div_exec(7, 1), 7);
    assert_eq!(round_div_exec(-7, 1), -7);
    assert_eq!(round_div_exec(1, 3), 0);
    assert_eq!(round_div_exec(2, 3), 1);
    assert_eq!(round_div_exec(-1, 3), 0);
    assert_eq!(round_div_exec(-2, 3), -1);
    assert_eq!(round_div_exec(10, 4), 3);
    assert_eq!(round_div_exec(9, 4), 2);
    assert_eq!(round_div_exec(11, 4), 3);
}

#[test]
fn a_half_rounds_away_from_zero() {
    assert_eq!(round_div_exec(1, 2), 1);
    assert_eq!(round_div_exec(3, 2), 2);
    assert_eq!(round_div_exec(-1, 2), -1);
    assert_eq!(round_div_exec(-3, 2), -2);
    assert_eq!(round_div_exec(5, 10), 1);
    assert_eq!(round_div_exec(-25, 10), -3);
}

#[test]
fn rounding_copes_with_the_widest_edge() {
    let rise: i128 = 0xffff_ffff;
    assert_eq!(round_div_exec(i32::MAX as i128 * rise, rise), i32::MAX as i128);
    assert_eq!(round_div_exec(i32::MIN as i128 * rise, rise), i32::MIN as i128);
    assert_eq!(round_div_exec(i32::MIN as i128 * rise + rise / 2, rise), i32::MIN as i128);
    assert_eq!(round_div_exec(i32::MIN as i128 * rise + rise / 2 + 1, rise), i32::MIN as i128 + 1);
}

#[test]
fn vertices_move_together() {
    let ring = [Point::new(1, 2), Point::new(-3, 4)];
    assert!(can_move(&ring, Point::new(10, -10)));
    assert_eq!(move_all(&ring, Point::new(10, -10)), vec![Point::new(11, -8), Point::new(7, -6)]);
    assert!(!can_move(&ring, Point::new(i32::MIN, 0)));
    assert!(can_move(&ring, Point::new(i32::MAX - 1, i32::MAX - 4)));
    assert!(!can_move(&ring, Point::new(i32::MAX - 1, i32::MAX - 3)));
    assert!(can_move(&[], Point::new(i32::MAX, i32::MIN)));
    assert!(move_all(&[], Point::new(5, 5)).is_empty());
}

#[test]
fn the_bounds_hold_every_vertex() {
    let ring = [Point::new(4, -2), Point::new(-1, 7), Point::new(3, 3), Point::new(0, 0)];
    assert_eq!(bounds(&ring), Rectangle { top_left: Point::new(-1, -2), width: 5, height: 9 });
}

#[test]
fn a_ring_is_filled_where_it_stands() {
    let ring = [Point::new(2, 1), Point::new(5, 1), Point::new(5, 3), Point::new(2, 3)];
    let rows = fill_ring(&ring);
    assert_eq!(rows.len(), 2);
    assert_eq!((rows[0].y, rows[1].y), (1, 2));
    assert_eq!(rows[0].spans, vec![(2, 5)]);
    assert_eq!(rows[1].spans, vec![(2, 5)]);
}

#[test]
fn depths_stay_with_their_vertices() {
    let vs = [(Point::new(1, 2), 30), (Point::new(-3, 4), -7)];
    assert_eq!(points(&vs), vec![Point::new(1, 2), Point::new(-3, 4)]);
    assert_eq!(
        place_all(&vs, Point::new(1, 1)),
        vec![(Point::new(2, 3), 30), (Point::new(-2, 5), -7)]
    );
}

#[test]
fn a_row_is_drawn_through_the_map_column_by_column() {
    let vs = [(Point::new(0, 0), 5), (Point::new(9, 9), 5)];
    let mut map = DepthMap::new(4, 2, 0);
    map.set(1, 1, 5);
    map.set(2, 1, 6);
    let mut pixels = vec![Point::new(7, 0)];
    composite_row(&vs, 1, &vec![-1, 0, 1, 2, 3, 4], &mut map, &mut pixels);
    assert_eq!(pixels, vec![Point::new(7, 0), Point::new(0, 1), Point::new(3, 1)]);
    assert_eq!(
        (0..4).map(|x| map.get(x, 1)).collect::<Vec<_>>(),
        vec![Some(5), Some(5), Some(6), Some(5)]
    );
    assert_eq!((0..4).map(|x| map.get(x, 0)).collect::<Vec<_>>(), vec![Some(0); 4]);
}
