use polygon_raster::depth_map::DepthMap;
use polygon_raster::geometry::Point;
use polygon_raster::polygon::Polygon;
use polygon_raster::polygon_3d::Polygon3d;

/// A small generator of numbers that look random and are the same on every run.
struct Dice(u64);

impl Dice {
    fn next(&mut self, from: i32, to: i32) -> i32 {
        self.0 = self.0.wrapping_mul(6364136223846793005).wrapping_add(1442695040888963407);
        from + ((self.0 >> 33) % (to - from) as u64) as i32
    }
}

/// The columns where the ring crosses row `y`, each taken from the two ends
/// of its side and not from the row above.
fn crossings(ring: &[Point], y: i32) -> Vec<i32> {
    let mut xs = Vec::new();
    for i in 0..ring.len() {
        let a = ring[i];
        let b = ring[(i + 1) % ring.len()];
        let (top, bottom) = if a.y < b.y { (a, b) } else { (b, a) };
        if top.y <= y && y < bottom.y {
            let x = top.x as f64
                + (y - top.y) as f64 * (bottom.x - top.x) as f64 / (bottom.y - top.y) as f64;
            xs.push(x.round() as i32);
        }
    }
    xs.sort();
    xs
}

#[test]
fn test_random_shapes() {
    let mut dice = Dice(100 * 75);
    for _ in 0..200 {
        let mut points = Vec::new();
        for _ in 0..4 {
            points.push(Point::new(dice.next(10, 90), dice.next(10, 65)));
        }
        let rows = Polygon::new(&points).fill();
        let top = points.iter().map(|p| p.y).min().unwrap();
        let bottom = points.iter().map(|p| p.y).max().unwrap();
        assert_eq!(rows.len() as i32, bottom - top);
        for (k, row) in rows.iter().enumerate() {
            assert_eq!(row.y, top + k as i32);
            let xs = crossings(&points, row.y);
            assert_eq!(xs.len() % 2, 0);
            let expected: Vec<(i32, i32)> = xs.chunks(2).map(|c| (c[0], c[1])).collect();
            assert_eq!(row.spans, expected);
            for &(start, end) in &row.spans {
                assert!(10 <= start && start <= end && end < 90);
            }
        }
    }
}

#[test]
fn lib_test_random_shapes() {
    let mut dice = Dice(255);
    let mut map = DepthMap::new(100, 75, i32::MIN);
    let mut mirror = vec![vec![i32::MIN; 75]; 100];
    for _ in 0..60 {
        let mut vertices = Vec::new();
        for _ in 0..4 {
            vertices.push((
                Point::new(dice.next(-10, 110), dice.next(-10, 85)),
                dice.next(-1000, 1000),
            ));
        }
        let points: Vec<Point> = vertices.iter().map(|v| v.0).collect();
        let top = points.iter().map(|p| p.y).min().unwrap();
        let bottom = points.iter().map(|p| p.y).max().unwrap();
        let mut expected = Vec::new();
        for y in top..bottom {
            for pair in crossings(&points, y).chunks(2) {
                for x in pair[0]..pair[1] {
                    if x < 0 || y < 0 || x >= 100 || y >= 75 {
                        continue;
                    }
                    let mut sum = 0i64;
                    let mut weighted = 0i64;
                    for (v, depth) in &vertices {
                        let d = ((v.x - x) as i64).pow(2) + ((v.y - y) as i64).pow(2);
                        sum += d;
                        weighted += *depth as i64 * d;
                    }
                    let depth = weighted.div_euclid(sum) as i32;
                    if mirror[x as usize][y as usize] < depth {
                        mirror[x as usize][y as usize] = depth;
                        expected.push(Point::new(x, y));
                    }
                }
            }
        }
        let pixels = Polygon3d::new(&vertices).fill(&mut map);
        assert_eq!(pixels, expected);
        for x in 0..100 {
            for y in 0..75 {
                assert_eq!(map.get(x, y), Some(mirror[x as usize][y as usize]));
            }
        }
    }
}
