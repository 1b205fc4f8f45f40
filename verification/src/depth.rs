//! The depth of a pixel inside a polygon whose vertices carry depths.
use vstd::prelude::*;
use vstd::arithmetic::div_mod::{lemma_fundamental_div_mod, lemma_fundamental_div_mod_converse};
use crate::geometry::Point;

verus! {

/// The most vertices that a polygon with depths may have, so that the sums
/// below fit the machine's widest integers.
pub const MAX_VERTICES: usize = 0x7fff_ffff;

/// The square of the distance between `p` and the pixel in column `x` of
/// row `y`.
pub open spec fn dist2(p: Point, x: int, y: int) -> int {
    (p.x - x) * (p.x - x) + (p.y - y) * (p.y - y)
}

/// The sum of the squared distances between the pixel and every vertex.
pub open spec fn weight_sum(vs: Seq<(Point, i32)>, x: int, y: int) -> int
    decreases vs.len(),
{
    if vs.len() == 0 {
        0
    } else {
        weight_sum(vs.drop_last(), x, y) + dist2(vs.last().0, x, y)
    }
}

/// The sum over every vertex of its depth times its squared distance to
/// the pixel.
pub open spec fn depth_sum(vs: Seq<(Point, i32)>, x: int, y: int) -> int
    decreases vs.len(),
{
    if vs.len() == 0 {
        0
    } else {
        depth_sum(vs.drop_last(), x, y) + vs.last().1 * dist2(vs.last().0, x, y)
    }
}

/// The depth of the pixel in column `x` of row `y`.
///
/// Every vertex contributes its depth with a weight: its squared distance
/// to the pixel, over the sum of the squared distances of all vertices. A
/// vertex further from the pixel so weighs more. The sum of the
/// contributions is rounded down to a whole depth. Where every vertex lies
/// on the pixel there are no weights, and the pixel has no depth.
pub open spec fn depth_at(vs: Seq<(Point, i32)>, x: int, y: int) -> Option<int> {
    if weight_sum(vs, x, y) == 0 {
        None
    } else {
        Some(depth_sum(vs, x, y) / weight_sum(vs, x, y))
    }
}

/// A quotient rounded down lies in every integer interval that holds the
/// fraction.
pub proof fn lemma_div_between(n: int, d: int, lo: int, hi: int)
    requires
        d > 0,
        lo * d <= n <= hi * d,
    ensures
        lo <= n / d <= hi,
{
    lemma_fundamental_div_mod(n, d);
    let q = n / d;
    let r = n % d;
    assert(0 <= r < d) by (nonlinear_arith)
        requires
            d > 0,
            r == n % d,
    ;
    assert(q <= hi) by (nonlinear_arith)
        requires
            d > 0,
            n == d * q + r,
            0 <= r,
            n <= hi * d,
    ;
    assert(lo <= q) by (nonlinear_arith)
        requires
            d > 0,
            n == d * q + r,
            r < d,
            lo * d <= n,
    ;
}

/// The depth of a pixel lies between the least and the greatest depth of
/// the vertices.
pub proof fn lemma_depth_between(vs: Seq<(Point, i32)>, x: int, y: int, lo: int, hi: int)
    requires
        forall|i: int| 0 <= i < vs.len() ==> lo <= (#[trigger] vs[i]).1 <= hi,
    ensures
        weight_sum(vs, x, y) >= 0,
        lo * weight_sum(vs, x, y) <= depth_sum(vs, x, y) <= hi * weight_sum(vs, x, y),
        depth_at(vs, x, y) matches Some(d) ==> lo <= d <= hi,
    decreases vs.len(),
{
    if vs.len() > 0 {
        let rest = vs.drop_last();
        assert forall|i: int| 0 <= i < rest.len() implies lo <= (#[trigger] rest[i]).1 <= hi by {
            assert(rest[i] == vs[i]);
        }
        lemma_depth_between(rest, x, y, lo, hi);
        let d = dist2(vs.last().0, x, y);
        let z = vs.last().1 as int;
        assert(lo <= z <= hi);
        let dx = vs.last().0.x - x;
        let dy = vs.last().0.y - y;
        assert(dx * dx + dy * dy >= 0) by (nonlinear_arith);
        assert(lo * d <= z * d <= hi * d) by (nonlinear_arith)
            requires
                d >= 0,
                lo <= z <= hi,
        ;
        let w = weight_sum(rest, x, y);
        assert(lo * (w + d) == lo * w + lo * d) by (nonlinear_arith);
        assert(hi * (w + d) == hi * w + hi * d) by (nonlinear_arith);
    } else {
        assert(lo * 0 == 0 && hi * 0 == 0);
    }
    if weight_sum(vs, x, y) != 0 {
        lemma_div_between(depth_sum(vs, x, y), weight_sum(vs, x, y), lo, hi);
    }
}

/// A vertex away from the pixel gives the pixel a depth.
pub proof fn lemma_depth_defined(vs: Seq<(Point, i32)>, x: int, y: int, i: int)
    requires
        0 <= i < vs.len(),
        vs[i].0.x != x || vs[i].0.y != y,
    ensures
        weight_sum(vs, x, y) > 0,
        depth_at(vs, x, y).is_some(),
    decreases vs.len(),
{
    let rest = vs.drop_last();
    lemma_depth_between(rest, x, y, i32::MIN as int, i32::MAX as int);
    let dx = vs.last().0.x - x;
    let dy = vs.last().0.y - y;
    assert(dx * dx + dy * dy >= 0) by (nonlinear_arith);
    if i == vs.len() - 1 {
        assert(dx * dx + dy * dy > 0) by (nonlinear_arith)
            requires
                dx != 0 || dy != 0,
        ;
    } else {
        assert(rest[i] == vs[i]);
        lemma_depth_defined(rest, x, y, i);
    }
}

/// Computes `depth_at` on machine integers.
pub fn point_depth(vs: &[(Point, i32)], x: i32, y: i32) -> (depth: Option<i32>)
    requires
        vs@.len() <= MAX_VERTICES,
    ensures
        depth_at(vs@, x as int, y as int) == match depth {
            Some(d) => Some(d as int),
            None => None,
        },
{
    let mut num: i128 = 0;
    let mut den: i128 = 0;
    let mut i: usize = 0;
    while i < vs.len()
        invariant
            i <= vs@.len() <= MAX_VERTICES,
            den == weight_sum(vs@.take(i as int), x as int, y as int),
            num == depth_sum(vs@.take(i as int), x as int, y as int),
            0 <= den <= i * 0x2_0000_0000_0000_0000,
            -(i * 0x1_0000_0000_0000_0000_0000_0000) <= num <= i
                * 0x1_0000_0000_0000_0000_0000_0000,
            -0x8000_0000 * den <= num <= 0x7fff_ffff * den,
        decreases vs@.len() - i,
    {
        let p = vs[i].0;
        let z: i128 = vs[i].1 as i128;
        let dx: i128 = p.x as i128 - x as i128;
        let dy: i128 = p.y as i128 - y as i128;
        assert(0 <= dx * dx <= 0x1_0000_0000_0000_0000) by (nonlinear_arith)
            requires
                -0x1_0000_0000 <= dx <= 0x1_0000_0000,
        ;
        assert(0 <= dy * dy <= 0x1_0000_0000_0000_0000) by (nonlinear_arith)
            requires
                -0x1_0000_0000 <= dy <= 0x1_0000_0000,
        ;
        let d: i128 = dx * dx + dy * dy;
        assert(-0x1_0000_0000_0000_0000_0000_0000 <= z * d <= 0x1_0000_0000_0000_0000_0000_0000
            && -0x8000_0000 * d <= z * d <= 0x7fff_ffff * d) by (nonlinear_arith)
            requires
                0 <= d <= 0x2_0000_0000_0000_0000,
                -0x8000_0000 <= z <= 0x7fff_ffff,
        ;
        proof {
            assert(vs@.take(i + 1).drop_last() =~= vs@.take(i as int));
            assert(vs@.take(i + 1).last() == vs@[i as int]);
        }
        num = num + z * d;
        den = den + d;
        i += 1;
    }
    assert(vs@.take(vs@.len() as int) =~= vs@);
    if den == 0 {
        None
    } else {
        proof {
            lemma_div_between(num as int, den as int, -0x8000_0000, 0x7fff_ffff);
        }
        if num >= 0 {
            Some((num / den) as i32)
        } else {
            // Rounds down where the machine's division rounds towards zero.
            let up: i128 = (den - 1 - num) / den;
            proof {
                let m = den - 1 - num;
                lemma_fundamental_div_mod(m, den as int);
                let r = m % (den as int);
                assert(0 <= r < den) by (nonlinear_arith)
                    requires
                        den > 0,
                        r == m % (den as int),
                ;
                assert(num == (-up) * den + (den - 1 - r)) by (nonlinear_arith)
                    requires
                        den - 1 - num == den * up + r,
                ;
                lemma_fundamental_div_mod_converse(num as int, den as int, -up, den - 1 - r);
            }
            Some((-up) as i32)
        }
    }
}

} // verus!
