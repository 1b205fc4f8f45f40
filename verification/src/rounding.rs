//! Rounding a fraction to the nearest integer.
use vstd::prelude::*;

verus! {

/// The integer nearest to `n / d`, for `d > 0`. A fraction halfway between
/// two integers goes to the one further from zero.
pub open spec fn round_div(n: int, d: int) -> int {
    if n >= 0 {
        (2 * n + d) / (2 * d)
    } else {
        -((d - 2 * n) / (2 * d))
    }
}

/// `round_div(n, d)` is within half a unit of `n / d`, and exactly half a
/// unit away only on the side away from zero.
pub proof fn lemma_round_div_nearest(n: int, d: int)
    requires
        d > 0,
    ensures
        -d <= 2 * (round_div(n, d) * d - n) <= d,
        n >= 0 ==> 2 * (round_div(n, d) * d - n) > -d,
        n < 0 ==> 2 * (round_div(n, d) * d - n) < d,
{
    if n >= 0 {
        let t = 2 * n + d;
        let q = t / (2 * d);
        assert(q * (2 * d) <= t < (q + 1) * (2 * d)) by (nonlinear_arith)
            requires
                d > 0,
                q == t / (2 * d),
        ;
        assert(q * (2 * d) == 2 * (q * d)) by (nonlinear_arith);
        assert((q + 1) * (2 * d) == 2 * (q * d) + 2 * d) by (nonlinear_arith);
    } else {
        let t = d - 2 * n;
        let q = t / (2 * d);
        assert(q * (2 * d) <= t < (q + 1) * (2 * d)) by (nonlinear_arith)
            requires
                d > 0,
                q == t / (2 * d),
        ;
        assert(q * (2 * d) == 2 * (q * d)) by (nonlinear_arith);
        assert((q + 1) * (2 * d) == 2 * (q * d) + 2 * d) by (nonlinear_arith);
        assert((-q) * d == -(q * d)) by (nonlinear_arith);
    }
}

/// Rounding keeps a fraction inside any integer interval that holds it.
pub proof fn lemma_round_div_between(n: int, d: int, lo: int, hi: int)
    requires
        d > 0,
        lo * d <= n <= hi * d,
    ensures
        lo <= round_div(n, d) <= hi,
{
    lemma_round_div_nearest(n, d);
    let r = round_div(n, d);
    // 2 r d <= 2 n + d <= 2 hi d + d  <  2 (hi + 1) d
    assert(r <= hi) by (nonlinear_arith)
        requires
            d > 0,
            2 * (r * d - n) <= d,
            n <= hi * d,
    ;
    assert(lo <= r) by (nonlinear_arith)
        requires
            d > 0,
            -d <= 2 * (r * d - n),
            lo * d <= n,
    ;
}

/// Rounding keeps the order of two fractions: of `a / d` and `b / e`, the
/// smaller never rounds to the greater integer.
pub proof fn lemma_round_div_monotone(a: int, d: int, b: int, e: int)
    requires
        d > 0,
        e > 0,
        a * e <= b * d,
    ensures
        round_div(a, d) <= round_div(b, e),
{
    let r = round_div(a, d);
    let s = round_div(b, e);
    lemma_round_div_nearest(a, d);
    lemma_round_div_nearest(b, e);
    if r > s {
        // a / d >= r - 1/2 >= s + 1/2 >= b / e, so all of them are equal.
        assert(2 * (a * e) >= (2 * s + 1) * (d * e)) by (nonlinear_arith)
            requires
                2 * (r * d - a) <= d,
                r >= s + 1,
                d > 0,
                e > 0,
        ;
        assert(2 * (b * d) <= (2 * s + 1) * (d * e)) by (nonlinear_arith)
            requires
                -e <= 2 * (s * e - b),
                d > 0,
                e > 0,
        ;
        if a < 0 {
            assert(2 * (a * e) > (2 * s + 1) * (d * e)) by (nonlinear_arith)
                requires
                    2 * (r * d - a) < d,
                    r >= s + 1,
                    d > 0,
                    e > 0,
            ;
        } else if b >= 0 {
            assert(2 * (b * d) < (2 * s + 1) * (d * e)) by (nonlinear_arith)
                requires
                    -e < 2 * (s * e - b),
                    d > 0,
                    e > 0,
            ;
        } else {
            assert(a * e >= 0 && b * d < 0) by (nonlinear_arith)
                requires
                    a >= 0,
                    b < 0,
                    d > 0,
                    e > 0,
            ;
        }
    }
}

/// A whole number rounds to itself.
pub proof fn lemma_round_div_whole(k: int, d: int)
    requires
        d > 0,
    ensures
        round_div(k * d, d) == k,
{
    lemma_round_div_between(k * d, d, k, k);
}

/// Computes `round_div` on machine integers.
pub fn round_div_exec(n: i128, d: i128) -> (r: i128)
    requires
        0 < d < 0x1_0000_0000,
        -0x1_0000_0000_0000_0000 < n < 0x1_0000_0000_0000_0000,
    ensures
        r == round_div(n as int, d as int),
{
    if n >= 0 {
        (2 * n + d) / (2 * d)
    } else {
        let q: i128 = (d - 2 * n) / (2 * d);
        assert(0 <= q <= d - 2 * n) by (nonlinear_arith)
            requires
                d > 0,
                d - 2 * n >= 0,
                q == (d - 2 * n) / (2 * d),
        ;
        -q
    }
}

} // verus!
