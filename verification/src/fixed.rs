//! Fixed-point numbers.
//!
//! Song times, grid coordinates, speeds and percentages are held as whole
//! numbers of millionths in an `i64`: 80 ms is `80_000_000`, half a cell is
//! `500_000`, a speed of 1.45 is `1_450_000`.

use vstd::prelude::*;

verus! {

/// One whole unit.
pub const ONE: i64 = 1_000_000;

/// The largest coordinate that distances and positions in between are worked out for, in millionths.
pub const COORDINATE_LIMIT: i64 = 1_000_000_000_000_000_000;

/// The absolute value.
pub open spec fn magnitude(x: int) -> int {
    if x < 0 {
        -x
    } else {
        x
    }
}

/// The smaller of two numbers.
pub open spec fn lesser(a: int, b: int) -> int {
    if a < b {
        a
    } else {
        b
    }
}

/// The larger of two numbers.
pub open spec fn greater(a: int, b: int) -> int {
    if a > b {
        a
    } else {
        b
    }
}

/// `x` limited to the range from `lo` to `hi`.
pub open spec fn within(x: int, lo: int, hi: int) -> int {
    if x < lo {
        lo
    } else if x > hi {
        hi
    } else {
        x
    }
}

/// `n / d` to the nearest whole number, halves to the even one. For `n >= 0` and
/// `d > 0`.
pub open spec fn nearest_even(n: int, d: int) -> int {
    let q = n / d;
    let r = n % d;
    if 2 * r < d || (2 * r == d && q % 2 == 0) {
        q
    } else {
        q + 1
    }
}

/// `n / d` to the nearest whole number, halves away from zero. For `d > 0`.
pub open spec fn nearest(n: int, d: int) -> int {
    if n >= 0 {
        (2 * n + d) / (2 * d)
    } else {
        -((2 * -n + d) / (2 * d))
    }
}

/// The value at `part` of the `whole` way from `a` to `b`.
pub open spec fn between(a: int, b: int, part: int, whole: int) -> int {
    a + nearest((b - a) * part, whole)
}

/// `n / d` to the nearest whole number, halves to the even one.
pub fn div_nearest_even(n: u128, d: u128) -> (q: u128)
    requires
        0 < d < 0x4000_0000_0000_0000_0000_0000_0000_0000,
        n < 0x4000_0000_0000_0000_0000_0000_0000_0000,
    ensures
        q == nearest_even(n as int, d as int),
        q <= n + 1,
{
    let q: u128 = n / d;
    let r: u128 = n % d;
    assert(q <= n && r < d) by (nonlinear_arith)
        requires
            q == n / d,
            r == n % d,
            d > 0,
            n >= 0,
    ;
    if 2 * r < d || (2 * r == d && q % 2 == 0) {
        q
    } else {
        q + 1
    }
}

/// `n / d` to the nearest whole number, halves away from zero.
pub fn div_nearest(n: i128, d: i128) -> (q: i128)
    requires
        0 < d < 0x1000_0000_0000_0000_0000_0000_0000_0000,
        -0x3000_0000_0000_0000_0000_0000_0000_0000 < n
            < 0x3000_0000_0000_0000_0000_0000_0000_0000,
    ensures
        q == nearest(n as int, d as int),
        magnitude(q as int) <= magnitude(n as int),
{
    proof {
        lemma_nearest_bound(n as int, d as int);
    }
    if n >= 0 {
        (2 * n + d) / (2 * d)
    } else {
        -((2 * -n + d) / (2 * d))
    }
}

/// Rounding a quotient never takes it further from zero than the dividend.
pub proof fn lemma_nearest_bound(n: int, d: int)
    requires
        d > 0,
    ensures
        magnitude(nearest(n, d)) <= magnitude(n),
        n >= 0 ==> nearest(n, d) >= 0,
        n <= 0 ==> nearest(n, d) <= 0,
{
    let m = magnitude(n);
    assert(0 <= (2 * m + d) / (2 * d) <= m) by (nonlinear_arith)
        requires
            d > 0,
            m >= 0,
    {
        if m == 0 {
            assert(d / (2 * d) == 0) by (nonlinear_arith)
                requires
                    d > 0,
            ;
        } else {
            assert(2 * m + d < (m + 1) * (2 * d)) by (nonlinear_arith)
                requires
                    d >= 1,
                    m >= 1,
            ;
        }
    }
}

/// A point of the straight line from `a` to `b`.
pub fn interpolate(a: i64, b: i64, part: i128, whole: i128) -> (r: i128)
    requires
        magnitude(a as int) <= COORDINATE_LIMIT,
        magnitude(b as int) <= COORDINATE_LIMIT,
        0 <= part <= whole,
        0 < whole <= 0xffff_ffff_ffff_ffff,
    ensures
        r == between(a as int, b as int, part as int, whole as int),
        magnitude(r as int) <= 3 * COORDINATE_LIMIT,
{
    let d: i128 = b as i128 - a as i128;
    let ghost k = magnitude(d as int);
    assert(-(2_000_000_000_000_000_000 * 0xffff_ffff_ffff_ffff) <= d * part
        <= 2_000_000_000_000_000_000 * 0xffff_ffff_ffff_ffff) by (nonlinear_arith)
        requires
            -2_000_000_000_000_000_000 <= d <= 2_000_000_000_000_000_000,
            0 <= part <= 0xffff_ffff_ffff_ffff,
    ;
    proof {
        lemma_part_is_smaller(d as int, part as int, whole as int);
    }
    let q: i128 = div_nearest(d * part, whole);
    a as i128 + q
}

/// A part of a distance is no larger than the distance.
pub proof fn lemma_part_is_smaller(d: int, part: int, whole: int)
    requires
        0 <= part <= whole,
        0 < whole,
    ensures
        magnitude(nearest(d * part, whole)) <= magnitude(d),
{
    let k = magnitude(d);
    let m = k * part;
    assert(magnitude(d * part) == m) by (nonlinear_arith)
        requires
            m == magnitude(d) * part,
            0 <= part,
    ;
    assert(0 <= m && (2 * m + whole) / (2 * whole) <= k) by (nonlinear_arith)
        requires
            m == k * part,
            0 <= part <= whole,
            0 < whole,
            0 <= k,
    {
        assert(2 * m + whole < (k + 1) * (2 * whole)) by (nonlinear_arith)
            requires
                m == k * part,
                0 <= part <= whole,
                0 < whole,
                0 <= k,
        ;
    }
    assert((2 * m + whole) / (2 * whole) >= 0) by (nonlinear_arith)
        requires
            0 <= m,
            0 < whole,
    ;
}

/// Rounding goes to the closest whole number, and from the middle away from zero.
pub proof fn law_rounding_is_closest(n: int, d: int)
    requires
        d > 0,
    ensures
        2 * magnitude(d * nearest(n, d) - n) <= d,
        2 * magnitude(d * nearest(n, d) - n) == d ==> magnitude(d * nearest(n, d)) > magnitude(n),
{
    let m = magnitude(n);
    let q = (2 * m + d) / (2 * d);
    let r = (2 * m + d) % (2 * d);
    assert(2 * m + d == (2 * d) * q + r && 0 <= r < 2 * d) by (nonlinear_arith)
        requires
            d > 0,
            q == (2 * m + d) / (2 * d),
            r == (2 * m + d) % (2 * d),
    ;
    assert((2 * d) * q == 2 * (d * q)) by (nonlinear_arith);
    assert(d * (-q) == -(d * q)) by (nonlinear_arith);
    assert(d * q >= 0) by (nonlinear_arith)
        requires
            d > 0,
            q >= 0,
    ;
    lemma_nearest_bound(n, d);
}

/// Rounding keeps order.
pub proof fn law_rounding_is_monotone(m: int, n: int, d: int)
    requires
        d > 0,
        m <= n,
    ensures
        nearest(m, d) <= nearest(n, d),
{
    law_rounding_is_closest(m, d);
    law_rounding_is_closest(n, d);
    let (p, q) = (nearest(m, d), nearest(n, d));
    if p > q {
        assert(d * p >= d * q + d) by (nonlinear_arith)
            requires
                p >= q + 1,
                d > 0,
        ;
        assert(m == n);
    }
}

/// Whole numbers pass through a rounding.
pub proof fn law_rounding_keeps_whole_numbers(k: int, n: int, d: int)
    requires
        d > 0,
    ensures
        nearest(d * k, d) == k,
        n >= 0 && k >= 0 ==> nearest(n + d * k, d) == nearest(n, d) + k,
{
    law_rounding_is_closest(d * k, d);
    let p = nearest(d * k, d);
    assert(p == k) by (nonlinear_arith)
        requires
            2 * magnitude(d * p - d * k) <= d,
            d > 0,
    ;
    if n >= 0 && k >= 0 {
        assert(d * k >= 0) by (nonlinear_arith)
            requires
                d > 0,
                k >= 0,
        ;
        let a = 2 * n + d;
        assert(2 * (n + d * k) + d == a + (2 * d) * k) by (nonlinear_arith)
            requires
                a == 2 * n + d,
        ;
        vstd::arithmetic::div_mod::lemma_div_multiples_vanish_fancy(k, a % (2 * d), 2 * d);
        vstd::arithmetic::div_mod::lemma_fundamental_div_mod(a, 2 * d);
        let (q, r) = (a / (2 * d), a % (2 * d));
        assert(a + (2 * d) * k == (q + k) * (2 * d) + r) by (nonlinear_arith)
            requires
                a == (2 * d) * q + r,
        ;
        assert(0 <= r < 2 * d);
        vstd::arithmetic::div_mod::lemma_fundamental_div_mod_converse(
            a + (2 * d) * k,
            2 * d,
            q + k,
            r,
        );
    }
}

/// A point of a straight line starts at the one end, comes to the other, and lies in between.
pub proof fn law_lines_join_their_ends(a: int, b: int, part: int, whole: int)
    requires
        whole > 0,
        0 <= part <= whole,
    ensures
        between(a, b, 0, whole) == a,
        between(a, b, whole, whole) == b,
        a <= b ==> a <= between(a, b, part, whole) <= b,
        b <= a ==> b <= between(a, b, part, whole) <= a,
        between(b, a, whole - part, whole) - between(a, b, part, whole) <= 1,
        between(a, b, part, whole) - between(b, a, whole - part, whole) <= 1,
{
    let d = b - a;
    assert(d * 0 == 0 && d * whole == whole * d) by (nonlinear_arith);
    law_rounding_keeps_whole_numbers(d, 0, whole);
    law_rounding_keeps_whole_numbers(0, 0, whole);
    assert(whole * 0 == 0) by (nonlinear_arith);
    lemma_part_is_smaller(d, part, whole);
    lemma_nearest_bound(d * part, whole);
    assert(d >= 0 ==> d * part >= 0) by (nonlinear_arith)
        requires
            part >= 0,
    ;
    assert(d <= 0 ==> d * part <= 0) by (nonlinear_arith)
        requires
            part >= 0,
    ;
    law_rounding_is_closest(d * part, whole);
    law_rounding_is_closest((a - b) * (whole - part), whole);
    let (p, q) = (nearest(d * part, whole), nearest((a - b) * (whole - part), whole));
    assert((a - b) * (whole - part) == d * part - whole * d) by (nonlinear_arith)
        requires
            d == b - a,
    ;
    assert(whole * (q + d - p) == whole * q + whole * d - whole * p) by (nonlinear_arith);
    let e = q + d - p;
    assert(-1 <= e <= 1) by (nonlinear_arith)
        requires
            magnitude(whole * e) <= whole,
            whole > 0,
    ;
}

/// Rounding half to even is off by no more than half a unit too, and of two numbers as close takes
/// the even one.
pub proof fn law_rounding_to_even_is_closest(n: int, d: int)
    requires
        d > 0,
    ensures
        2 * magnitude(d * nearest_even(n, d) - n) <= d,
        2 * magnitude(d * nearest_even(n, d) - n) == d ==> nearest_even(n, d) % 2 == 0,
        n >= 0 ==> nearest_even(n, d) >= 0,
{
    let (q, r) = (n / d, n % d);
    vstd::arithmetic::div_mod::lemma_fundamental_div_mod(n, d);
    vstd::arithmetic::div_mod::lemma_mod_bound(n, d);
    assert(d * (q + 1) == d * q + d) by (nonlinear_arith);
    if n >= 0 {
        vstd::arithmetic::div_mod::lemma_div_pos_is_pos(n, d);
    }
}

} // verus!
