//! Averages, spreads, ranks and thinned-out series of fixed-point numbers.

use vstd::prelude::*;

use crate::count::{
    law_counts_are_complete, lemma_tally_implies, lemma_tally_same, lemma_total_bound, lemma_total_same, tally, total,
};
use crate::fixed::{
    div_nearest, law_rounding_is_closest, law_rounding_is_monotone, law_rounding_keeps_whole_numbers,
    magnitude, nearest,
};
use crate::mods::{lemma_root_of, root, whole_root};

verus! {

/// A series holds at most this many points.
pub const MAX_SERIES_POINTS: usize = 2000;

/// The largest number that averages are worked out for.
pub const VALUE_LIMIT: i128 = 1_000_000_000_000_000_000_000_000_000;

/// The largest number that spreads are worked out for.
pub const SPREAD_LIMIT: i128 = 10_000_000_000_000;

/// Whether all numbers are at most as far from zero as a limit.
pub open spec fn limited(v: Seq<i128>, limit: i128) -> bool {
    forall|i: int| 0 <= i < v.len() ==> magnitude(#[trigger] v[i] as int) <= limit
}

/// The terms of a list.
pub open spec fn terms(v: Seq<i128>) -> spec_fn(int) -> int {
    |i: int| v[i] as int
}

/// The sum of a list.
pub open spec fn sum_of(v: Seq<i128>) -> int {
    total(terms(v), v.len())
}

/// The average, to the nearest whole; 0 of nothing.
pub open spec fn average(v: Seq<i128>) -> int {
    if v.len() == 0 {
        0
    } else {
        nearest(sum_of(v), v.len() as int)
    }
}

/// The products of two lists, number by number.
pub open spec fn products(a: Seq<i128>, b: Seq<i128>) -> spec_fn(int) -> int {
    |i: int| a[i] * b[i]
}

/// How two lists vary together: the number of pairs times the sum of their products, less the
/// product of their sums.
pub open spec fn covariation(a: Seq<i128>, b: Seq<i128>) -> int {
    a.len() * total(products(a, b), a.len()) - sum_of(a) * sum_of(b)
}

/// The standard deviation, to the whole below; 0 of fewer than two numbers.
pub open spec fn spread(v: Seq<i128>) -> int {
    if v.len() < 2 {
        0
    } else {
        root(covariation(v, v) / (v.len() as int * v.len() as int))
    }
}

/// How many numbers are smaller than `x`.
pub open spec fn below(v: Seq<i128>, x: int) -> nat {
    tally(|i: int| v[i] < x, v.len())
}

/// Whether `x` is the number at position `k` of the numbers in order.
pub open spec fn is_rank(v: Seq<i128>, k: int, x: int) -> bool {
    below(v, x) <= k < below(v, x + 1)
}

/// Whether `x` is the number at the share `num / den` of the numbers in order; 0 of nothing.
pub open spec fn is_percentile(v: Seq<i128>, num: int, den: int, x: int) -> bool {
    if v.len() == 0 {
        x == 0
    } else {
        is_rank(v, nearest((v.len() - 1) * num, den), x)
    }
}

/// The number at the share `num / den` of the numbers in order.
pub open spec fn percentile_of(v: Seq<i128>, num: int, den: int) -> int {
    choose|x: int| is_percentile(v, num, den, x)
}

/// The sum of a list.
pub fn sum(v: &[i128]) -> (s: i128)
    requires
        limited(v@, VALUE_LIMIT),
        v@.len() <= u32::MAX,
    ensures
        s == sum_of(v@),
        magnitude(s as int) <= v@.len() * VALUE_LIMIT,
{
    let mut s: i128 = 0;
    let mut i: usize = 0;
    let len: usize = v.len();
    while i < len
        invariant
            i <= len == v@.len(),
            v@.len() <= u32::MAX,
            limited(v@, VALUE_LIMIT),
            s == total(terms(v@), i as nat),
            magnitude(s as int) <= i * VALUE_LIMIT,
        decreases len - i,
    {
        assert(magnitude(v@[i as int] as int) <= VALUE_LIMIT);
        assert(i * VALUE_LIMIT + VALUE_LIMIT == (i + 1) * VALUE_LIMIT) by (nonlinear_arith);
        assert((i + 1) * VALUE_LIMIT <= 0x1_0000_0000 * VALUE_LIMIT) by (nonlinear_arith)
            requires
                i < u32::MAX,
                VALUE_LIMIT > 0,
        ;
        s = s + v[i];
        i = i + 1;
    }
    s
}

/// The average, to the nearest whole; 0 of nothing.
pub fn mean(v: &[i128]) -> (m: i128)
    requires
        limited(v@, VALUE_LIMIT),
        v@.len() <= u32::MAX,
    ensures
        m == average(v@),
{
    if v.len() == 0 {
        return 0;
    }
    let s: i128 = sum(v);
    assert(v@.len() * VALUE_LIMIT <= 0x1_0000_0000 * VALUE_LIMIT) by (nonlinear_arith)
        requires
            v@.len() <= u32::MAX,
            VALUE_LIMIT > 0,
    ;
    div_nearest(s, v.len() as i128)
}

/// An average is no further from zero than the numbers.
pub proof fn lemma_average_bound(v: Seq<i128>, limit: int)
    requires
        forall|i: int| 0 <= i < v.len() ==> magnitude(#[trigger] v[i] as int) <= limit,
        limit >= 0,
    ensures
        magnitude(average(v)) <= limit,
{
    if v.len() > 0 {
        let n = v.len() as int;
        assert forall|i: int| 0 <= i < v.len() implies -limit <= #[trigger] terms(v)(i) <= limit by {
            assert(magnitude(v[i] as int) <= limit);
        }
        lemma_total_bound(terms(v), v.len(), -limit, limit);
        let m = magnitude(sum_of(v));
        assert(n * -limit == -(n * limit)) by (nonlinear_arith);
        assert(m <= n * limit);
        assert(0 <= (2 * m + n) / (2 * n) <= limit) by (nonlinear_arith)
            requires
                0 <= m <= n * limit,
                n > 0,
        {
            assert(2 * m + n < (limit + 1) * (2 * n)) by (nonlinear_arith)
                requires
                    m <= n * limit,
                    n > 0,
            ;
        }
    }
}

/// The products of two lists, measured from a place in each.
pub open spec fn from_centre(a: Seq<i128>, b: Seq<i128>, x: int, y: int) -> spec_fn(int) -> int {
    |i: int| (a[i] - x) * (b[i] - y)
}

proof fn lemma_from_centre(a: Seq<i128>, b: Seq<i128>, x: int, y: int, n: nat)
    ensures
        total(from_centre(a, b, x, y), n) == total(products(a, b), n) - y * total(terms(a), n) - x
            * total(terms(b), n) + n * (x * y),
    decreases n,
{
    if n > 0 {
        lemma_from_centre(a, b, x, y, (n - 1) as nat);
        let (u, v) = (a[n - 1] as int, b[n - 1] as int);
        let (su, sv) = (total(terms(a), (n - 1) as nat), total(terms(b), (n - 1) as nat));
        assert((u - x) * (v - y) == u * v - y * u - x * v + x * y) by (nonlinear_arith);
        assert(y * (su + u) == y * su + y * u) by (nonlinear_arith);
        assert(x * (sv + v) == x * sv + x * v) by (nonlinear_arith);
        assert(n * (x * y) == (n - 1) * (x * y) + x * y) by (nonlinear_arith);
    } else {
        assert(y * 0 == 0 && x * 0 == 0 && 0 * (x * y) == 0) by (nonlinear_arith);
    }
}

/// Where the lists are measured from does not matter.
pub proof fn lemma_covariation(a: Seq<i128>, b: Seq<i128>, x: int, y: int)
    requires
        a.len() == b.len(),
    ensures
        covariation(a, b) == a.len() * total(from_centre(a, b, x, y), a.len()) - (sum_of(a)
            - a.len() * x) * (sum_of(b) - a.len() * y),
{
    let n = a.len() as int;
    lemma_from_centre(a, b, x, y, a.len());
    let (p, s, r) = (total(products(a, b), a.len()), sum_of(a), sum_of(b));
    let c = total(from_centre(a, b, x, y), a.len());
    assert(n * c == n * p - n * (y * s) - n * (x * r) + n * (n * (x * y))) by (nonlinear_arith)
        requires
            c == p - y * s - x * r + n * (x * y),
    ;
    let (f, g) = (n * x, n * y);
    assert((s - f) * (r - g) == s * r - g * s - f * r + f * g) by (nonlinear_arith);
    assert(g * s == n * (y * s)) by (nonlinear_arith)
        requires
            g == n * y,
    ;
    assert(f * r == n * (x * r)) by (nonlinear_arith)
        requires
            f == n * x,
    ;
    assert(f * g == n * (n * (x * y))) by (nonlinear_arith)
        requires
            f == n * x,
            g == n * y,
    ;
}

/// A list lies about its average: what is left over is at most half of its length.
pub proof fn lemma_average_is_near(v: Seq<i128>)
    requires
        v.len() > 0,
    ensures
        2 * magnitude(sum_of(v) - v.len() * average(v)) <= v.len(),
{
    let s = sum_of(v);
    let n = v.len() as int;
    let m = magnitude(s);
    let q = (2 * m + n) / (2 * n);
    let r = (2 * m + n) % (2 * n);
    assert(2 * m + n == 2 * (n * q) + r && 0 <= r < 2 * n) by (nonlinear_arith)
        requires
            n > 0,
            q == (2 * m + n) / (2 * n),
            r == (2 * m + n) % (2 * n),
    ;
    assert(n * (-q) == -(n * q)) by (nonlinear_arith);
}

/// A variance from sums about the average.
proof fn lemma_variance(n: int, s: int, b: int, less: int)
    requires
        n > 0,
        less == (b * b + (n - 1)) / n,
    ensures
        (n * s - b * b) / (n * n) == (s - less) / n,
{
    let q = b * b;
    let r = (q + (n - 1)) % n;
    assert(q + (n - 1) == n * less + r && 0 <= r < n) by (nonlinear_arith)
        requires
            n > 0,
            less == (q + (n - 1)) / n,
            r == (q + (n - 1)) % n,
    ;
    assert((s - less) * n == n * s - n * less) by (nonlinear_arith);
    vstd::arithmetic::div_mod::lemma_fundamental_div_mod_converse(
        n * s - q,
        n,
        s - less,
        n - 1 - r,
    );
    lemma_divide_twice(n * s - q, n);
}

proof fn lemma_divide_twice(x: int, n: int)
    requires
        n > 0,
    ensures
        x / (n * n) == (x / n) / n,
{
    let (a, r) = (x / n, x % n);
    let (b, q) = (a / n, a % n);
    assert(x == n * a + r && 0 <= r < n) by (nonlinear_arith)
        requires
            n > 0,
            a == x / n,
            r == x % n,
    ;
    assert(a == n * b + q && 0 <= q < n) by (nonlinear_arith)
        requires
            n > 0,
            b == a / n,
            q == a % n,
    ;
    assert(n * (n * b + q) == (n * n) * b + n * q) by (nonlinear_arith);
    assert(0 <= n * q + r < n * n) by (nonlinear_arith)
        requires
            0 <= q <= n - 1,
            0 <= r < n,
    ;
    vstd::arithmetic::div_mod::lemma_fundamental_div_mod_converse(x, n * n, b, n * q + r);
}

/// The standard deviation, to the whole below; 0 of fewer than two numbers.
pub fn std_dev(v: &[i128]) -> (d: i128)
    requires
        limited(v@, SPREAD_LIMIT),
        v@.len() <= u32::MAX,
    ensures
        d == spread(v@),
        0 <= d <= 0xffff_ffff_ffff_ffff,
{
    let len: usize = v.len();
    if len < 2 {
        return 0;
    }
    let m: i128 = mean(v);
    proof {
        lemma_average_bound(v@, SPREAD_LIMIT as int);
    }
    let mut s: i128 = 0;
    let mut b: i128 = 0;
    let mut i: usize = 0;
    assert(total(terms(v@), 0) - 0 * m == 0);
    let ghost step = 400_000_000_000_000_000_000_000_000int;
    while i < len
        invariant
            i <= len == v@.len(),
            v@.len() <= u32::MAX,
            limited(v@, SPREAD_LIMIT),
            m == average(v@),
            magnitude(m as int) <= SPREAD_LIMIT,
            step == 400_000_000_000_000_000_000_000_000,
            s == total(from_centre(v@, v@, m as int, m as int), i as nat),
            b == total(terms(v@), i as nat) - i * m,
            magnitude(b as int) <= s <= i * step,
        decreases len - i,
    {
        assert(magnitude(v@[i as int] as int) <= SPREAD_LIMIT);
        let d: i128 = v[i] - m;
        assert(magnitude(d as int) <= d * d <= step) by (nonlinear_arith)
            requires
                -20_000_000_000_000 <= d <= 20_000_000_000_000,
                step == 400_000_000_000_000_000_000_000_000,
        ;
        assert(i * step + step == (i + 1) * step) by (nonlinear_arith);
        assert((i + 1) * step <= 0x1_0000_0000 * step) by (nonlinear_arith)
            requires
                i < u32::MAX,
                step > 0,
        ;
        assert((i + 1) * m == i * m + m) by (nonlinear_arith);
        s = s + d * d;
        b = b + d;
        i = i + 1;
    }
    let n: i128 = len as i128;
    proof {
        lemma_covariation(v@, v@, m as int, m as int);
        lemma_average_is_near(v@);
        assert(0 <= b * b <= 0x1_0000_0000 * 0x1_0000_0000) by (nonlinear_arith)
            requires
                -0x1_0000_0000 <= b <= 0x1_0000_0000,
        ;
    }
    let less: i128 = (b * b + (n - 1)) / n;
    proof {
        lemma_variance(n as int, s as int, b as int, less as int);
        assert(0 <= less <= s) by (nonlinear_arith)
            requires
                less == (b * b + (n - 1)) / n as int,
                n > 0,
                2 * magnitude(b as int) <= n,
                magnitude(b as int) <= s,
        {
            let k = magnitude(b as int);
            assert(b * b == k * k) by (nonlinear_arith)
                requires
                    k == b || k == -b,
            ;
            assert(k * k <= n * s) by (nonlinear_arith)
                requires
                    0 <= k <= s,
                    k <= n,
            ;
            assert(k * k + (n - 1) < n * (s + 1)) by (nonlinear_arith)
                requires
                    k * k <= n * s,
                    n > 0,
            ;
        }
    }
    whole_root(((s - less) / n) as u128) as i128
}

/// The spread of numbers is that of the same numbers moved, all by one distance.
pub proof fn law_moving_keeps_the_spread(v: Seq<i128>, w: Seq<i128>, by: int)
    requires
        v.len() == w.len(),
        forall|i: int| 0 <= i < v.len() ==> #[trigger] w[i] == v[i] + by,
    ensures
        spread(w) == spread(v),
{
    let n = v.len();
    lemma_covariation(w, w, by, by);
    let f = from_centre(w, w, by, by);
    let g = products(v, v);
    assert forall|i: int| 0 <= i < n implies #[trigger] f(i) == g(i) by {
        assert(w[i] == v[i] + by);
    }
    lemma_total_same(f, g, n);
    lemma_moved_sum(v, w, by, n);
}

proof fn lemma_moved_sum(v: Seq<i128>, w: Seq<i128>, by: int, n: nat)
    requires
        n <= v.len(),
        v.len() == w.len(),
        forall|i: int| 0 <= i < v.len() ==> #[trigger] w[i] == v[i] + by,
    ensures
        total(terms(w), n) == total(terms(v), n) + n * by,
    decreases n,
{
    if n > 0 {
        lemma_moved_sum(v, w, by, (n - 1) as nat);
        assert(w[n - 1] == v[n - 1] + by);
        assert(n * by == (n - 1) * by + by) by (nonlinear_arith);
    } else {
        assert(0 * by == 0) by (nonlinear_arith);
    }
}

fn count_below(v: &[i128], x: i128) -> (n: usize)
    ensures
        n == below(v@, x as int),
{
    let mut n: usize = 0;
    let mut i: usize = 0;
    let len: usize = v.len();
    let ghost p = |i: int| v@[i] < x as int;
    while i < len
        invariant
            i <= len == v@.len(),
            p == (|i: int| v@[i] < x as int),
            n == tally(p, i as nat),
            n <= i,
        decreases len - i,
    {
        if v[i] < x {
            n = n + 1;
        }
        i = i + 1;
    }
    n
}

proof fn lemma_below_grows(v: Seq<i128>, x: int, y: int)
    requires
        x <= y,
    ensures
        below(v, x) <= below(v, y),
{
    lemma_tally_implies(|i: int| v[i] < x, |i: int| v[i] < y, v.len());
}

/// At most one number stands at a position.
pub proof fn law_rank_is_unique(v: Seq<i128>, k: int, x: int, y: int)
    requires
        is_rank(v, k, x),
        is_rank(v, k, y),
    ensures
        x == y,
{
    if x < y {
        lemma_below_grows(v, x + 1, y);
    } else if y < x {
        lemma_below_grows(v, y + 1, x);
    }
}

/// The number at a position is one of the numbers.
pub proof fn law_rank_is_a_member(v: Seq<i128>, k: int, x: int)
    requires
        is_rank(v, k, x),
    ensures
        exists|i: int| 0 <= i < v.len() && #[trigger] v[i] == x,
{
    if forall|i: int| 0 <= i < v.len() ==> #[trigger] v[i] != x {
        lemma_tally_same(|i: int| v[i] < x, |i: int| v[i] < x + 1, v.len());
    }
}

/// The number at position `k` of the numbers in order.
pub fn rank(v: &[i128], k: usize) -> (x: i128)
    requires
        k < v@.len(),
        limited(v@, VALUE_LIMIT),
    ensures
        is_rank(v@, k as int, x as int),
        magnitude(x as int) <= VALUE_LIMIT,
{
    let mut lo: i128 = -VALUE_LIMIT;
    let mut hi: i128 = VALUE_LIMIT + 1;
    proof {
        let none = |i: int| v@[i] < lo as int;
        assert(below(v@, lo as int) == 0) by {
            lemma_tally_same(none, |i: int| false, v@.len());
            lemma_nothing(v@.len());
        }
        let all = |i: int| v@[i] < hi as int;
        assert(below(v@, hi as int) == v@.len()) by {
            lemma_tally_same(all, |i: int| true, v@.len());
            lemma_everything(v@.len());
        }
    }
    while hi - lo > 1
        invariant
            -VALUE_LIMIT <= lo < hi <= VALUE_LIMIT + 1,
            below(v@, lo as int) <= k < below(v@, hi as int),
        decreases hi - lo,
    {
        let mid: i128 = lo + (hi - lo) / 2;
        if count_below(v, mid) <= k {
            lo = mid;
        } else {
            hi = mid;
        }
    }
    lo
}

proof fn lemma_nothing(n: nat)
    ensures
        tally(|i: int| false, n) == 0,
    decreases n,
{
    if n > 0 {
        lemma_nothing((n - 1) as nat);
    }
}

proof fn lemma_everything(n: nat)
    ensures
        tally(|i: int| true, n) == n,
    decreases n,
{
    if n > 0 {
        lemma_everything((n - 1) as nat);
    }
}

/// The number at the share `num / den` of the numbers in order; 0 of nothing.
pub fn percentile(v: &[i128], num: u32, den: u32) -> (x: i128)
    requires
        num <= den,
        den > 0,
        v@.len() <= u32::MAX,
        limited(v@, VALUE_LIMIT),
    ensures
        is_percentile(v@, num as int, den as int, x as int),
        x == percentile_of(v@, num as int, den as int),
        v@.len() > 0 ==> v@.contains(x),
{
    if v.len() == 0 {
        assert(is_percentile(v@, num as int, den as int, 0));
        return 0;
    }
    let last: i128 = v.len() as i128 - 1;
    assert(0 <= last * num <= 0xffff_ffff * 0xffff_ffff) by (nonlinear_arith)
        requires
            0 <= last <= 0xffff_ffff,
            0 <= num <= 0xffff_ffff,
    ;
    let k: i128 = div_nearest(last * num as i128, den as i128);
    proof {
        let n = last * num;
        assert(0 <= (2 * n + den) / (2 * (den as int)) <= last) by (nonlinear_arith)
            requires
                n == last * num,
                0 <= num <= den,
                den > 0,
                last >= 0,
        {
            assert(2 * n + den < (last + 1) * (2 * den)) by (nonlinear_arith)
                requires
                    n == last * num,
                    0 <= num <= den,
                    den > 0,
                    last >= 0,
            ;
        }
    }
    let x: i128 = rank(v, k as usize);
    proof {
        assert(is_percentile(v@, num as int, den as int, x as int));
        law_rank_is_unique(
            v@,
            k as int,
            x as int,
            percentile_of(v@, num as int, den as int),
        );
        law_rank_is_a_member(v@, k as int, x as int);
    }
    x
}

/// A series of values over time.
#[derive(Debug, Clone)]
pub struct Series {
    /// Times, in millionths of a millisecond.
    pub t: Vec<i64>,
    /// Values.
    pub v: Vec<i128>,
}

/// The first of the largest values from `from` up to `to`.
pub open spec fn peak(v: Seq<i128>, from: int, to: int) -> int
    decreases to - from,
{
    if to <= from + 1 {
        from
    } else if v[to - 1] > v[peak(v, from, to - 1)] {
        to - 1
    } else {
        peak(v, from, to - 1)
    }
}

/// How many points of a series of `n` are merged into one.
pub open spec fn stride(n: int) -> int {
    if n == 0 {
        1
    } else {
        (n + MAX_SERIES_POINTS - 1) / (MAX_SERIES_POINTS as int)
    }
}

/// Whether a series is a thinned-out one: one point for each run of a fixed length, the last one
/// shorter, and of each run its peak.
pub open spec fn is_thinned(s: Series, t: Seq<i64>, v: Seq<i128>) -> bool {
    let step = stride(v.len() as int);
    &&& s.t@.len() == s.v@.len() == (v.len() + step - 1) / step
    &&& forall|b: int|
        0 <= b < s.v@.len() ==> #[trigger] s.v@[b] == v[peak(
            v,
            b * step,
            if (b + 1) * step < v.len() {
                (b + 1) * step
            } else {
                v.len() as int
            },
        )]
    &&& forall|b: int|
        0 <= b < s.t@.len() ==> #[trigger] s.t@[b] == t[peak(
            v,
            b * step,
            if (b + 1) * step < v.len() {
                (b + 1) * step
            } else {
                v.len() as int
            },
        )]
}

/// Thins a series out to at most the largest number of points, keeping the peaks.
pub fn downsample(t: &[i64], v: &[i128]) -> (s: Series)
    requires
        t@.len() == v@.len(),
    ensures
        is_thinned(s, t@, v@),
        s.v@.len() <= MAX_SERIES_POINTS,
{
    let n: usize = v.len();
    let mut out: Series = Series { t: Vec::new(), v: Vec::new() };
    if n == 0 {
        return out;
    }
    let step: usize = (n - 1) / MAX_SERIES_POINTS + 1;
    let ghost st = step as int;
    let mut i: usize = 0;
    let mut b: usize = 0;
    proof {
        assert(1 <= step && step * MAX_SERIES_POINTS >= n && step <= n);
    }
    while i < n
        invariant
            n == v@.len() == t@.len(),
            st == step == stride(n as int),
            1 <= step <= n,
            step * MAX_SERIES_POINTS >= n,
            i == (if b * step < n {
                b * step
            } else {
                n as int
            }),
            i < n ==> b * step < n,
            b > 0 ==> (b - 1) * step < n,
            out.t@.len() == out.v@.len() == b,
            forall|c: int|
                0 <= c < b ==> #[trigger] out.v@[c] == v@[peak(
                    v@,
                    c * step,
                    if (c + 1) * step < n {
                        (c + 1) * step
                    } else {
                        n as int
                    },
                )],
            forall|c: int|
                0 <= c < b ==> #[trigger] out.t@[c] == t@[peak(
                    v@,
                    c * step,
                    if (c + 1) * step < n {
                        (c + 1) * step
                    } else {
                        n as int
                    },
                )],
        decreases n - i,
    {
        let hi: usize = if n - i > step {
            i + step
        } else {
            n
        };
        assert((b + 1) * st == b * st + st) by (nonlinear_arith);
        let mut best: usize = i;
        let mut j: usize = i + 1;
        while j < hi
            invariant
                i < j <= hi <= n,
                n == v@.len(),
                i <= best < j,
                best == peak(v@, i as int, j as int),
            decreases hi - j,
        {
            if v[j] > v[best] {
                best = j;
            }
            j = j + 1;
        }
        assert(i == b * step);
        assert(hi == (if (b + 1) * step < n {
            (b + 1) * step
        } else {
            n as int
        }));
        out.t.push(t[best]);
        out.v.push(v[best]);
        i = hi;
        assert(b < n) by (nonlinear_arith)
            requires
                b * st < n,
                st >= 1,
                b >= 0,
        ;
        b = b + 1;
    }
    proof {
        let nn = n as int;
        assert(b == (nn + st - 1) / st) by (nonlinear_arith)
            requires
                (b - 1) * st < nn,
                b * st >= nn,
                st >= 1,
                b >= 1,
        {
            assert(b * st <= nn + st - 1 < (b + 1) * st) by (nonlinear_arith)
                requires
                    (b - 1) * st < nn,
                    b * st >= nn,
                    st >= 1,
            ;
        }
        assert(b <= MAX_SERIES_POINTS) by (nonlinear_arith)
            requires
                (b - 1) * st < nn,
                st * 2000 >= nn,
                st >= 1,
                MAX_SERIES_POINTS == 2000,
        ;
    }
    out
}

/// The mean lies between the least and the greatest, is off by no more than half a unit from the
/// sum shared out evenly, and moves along when everything moves.
pub proof fn law_means_lie_between(v: Seq<i128>, w: Seq<i128>, lo: int, hi: int)
    requires
        v.len() > 0,
        forall|i: int| 0 <= i < v.len() ==> lo <= #[trigger] v[i] <= hi,
        w.len() == v.len(),
        forall|i: int| 0 <= i < v.len() ==> #[trigger] w[i] >= v[i],
    ensures
        lo <= average(v) <= hi,
        2 * magnitude(v.len() * average(v) - total(|i: int| v[i] as int, v.len())) <= v.len(),
        average(v) <= average(w),
{
    let n = v.len() as int;
    lemma_total_bound(terms(v), v.len(), lo, hi);
    lemma_total_same(terms(v), |i: int| v[i] as int, v.len());
    law_rounding_is_closest(sum_of(v), n);
    law_rounding_is_monotone(n * lo, sum_of(v), n);
    law_rounding_is_monotone(sum_of(v), n * hi, n);
    law_rounding_keeps_whole_numbers(lo, 0, n);
    law_rounding_keeps_whole_numbers(hi, 0, n);
    lemma_sum_grows(v, w, v.len());
    law_rounding_is_monotone(sum_of(v), sum_of(w), n);
}

proof fn lemma_sum_grows(v: Seq<i128>, w: Seq<i128>, n: nat)
    requires
        n <= v.len() == w.len(),
        forall|i: int| 0 <= i < v.len() ==> #[trigger] w[i] >= v[i],
    ensures
        total(terms(v), n) <= total(terms(w), n),
    decreases n,
{
    if n > 0 {
        lemma_sum_grows(v, w, (n - 1) as nat);
        assert(w[n - 1] >= v[n - 1]);
    }
}

/// Numbers that alternate between two values spread by half of what lies between the two.
pub proof fn law_two_values_spread_by_half(v: Seq<i128>, pairs: nat, a: i128, b: i128)
    requires
        pairs > 0,
        v.len() == 2 * pairs,
        forall|i: int| 0 <= i < v.len() ==> #[trigger] v[i] == (if i % 2 == 0 {
            a
        } else {
            b
        }),
    ensures
        spread(v) == magnitude(a - b) / 2,
{
    lemma_pairs(v, pairs, a, b);
    let k = pairs as int;
    let d = magnitude(a - b);
    let (x, y) = (a as int, b as int);
    let n = 2 * k;
    assert(v.len() as int == n);
    assert(total(products(v, v), v.len()) == k * (x * x + y * y));
    assert(sum_of(v) == k * (x + y));
    assert(covariation(v, v) == (k * k) * (d * d)) by {
        assert(d * d == (x - y) * (x - y)) by (nonlinear_arith)
            requires
                d == x - y || d == y - x,
        ;
        assert((2 * k) * (k * (x * x + y * y)) - (k * (x + y)) * (k * (x + y)) == (k * k) * ((x
            - y) * (x - y))) by (nonlinear_arith);
    }
    let h = d / 2;
    let c = covariation(v, v);
    assert((d * d) / 4 == c / (n * n)) by (nonlinear_arith)
        requires
            c == (k * k) * (d * d),
            n == 2 * k,
            k > 0,
    {
        let m = k * k;
        assert(n * n == m * 4) by (nonlinear_arith)
            requires
                n == 2 * k,
                m == k * k,
        ;
        assert(m > 0) by (nonlinear_arith)
            requires
                m == k * k,
                k > 0,
        ;
        vstd::arithmetic::div_mod::lemma_div_denominator(m * (d * d), m, 4);
        vstd::arithmetic::div_mod::lemma_div_multiples_vanish(d * d, m);
    }
    let q = (d * d) / 4;
    assert(h * h <= q < (h + 1) * (h + 1)) by (nonlinear_arith)
        requires
            q == (d * d) / 4,
            h == d / 2,
            d >= 0,
    {
        let r = d - 2 * h;
        assert(0 <= r <= 1);
        assert(d * d == 4 * (h * h) + 4 * (h * r) + r * r) by (nonlinear_arith)
            requires
                d == 2 * h + r,
        ;
        assert(0 <= h * r <= h) by (nonlinear_arith)
            requires
                0 <= r <= 1,
                h >= 0,
        ;
        assert(0 <= r * r <= 1) by (nonlinear_arith)
            requires
                0 <= r <= 1,
        ;
        assert((h + 1) * (h + 1) == h * h + 2 * h + 1) by (nonlinear_arith);
    }
    lemma_root_of(q);
    let s = root(q);
    assert(s == h) by (nonlinear_arith)
        requires
            s >= 0,
            h >= 0,
            s * s <= q < (s + 1) * (s + 1),
            h * h <= q < (h + 1) * (h + 1),
    ;
}

proof fn lemma_pairs(v: Seq<i128>, k: nat, a: i128, b: i128)
    requires
        2 * k <= v.len(),
        forall|i: int| 0 <= i < v.len() ==> #[trigger] v[i] == (if i % 2 == 0 {
            a
        } else {
            b
        }),
    ensures
        total(terms(v), 2 * k) == k * (a + b),
        total(products(v, v), 2 * k) == k * (a * a + b * b),
    decreases k,
{
    if k > 0 {
        let m = (k - 1) as nat;
        lemma_pairs(v, m, a, b);
        let i = 2 * m as int;
        assert(v[i] == a);
        assert(v[i + 1] == b);
        reveal_with_fuel(total, 3);
        assert(k * (a + b) == m * (a + b) + (a + b)) by (nonlinear_arith)
            requires
                k == m + 1,
        ;
        assert(k * (a * a + b * b) == m * (a * a + b * b) + (a * a + b * b)) by (nonlinear_arith)
            requires
                k == m + 1,
        ;
    } else {
        assert(k * (a + b) == 0 && k * (a * a + b * b) == 0) by (nonlinear_arith)
            requires
                k == 0,
        ;
    }
}

/// A percentile splits the numbers in its proportion: no more than that share of the others is
/// smaller, and no more than the rest of them is greater.
pub proof fn law_percentiles_split_in_proportion(v: Seq<i128>, num: int, den: int, x: int)
    requires
        v.len() > 0,
        0 <= num <= den,
        den > 0,
        is_percentile(v, num, den, x),
    ensures
        2 * den * tally(|i: int| v[i] < x, v.len()) <= 2 * num * (v.len() - 1) + den,
        2 * den * tally(|i: int| v[i] > x, v.len()) <= 2 * (den - num) * (v.len() - 1) + den,
        exists|i: int| 0 <= i < v.len() && #[trigger] v[i] == x,
{
    let n = v.len() as int;
    let k = nearest((n - 1) * num, den);
    law_rank_is_a_member(v, k, x);
    law_rounding_is_closest((n - 1) * num, den);
    let less = tally(|i: int| v[i] < x, v.len()) as int;
    let more = tally(|i: int| v[i] > x, v.len()) as int;
    let upto = |i: int| v[i] < x + 1;
    law_counts_are_complete(upto, v.len());
    lemma_tally_same(|i: int| !upto(i), |i: int| v[i] > x, v.len());
    assert(less <= k);
    assert(more <= n - 1 - k);
    assert(2 * den * less <= 2 * (den * k)) by (nonlinear_arith)
        requires
            less <= k,
            den > 0,
    ;
    assert(2 * den * more <= 2 * (den * (n - 1 - k))) by (nonlinear_arith)
        requires
            more <= n - 1 - k,
            den > 0,
    ;
    assert(den * (n - 1 - k) == den * (n - 1) - den * k) by (nonlinear_arith);
    assert(2 * num * (n - 1) == 2 * ((n - 1) * num)) by (nonlinear_arith);
    assert(2 * (den - num) * (n - 1) == 2 * (den * (n - 1)) - 2 * ((n - 1) * num))
        by (nonlinear_arith);
}

proof fn lemma_peak(v: Seq<i128>, from: int, to: int)
    requires
        0 <= from < to <= v.len(),
    ensures
        from <= peak(v, from, to) < to,
        forall|i: int| from <= i < to ==> #[trigger] v[i] <= v[peak(v, from, to)],
    decreases to - from,
{
    if to > from + 1 {
        lemma_peak(v, from, to - 1);
    }
}

/// Whether a point of the series is one of the whole one.
pub open spec fn is_a_point(s: Series, b: int, t: Seq<i64>, v: Seq<i128>) -> bool {
    exists|i: int| 0 <= i < v.len() && #[trigger] v[i] == s.v@[b] && t[i] == s.t@[b]
}

/// Whether the series goes up to a value.
pub open spec fn is_reached(s: Series, x: int) -> bool {
    exists|b: int| 0 <= b < s.v@.len() && #[trigger] s.v@[b] >= x
}

/// A thinned series holds points of the whole one and no more than 2000 of them, shows the greatest
/// value of each stretch and so no less than any value that it leaves out, and is the whole series
/// where that is short enough.
pub proof fn law_thinning_keeps_the_peaks(s: Series, t: Seq<i64>, v: Seq<i128>)
    requires
        t.len() == v.len(),
        is_thinned(s, t, v),
    ensures
        s.t@.len() == s.v@.len() <= 2000,
        forall|b: int| 0 <= b < s.v@.len() ==> #[trigger] is_a_point(s, b, t, v),
        forall|i: int| 0 <= i < v.len() ==> #[trigger] is_reached(s, v[i] as int),
        v.len() <= 2000 ==> s.v@ =~= v && s.t@ =~= t,
{
    let n = v.len() as int;
    let step = stride(n);
    let m = s.v@.len() as int;
    assert(step >= 1);
    assert(m * step >= n && m <= 2000 && (m - 1) * step < n) by {
        assert(2000 * step >= n);
        lemma_ceiling(n, step);
    }
    assert forall|b: int| 0 <= b < m implies #[trigger] is_a_point(s, b, t, v) by {
        assert(0 <= b * step <= (m - 1) * step) by (nonlinear_arith)
            requires
                0 <= b <= m - 1,
                step >= 1,
        ;
        assert((b + 1) * step == b * step + step) by (nonlinear_arith);
        let to = if (b + 1) * step < n {
            (b + 1) * step
        } else {
            n
        };
        lemma_peak(v, b * step, to);
        let i = peak(v, b * step, to);
        assert(v[i] == s.v@[b] && t[i] == s.t@[b]);
    }
    assert forall|i: int| 0 <= i < n implies #[trigger] is_reached(s, v[i] as int) by {
        let b = i / step;
        lemma_stretch(i, n, m, step);
        assert((b + 1) * step == b * step + step) by (nonlinear_arith);
        let to = if (b + 1) * step < n {
            (b + 1) * step
        } else {
            n
        };
        lemma_peak(v, b * step, to);
        assert(s.v@[b] >= v[i]);
    }
    if n <= 2000 {
        assert(step == 1);
        assert forall|b: int| 0 <= b < n implies s.v@[b] == v[b] && s.t@[b] == t[b] by {
            assert(b * step == b && (b + 1) * step == b + 1) by (nonlinear_arith)
                requires
                    step == 1,
            ;
        }
    }
}

proof fn lemma_ceiling(n: int, step: int)
    requires
        n >= 0,
        step >= 1,
        2000 * step >= n,
    ensures
        (n + step - 1) / step * step >= n,
        ((n + step - 1) / step - 1) * step < n,
        0 <= (n + step - 1) / step <= 2000,
{
    let m = (n + step - 1) / step;
    vstd::arithmetic::div_mod::lemma_fundamental_div_mod(n + step - 1, step);
    vstd::arithmetic::div_mod::lemma_mod_bound(n + step - 1, step);
    assert(m * step == step * m) by (nonlinear_arith);
    assert((m - 1) * step == m * step - step) by (nonlinear_arith);
    assert(0 <= m <= 2000) by (nonlinear_arith)
        requires
            m * step >= n,
            m * step - step < n,
            n >= 0,
            step >= 1,
            2000 * step >= n,
    ;
}

proof fn lemma_stretch(i: int, n: int, m: int, step: int)
    requires
        0 <= i < n,
        step >= 1,
        m * step >= n,
    ensures
        0 <= i / step < m,
        i / step * step <= i < i / step * step + step,
{
    let b = i / step;
    vstd::arithmetic::div_mod::lemma_fundamental_div_mod(i, step);
    vstd::arithmetic::div_mod::lemma_mod_bound(i, step);
    assert(b * step == step * b) by (nonlinear_arith);
    assert(0 <= b < m) by (nonlinear_arith)
        requires
            b * step <= i < b * step + step,
            0 <= i < n,
            m * step >= n,
            step >= 1,
    ;
}

} // verus!
