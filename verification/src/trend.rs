//! The trend of numbers over time: the least squares line, worked out without rounding before the
//! end.

use vstd::prelude::*;

use crate::count::total;
use crate::fixed::{magnitude, nearest};
use crate::stats::{
    covariation, from_centre, lemma_average_bound, lemma_average_is_near, lemma_covariation, limited,
    mean, products, sum_of, terms,
};
use crate::study::{CHART_LIMIT, WINDOW_LIMIT};

verus! {

/// How much later hits get every minute: the slope of the least squares line through the errors;
/// 0 below eight hits, and where all of them belong to one moment.
pub open spec fn drift(t: Seq<i128>, e: Seq<i128>) -> int {
    let den = covariation(t, t);
    if e.len() >= 8 && den > 0 {
        nearest(covariation(t, e) * 60_000, den)
    } else {
        0
    }
}

/// Chart times that differ vary by at least half their number.
proof fn lemma_variation(n: int, d: int, b: int)
    requires
        n > 0,
        d >= magnitude(b),
        2 * magnitude(b) <= n,
    ensures
        d > 0 ==> 2 * (n * d - b * b) >= n,
        d == 0 ==> n * d - b * b == 0,
{
    let m = magnitude(b);
    assert(b * b == m * m) by (nonlinear_arith)
        requires
            m == b || m == -b,
    ;
    if m == 0 {
        assert(n * d >= n * 1 || d == 0) by (nonlinear_arith)
            requires
                n > 0,
                d >= 0,
        ;
        assert(d == 0 ==> n * d == 0) by (nonlinear_arith);
        assert(m * m == 0) by (nonlinear_arith)
            requires
                m == 0,
        ;
    } else {
        assert(2 * (n * d - m * m) >= n) by (nonlinear_arith)
            requires
                d >= m,
                m >= 1,
                2 * m <= n,
        {
            assert(n * d >= n * m) by (nonlinear_arith)
                requires
                    d >= m,
                    n > 0,
            ;
            assert(2 * (m * m) <= n * m) by (nonlinear_arith)
                requires
                    2 * m <= n,
                    m >= 1,
            ;
            assert(n * m >= n) by (nonlinear_arith)
                requires
                    m >= 1,
                    n > 0,
            ;
        }
    }
}

/// A large number, counted in pieces of one size and what is left of them.
#[derive(Clone, Copy)]
struct Mixed {
    whole: i128,
    rest: i128,
}

spec fn value_of(x: Mixed, piece: int) -> int {
    piece * x.whole + x.rest
}

spec fn is_mixed(x: Mixed, piece: int) -> bool {
    0 <= x.whole && 0 <= x.rest < piece
}

proof fn lemma_mixed_order(x: Mixed, y: Mixed, piece: int)
    requires
        0 <= x.rest < piece,
        0 <= y.rest < piece,
    ensures
        value_of(x, piece) < value_of(y, piece) <==> (x.whole < y.whole || (x.whole == y.whole
            && x.rest < y.rest)),
{
    let (a, b) = (x.whole as int, y.whole as int);
    if a < b {
        assert(piece * b >= piece * a + piece) by (nonlinear_arith)
            requires
                a + 1 <= b,
                piece > 0,
        ;
    } else if b < a {
        assert(piece * a >= piece * b + piece) by (nonlinear_arith)
            requires
                b + 1 <= a,
                piece > 0,
        ;
    }
}

/// Pieces and a number beside them.
fn mix(whole: i128, beside: i128, piece: i128) -> (x: Mixed)
    requires
        0 < piece <= u32::MAX,
        magnitude(whole as int) <= 0x1000_0000_0000_0000_0000_0000_0000_0000,
        magnitude(beside as int) <= 0x1000_0000_0000_0000_0000_0000_0000_0000,
    ensures
        value_of(x, piece as int) == piece * whole + beside,
        0 <= x.rest < piece,
        magnitude(x.whole - whole) <= magnitude(beside as int),
{
    let (more, rest): (i128, i128) = if beside >= 0 {
        let (more, rest): (i128, i128) = (beside / piece, beside % piece);
        assert(beside == piece * more + rest && 0 <= rest < piece && 0 <= more <= beside)
            by (nonlinear_arith)
            requires
                beside >= 0,
                piece > 0,
                more == beside / piece,
                rest == beside % piece,
        ;
        (more, rest)
    } else {
        let up: i128 = -beside + (piece - 1);
        let (less, over): (i128, i128) = (up / piece, up % piece);
        assert(up == piece * less + over && 0 <= over < piece && 0 <= less <= up)
            by (nonlinear_arith)
            requires
                up >= 0,
                piece > 0,
                less == up / piece,
                over == up % piece,
        ;
        assert(less <= -beside) by (nonlinear_arith)
            requires
                piece * less <= -beside + (piece - 1),
                -beside >= 1,
                piece >= 1,
        ;
        assert(piece * (-less) == -(piece * less)) by (nonlinear_arith);
        (-less, piece - 1 - over)
    };
    assert(piece * (whole + more) == piece * whole + piece * more) by (nonlinear_arith);
    Mixed { whole: whole + more, rest }
}

/// Divides, rounded down, and gives what is left over.
fn divide(x: Mixed, y: Mixed, piece: i128) -> (r: (i128, Mixed))
    requires
        0 < piece <= u32::MAX,
        is_mixed(x, piece as int),
        is_mixed(y, piece as int),
        x.whole < 0x2000_0000_0000_0000_0000_0000_0000_0000,
        1 <= y.whole < 0x4000_0000_0000_0000_0000_0000_0000_0000,
    ensures
        r.0 * value_of(y, piece as int) + value_of(r.1, piece as int) == value_of(
            x,
            piece as int,
        ),
        is_mixed(r.1, piece as int),
        r.1.whole <= x.whole,
        value_of(r.1, piece as int) < value_of(y, piece as int),
        0 <= r.0 <= x.whole,
    decreases
        (if value_of(x, piece as int) < value_of(y, piece as int) {
            0
        } else {
            x.whole - y.whole + 1
        }),
{
    proof {
        lemma_mixed_order(x, y, piece as int);
    }
    if x.whole < y.whole || (x.whole == y.whole && x.rest < y.rest) {
        assert(0 * value_of(y, piece as int) == 0);
        return (0, x);
    }
    let twice: Mixed = if 2 * y.rest >= piece {
        Mixed { whole: 2 * y.whole + 1, rest: 2 * y.rest - piece }
    } else {
        Mixed { whole: 2 * y.whole, rest: 2 * y.rest }
    };
    let ghost v = value_of(y, piece as int);
    proof {
        let w = y.whole as int;
        assert(piece * (2 * w + 1) == 2 * (piece * w) + piece) by (nonlinear_arith);
        assert(piece * (2 * w) == 2 * (piece * w)) by (nonlinear_arith);
        assert(value_of(twice, piece as int) == 2 * v);
        lemma_mixed_order(x, twice, piece as int);
    }
    let (half, left) = divide(x, twice, piece);
    proof {
        assert(half * (2 * v) == (2 * half) * v) by (nonlinear_arith);
        assert((2 * half + 1) * v == (2 * half) * v + v) by (nonlinear_arith);
        lemma_mixed_order(left, y, piece as int);
    }
    let (q, r): (i128, Mixed) = if left.whole < y.whole || (left.whole == y.whole && left.rest
        < y.rest) {
        (2 * half, left)
    } else {
        let less: Mixed = if left.rest >= y.rest {
            Mixed { whole: left.whole - y.whole, rest: left.rest - y.rest }
        } else {
            Mixed { whole: left.whole - y.whole - 1, rest: left.rest + piece - y.rest }
        };
        proof {
            let (a, b) = (left.whole as int, y.whole as int);
            assert(piece * (a - b) == piece * a - piece * b) by (nonlinear_arith);
            assert(piece * (a - b - 1) == piece * a - piece * b - piece) by (nonlinear_arith);
        }
        (2 * half + 1, less)
    };
    proof {
        let w = x.whole as int;
        assert(v >= piece) by (nonlinear_arith)
            requires
                v == piece * y.whole + y.rest,
                y.whole >= 1,
                y.rest >= 0,
                piece > 0,
        ;
        assert(q <= w) by (nonlinear_arith)
            requires
                q * v <= piece * w + x.rest,
                x.rest < piece,
                v >= piece,
                q >= 0,
                piece > 0,
                w >= 0,
        {
            assert(q * v >= q * piece) by (nonlinear_arith)
                requires
                    v >= piece,
                    q >= 0,
            ;
            assert(q * piece < (w + 1) * piece) by (nonlinear_arith)
                requires
                    q * piece <= piece * w + x.rest,
                    x.rest < piece,
            ;
        }
    }
    (q, r)
}

/// The fraction of two large numbers, to the nearest whole.
fn fraction(x: Mixed, y: Mixed, piece: i128) -> (q: i128)
    requires
        0 < piece <= u32::MAX,
        is_mixed(x, piece as int),
        is_mixed(y, piece as int),
        x.whole < 0x2000_0000_0000_0000_0000_0000_0000_0000,
        y.whole < 0x4000_0000_0000_0000_0000_0000_0000_0000,
        value_of(y, piece as int) >= piece,
    ensures
        q == value_of(x, piece as int) / value_of(y, piece as int),
        0 <= q <= x.whole,
{
    proof {
        if y.whole <= 0 {
            assert(piece * y.whole == 0) by (nonlinear_arith)
                requires
                    y.whole == 0,
            ;
        }
    }
    let (q, r) = divide(x, y, piece);
    proof {
        let (w, z) = (r.whole as int, r.rest as int);
        assert(piece * w + z >= 0) by (nonlinear_arith)
            requires
                w >= 0,
                z >= 0,
                piece > 0,
        ;
        vstd::arithmetic::div_mod::lemma_fundamental_div_mod_converse(
            value_of(x, piece as int),
            value_of(y, piece as int),
            q as int,
            value_of(r, piece as int),
        );
    }
    q
}

/// The slope per minute, from sums that are taken from about the averages: of the products, of the
/// squared times, of the times and of the errors.
fn per_minute(both: i128, own: i128, times: i128, errors: i128, piece: i128) -> (s: i128)
    requires
        0 < piece <= u32::MAX,
        magnitude(both as int) <= piece * 40_000_000_000_000_000_000_000,
        0 < own <= piece * 400_000_000_000_000_000_000,
        magnitude(times as int) <= own,
        2 * magnitude(times as int) <= piece,
        2 * magnitude(errors as int) <= piece,
    ensures
        piece * own - times * times > 0,
        s == nearest((piece * both - times * errors) * 60_000, piece * own - times * times),
{
    assert(magnitude(times * errors) <= 0x1_0000_0000 * 0x1_0000_0000 && 0 <= times * times
        <= 0x1_0000_0000 * 0x1_0000_0000) by (nonlinear_arith)
        requires
            -0x1_0000_0000 <= times <= 0x1_0000_0000,
            -0x1_0000_0000 <= errors <= 0x1_0000_0000,
    ;
    let cross: i128 = times * errors;
    let square: i128 = times * times;
    let ghost num = piece * both - cross;
    let ghost den = piece * own - square;
    proof {
        lemma_variation(piece as int, own as int, times as int);
    }
    let signed: Mixed = mix(both, -cross, piece);
    let negative: bool = signed.whole < 0;
    let (b, c): (i128, i128) = if negative {
        (-both, -cross)
    } else {
        (both, cross)
    };
    let x: Mixed = mix(120_000 * b + own, -(120_000 * c) - square, piece);
    let y: Mixed = mix(2 * own, -(2 * square), piece);
    proof {
        lemma_whole_sign(signed, piece as int);
        assert(piece * (-both) == -(piece * both)) by (nonlinear_arith);
        assert(magnitude(num) == piece * b - c);
        assert(piece * (120_000 * b + own) == 120_000 * (piece * b) + piece * own)
            by (nonlinear_arith);
        assert(piece * (2 * own) == 2 * (piece * own)) by (nonlinear_arith);
        assert(value_of(x, piece as int) == 120_000 * magnitude(num) + den);
        assert(value_of(y, piece as int) == 2 * den);
        lemma_whole_sign(x, piece as int);
        lemma_whole_sign(y, piece as int);
    }
    let q: i128 = fraction(x, y, piece);
    proof {
        assert(magnitude(num * 60_000) == 60_000 * magnitude(num));
        assert(q == (2 * magnitude(num * 60_000) + den) / (2 * den));
    }
    if negative {
        -q
    } else {
        q
    }
}

proof fn lemma_whole_sign(x: Mixed, piece: int)
    requires
        0 <= x.rest < piece,
    ensures
        value_of(x, piece) < 0 <==> x.whole < 0,
{
    let w = x.whole as int;
    if w < 0 {
        assert(piece * w <= -piece) by (nonlinear_arith)
            requires
                w <= -1,
                piece > 0,
        ;
    } else {
        assert(piece * w >= 0) by (nonlinear_arith)
            requires
                w >= 0,
                piece > 0,
        ;
    }
}

/// The slope of the least squares line through errors over chart times, per minute.
pub fn slope(t: &[i128], e: &[i128]) -> (s: i128)
    requires
        t@.len() == e@.len() <= u32::MAX,
        limited(t@, CHART_LIMIT as i128),
        limited(e@, WINDOW_LIMIT as i128),
    ensures
        s == drift(t@, e@),
{
    let n: usize = e.len();
    if n < 8 {
        return 0;
    }
    let tm: i128 = mean(t);
    let em: i128 = mean(e);
    proof {
        lemma_average_bound(t@, CHART_LIMIT as int);
        lemma_average_bound(e@, WINDOW_LIMIT as int);
        assert(n * 0 == 0);
    }
    let mut both: i128 = 0;
    let mut own: i128 = 0;
    let mut dt_sum: i128 = 0;
    let mut de_sum: i128 = 0;
    let mut i: usize = 0;
    assert(total(terms(t@), 0) - 0 * tm == 0 && total(terms(e@), 0) - 0 * em == 0);
    while i < n
        invariant
            i <= n == t@.len() == e@.len(),
            n <= u32::MAX,
            limited(t@, CHART_LIMIT as i128),
            limited(e@, WINDOW_LIMIT as i128),
            magnitude(tm as int) <= CHART_LIMIT,
            magnitude(em as int) <= WINDOW_LIMIT,
            both == total(from_centre(t@, e@, tm as int, em as int), i as nat),
            own == total(from_centre(t@, t@, tm as int, tm as int), i as nat),
            dt_sum == total(terms(t@), i as nat) - i * tm,
            de_sum == total(terms(e@), i as nat) - i * em,
            magnitude(dt_sum as int) <= own,
            magnitude(de_sum as int) <= i * 2_000_000_000_000,
            magnitude(both as int) <= i * 40_000_000_000_000_000_000_000,
            0 <= own <= i * 400_000_000_000_000_000_000,
        decreases n - i,
    {
        assert(magnitude(t@[i as int] as int) <= CHART_LIMIT);
        assert(magnitude(e@[i as int] as int) <= WINDOW_LIMIT);
        let dt: i128 = t[i] - tm;
        let de: i128 = e[i] - em;
        assert(-40_000_000_000_000_000_000_000 <= dt * de <= 40_000_000_000_000_000_000_000)
            by (nonlinear_arith)
            requires
                -20_000_000_000 <= dt <= 20_000_000_000,
                -2_000_000_000_000 <= de <= 2_000_000_000_000,
        ;
        assert(magnitude(dt as int) <= dt * dt <= 400_000_000_000_000_000_000) by (nonlinear_arith)
            requires
                -20_000_000_000 <= dt <= 20_000_000_000,
        ;
        assert((i + 1) * tm == i * tm + tm && (i + 1) * em == i * em + em) by (nonlinear_arith);
        both = both + dt * de;
        own = own + dt * dt;
        dt_sum = dt_sum + dt;
        de_sum = de_sum + de;
        i = i + 1;
    }
    let piece: i128 = n as i128;
    proof {
        lemma_covariation(t@, t@, tm as int, tm as int);
        lemma_covariation(t@, e@, tm as int, em as int);
        lemma_average_is_near(t@);
        lemma_average_is_near(e@);
        lemma_variation(n as int, own as int, dt_sum as int);
    }
    if own == 0 {
        return 0;
    }
    per_minute(both, own, dt_sum, de_sum, piece)
}

/// Errors that lie on a line have its slope.
pub proof fn law_drift_of_a_line(t: Seq<i128>, e: Seq<i128>, from: int, each: int)
    requires
        t.len() == e.len(),
        t.len() >= 8,
        covariation(t, t) > 0,
        forall|i: int| 0 <= i < t.len() ==> #[trigger] e[i] == from + each * t[i],
    ensures
        drift(t, e) == 60_000 * each,
{
    let n = t.len();
    lemma_line_sums(t, e, from, each, n);
    let (s, p) = (sum_of(t), total(products(t, t), n));
    let den = covariation(t, t);
    assert(n * (from * s + each * p) - s * (n * from + each * s) == each * (n * p - s * s))
        by (nonlinear_arith);
    assert(covariation(t, e) == each * den);
    let k = magnitude(each);
    assert(magnitude(each * den * 60_000) == k * 60_000 * den) by (nonlinear_arith)
        requires
            den > 0,
            k == magnitude(each),
    ;
    assert((2 * (k * 60_000 * den) + den) / (2 * den) == k * 60_000) by (nonlinear_arith)
        requires
            den > 0,
            k >= 0,
    {
        assert(2 * (k * 60_000 * den) + den == (k * 60_000) * (2 * den) + den) by (nonlinear_arith);
        vstd::arithmetic::div_mod::lemma_fundamental_div_mod_converse(
            2 * (k * 60_000 * den) + den,
            2 * den,
            k * 60_000,
            den,
        );
    }
    assert(each < 0 ==> each * den * 60_000 < 0) by (nonlinear_arith)
        requires
            den > 0,
    ;
    assert(each >= 0 ==> each * den * 60_000 >= 0) by (nonlinear_arith)
        requires
            den > 0,
    ;
}

proof fn lemma_line_sums(t: Seq<i128>, e: Seq<i128>, from: int, each: int, n: nat)
    requires
        t.len() == e.len(),
        n <= t.len(),
        forall|i: int| 0 <= i < t.len() ==> #[trigger] e[i] == from + each * t[i],
    ensures
        total(terms(e), n) == n * from + each * total(terms(t), n),
        total(products(t, e), n) == from * total(terms(t), n) + each * total(products(t, t), n),
    decreases n,
{
    if n > 0 {
        lemma_line_sums(t, e, from, each, (n - 1) as nat);
        let u = t[n - 1] as int;
        let (s, p) = (total(terms(t), (n - 1) as nat), total(products(t, t), (n - 1) as nat));
        assert(e[n - 1] == from + each * u);
        assert(n * from == (n - 1) * from + from) by (nonlinear_arith);
        assert(each * (s + u) == each * s + each * u) by (nonlinear_arith);
        assert(from * (s + u) == from * s + from * u) by (nonlinear_arith);
        assert(each * (p + u * u) == each * p + each * (u * u)) by (nonlinear_arith);
        assert(u * (from + each * u) == from * u + each * (u * u)) by (nonlinear_arith);
    } else {
        assert(0 * from == 0 && each * 0 == 0 && from * 0 == 0) by (nonlinear_arith);
    }
}

} // verus!
