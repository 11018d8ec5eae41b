//! How far a mesh reaches, and bringing it to unit size.

use vstd::prelude::*;

use crate::fixed::{div_nearest, greater, magnitude, nearest};
use crate::mesh::{Mesh, Vertex};
use crate::number::{fixed_of, parse_fixed};
use crate::text::chars_of;

verus! {

/// A corner of a mesh, in millionths.
#[derive(Debug, Clone, Copy, PartialEq, Eq, Structural)]
pub struct Point {
    pub x: i64,
    pub y: i64,
    pub z: i64,
}

/// Whether a point is what a corner writes.
pub open spec fn is_point(p: Point, v: Vertex) -> bool {
    &&& fixed_of(v.x@) == Some(p.x as int)
    &&& fixed_of(v.y@) == Some(p.y as int)
    &&& fixed_of(v.z@) == Some(p.z as int)
}

/// Whether a corner writes decimal numbers.
pub open spec fn has_point(v: Vertex) -> bool {
    fixed_of(v.x@) is Some && fixed_of(v.y@) is Some && fixed_of(v.z@) is Some
}

fn coordinate(s: &str) -> (v: Option<i64>)
    ensures
        match v {
            Some(n) => fixed_of(s@) == Some(n as int),
            None => fixed_of(s@) is None,
        },
{
    let chars: Vec<char> = chars_of(s);
    parse_fixed(chars.as_slice())
}

impl Mesh {
    /// The corners in millionths; none where one of them is infinite or no number.
    pub fn points(&self) -> (r: Option<Vec<Point>>)
        ensures
            match r {
                Some(points) => points@.len() == self.vertices@.len() && forall|i: int|
                    0 <= i < points@.len() ==> is_point(#[trigger] points@[i], self.vertices@[i]),
                None => exists|i: int|
                    0 <= i < self.vertices@.len() && !has_point(#[trigger] self.vertices@[i]),
            },
    {
        let mut points: Vec<Point> = Vec::new();
        let mut i: usize = 0;
        while i < self.vertices.len()
            invariant
                i <= self.vertices@.len(),
                points@.len() == i,
                forall|k: int| 0 <= k < i ==> is_point(#[trigger] points@[k], self.vertices@[k]),
            decreases self.vertices@.len() - i,
        {
            let v: &Vertex = &self.vertices[i];
            match (
                coordinate(v.x.as_str()),
                coordinate(v.y.as_str()),
                coordinate(v.z.as_str()),
            ) {
                (Some(x), Some(y), Some(z)) => {
                    points.push(Point { x, y, z });
                },
                _ => {
                    assert(!has_point(self.vertices@[i as int]));
                    return None;
                },
            }
            i = i + 1;
        }
        Some(points)
    }
}

/// Whether two points are the corners of the smallest box about points.
pub open spec fn is_box(lo: Point, hi: Point, points: Seq<Point>) -> bool {
    &&& forall|i: int|
        0 <= i < points.len() ==> {
            &&& lo.x <= (#[trigger] points[i]).x <= hi.x
            &&& lo.y <= points[i].y <= hi.y
            &&& lo.z <= points[i].z <= hi.z
        }
    &&& exists|i: int| 0 <= i < points.len() && (#[trigger] points[i]).x == lo.x
    &&& exists|i: int| 0 <= i < points.len() && (#[trigger] points[i]).x == hi.x
    &&& exists|i: int| 0 <= i < points.len() && (#[trigger] points[i]).y == lo.y
    &&& exists|i: int| 0 <= i < points.len() && (#[trigger] points[i]).y == hi.y
    &&& exists|i: int| 0 <= i < points.len() && (#[trigger] points[i]).z == lo.z
    &&& exists|i: int| 0 <= i < points.len() && (#[trigger] points[i]).z == hi.z
}

fn lower(a: i64, b: i64) -> (r: i64)
    ensures
        r == if b < a {
            b
        } else {
            a
        },
{
    if b < a {
        b
    } else {
        a
    }
}

fn higher(a: i64, b: i64) -> (r: i64)
    ensures
        r == if b > a {
            b
        } else {
            a
        },
{
    if b > a {
        b
    } else {
        a
    }
}

/// The smallest box about points, by two of its corners.
pub fn bounds(points: &[Point]) -> (r: (Point, Point))
    requires
        points@.len() > 0,
    ensures
        is_box(r.0, r.1, points@),
{
    let mut lo: Point = points[0];
    let mut hi: Point = points[0];
    let mut i: usize = 1;
    assert(is_box(lo, hi, points@.take(1))) by {
        assert(points@.take(1)[0] == lo);
    }
    while i < points.len()
        invariant
            1 <= i <= points@.len(),
            is_box(lo, hi, points@.take(i as int)),
        decreases points@.len() - i,
    {
        let p: Point = points[i];
        let ghost before = points@.take(i as int);
        let ghost after = points@.take(i + 1);
        let new_lo: Point = Point {
            x: lower(lo.x, p.x),
            y: lower(lo.y, p.y),
            z: lower(lo.z, p.z),
        };
        let new_hi: Point = Point {
            x: higher(hi.x, p.x),
            y: higher(hi.y, p.y),
            z: higher(hi.z, p.z),
        };
        proof {
            assert(after =~= before.push(p));
            lemma_box_grows(lo, hi, p, new_lo, new_hi, before, after);
        }
        lo = new_lo;
        hi = new_hi;
        i = i + 1;
    }
    assert(points@.take(i as int) =~= points@);
    (lo, hi)
}

proof fn lemma_box_grows(
    lo: Point,
    hi: Point,
    p: Point,
    new_lo: Point,
    new_hi: Point,
    before: Seq<Point>,
    after: Seq<Point>,
)
    requires
        is_box(lo, hi, before),
        after == before.push(p),
        new_lo.x == if p.x < lo.x { p.x } else { lo.x },
        new_lo.y == if p.y < lo.y { p.y } else { lo.y },
        new_lo.z == if p.z < lo.z { p.z } else { lo.z },
        new_hi.x == if p.x > hi.x { p.x } else { hi.x },
        new_hi.y == if p.y > hi.y { p.y } else { hi.y },
        new_hi.z == if p.z > hi.z { p.z } else { hi.z },
    ensures
        is_box(new_lo, new_hi, after),
{
    let n = before.len() as int;
    assert(after[n] == p);
    assert forall|i: int| 0 <= i < after.len() implies {
        &&& new_lo.x <= (#[trigger] after[i]).x <= new_hi.x
        &&& new_lo.y <= after[i].y <= new_hi.y
        &&& new_lo.z <= after[i].z <= new_hi.z
    } by {
        if i < n {
            assert(after[i] == before[i]);
        }
    }
    let a = choose|i: int| 0 <= i < before.len() && (#[trigger] before[i]).x == lo.x;
    let b = choose|i: int| 0 <= i < before.len() && (#[trigger] before[i]).x == hi.x;
    let c = choose|i: int| 0 <= i < before.len() && (#[trigger] before[i]).y == lo.y;
    let d = choose|i: int| 0 <= i < before.len() && (#[trigger] before[i]).y == hi.y;
    let e = choose|i: int| 0 <= i < before.len() && (#[trigger] before[i]).z == lo.z;
    let f = choose|i: int| 0 <= i < before.len() && (#[trigger] before[i]).z == hi.z;
    assert(after[a] == before[a] && after[b] == before[b] && after[c] == before[c]);
    assert(after[d] == before[d] && after[e] == before[e] && after[f] == before[f]);
}

/// How far the first `n` points reach from the middle, across or down.
pub open spec fn reach(points: Seq<Point>, n: int) -> int
    decreases n,
{
    if n <= 0 {
        0
    } else {
        greater(
            reach(points, n - 1),
            greater(magnitude(points[n - 1].x as int), magnitude(points[n - 1].y as int)),
        )
    }
}

/// How far points reach from the middle, across or down.
pub fn xy_half_extent(points: &[Point]) -> (h: i128)
    ensures
        h == reach(points@, points@.len() as int),
        0 <= h <= 0x8000_0000_0000_0000,
{
    let mut h: i128 = 0;
    let mut i: usize = 0;
    while i < points.len()
        invariant
            i <= points@.len(),
            h == reach(points@, i as int),
            0 <= h <= 0x8000_0000_0000_0000,
        decreases points@.len() - i,
    {
        let x: i128 = points[i].x as i128;
        let y: i128 = points[i].y as i128;
        let ax: i128 = if x < 0 {
            -x
        } else {
            x
        };
        let ay: i128 = if y < 0 {
            -y
        } else {
            y
        };
        let most: i128 = if ax > ay {
            ax
        } else {
            ay
        };
        if most > h {
            h = most;
        }
        i = i + 1;
    }
    h
}

/// A point with its place across and down as a share of a reach.
pub open spec fn scaled_point(p: Point, h: int) -> Point {
    Point {
        x: nearest(p.x * 1_000_000, h) as i64,
        y: nearest(p.y * 1_000_000, h) as i64,
        z: p.z,
    }
}

/// Points brought to unit size: those that do not reach out of the middle stay.
pub open spec fn normalized(points: Seq<Point>) -> Seq<Point> {
    let h = reach(points, points.len() as int);
    if h > 0 {
        Seq::new(points.len(), |i: int| scaled_point(points[i], h))
    } else {
        points
    }
}

proof fn lemma_reach(points: Seq<Point>, n: int, i: int)
    requires
        0 <= i < n <= points.len(),
    ensures
        magnitude(points[i].x as int) <= reach(points, n),
        magnitude(points[i].y as int) <= reach(points, n),
    decreases n,
{
    if i < n - 1 {
        lemma_reach(points, n - 1, i);
    }
}

proof fn lemma_share(v: int, h: int)
    requires
        0 < h,
        magnitude(v) <= h,
    ensures
        magnitude(nearest(v * 1_000_000, h)) <= 1_000_000,
        v == h ==> nearest(v * 1_000_000, h) == 1_000_000,
        v == -h ==> nearest(v * 1_000_000, h) == -1_000_000,
{
    let m = magnitude(v);
    let n = m * 1_000_000;
    assert((2 * n + h) / (2 * h) <= 1_000_000) by (nonlinear_arith)
        requires
            n == m * 1_000_000,
            0 <= m <= h,
            h > 0,
    {
        assert(2 * n + h < 2 * h * 1_000_001) by (nonlinear_arith)
            requires
                n == m * 1_000_000,
                0 <= m <= h,
                h > 0,
        ;
    }
    assert((2 * n + h) / (2 * h) >= 0) by (nonlinear_arith)
        requires
            n >= 0,
            h > 0,
    ;
    if m == h {
        assert((2 * (h * 1_000_000) + h) / (2 * h) == 1_000_000) by (nonlinear_arith)
            requires
                h > 0,
        {
            vstd::arithmetic::div_mod::lemma_fundamental_div_mod_converse(
                2 * (h * 1_000_000) + h,
                2 * h,
                1_000_000,
                h,
            );
        }
    }
}

fn share(v: i64, h: i128) -> (r: i64)
    requires
        0 < h <= 0x8000_0000_0000_0000,
        magnitude(v as int) <= h,
    ensures
        r == nearest(v * 1_000_000, h as int),
{
    proof {
        lemma_share(v as int, h as int);
    }
    div_nearest(v as i128 * 1_000_000, h) as i64
}

/// Brings points to unit size across and down, so that one scale suits any mesh.
pub fn normalize_xy(points: &mut Vec<Point>)
    ensures
        final(points)@ == normalized(old(points)@),
{
    let ghost given = points@;
    let h: i128 = xy_half_extent(points.as_slice());
    if h <= 0 {
        return;
    }
    let mut i: usize = 0;
    while i < points.len()
        invariant
            i <= points@.len() == given.len(),
            h == reach(given, given.len() as int),
            0 < h <= 0x8000_0000_0000_0000,
            forall|k: int| 0 <= k < i ==> #[trigger] points@[k] == scaled_point(given[k], h as int),
            forall|k: int| i <= k < given.len() ==> #[trigger] points@[k] == given[k],
        decreases points@.len() - i,
    {
        proof {
            lemma_reach(given, given.len() as int, i as int);
        }
        let p: Point = points[i];
        points.set(i, Point { x: share(p.x, h), y: share(p.y, h), z: p.z });
        i = i + 1;
    }
    assert(points@ =~= normalized(given));
}

/// A mesh that was brought to unit size reaches exactly one unit from the middle.
pub proof fn law_normalized_meshes_have_unit_size(points: Seq<Point>)
    requires
        reach(points, points.len() as int) > 0,
    ensures
        reach(normalized(points), points.len() as int) == 1_000_000,
{
    let h = reach(points, points.len() as int);
    lemma_unit_reach(points, points.len() as int, h);
}

proof fn lemma_unit_reach(points: Seq<Point>, n: int, h: int)
    requires
        0 <= n <= points.len(),
        h > 0,
        h == reach(points, points.len() as int),
    ensures
        0 <= reach(normalized(points), n) <= 1_000_000,
        reach(points, n) == h ==> reach(normalized(points), n) == 1_000_000,
    decreases n,
{
    if n > 0 {
        lemma_unit_reach(points, n - 1, h);
        lemma_reach(points, points.len() as int, n - 1);
        let p = points[n - 1];
        assert(normalized(points)[n - 1] == scaled_point(p, h));
        lemma_share(p.x as int, h);
        lemma_share(p.y as int, h);
        lemma_reach_bound(points, n);
    }
}

proof fn lemma_reach_bound(points: Seq<Point>, n: int)
    requires
        0 <= n <= points.len(),
    ensures
        0 <= reach(points, n) <= reach(points, points.len() as int),
    decreases points.len() - n,
{
    if n < points.len() {
        lemma_reach_bound(points, n + 1);
    }
    lemma_reach_positive(points, n);
}

proof fn lemma_reach_positive(points: Seq<Point>, n: int)
    ensures
        reach(points, n) >= 0,
    decreases n,
{
    if n > 0 {
        lemma_reach_positive(points, n - 1);
    }
}

/// The half extent is the largest coordinate across or up, whichever its sign; how deep a mesh is
/// does not count.
pub proof fn law_the_half_extent_is_the_largest_coordinate(points: Seq<Point>, n: int, i: int)
    requires
        0 <= i < n <= points.len(),
    ensures
        magnitude(points[i].x as int) <= reach(points, n),
        magnitude(points[i].y as int) <= reach(points, n),
        exists|k: int|
            0 <= k < n && (magnitude((#[trigger] points[k]).x as int) == reach(points, n)
                || magnitude(points[k].y as int) == reach(points, n)),
    decreases n,
{
    let last = points[n - 1];
    if n > 1 {
        law_the_half_extent_is_the_largest_coordinate(
            points,
            n - 1,
            if i < n - 1 {
                i
            } else {
                0
            },
        );
        let k = choose|k: int|
            0 <= k < n - 1 && (magnitude((#[trigger] points[k]).x as int) == reach(points, n - 1)
                || magnitude(points[k].y as int) == reach(points, n - 1));
        assert(reach(points, n) == reach(points, n - 1) || reach(points, n) == magnitude(
            points[n - 1].x as int,
        ) || reach(points, n) == magnitude(points[n - 1].y as int));
        if reach(points, n) == reach(points, n - 1) {
            assert(magnitude(points[k].x as int) == reach(points, n) || magnitude(
                points[k].y as int,
            ) == reach(points, n));
        }
    } else {
        assert(reach(points, 0) == 0);
        assert(magnitude(points[0].x as int) == reach(points, n) || magnitude(points[0].y as int)
            == reach(points, n));
    }
}

} // verus!
