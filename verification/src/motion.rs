//! How the cursor moved: the segments between frames, smoothed speeds, and where the cursor was.
//!
//! Distances are in millionths of a cell, times in millionths of a millisecond of song time, and
//! speeds in millionths of a cell per second of real time: a speed mod shortens real time, and
//! the hand moves in real time.

use vstd::prelude::*;

use crate::count::{tally, total};
use crate::fixed::{
    between, div_nearest, interpolate, law_rounding_is_closest, law_rounding_is_monotone,
    law_rounding_keeps_whole_numbers, lemma_nearest_bound, lemma_part_is_smaller, magnitude, nearest,
    COORDINATE_LIMIT, ONE,
};
use crate::hitreg::first_not_before;
use crate::mods::{root, whole_root};
use crate::replay::{Frame, Replay};
use crate::stats::{downsample, is_thinned, Series};

verus! {

/// A gap between frames larger than this is a pause or a gap in the recording: 500 ms.
pub const PAUSE_GAP_MS: i64 = 500_000_000;

/// The cursor moves above this speed: half a cell per second.
pub const MOVING_SPEED: i64 = 500_000;

/// The largest coordinate that movement is worked out for: a million cells.
pub const PLANE_LIMIT: i64 = 1_000_000_000_000;

/// The largest playback speed that movement is worked out for: a thousandfold.
pub const SPEED_LIMIT: i64 = 1_000_000_000;

/// Whether the movement in some frames can be worked out.
pub open spec fn trackable(frames: Seq<Frame>) -> bool {
    &&& frames.len() <= u32::MAX
    &&& forall|i: int|
        0 <= i < frames.len() ==> {
            &&& magnitude((#[trigger] frames[i]).x as int) <= PLANE_LIMIT
            &&& magnitude(frames[i].y as int) <= PLANE_LIMIT
            &&& magnitude(frames[i].ms as int) <= COORDINATE_LIMIT
        }
}

/// The speed of a run; a run without one was played at the map's own.
pub open spec fn pace_of(speed: i64) -> int {
    if speed > 0 {
        speed as int
    } else {
        ONE as int
    }
}

/// The number of segments between frames.
pub open spec fn segments(frames: Seq<Frame>) -> nat {
    if frames.len() == 0 {
        0
    } else {
        (frames.len() - 1) as nat
    }
}

/// The time between frame `i` and the next; 0 across a pause.
pub open spec fn segment_time(frames: Seq<Frame>, i: int) -> int {
    let dt = frames[i + 1].ms - frames[i].ms;
    if dt <= 0 || dt > PAUSE_GAP_MS {
        0
    } else {
        dt
    }
}

/// The distance between two points.
pub open spec fn distance(ax: int, ay: int, bx: int, by: int) -> int {
    root((bx - ax) * (bx - ax) + (by - ay) * (by - ay))
}

/// The way of the cursor between frame `i` and the next; 0 across a pause.
pub open spec fn segment_way(frames: Seq<Frame>, i: int) -> int {
    if segment_time(frames, i) == 0 {
        0
    } else {
        distance(
            frames[i].x as int,
            frames[i].y as int,
            frames[i + 1].x as int,
            frames[i + 1].y as int,
        )
    }
}

/// The times of the segments.
pub open spec fn times_fn(frames: Seq<Frame>) -> spec_fn(int) -> int {
    |i: int| segment_time(frames, i)
}

/// The ways of the segments.
pub open spec fn ways_fn(frames: Seq<Frame>) -> spec_fn(int) -> int {
    |i: int| segment_way(frames, i)
}

/// The speed over a way in a song time, at a playback speed; 0 in no time.
pub open spec fn velocity(way: int, time: int, pace: int) -> int {
    if time > 0 {
        nearest(way * pace * 1000, time)
    } else {
        0
    }
}

/// Whether the cursor moved in segment `i`.
pub open spec fn moving(frames: Seq<Frame>, pace: int, i: int) -> bool {
    segment_way(frames, i) * pace * 1000 > MOVING_SPEED * segment_time(frames, i)
}

/// The speed around segment `i`: over it and its two neighbours.
pub open spec fn smooth(frames: Seq<Frame>, pace: int, i: int) -> int {
    let n = segments(frames) as int;
    let lo = if i > 0 {
        i - 1
    } else {
        0
    };
    let hi = if i + 2 < n {
        i + 2
    } else {
        n
    };
    velocity(
        total(ways_fn(frames), hi as nat) - total(ways_fn(frames), lo as nat),
        total(times_fn(frames), hi as nat) - total(times_fn(frames), lo as nat),
        pace,
    )
}

/// The distance between two points, to the millionth below.
pub fn distance_between(ax: i128, ay: i128, bx: i128, by: i128) -> (d: i128)
    requires
        magnitude(bx - ax) <= 10 * PLANE_LIMIT,
        magnitude(by - ay) <= 10 * PLANE_LIMIT,
    ensures
        d == distance(ax as int, ay as int, bx as int, by as int),
        0 <= d <= 20 * PLANE_LIMIT,
        magnitude(bx - ax) <= 2 * PLANE_LIMIT && magnitude(by - ay) <= 2 * PLANE_LIMIT ==> d <= 3
            * PLANE_LIMIT,
{
    let dx: i128 = bx - ax;
    let dy: i128 = by - ay;
    assert(0 <= dx * dx <= 100_000_000_000_000_000_000_000_000) by (nonlinear_arith)
        requires
            -10_000_000_000_000 <= dx <= 10_000_000_000_000,
    ;
    assert(0 <= dy * dy <= 100_000_000_000_000_000_000_000_000) by (nonlinear_arith)
        requires
            -10_000_000_000_000 <= dy <= 10_000_000_000_000,
    ;
    let sq: u128 = (dx * dx + dy * dy) as u128;
    let r: u64 = whole_root(sq);
    proof {
        let rr = r as int;
        assert(rr <= 20_000_000_000_000) by (nonlinear_arith)
            requires
                rr * rr <= 200_000_000_000_000_000_000_000_000,
                rr >= 0,
        ;
        if magnitude(dx as int) <= 2 * PLANE_LIMIT && magnitude(dy as int) <= 2 * PLANE_LIMIT {
            assert(dx * dx <= 4_000_000_000_000_000_000_000_000) by (nonlinear_arith)
                requires
                    -2_000_000_000_000 <= dx <= 2_000_000_000_000,
            ;
            assert(dy * dy <= 4_000_000_000_000_000_000_000_000) by (nonlinear_arith)
                requires
                    -2_000_000_000_000 <= dy <= 2_000_000_000_000,
            ;
            assert(rr <= 3_000_000_000_000) by (nonlinear_arith)
                requires
                    rr * rr <= 8_000_000_000_000_000_000_000_000,
                    rr >= 0,
            ;
        }
    }
    r as i128
}

/// The segments of a recording.
#[derive(Debug, Clone)]
pub struct Kinematics {
    /// Time of each segment; 0 across a pause.
    pub seg_dt: Vec<i64>,
    /// Way of each segment; 0 across a pause.
    pub seg_dist: Vec<i64>,
    /// End of each segment.
    pub smooth_t: Vec<i64>,
    /// Smoothed speed at each segment.
    pub smooth_v: Vec<i128>,
}

/// Whether these are the segments of some frames at a playback speed.
pub open spec fn is_kinematics(k: Kinematics, frames: Seq<Frame>, pace: int) -> bool {
    let n = segments(frames);
    &&& k.seg_dt@.len() == n
    &&& k.seg_dist@.len() == n
    &&& k.smooth_t@.len() == n
    &&& k.smooth_v@.len() == n
    &&& forall|i: int|
        0 <= i < n ==> {
            &&& #[trigger] k.seg_dt@[i] == segment_time(frames, i)
            &&& 0 <= k.seg_dt@[i] <= PAUSE_GAP_MS
        }
    &&& forall|i: int|
        0 <= i < n ==> {
            &&& #[trigger] k.seg_dist@[i] == segment_way(frames, i)
            &&& 0 <= k.seg_dist@[i] <= 3 * PLANE_LIMIT
        }
    &&& forall|i: int| 0 <= i < n ==> #[trigger] k.smooth_t@[i] == frames[i + 1].ms
    &&& forall|i: int|
        0 <= i < n ==> {
            &&& #[trigger] k.smooth_v@[i] == smooth(frames, pace, i)
            &&& 0 <= k.smooth_v@[i] <= 9_000_000_000_000_000_000_000_000
        }
}

/// The speed over a way in a song time.
pub fn speed_over(way: i128, time: i128, pace: i64) -> (v: i128)
    requires
        0 <= way <= 20_000_000_000_000_000_000_000,
        0 <= time <= 10_000_000_000_000_000_000,
        0 < pace <= SPEED_LIMIT,
    ensures
        v == velocity(way as int, time as int, pace as int),
        0 <= v <= way * pace * 1000,
{
    if time > 0 {
        assert(0 <= way * pace <= 20_000_000_000_000_000_000_000_000_000_000) by (nonlinear_arith)
            requires
                0 <= way <= 20_000_000_000_000_000_000_000,
                0 < pace <= 1_000_000_000,
        ;
        let n: i128 = way * pace as i128 * 1000;
        proof {
            lemma_nearest_bound(n as int, time as int);
        }
        div_nearest(n, time)
    } else {
        assert(0 <= way * pace * 1000) by (nonlinear_arith)
            requires
                0 <= way,
                0 < pace,
        ;
        0
    }
}

/// Works out the segments of a recording.
pub fn kinematics(frames: &[Frame], pace: i64) -> (k: Kinematics)
    requires
        trackable(frames@),
        0 < pace <= SPEED_LIMIT,
    ensures
        is_kinematics(k, frames@, pace as int),
{
    let n: usize = if frames.len() == 0 {
        0
    } else {
        frames.len() - 1
    };
    let mut seg_dt: Vec<i64> = Vec::new();
    let mut seg_dist: Vec<i64> = Vec::new();
    let mut smooth_t: Vec<i64> = Vec::new();
    let mut i: usize = 0;
    while i < n
        invariant
            n == segments(frames@),
            i <= n,
            trackable(frames@),
            seg_dt@.len() == i,
            seg_dist@.len() == i,
            smooth_t@.len() == i,
            forall|j: int|
                0 <= j < i ==> {
                    &&& #[trigger] seg_dt@[j] == segment_time(frames@, j)
                    &&& 0 <= seg_dt@[j] <= PAUSE_GAP_MS
                },
            forall|j: int|
                0 <= j < i ==> {
                    &&& #[trigger] seg_dist@[j] == segment_way(frames@, j)
                    &&& 0 <= seg_dist@[j] <= 3 * PLANE_LIMIT
                },
            forall|j: int| 0 <= j < i ==> #[trigger] smooth_t@[j] == frames@[j + 1].ms,
        decreases n - i,
    {
        assert(magnitude(frames@[i as int].x as int) <= PLANE_LIMIT);
        assert(magnitude(frames@[i + 1].x as int) <= PLANE_LIMIT);
        let a: Frame = frames[i];
        let b: Frame = frames[i + 1];
        let dt: i64 = b.ms - a.ms;
        if dt <= 0 || dt > PAUSE_GAP_MS {
            seg_dt.push(0);
            seg_dist.push(0);
        } else {
            seg_dt.push(dt);
            seg_dist.push(
                distance_between(a.x as i128, a.y as i128, b.x as i128, b.y as i128) as i64,
            );
        }
        smooth_t.push(b.ms);
        i = i + 1;
    }
    let mut smooth_v: Vec<i128> = Vec::new();
    let mut i: usize = 0;
    while i < n
        invariant
            n == segments(frames@),
            n < u32::MAX,
            i <= n,
            seg_dt@.len() == n,
            seg_dist@.len() == n,
            0 < pace <= SPEED_LIMIT,
            smooth_v@.len() == i,
            forall|j: int|
                0 <= j < n ==> {
                    &&& #[trigger] seg_dt@[j] == segment_time(frames@, j)
                    &&& 0 <= seg_dt@[j] <= PAUSE_GAP_MS
                },
            forall|j: int|
                0 <= j < n ==> {
                    &&& #[trigger] seg_dist@[j] == segment_way(frames@, j)
                    &&& 0 <= seg_dist@[j] <= 3 * PLANE_LIMIT
                },
            forall|j: int|
                0 <= j < i ==> {
                    &&& #[trigger] smooth_v@[j] == smooth(frames@, pace as int, j)
                    &&& 0 <= smooth_v@[j] <= 9_000_000_000_000_000_000_000_000
                },
        decreases n - i,
    {
        let lo: usize = if i > 0 {
            i - 1
        } else {
            0
        };
        let hi: usize = if i + 2 < n {
            i + 2
        } else {
            n
        };
        let mut d: i128 = 0;
        let mut t: i128 = 0;
        let mut j: usize = lo;
        while j < hi
            invariant
                n == segments(frames@),
                lo <= j <= hi <= n,
                hi - lo <= 3,
                seg_dt@.len() == n,
                seg_dist@.len() == n,
                d == total(ways_fn(frames@), j as nat) - total(ways_fn(frames@), lo as nat),
                t == total(times_fn(frames@), j as nat) - total(times_fn(frames@), lo as nat),
                0 <= d <= (j - lo) * 3_000_000_000_000,
                0 <= t <= (j - lo) * 500_000_000,
                forall|k: int|
                    0 <= k < n ==> {
                        &&& #[trigger] seg_dt@[k] == segment_time(frames@, k)
                        &&& 0 <= seg_dt@[k] <= PAUSE_GAP_MS
                    },
                forall|k: int|
                    0 <= k < n ==> {
                        &&& #[trigger] seg_dist@[k] == segment_way(frames@, k)
                        &&& 0 <= seg_dist@[k] <= 3 * PLANE_LIMIT
                    },
            decreases hi - j,
        {
            assert(seg_dist@[j as int] == segment_way(frames@, j as int));
            assert(seg_dt@[j as int] == segment_time(frames@, j as int));
            d = d + seg_dist[j] as i128;
            t = t + seg_dt[j] as i128;
            j = j + 1;
        }
        let v: i128 = speed_over(d, t, pace);
        assert(d * pace * 1000 <= 9_000_000_000_000_000_000_000_000) by (nonlinear_arith)
            requires
                0 <= d <= 9_000_000_000_000,
                0 < pace <= 1_000_000_000,
        ;
        smooth_v.push(v);
        i = i + 1;
    }
    Kinematics { seg_dt, seg_dist, smooth_t, smooth_v }
}

/// The cursor at a time: that of the last frame up to it, moved on towards the next one; the
/// nearest end outside the recording.
pub open spec fn place(frames: Seq<Frame>, t: int) -> (int, int) {
    let i = first_not_before(frames, 0, t + 1);
    if frames.len() == 0 {
        (0, 0)
    } else if i == 0 {
        (frames[0].x as int, frames[0].y as int)
    } else if i >= frames.len() {
        (frames.last().x as int, frames.last().y as int)
    } else {
        let a = frames[i - 1];
        let b = frames[i];
        (
            between(a.x as int, b.x as int, t - a.ms, b.ms - a.ms),
            between(a.y as int, b.y as int, t - a.ms, b.ms - a.ms),
        )
    }
}

/// The first frame from one on that is not earlier than a time.
pub fn first_frame(frames: &[Frame], from: usize, t: i128) -> (i: usize)
    requires
        from <= frames@.len(),
    ensures
        i == first_not_before(frames@, from as int, t as int),
        from <= i <= frames@.len(),
        i > from ==> frames@[i - 1].ms < t,
        i < frames@.len() ==> frames@[i as int].ms >= t,
{
    let mut i: usize = from;
    while i < frames.len() && (frames[i].ms as i128) < t
        invariant
            from <= i <= frames@.len(),
            first_not_before(frames@, from as int, t as int) == first_not_before(
                frames@,
                i as int,
                t as int,
            ),
            i > from ==> frames@[i - 1].ms < t,
        decreases frames@.len() - i,
    {
        i = i + 1;
    }
    i
}

/// The cursor at a time.
pub fn place_at(frames: &[Frame], t: i128) -> (at: (i128, i128))
    requires
        trackable(frames@),
        magnitude(t as int) <= 4 * COORDINATE_LIMIT,
    ensures
        at.0 == place(frames@, t as int).0,
        at.1 == place(frames@, t as int).1,
        magnitude(at.0 as int) <= 3 * PLANE_LIMIT,
        magnitude(at.1 as int) <= 3 * PLANE_LIMIT,
{
    if frames.len() == 0 {
        return (0, 0);
    }
    let i: usize = first_frame(frames, 0, t + 1);
    if i == 0 {
        assert(magnitude(frames@[0].x as int) <= PLANE_LIMIT);
        return (frames[0].x as i128, frames[0].y as i128);
    }
    assert(magnitude(frames@[i - 1].x as int) <= PLANE_LIMIT);
    let a: Frame = frames[i - 1];
    if i == frames.len() {
        return (a.x as i128, a.y as i128);
    }
    assert(magnitude(frames@[i as int].x as int) <= PLANE_LIMIT);
    let b: Frame = frames[i];
    let part: i128 = t - a.ms as i128;
    let whole: i128 = b.ms as i128 - a.ms as i128;
    proof {
        lemma_part_is_smaller(b.x - a.x, part as int, whole as int);
        lemma_part_is_smaller(b.y - a.y, part as int, whole as int);
    }
    (interpolate(a.x, b.x, part, whole), interpolate(a.y, b.y, part, whole))
}

/// The distance between two cursors at the time of a frame of the first.
pub open spec fn apart(a: Seq<Frame>, b: Seq<Frame>, i: int) -> int {
    let (bx, by) = place(b, a[i].ms as int);
    distance(bx, by, a[i].x as int, a[i].y as int)
}

/// Whether a frame lies in the span that two recordings share.
pub open spec fn shared(a: Seq<Frame>, b: Seq<Frame>, i: int) -> bool {
    &&& a[i].ms >= a[0].ms && a[i].ms >= b[0].ms
    &&& a[i].ms <= a.last().ms && a[i].ms <= b.last().ms
}

/// The times and distances at the frames in the shared span.
pub open spec fn gaps(a: Seq<Frame>, b: Seq<Frame>, n: nat) -> (Seq<i64>, Seq<int>)
    decreases n,
{
    if n == 0 {
        (Seq::empty(), Seq::empty())
    } else {
        let (t, v) = gaps(a, b, (n - 1) as nat);
        if shared(a, b, n - 1) {
            (t.push(a[n - 1].ms), v.push(apart(a, b, n - 1)))
        } else {
            (t, v)
        }
    }
}

/// Whether a series is the thinned-out distance between two cursors.
pub open spec fn is_distance(s: Series, a: Seq<Frame>, b: Seq<Frame>) -> bool {
    if a.len() == 0 || b.len() == 0 {
        s.t@.len() == 0 && s.v@.len() == 0
    } else {
        let (t, v) = gaps(a, b, a.len());
        is_thinned(s, t, v.map_values(|x: int| x as i128))
    }
}

/// The distance between the cursors of two recordings over the time that they share, at the
/// frames of the first.
pub fn cursor_distance(a: &Replay, b: &Replay) -> (s: Series)
    requires
        trackable(a.frames@),
        trackable(b.frames@),
    ensures
        is_distance(s, a.frames@, b.frames@),
{
    let n: usize = a.frames.len();
    if n == 0 || b.frames.len() == 0 {
        return Series { t: Vec::new(), v: Vec::new() };
    }
    let first: i64 = if a.frames[0].ms > b.frames[0].ms {
        a.frames[0].ms
    } else {
        b.frames[0].ms
    };
    let a_last: i64 = a.frames[n - 1].ms;
    let b_last: i64 = b.frames[b.frames.len() - 1].ms;
    let last: i64 = if a_last < b_last {
        a_last
    } else {
        b_last
    };
    let mut t: Vec<i64> = Vec::new();
    let mut v: Vec<i128> = Vec::new();
    let mut i: usize = 0;
    while i < n
        invariant
            i <= n == a.frames@.len(),
            n > 0,
            b.frames@.len() > 0,
            trackable(a.frames@),
            trackable(b.frames@),
            first >= a.frames@[0].ms && first >= b.frames@[0].ms,
            first == a.frames@[0].ms || first == b.frames@[0].ms,
            last <= a.frames@.last().ms && last <= b.frames@.last().ms,
            last == a.frames@.last().ms || last == b.frames@.last().ms,
            t@ == gaps(a.frames@, b.frames@, i as nat).0,
            v@ == gaps(a.frames@, b.frames@, i as nat).1.map_values(|x: int| x as i128),
            t@.len() == v@.len() <= i,
        decreases n - i,
    {
        assert(magnitude(a.frames@[i as int].x as int) <= PLANE_LIMIT);
        let f: Frame = a.frames[i];
        let ghost before = gaps(a.frames@, b.frames@, i as nat).1;
        if f.ms >= first && f.ms <= last {
            let (bx, by) = place_at(b.frames.as_slice(), f.ms as i128);
            let d: i128 = distance_between(bx, by, f.x as i128, f.y as i128);
            t.push(f.ms);
            v.push(d);
            proof {
                assert(shared(a.frames@, b.frames@, i as int));
                assert(before.push(d as int).map_values(|x: int| x as i128) =~= before.map_values(
                    |x: int| x as i128,
                ).push(d));
            }
        }
        i = i + 1;
    }
    downsample(t.as_slice(), v.as_slice())
}

/// Between two frames more than the longest gap apart the game was paused: neither time nor way
/// counts there.
pub proof fn law_pauses_do_not_move(frames: Seq<Frame>, i: int)
    requires
        0 <= i < segments(frames),
        frames[i + 1].ms - frames[i].ms > PAUSE_GAP_MS,
    ensures
        segment_time(frames, i) == 0,
        segment_way(frames, i) == 0,
{
}

/// Distances are those of the plane: the two axes count alike, the direction does not, only a point
/// itself is no distance away, and the square of a distance is that of the two axes together.
pub proof fn law_distances_are_those_of_the_plane(ax: int, ay: int, bx: int, by: int)
    ensures
        distance(ax, ay, bx, by) == distance(bx, by, ax, ay),
        distance(ax, ay, bx, by) == distance(ay, ax, by, bx),
        distance(ax, ay, bx, by) == 0 <==> ax == bx && ay == by,
        distance(ax, ay, bx, ay) == magnitude(bx - ax),
        distance(ax, ay, ax, by) == magnitude(by - ay),
        ({
            let d = distance(ax, ay, bx, by);
            let square = (bx - ax) * (bx - ax) + (by - ay) * (by - ay);
            d >= 0 && d * d <= square < (d + 1) * (d + 1)
        }),
{
    let (dx, dy) = (bx - ax, by - ay);
    assert((ax - bx) * (ax - bx) == dx * dx && (ay - by) * (ay - by) == dy * dy)
        by (nonlinear_arith)
        requires
            dx == bx - ax,
            dy == by - ay,
    ;
    crate::mods::lemma_squares(dx, dy);
    crate::mods::lemma_root_of(dx * dx + dy * dy);
    assert(0 * 0 == 0int);
    lemma_root_of_square(dx);
    lemma_root_of_square(dy);
}

proof fn lemma_root_of_square(d: int)
    ensures
        root(d * d) == magnitude(d),
{
    let m = magnitude(d);
    assert(d * d == m * m) by (nonlinear_arith)
        requires
            m == d || m == -d,
    ;
    assert(m * m < (m + 1) * (m + 1) && m * m >= 0) by (nonlinear_arith)
        requires
            m >= 0,
    ;
    crate::mods::lemma_root_of(d * d);
    let r = root(d * d);
    assert(r == m) by (nonlinear_arith)
        requires
            r >= 0,
            m >= 0,
            r * r <= m * m,
            m * m < (r + 1) * (r + 1),
    ;
}

/// The cursor is where its frames say: on a frame at its time, at rest before the first and behind
/// the last, and in between on the straight line from frame to frame.
pub proof fn law_places_lie_on_the_frames(frames: Seq<Frame>, i: int, t: int)
    requires
        crate::hitreg::frames_in_time(frames),
        0 <= i < frames.len(),
        i == frames.len() - 1 || frames[i].ms < frames[i + 1].ms,
    ensures
        place(frames, frames[i].ms as int) == (frames[i].x as int, frames[i].y as int),
        t < frames[0].ms ==> place(frames, t) == (frames[0].x as int, frames[0].y as int),
        t >= frames.last().ms ==> place(frames, t) == (
            frames.last().x as int,
            frames.last().y as int,
        ),
        i < frames.len() - 1 && frames[i].ms <= t < frames[i + 1].ms ==> ({
            let (a, b) = (frames[i], frames[i + 1]);
            let (x, y) = place(frames, t);
            let (part, whole) = (t - a.ms, b.ms - a.ms);
            &&& 2 * magnitude(whole * (x - a.x) - (b.x - a.x) * part) <= whole
            &&& 2 * magnitude(whole * (y - a.y) - (b.y - a.y) * part) <= whole
        }),
{
    lemma_first_place(frames, 0, i + 1, frames[i].ms + 1);
    if i < frames.len() - 1 {
        let (a, b) = (frames[i], frames[i + 1]);
        crate::fixed::law_lines_join_their_ends(a.x as int, b.x as int, 0, b.ms - a.ms);
        crate::fixed::law_lines_join_their_ends(a.y as int, b.y as int, 0, b.ms - a.ms);
        if frames[i].ms <= t < frames[i + 1].ms {
            lemma_first_place(frames, 0, i + 1, t + 1);
            law_rounding_is_closest((b.x - a.x) * (t - a.ms), b.ms - a.ms);
            law_rounding_is_closest((b.y - a.y) * (t - a.ms), b.ms - a.ms);
        }
    }
    if t < frames[0].ms {
        lemma_first_place(frames, 0, 0, t + 1);
    }
    if t >= frames.last().ms {
        lemma_first_place(frames, 0, frames.len() as int, t + 1);
    }
}

proof fn lemma_first_place(frames: Seq<Frame>, from: int, i: int, t: int)
    requires
        crate::hitreg::frames_in_time(frames),
        0 <= from <= i <= frames.len(),
        i > 0 ==> frames[i - 1].ms < t,
        i < frames.len() ==> frames[i].ms >= t,
    ensures
        first_not_before(frames, from, t) == i,
    decreases i - from,
{
    if from < i {
        assert(frames[from].ms <= frames[i - 1].ms);
        lemma_first_place(frames, from + 1, i, t);
    }
}

/// Between frames that are no pause apart, the time and the way between them count; backwards in
/// time nothing does.
pub proof fn law_segments_join_their_frames(frames: Seq<Frame>, i: int)
    requires
        0 <= i < segments(frames),
    ensures
        0 < frames[i + 1].ms - frames[i].ms <= 500_000_000 ==> ({
            let w = segment_way(frames, i);
            let (dx, dy) = (frames[i + 1].x - frames[i].x, frames[i + 1].y - frames[i].y);
            &&& segment_time(frames, i) == frames[i + 1].ms - frames[i].ms
            &&& w >= 0 && w * w <= dx * dx + dy * dy < (w + 1) * (w + 1)
        }),
        frames[i + 1].ms <= frames[i].ms ==> segment_time(frames, i) == 0 && segment_way(frames, i)
            == 0,
{
    law_distances_are_those_of_the_plane(
        frames[i].x as int,
        frames[i].y as int,
        frames[i + 1].x as int,
        frames[i + 1].y as int,
    );
}

proof fn lemma_same_fraction(n: int, d: int, k: int)
    requires
        n >= 0,
        d > 0,
        k > 0,
    ensures
        nearest(k * n, k * d) == nearest(n, d),
{
    assert(k * n >= 0 && k * d > 0) by (nonlinear_arith)
        requires
            n >= 0,
            d > 0,
            k > 0,
    ;
    assert(2 * (k * n) + k * d == k * (2 * n + d)) by (nonlinear_arith);
    assert(2 * (k * d) == k * (2 * d)) by (nonlinear_arith);
    vstd::arithmetic::div_mod::lemma_truncate_middle(2 * n + d, k, 2 * d);
    vstd::arithmetic::div_mod::lemma_div_denominator(k * (2 * n + d), k, 2 * d);
    assert((k * (2 * n + d)) / k == 2 * n + d) by {
        vstd::arithmetic::div_mod::lemma_div_multiples_vanish(2 * n + d, k);
        assert(k * (2 * n + d) == (2 * n + d) * k) by (nonlinear_arith);
    }
}

/// Speed is way over time: it grows with the playback speed, and a way covered evenly has the speed
/// of each of its parts.
pub proof fn law_speed_is_way_over_time(way: int, time: int, pace: int, k: int)
    requires
        way >= 0,
        time > 0,
        pace > 0,
        k > 0,
    ensures
        2 * magnitude(time * velocity(way, time, pace) - way * pace * 1000) <= time,
        velocity(k * way, k * time, pace) == velocity(way, time, pace),
        velocity(way, time, k * pace) == velocity(k * way, time, pace),
        velocity(way, 0, pace) == 0,
{
    law_rounding_is_closest(way * pace * 1000, time);
    assert(k * way * pace * 1000 == k * (way * pace * 1000)) by (nonlinear_arith);
    assert(way * (k * pace) * 1000 == k * way * pace * 1000) by (nonlinear_arith);
    assert(way * pace * 1000 >= 0) by (nonlinear_arith)
        requires
            way >= 0,
            pace > 0,
    ;
    assert(k * time > 0) by (nonlinear_arith)
        requires
            k > 0,
            time > 0,
    ;
    lemma_same_fraction(way * pace * 1000, time, k);
}

/// A cursor that moves evenly has an even speed: the smoothed one is that of each segment.
pub proof fn law_even_movement_is_smooth(frames: Seq<Frame>, pace: int, i: int, way: int, time: int)
    requires
        pace > 0,
        way >= 0,
        time > 0,
        0 <= i < segments(frames),
        forall|j: int|
            0 <= j < segments(frames) ==> #[trigger] segment_way(frames, j) == way && segment_time(
                frames,
                j,
            ) == time,
    ensures
        2 * magnitude(time * smooth(frames, pace, i) - way * pace * 1000) <= time,
{
    let n = segments(frames) as int;
    let lo = if i > 0 {
        i - 1
    } else {
        0
    };
    let hi = if i + 2 < n {
        i + 2
    } else {
        n
    };
    lemma_even_totals(frames, way, time, lo as nat);
    lemma_even_totals(frames, way, time, hi as nat);
    let k = hi - lo;
    assert(hi * way - lo * way == k * way && hi * time - lo * time == k * time)
        by (nonlinear_arith)
        requires
            k == hi - lo,
    ;
    law_speed_is_way_over_time(way, time, pace, k);
}

proof fn lemma_even_totals(frames: Seq<Frame>, way: int, time: int, n: nat)
    requires
        n <= segments(frames),
        forall|j: int|
            0 <= j < segments(frames) ==> #[trigger] segment_way(frames, j) == way && segment_time(
                frames,
                j,
            ) == time,
    ensures
        total(ways_fn(frames), n) == n * way,
        total(times_fn(frames), n) == n * time,
    decreases n,
{
    if n > 0 {
        lemma_even_totals(frames, way, time, (n - 1) as nat);
        assert(segment_way(frames, n - 1) == way);
        assert(n * way == (n - 1) * way + way && n * time == (n - 1) * time + time)
            by (nonlinear_arith);
    } else {
        assert(0 * way == 0 && 0 * time == 0) by (nonlinear_arith);
    }
}

/// Two runs are compared at the frames of the first that lie within both, in their order, and a run
/// is nowhere away from itself.
pub proof fn law_runs_are_compared_where_both_are(a: Seq<Frame>, b: Seq<Frame>, n: nat)
    requires
        a.len() > 0,
        b.len() > 0,
        n <= a.len(),
    ensures
        gaps(a, b, n).0.len() == gaps(a, b, n).1.len(),
        gaps(a, b, n).0.len() == tally(
            |i: int|
                a[0].ms <= a[i].ms && a[i].ms <= a[a.len() - 1].ms && b[0].ms <= a[i].ms && a[i].ms
                    <= b[b.len() - 1].ms,
            n,
        ),
        forall|k: int| 0 <= k < gaps(a, b, n).0.len() ==> #[trigger] is_gap(a, b, n, k),
    decreases n,
{
    if n > 0 {
        let m = (n - 1) as nat;
        law_runs_are_compared_where_both_are(a, b, m);
        let (t, v) = gaps(a, b, m);
        assert forall|k: int| 0 <= k < gaps(a, b, n).0.len() implies #[trigger] is_gap(a, b, n, k) by {
            if k < t.len() {
                assert(is_gap(a, b, m, k));
                let i = choose|i: int|
                    0 <= i < m && t[k] == (#[trigger] a[i]).ms && v[k] == distance(
                        a[i].x as int,
                        a[i].y as int,
                        place(b, a[i].ms as int).0,
                        place(b, a[i].ms as int).1,
                    );
                assert(gaps(a, b, n).0[k] == a[i].ms);
                assert(gaps(a, b, n).1[k] == v[k]);
            } else {
                let i = m as int;
                let (x, y) = place(b, a[i].ms as int);
                law_distances_are_those_of_the_plane(a[i].x as int, a[i].y as int, x, y);
                assert(gaps(a, b, n).0[k] == a[i].ms);
            }
        }
    }
}

/// Whether a gap is the distance at one of the frames of the first run to where the second then is.
pub open spec fn is_gap(a: Seq<Frame>, b: Seq<Frame>, n: nat, k: int) -> bool {
    let (t, v) = gaps(a, b, n);
    exists|i: int|
        0 <= i < n && t[k] == (#[trigger] a[i]).ms && v[k] == distance(
            a[i].x as int,
            a[i].y as int,
            place(b, a[i].ms as int).0,
            place(b, a[i].ms as int).1,
        )
}

/// A smoothed speed is that over a segment and its two neighbours; at an end of the recording, over
/// the two that there are.
pub proof fn law_speed_is_smoothed_over_neighbours(frames: Seq<Frame>, pace: int, i: int)
    requires
        0 <= i < segments(frames),
    ensures
        0 < i < segments(frames) - 1 ==> smooth(frames, pace, i) == velocity(
            segment_way(frames, i - 1) + segment_way(frames, i) + segment_way(frames, i + 1),
            segment_time(frames, i - 1) + segment_time(frames, i) + segment_time(frames, i + 1),
            pace,
        ),
        i == 0 && segments(frames) >= 2 ==> smooth(frames, pace, i) == velocity(
            segment_way(frames, 0) + segment_way(frames, 1),
            segment_time(frames, 0) + segment_time(frames, 1),
            pace,
        ),
        i > 0 && i == segments(frames) - 1 ==> smooth(frames, pace, i) == velocity(
            segment_way(frames, i - 1) + segment_way(frames, i),
            segment_time(frames, i - 1) + segment_time(frames, i),
            pace,
        ),
        segments(frames) == 1 ==> smooth(frames, pace, i) == velocity(
            segment_way(frames, 0),
            segment_time(frames, 0),
            pace,
        ),
{
    reveal_with_fuel(total, 4);
}

/// The cursor moves on a segment where it goes faster than half a cell per second.
pub proof fn law_moving_is_half_a_cell_per_second(frames: Seq<Frame>, pace: int, i: int)
    requires
        pace > 0,
        0 <= i < segments(frames),
        segment_time(frames, i) > 0,
    ensures
        velocity(segment_way(frames, i), segment_time(frames, i), pace) > 500_000 ==> moving(
            frames,
            pace,
            i,
        ),
        moving(frames, pace, i) ==> velocity(
            segment_way(frames, i),
            segment_time(frames, i),
            pace,
        ) >= 500_000,
{
    let (w, t) = (segment_way(frames, i), segment_time(frames, i));
    let n = w * pace * 1000;
    if n <= t * 500_000 {
        law_rounding_is_monotone(n, t * 500_000, t);
    } else {
        law_rounding_is_monotone(t * 500_000, n, t);
    }
    law_rounding_keeps_whole_numbers(500_000, 0, t);
}

} // verus!
