//! The style of a run's movement: overshooting, aim bias, snapping, tremor, dwelling.

use vstd::prelude::*;

use crate::count::{
    gather, law_buckets_hold_everything, law_counts_are_complete, lemma_tally_implies,
    lemma_tally_same, lemma_total_same, tally, total,
};
use crate::fixed::{
    div_nearest, greater, law_rounding_is_monotone, law_rounding_keeps_whole_numbers, magnitude,
    nearest, COORDINATE_LIMIT,
};
use crate::hitreg::first_not_before;
use crate::mods::{lemma_root_of, root, whole_root};
use crate::motion::{
    distance, distance_between, is_kinematics, law_distances_are_those_of_the_plane, moving, place,
    place_at, segment_time, segment_way, segments, smooth, trackable, Kinematics, PLANE_LIMIT, SPEED_LIMIT,
};
use crate::replay::Frame;
use crate::stats::{
    average, is_percentile, law_means_lie_between, limited, mean, percentile, VALUE_LIMIT,
};
use crate::study::{
    all_bounded, find_segment, is_bounded, law_shares_are_parts_of_a_hundred,
    law_the_top_is_the_greatest, leg, leg_between, lemma_stretch_bound, percentage, segment_from, share,
    speeds_fn, top, Extremum, NoteAnalysis,
};

verus! {

/// How far the cursor slides on after a hit.
#[derive(Debug, Clone, Copy)]
pub struct Overshoot {
    /// Share of the travelling approaches that overshot.
    pub rate_pct: i128,
    /// Mean overshoot.
    pub avg_cells: i128,
    pub worst: Option<Extremum>,
    /// Travelling approaches.
    pub samples: u32,
}

/// An approach is a travelling one from this way on, and an overshoot longer than it counts.
pub const TRAVEL: i128 = 150_000;

/// The way of the cursor in the 60 ms before a hit.
pub open spec fn travel(frames: Seq<Frame>, h: int) -> int {
    let (ax, ay) = place(frames, h - 60_000_000);
    let (bx, by) = place(frames, h);
    distance(ax, ay, bx, by)
}

/// How far along its approach the cursor is some time after a hit.
pub open spec fn along(frames: Seq<Frame>, h: int, later: int) -> int {
    let (ax, ay) = place(frames, h - 60_000_000);
    let (bx, by) = place(frames, h);
    let (qx, qy) = place(frames, h + later);
    nearest((qx - bx) * (bx - ax) + (qy - by) * (by - ay), travel(frames, h))
}

/// The furthest that the cursor slides on along its approach, 40, 80 and 120 ms after a hit.
pub open spec fn slide(frames: Seq<Frame>, h: int) -> int {
    greater(
        greater(greater(0, along(frames, h, 40_000_000)), along(frames, h, 80_000_000)),
        along(frames, h, 120_000_000),
    )
}

/// Whether a note was hit at the end of a travelling approach.
pub open spec fn travelled(frames: Seq<Frame>, na: NoteAnalysis) -> bool {
    match na.hit_ms {
        Some(h) => travel(frames, h as int) >= TRAVEL,
        None => false,
    }
}

/// How far a note was overshot; 0 where it was not.
pub open spec fn overshoot_of(frames: Seq<Frame>, na: NoteAnalysis) -> int {
    if travelled(frames, na) && slide(frames, na.hit_ms->0 as int) > TRAVEL {
        slide(frames, na.hit_ms->0 as int)
    } else {
        0
    }
}

/// The overshoots.
pub open spec fn overshoots_fn(frames: Seq<Frame>, list: Seq<NoteAnalysis>) -> spec_fn(int) -> int {
    |i: int| overshoot_of(frames, list[i])
}

/// Which notes were hit at the end of a travelling approach.
pub open spec fn travelled_fn(frames: Seq<Frame>, list: Seq<NoteAnalysis>) -> spec_fn(int) -> bool {
    |i: int| travelled(frames, list[i])
}

/// Which notes were overshot.
pub open spec fn overshot_fn(frames: Seq<Frame>, list: Seq<NoteAnalysis>) -> spec_fn(int) -> bool {
    |i: int| overshoot_of(frames, list[i]) > 0
}

/// Whether this is how far the cursor slid on.
pub open spec fn is_overshoot(o: Overshoot, frames: Seq<Frame>, list: Seq<NoteAnalysis>) -> bool {
    let n = list.len();
    let over = tally(overshot_fn(frames, list), n);
    let samples = tally(travelled_fn(frames, list), n);
    let (most, at) = top(overshoots_fn(frames, list), n);
    &&& o.samples == samples
    &&& o.rate_pct == share(over as int, samples as int)
    &&& o.avg_cells == (if over > 0 {
        nearest(total(overshoots_fn(frames, list), n), over as int)
    } else {
        0
    })
    &&& match o.worst {
        Some(e) => at >= 0 && e.v == most && Some(e.t) == list[at].hit_ms,
        None => at < 0,
    }
}

/// The overshoot of a hit; none where the approach did not travel.
fn measure_overshoot(frames: &[Frame], h: i64) -> (o: Option<i128>)
    requires
        trackable(frames@),
        magnitude(h as int) <= COORDINATE_LIMIT,
    ensures
        match o {
            Some(s) => travel(frames@, h as int) >= TRAVEL && s == slide(frames@, h as int) && 0
                <= s <= 100_000_000_000_000_000_000_000_000,
            None => travel(frames@, h as int) < TRAVEL,
        },
{
    let at: i128 = h as i128;
    let (ax, ay) = place_at(frames, at - 60_000_000);
    let (bx, by) = place_at(frames, at);
    let len: i128 = distance_between(ax, ay, bx, by);
    if len < TRAVEL {
        return None;
    }
    let mut worst: i128 = 0;
    let mut step: i128 = 1;
    while step <= 3
        invariant
            trackable(frames@),
            magnitude(h as int) <= COORDINATE_LIMIT,
            at == h,
            1 <= step <= 4,
            ax == place(frames@, h - 60_000_000).0,
            ay == place(frames@, h - 60_000_000).1,
            bx == place(frames@, h as int).0,
            by == place(frames@, h as int).1,
            magnitude(ax as int) <= 3 * PLANE_LIMIT,
            magnitude(ay as int) <= 3 * PLANE_LIMIT,
            magnitude(bx as int) <= 3 * PLANE_LIMIT,
            magnitude(by as int) <= 3 * PLANE_LIMIT,
            len == travel(frames@, h as int),
            TRAVEL <= len <= 20 * PLANE_LIMIT,
            0 <= worst <= 100_000_000_000_000_000_000_000_000,
            worst == (if step == 1 {
                0
            } else if step == 2 {
                greater(0, along(frames@, h as int, 40_000_000))
            } else if step == 3 {
                greater(
                    greater(0, along(frames@, h as int, 40_000_000)),
                    along(frames@, h as int, 80_000_000),
                )
            } else {
                slide(frames@, h as int)
            }),
        decreases 4 - step,
    {
        let (qx, qy) = place_at(frames, at + step * 40_000_000);
        let ux: i128 = bx - ax;
        let uy: i128 = by - ay;
        let wx: i128 = qx - bx;
        let wy: i128 = qy - by;
        assert(-36_000_000_000_000_000_000_000_000 <= wx * ux
            <= 36_000_000_000_000_000_000_000_000) by (nonlinear_arith)
            requires
                -6_000_000_000_000 <= wx <= 6_000_000_000_000,
                -6_000_000_000_000 <= ux <= 6_000_000_000_000,
        ;
        assert(-36_000_000_000_000_000_000_000_000 <= wy * uy
            <= 36_000_000_000_000_000_000_000_000) by (nonlinear_arith)
            requires
                -6_000_000_000_000 <= wy <= 6_000_000_000_000,
                -6_000_000_000_000 <= uy <= 6_000_000_000_000,
        ;
        let p: i128 = div_nearest(wx * ux + wy * uy, len);
        if p > worst {
            worst = p;
        }
        step = step + 1;
    }
    Some(worst)
}

/// How far the cursor slides on after hits.
pub fn overshoot(frames: &[Frame], list: &[NoteAnalysis]) -> (o: Overshoot)
    requires
        trackable(frames@),
        list@.len() <= u32::MAX,
        all_bounded(list@),
    ensures
        is_overshoot(o, frames@, list@),
{
    let ghost most = 100_000_000_000_000_000_000_000_000int;
    let ghost f = overshoots_fn(frames@, list@);
    let mut over: u32 = 0;
    let mut samples: u32 = 0;
    let mut s: i128 = 0;
    let mut worst: Option<Extremum> = None;
    let n: usize = list.len();
    let mut i: usize = 0;
    while i < n
        invariant
            i <= n == list@.len() <= u32::MAX,
            trackable(frames@),
            all_bounded(list@),
            most == 100_000_000_000_000_000_000_000_000,
            f == overshoots_fn(frames@, list@),
            over == tally(overshot_fn(frames@, list@), i as nat),
            samples == tally(travelled_fn(frames@, list@), i as nat),
            over <= samples <= i,
            s == total(f, i as nat),
            0 <= s <= i * most,
            -1 <= top(f, i as nat).1 < i,
            match worst {
                Some(e) => top(f, i as nat).1 >= 0 && e.v == top(f, i as nat).0 && Some(e.t)
                    == list@[top(f, i as nat).1].hit_ms,
                None => top(f, i as nat).1 < 0 && top(f, i as nat).0 == 0,
            },
        decreases n - i,
    {
        assert(is_bounded(list@[i as int]));
        assert(i * most + most == (i + 1) * most) by (nonlinear_arith);
        assert((i + 1) * most <= 0x1_0000_0000 * most) by (nonlinear_arith)
            requires
                i + 1 <= 0x1_0000_0000,
                most > 0,
        ;
        if let Some(h) = list[i].hit_ms {
            if let Some(d) = measure_overshoot(frames, h) {
                samples = samples + 1;
                if d > TRAVEL {
                    over = over + 1;
                    s = s + d;
                    let further: bool = match worst {
                        Some(w) => d > w.v,
                        None => true,
                    };
                    if further {
                        worst = Some(Extremum { v: d, t: h });
                    }
                }
            }
        }
        i = i + 1;
    }
    let avg: i128 = if over > 0 {
        assert(s <= 0x1_0000_0000 * most) by (nonlinear_arith)
            requires
                s <= n * most,
                n <= 0x1_0000_0000,
                most > 0,
        ;
        div_nearest(s, over as i128)
    } else {
        0
    };
    Overshoot {
        rate_pct: percentage(over as i128, samples as i128),
        avg_cells: avg,
        worst,
        samples,
    }
}

/// Where hits sit around the centre of the notes, on average.
#[derive(Debug, Clone, Copy)]
pub struct DirectionBias {
    pub dx: i128,
    pub dy: i128,
    pub magnitude: i128,
}

/// A list of optional numbers without the gaps.
pub open spec fn present(f: spec_fn(int) -> Option<i64>, n: nat) -> Seq<i128> {
    gather(
        |i: int|
            match f(i) {
                Some(x) => Some(x as i128),
                None => None,
            },
        n,
    )
}

/// The offsets to the right.
pub open spec fn right_offsets(list: Seq<NoteAnalysis>, n: nat) -> Seq<i128> {
    present(|i: int| list[i].off_x, n)
}

/// The offsets upwards.
pub open spec fn upward_offsets(list: Seq<NoteAnalysis>, n: nat) -> Seq<i128> {
    present(|i: int| list[i].off_y, n)
}

/// Whether this is the mean offset of the hits.
pub open spec fn is_bias(b: DirectionBias, list: Seq<NoteAnalysis>) -> bool {
    &&& b.dx == average(right_offsets(list, list.len()))
    &&& b.dy == average(upward_offsets(list, list.len()))
    &&& b.magnitude == root(b.dx * b.dx + b.dy * b.dy)
}

/// The mean offset of the hits from the centre of their notes.
pub fn direction_bias(list: &[NoteAnalysis]) -> (b: DirectionBias)
    requires
        list@.len() <= u32::MAX,
        all_bounded(list@),
    ensures
        is_bias(b, list@),
{
    let mut xs: Vec<i128> = Vec::new();
    let mut ys: Vec<i128> = Vec::new();
    let n: usize = list.len();
    let mut i: usize = 0;
    while i < n
        invariant
            i <= n == list@.len(),
            all_bounded(list@),
            xs@ == right_offsets(list@, i as nat),
            ys@ == upward_offsets(list@, i as nat),
            xs@.len() <= i,
            ys@.len() <= i,
            limited(xs@, 5_000_000_000_000),
            limited(ys@, 5_000_000_000_000),
        decreases n - i,
    {
        assert(is_bounded(list@[i as int]));
        if let Some(x) = list[i].off_x {
            xs.push(x as i128);
        }
        if let Some(y) = list[i].off_y {
            ys.push(y as i128);
        }
        i = i + 1;
    }
    let dx: i128 = mean(xs.as_slice());
    let dy: i128 = mean(ys.as_slice());
    proof {
        crate::stats::lemma_average_bound(xs@, 5_000_000_000_000);
        crate::stats::lemma_average_bound(ys@, 5_000_000_000_000);
    }
    assert(0 <= dx * dx <= 25_000_000_000_000_000_000_000_000) by (nonlinear_arith)
        requires
            -5_000_000_000_000 <= dx <= 5_000_000_000_000,
    ;
    assert(0 <= dy * dy <= 25_000_000_000_000_000_000_000_000) by (nonlinear_arith)
        requires
            -5_000_000_000_000 <= dy <= 5_000_000_000_000,
    ;
    DirectionBias { dx, dy, magnitude: whole_root((dx * dx + dy * dy) as u128) as i128 }
}

/// How the cursor goes from note to note: in snaps with rests, or in a flow.
#[derive(Debug, Clone, Copy)]
pub struct SnapFlow {
    pub snap_pct: i128,
    pub flow_pct: i128,
    /// Steps that were looked at.
    pub samples: u32,
}

/// The fastest of the segments from `lo` up to `hi`.
pub open spec fn fastest(frames: Seq<Frame>, pace: int, lo: int, hi: int) -> int {
    top(
        |i: int|
            if i >= lo {
                smooth(frames, pace, i)
            } else {
                0
            },
        hi as nat,
    ).0
}

/// How many of the segments from `lo` up to `hi` are slower than a fifth of `peak`.
pub open spec fn resting(frames: Seq<Frame>, pace: int, lo: int, hi: int, peak: int) -> nat {
    tally(|i: int| i >= lo && 5 * smooth(frames, pace, i) < peak, hi as nat)
}

/// Whether the step from note `i` to the next can be told: both are hit, 50 to 1200 ms and at
/// least half a cell apart, and the cursor moved in at least two segments between.
pub open spec fn is_step(frames: Seq<Frame>, pace: int, list: Seq<NoteAnalysis>, i: int) -> bool {
    let a = list[i];
    let b = list[i + 1];
    let lo = segment_from(frames, a.t as int);
    let hi = segment_from(frames, b.t + 1);
    &&& a.hit && b.hit
    &&& 50_000_000 <= b.t - a.t <= 1_200_000_000
    &&& leg(list, i) >= 500_000
    &&& hi - lo >= 2
    &&& fastest(frames, pace, lo, hi) > 0
}

/// Whether the step from note `i` to the next is a snap: its peak is at least 2.2 times its
/// mean, and the cursor rests in at least a quarter of it.
pub open spec fn is_snap(frames: Seq<Frame>, pace: int, list: Seq<NoteAnalysis>, i: int) -> bool {
    let lo = segment_from(frames, list[i].t as int);
    let hi = segment_from(frames, list[i + 1].t + 1);
    let n = hi - lo;
    let peak = fastest(frames, pace, lo, hi);
    let s = total(speeds_fn(frames, pace), hi as nat) - total(speeds_fn(frames, pace), lo as nat);
    &&& 10 * peak * n >= 22 * greater(s, n)
    &&& 4 * resting(frames, pace, lo, hi, peak) >= n
}

/// The snaps.
pub open spec fn snaps_fn(frames: Seq<Frame>, pace: int, list: Seq<NoteAnalysis>) -> spec_fn(
    int,
) -> bool {
    |i: int| is_step(frames, pace, list, i) && is_snap(frames, pace, list, i)
}

/// The steps in a flow.
pub open spec fn flows_fn(frames: Seq<Frame>, pace: int, list: Seq<NoteAnalysis>) -> spec_fn(
    int,
) -> bool {
    |i: int| is_step(frames, pace, list, i) && !is_snap(frames, pace, list, i)
}

/// The number of steps between the notes of a list.
pub open spec fn steps(list: Seq<NoteAnalysis>) -> nat {
    if list.len() == 0 {
        0
    } else {
        (list.len() - 1) as nat
    }
}

/// Whether this is how the cursor goes from note to note.
pub open spec fn is_snap_flow(
    sf: SnapFlow,
    frames: Seq<Frame>,
    pace: int,
    list: Seq<NoteAnalysis>,
) -> bool {
    let snap = tally(snaps_fn(frames, pace, list), steps(list)) as int;
    let flow = tally(flows_fn(frames, pace, list), steps(list)) as int;
    &&& sf.samples == snap + flow
    &&& sf.snap_pct == share(snap, snap + flow)
    &&& sf.flow_pct == share(flow, snap + flow)
}

/// Whether the step from note `i` to the next is a snap; none where it cannot be told.
fn judge_step(frames: &[Frame], k: &Kinematics, pace: i64, list: &[NoteAnalysis], i: usize) -> (r:
    Option<bool>)
    requires
        trackable(frames@),
        is_kinematics(*k, frames@, pace as int),
        all_bounded(list@),
        i + 1 < list@.len(),
    ensures
        match r {
            Some(snap) => is_step(frames@, pace as int, list@, i as int) && snap == is_snap(
                frames@,
                pace as int,
                list@,
                i as int,
            ),
            None => !is_step(frames@, pace as int, list@, i as int),
        },
{
    assert(is_bounded(list@[i as int]));
    assert(is_bounded(list@[i + 1]));
    let a: NoteAnalysis = list[i];
    let b: NoteAnalysis = list[i + 1];
    if !a.hit || !b.hit {
        return None;
    }
    let dt: i64 = b.t - a.t;
    if dt < 50_000_000 || dt > 1_200_000_000 || leg_between(&a, &b) < 500_000 {
        return None;
    }
    let lo: usize = find_segment(frames, a.t as i128);
    let hi: usize = find_segment(frames, b.t as i128 + 1);
    if hi < lo || hi - lo < 2 {
        return None;
    }
    let ghost speed = |i: int|
        if i >= lo {
            smooth(frames@, pace as int, i)
        } else {
            0
        };
    let ghost f = speeds_fn(frames@, pace as int);
    let ghost most = 9_000_000_000_000_000_000_000_000int;
    let mut peak: i128 = 0;
    let mut s: i128 = 0;
    let mut j: usize = lo;
    proof {
        lemma_top_of_nothing(speed, lo as nat);
    }
    while j < hi
        invariant
            lo <= j <= hi <= segments(frames@),
            segments(frames@) <= u32::MAX,
            is_kinematics(*k, frames@, pace as int),
            f == speeds_fn(frames@, pace as int),
            speed == (|i: int|
                if i >= lo {
                    smooth(frames@, pace as int, i)
                } else {
                    0
                }),
            most == 9_000_000_000_000_000_000_000_000,
            peak == top(speed, j as nat).0,
            0 <= peak <= most,
            s == total(f, j as nat) - total(f, lo as nat),
            0 <= s <= (j - lo) * most,
        decreases hi - j,
    {
        assert(k.smooth_v@[j as int] == smooth(frames@, pace as int, j as int));
        assert((j - lo) * most + most == (j + 1 - lo) * most) by (nonlinear_arith);
        assert((j + 1 - lo) * most <= 0x1_0000_0000 * most) by (nonlinear_arith)
            requires
                j + 1 - lo <= 0x1_0000_0000,
                most > 0,
        ;
        let v: i128 = k.smooth_v[j];
        if v > peak {
            peak = v;
        }
        s = s + v;
        j = j + 1;
    }
    assert(peak == fastest(frames@, pace as int, lo as int, hi as int));
    if peak <= 0 {
        return None;
    }
    let ghost slow = |i: int| i >= lo && 5 * smooth(frames@, pace as int, i) < peak;
    let mut rest: i128 = 0;
    let mut j: usize = lo;
    proof {
        lemma_tally_of_nothing(slow, lo as nat);
    }
    while j < hi
        invariant
            lo <= j <= hi <= segments(frames@),
            is_kinematics(*k, frames@, pace as int),
            0 < peak <= 9_000_000_000_000_000_000_000_000,
            slow == (|i: int| i >= lo && 5 * smooth(frames@, pace as int, i) < peak),
            rest == tally(slow, j as nat),
            0 <= rest <= j - lo,
        decreases hi - j,
    {
        assert(k.smooth_v@[j as int] == smooth(frames@, pace as int, j as int));
        if 5 * k.smooth_v[j] < peak {
            rest = rest + 1;
        }
        j = j + 1;
    }
    let n: i128 = (hi - lo) as i128;
    let floor: i128 = if s > n {
        s
    } else {
        n
    };
    assert(0 <= peak * n <= most * 0x1_0000_0000) by (nonlinear_arith)
        requires
            0 <= peak <= most,
            0 <= n <= 0x1_0000_0000,
    ;
    assert(s <= most * 0x1_0000_0000) by (nonlinear_arith)
        requires
            s <= n * most,
            n <= 0x1_0000_0000,
            most > 0,
    ;
    assert(10 * peak * n == 10 * (peak * n)) by (nonlinear_arith);
    Some(10 * (peak * n) >= 22 * floor && 4 * rest >= n)
}

proof fn lemma_top_of_nothing(f: spec_fn(int) -> int, n: nat)
    requires
        forall|i: int| 0 <= i < n ==> #[trigger] f(i) <= 0,
    ensures
        top(f, n) == (0int, -1int),
    decreases n,
{
    if n > 0 {
        lemma_top_of_nothing(f, (n - 1) as nat);
    }
}

proof fn lemma_tally_of_nothing(p: spec_fn(int) -> bool, n: nat)
    requires
        forall|i: int| 0 <= i < n ==> !#[trigger] p(i),
    ensures
        tally(p, n) == 0,
    decreases n,
{
    if n > 0 {
        lemma_tally_of_nothing(p, (n - 1) as nat);
    }
}

/// How the cursor goes from note to note.
pub fn snap_flow(frames: &[Frame], k: &Kinematics, pace: i64, list: &[NoteAnalysis]) -> (sf:
    SnapFlow)
    requires
        trackable(frames@),
        is_kinematics(*k, frames@, pace as int),
        list@.len() <= u32::MAX,
        all_bounded(list@),
    ensures
        is_snap_flow(sf, frames@, pace as int, list@),
{
    let n: usize = if list.len() == 0 {
        0
    } else {
        list.len() - 1
    };
    let mut snap: u32 = 0;
    let mut flow: u32 = 0;
    let mut i: usize = 0;
    while i < n
        invariant
            i <= n == steps(list@),
            list@.len() <= u32::MAX,
            trackable(frames@),
            is_kinematics(*k, frames@, pace as int),
            all_bounded(list@),
            snap == tally(snaps_fn(frames@, pace as int, list@), i as nat),
            flow == tally(flows_fn(frames@, pace as int, list@), i as nat),
            snap + flow <= i,
        decreases n - i,
    {
        match judge_step(frames, k, pace, list, i) {
            Some(true) => {
                snap = snap + 1;
            },
            Some(false) => {
                flow = flow + 1;
            },
            None => {},
        }
        i = i + 1;
    }
    let all: u32 = snap + flow;
    SnapFlow {
        snap_pct: percentage(snap as i128, all as i128),
        flow_pct: percentage(flow as i128, all as i128),
        samples: all,
    }
}

/// The tremor of the hand.
#[derive(Debug, Clone, Copy)]
pub struct Jitter {
    /// Root mean square deviation from the smoothed path while moving.
    pub rms_cells: i128,
    /// Share of the moving windows of 500 ms with almost no tremor.
    pub smooth_windows_pct: i128,
}

/// The columns of seven frames around one, added up.
pub open spec fn around_x(frames: Seq<Frame>, i: int) -> int {
    total(|j: int| frames[i - 3 + j].x as int, 7)
}

/// The rows of seven frames around one, added up.
pub open spec fn around_y(frames: Seq<Frame>, i: int) -> int {
    total(|j: int| frames[i - 3 + j].y as int, 7)
}

/// 49 times the squared distance of a frame from the mean of the seven around it.
pub open spec fn tremor(frames: Seq<Frame>, i: int) -> int {
    let dx = 7 * frames[i].x - around_x(frames, i);
    let dy = 7 * frames[i].y - around_y(frames, i);
    dx * dx + dy * dy
}

/// Whether the cursor was moving when it came to a frame.
pub open spec fn arrives(frames: Seq<Frame>, pace: int, i: int) -> bool {
    i >= 3 && moving(frames, pace, i - 1)
}

/// The tremors while moving.
pub open spec fn tremors_fn(frames: Seq<Frame>, pace: int) -> spec_fn(int) -> int {
    |i: int|
        if arrives(frames, pace, i) {
            tremor(frames, i)
        } else {
            0
        }
}

/// The frames that the cursor comes to while moving.
pub open spec fn arrives_fn(frames: Seq<Frame>, pace: int) -> spec_fn(int) -> bool {
    |i: int| arrives(frames, pace, i)
}

/// The window that a frame falls in, and the windows before it.
pub struct Windows {
    /// When the window started.
    pub start: int,
    /// Tremor in the window.
    pub dev: int,
    /// Frames in the window that the cursor came to while moving.
    pub n: int,
    /// Moving windows so far.
    pub seen: int,
    /// Those with almost no tremor.
    pub calm: int,
}

/// The windows before frame `i`: one ends at the first frame 500 ms after its start, and is a
/// moving one with at least ten moving frames. It is calm below 0.004 cells.
pub open spec fn windows_at(frames: Seq<Frame>, pace: int, i: int) -> Windows
    decreases i,
{
    if i <= 3 {
        Windows { start: frames[0].ms as int, dev: 0, n: 0, seen: 0, calm: 0 }
    } else {
        let w = windows_at(frames, pace, i - 1);
        let moves = arrives(frames, pace, i - 1);
        let dev = if moves {
            w.dev + tremor(frames, i - 1)
        } else {
            w.dev
        };
        let n = if moves {
            w.n + 1
        } else {
            w.n
        };
        if frames[i - 1].ms - w.start >= 500_000_000 {
            Windows {
                start: frames[i - 1].ms as int,
                dev: 0,
                n: 0,
                seen: if n >= 10 {
                    w.seen + 1
                } else {
                    w.seen
                },
                calm: if n >= 10 && dev < 784_000_000 * n {
                    w.calm + 1
                } else {
                    w.calm
                },
            }
        } else {
            Windows { start: w.start, dev, n, seen: w.seen, calm: w.calm }
        }
    }
}

/// The end of the frames that have three more on each side.
pub open spec fn inner(frames: Seq<Frame>) -> int {
    if frames.len() > 6 {
        frames.len() - 3
    } else {
        3
    }
}

/// Whether this is the tremor of a run.
pub open spec fn is_jitter(j: Jitter, frames: Seq<Frame>, pace: int) -> bool {
    let end = inner(frames) as nat;
    if frames.len() <= 6 {
        j.rms_cells == 0 && j.smooth_windows_pct == 0
    } else {
        let n = tally(arrives_fn(frames, pace), end) as int;
        let w = windows_at(frames, pace, end as int);
        &&& j.rms_cells == (if n > 0 {
            root(total(tremors_fn(frames, pace), end) / (49 * n))
        } else {
            0
        })
        &&& j.smooth_windows_pct == share(w.calm, w.seen)
    }
}

/// 49 times the squared distance of a frame from the mean of the seven around it.
fn tremor_at(frames: &[Frame], i: usize) -> (d: i128)
    requires
        trackable(frames@),
        3 <= i,
        i + 3 < frames@.len(),
    ensures
        d == tremor(frames@, i as int),
        0 <= d <= 400_000_000_000_000_000_000_000_000,
{
    let mut sx: i128 = 0;
    let mut sy: i128 = 0;
    let mut j: usize = 0;
    while j < 7
        invariant
            trackable(frames@),
            3 <= i,
            i + 3 < frames@.len(),
            j <= 7,
            sx == total(|j: int| frames@[i - 3 + j].x as int, j as nat),
            sy == total(|j: int| frames@[i - 3 + j].y as int, j as nat),
            magnitude(sx as int) <= j * 1_000_000_000_000,
            magnitude(sy as int) <= j * 1_000_000_000_000,
        decreases 7 - j,
    {
        assert(magnitude(frames@[i - 3 + j].x as int) <= PLANE_LIMIT);
        let f: Frame = frames[i - 3 + j];
        sx = sx + f.x as i128;
        sy = sy + f.y as i128;
        j = j + 1;
    }
    assert(magnitude(frames@[i as int].x as int) <= PLANE_LIMIT);
    let dx: i128 = 7 * frames[i].x as i128 - sx;
    let dy: i128 = 7 * frames[i].y as i128 - sy;
    assert(0 <= dx * dx <= 196_000_000_000_000_000_000_000_000) by (nonlinear_arith)
        requires
            -14_000_000_000_000 <= dx <= 14_000_000_000_000,
    ;
    assert(0 <= dy * dy <= 196_000_000_000_000_000_000_000_000) by (nonlinear_arith)
        requires
            -14_000_000_000_000 <= dy <= 14_000_000_000_000,
    ;
    dx * dx + dy * dy
}

/// Whether the cursor moved in a segment.
pub(crate) fn moves(frames: &[Frame], k: &Kinematics, pace: i64, i: usize) -> (r: bool)
    requires
        is_kinematics(*k, frames@, pace as int),
        0 < pace <= SPEED_LIMIT,
        i < segments(frames@),
    ensures
        r == moving(frames@, pace as int, i as int),
{
    assert(k.seg_dt@[i as int] == segment_time(frames@, i as int));
    assert(k.seg_dist@[i as int] == segment_way(frames@, i as int));
    let d: i128 = k.seg_dist[i] as i128;
    assert(0 <= d * pace <= 3_000_000_000_000 * 1_000_000_000) by (nonlinear_arith)
        requires
            0 <= d <= 3_000_000_000_000,
            0 < pace <= 1_000_000_000,
    ;
    d * pace as i128 * 1000 > 500_000 * k.seg_dt[i] as i128
}

/// The tremor of the hand while the cursor moves.
pub fn jitter(frames: &[Frame], k: &Kinematics, pace: i64) -> (jitter: Jitter)
    requires
        trackable(frames@),
        is_kinematics(*k, frames@, pace as int),
        0 < pace <= SPEED_LIMIT,
    ensures
        is_jitter(jitter, frames@, pace as int),
        0 <= jitter.smooth_windows_pct <= 100_000_000,
{
    if frames.len() <= 6 {
        return Jitter { rms_cells: 0, smooth_windows_pct: 0 };
    }
    let end: usize = frames.len() - 3;
    let ghost most = 400_000_000_000_000_000_000_000_000int;
    let ghost f = tremors_fn(frames@, pace as int);
    let ghost p = arrives_fn(frames@, pace as int);
    let mut all_dev: i128 = 0;
    let mut all_n: i128 = 0;
    let mut start: i64 = frames[0].ms;
    let mut dev: i128 = 0;
    let mut n: i128 = 0;
    let mut seen: i128 = 0;
    let mut calm: i128 = 0;
    let mut i: usize = 3;
    proof {
        assert(total(f, 3) == 0) by {
            reveal_with_fuel(total, 4);
        }
        assert(tally(p, 3) == 0) by {
            reveal_with_fuel(tally, 4);
        }
        assert(magnitude(frames@[0].ms as int) <= COORDINATE_LIMIT);
    }
    while i < end
        invariant
            3 <= i <= end,
            end + 3 == frames@.len(),
            trackable(frames@),
            is_kinematics(*k, frames@, pace as int),
            0 < pace <= SPEED_LIMIT,
            most == 400_000_000_000_000_000_000_000_000,
            f == tremors_fn(frames@, pace as int),
            p == arrives_fn(frames@, pace as int),
            all_dev == total(f, i as nat),
            all_n == tally(p, i as nat),
            0 <= n <= all_n <= i,
            0 <= dev <= all_dev <= i * most,
            0 <= calm <= seen <= i,
            magnitude(start as int) <= COORDINATE_LIMIT,
            windows_at(frames@, pace as int, i as int) == (Windows {
                start: start as int,
                dev: dev as int,
                n: n as int,
                seen: seen as int,
                calm: calm as int,
            }),
        decreases end - i,
    {
        assert(magnitude(frames@[i as int].ms as int) <= COORDINATE_LIMIT);
        assert(i * most + most == (i + 1) * most) by (nonlinear_arith);
        assert((i + 1) * most <= 0x1_0000_0000 * most) by (nonlinear_arith)
            requires
                i + 1 <= 0x1_0000_0000,
                most > 0,
        ;
        if moves(frames, k, pace, i - 1) {
            let d: i128 = tremor_at(frames, i);
            all_dev = all_dev + d;
            all_n = all_n + 1;
            dev = dev + d;
            n = n + 1;
        }
        if frames[i].ms - start >= 500_000_000 {
            if n >= 10 {
                seen = seen + 1;
                if dev < 784_000_000 * n {
                    calm = calm + 1;
                }
            }
            start = frames[i].ms;
            dev = 0;
            n = 0;
        }
        i = i + 1;
    }
    let rms: i128 = if all_n > 0 {
        whole_root(all_dev as u128 / (49 * all_n as u128)) as i128
    } else {
        0
    };
    Jitter { rms_cells: rms, smooth_windows_pct: percentage(calm, seen) }
}

/// Where the cursor dwelt.
#[derive(Debug, Clone)]
pub struct Heatmap {
    /// Buckets in each direction.
    pub size: u32,
    /// Half the width of the map.
    pub extent: i64,
    /// Dwelling times row by row, from 0 to 255.
    pub counts: Vec<u8>,
}

/// Buckets of the map in each direction.
pub const HEAT_SIZE: usize = 48;

/// Half the width of the map: 1.6 cells.
pub const HEAT_EXTENT: i64 = 1_600_000;

/// The bucket of a frame: none outside of the map.
pub open spec fn bucket(f: Frame) -> Option<int> {
    let u = (f.x + HEAT_EXTENT) * 15 / 1_000_000;
    let v = (HEAT_EXTENT - f.y) * 15 / 1_000_000;
    if 0 <= u < HEAT_SIZE && 0 <= v < HEAT_SIZE {
        Some(v * HEAT_SIZE + u)
    } else {
        None
    }
}

/// The times that the cursor spent in a bucket.
pub open spec fn dwell_fn(frames: Seq<Frame>, c: int) -> spec_fn(int) -> int {
    |i: int|
        if bucket(frames[i]) == Some(c) {
            segment_time(frames, i)
        } else {
            0
        }
}

/// The time that the cursor spent in a bucket.
pub open spec fn dwell(frames: Seq<Frame>, c: int) -> int {
    total(dwell_fn(frames, c), segments(frames))
}

/// The longest time spent in one of the first buckets.
pub open spec fn longest_dwell(frames: Seq<Frame>) -> int {
    top(|c: int| dwell(frames, c), 2304).0
}

/// Whether this is where the cursor dwelt: roots of the times, so that paths stay visible.
pub open spec fn is_heatmap(h: Heatmap, frames: Seq<Frame>) -> bool {
    let most = longest_dwell(frames);
    &&& h.size == HEAT_SIZE
    &&& h.extent == HEAT_EXTENT
    &&& h.counts@.len() == 2304
    &&& forall|c: int|
        0 <= c < 2304 ==> #[trigger] h.counts@[c] == (if most > 0 {
            root(dwell(frames, c) * 65_025 / most)
        } else {
            0
        })
}

/// The bucket of a frame.
fn bucket_of(f: &Frame) -> (b: Option<usize>)
    requires
        magnitude(f.x as int) <= PLANE_LIMIT,
        magnitude(f.y as int) <= PLANE_LIMIT,
    ensures
        match b {
            Some(c) => bucket(*f) == Some(c as int) && c < 2304,
            None => bucket(*f) is None,
        },
{
    let x: i64 = f.x + HEAT_EXTENT;
    let y: i64 = HEAT_EXTENT - f.y;
    if x < 0 || y < 0 {
        return None;
    }
    let u: i64 = x * 15 / 1_000_000;
    let v: i64 = y * 15 / 1_000_000;
    if u < 48 && v < 48 {
        Some((v * 48 + u) as usize)
    } else {
        None
    }
}

fn dwell_times(frames: &[Frame], k: &Kinematics, pace: i64) -> (w: Vec<i128>)
    requires
        trackable(frames@),
        is_kinematics(*k, frames@, pace as int),
    ensures
        w@.len() == 2304,
        forall|c: int|
            0 <= c < 2304 ==> #[trigger] w@[c] == dwell(frames@, c) && 0 <= w@[c]
                <= 10_000_000_000_000_000_000,
{
    let mut w: Vec<i128> = Vec::new();
    let mut c: usize = 0;
    while c < 2304
        invariant
            c <= 2304,
            w@.len() == c,
            forall|d: int| 0 <= d < c ==> #[trigger] w@[d] == 0,
        decreases 2304 - c,
    {
        w.push(0);
        c = c + 1;
    }
    let n: usize = k.seg_dt.len();
    let mut i: usize = 0;
    while i < n
        invariant
            i <= n == segments(frames@),
            trackable(frames@),
            is_kinematics(*k, frames@, pace as int),
            w@.len() == 2304,
            forall|c: int|
                0 <= c < 2304 ==> #[trigger] w@[c] == total(dwell_fn(frames@, c), i as nat) && 0
                    <= w@[c] <= i * 500_000_000,
        decreases n - i,
    {
        assert(magnitude(frames@[i as int].x as int) <= PLANE_LIMIT);
        assert(k.seg_dt@[i as int] == segment_time(frames@, i as int));
        let ghost before = w@;
        if let Some(c) = bucket_of(&frames[i]) {
            assert(before[c as int] <= i * 500_000_000);
            let sum: i128 = w[c] + k.seg_dt[i] as i128;
            w.set(c, sum);
        }
        assert forall|c: int| 0 <= c < 2304 implies #[trigger] w@[c] == total(
            dwell_fn(frames@, c),
            (i + 1) as nat,
        ) && 0 <= w@[c] <= (i + 1) * 500_000_000 by {
            assert(before[c] == total(dwell_fn(frames@, c), i as nat));
        }
        i = i + 1;
    }
    w
}

/// Where the cursor dwelt.
pub fn heatmap(frames: &[Frame], k: &Kinematics, pace: i64) -> (h: Heatmap)
    requires
        trackable(frames@),
        is_kinematics(*k, frames@, pace as int),
    ensures
        is_heatmap(h, frames@),
{
    let w: Vec<i128> = dwell_times(frames, k, pace);
    let ghost f = |c: int| dwell(frames@, c);
    let mut most: i128 = 0;
    let mut c: usize = 0;
    while c < 2304
        invariant
            c <= 2304 == w@.len(),
            f == (|c: int| dwell(frames@, c)),
            forall|d: int|
                0 <= d < 2304 ==> #[trigger] w@[d] == dwell(frames@, d) && 0 <= w@[d]
                    <= 10_000_000_000_000_000_000,
            most == top(f, c as nat).0,
            0 <= most,
            forall|d: int| 0 <= d < c ==> #[trigger] w@[d] <= most,
        decreases 2304 - c,
    {
        assert(w@[c as int] == dwell(frames@, c as int));
        if w[c] > most {
            most = w[c];
        }
        c = c + 1;
    }
    let mut counts: Vec<u8> = Vec::new();
    let mut c: usize = 0;
    while c < 2304
        invariant
            c <= 2304 == w@.len(),
            most == longest_dwell(frames@),
            forall|d: int|
                0 <= d < 2304 ==> #[trigger] w@[d] == dwell(frames@, d) && 0 <= w@[d]
                    <= 10_000_000_000_000_000_000,
            forall|d: int| 0 <= d < 2304 ==> #[trigger] w@[d] <= most,
            counts@.len() == c,
            forall|d: int|
                0 <= d < c ==> #[trigger] counts@[d] == (if most > 0 {
                    root(dwell(frames@, d) * 65_025 / most as int)
                } else {
                    0
                }),
        decreases 2304 - c,
    {
        assert(w@[c as int] == dwell(frames@, c as int));
        if most > 0 {
            let x: u128 = w[c] as u128 * 65_025 / most as u128;
            assert(x <= 65_025) by (nonlinear_arith)
                requires
                    x == w@[c as int] * 65_025 / most as int,
                    0 <= w@[c as int] <= most,
                    most > 0,
            ;
            let r: u64 = whole_root(x);
            assert(r <= 255) by (nonlinear_arith)
                requires
                    r * r <= 65_025,
            ;
            counts.push(r as u8);
        } else {
            counts.push(0);
        }
        c = c + 1;
    }
    Heatmap { size: 48, extent: HEAT_EXTENT, counts }
}

/// The spacing of the frames.
#[derive(Debug, Clone)]
pub struct FrameDeltas {
    pub avg_ms: i128,
    pub median_ms: i128,
    /// Spacings by whole milliseconds; the last bucket takes all from 40 ms on.
    pub hist: Vec<u32>,
}

/// The times between frames, without pauses.
pub open spec fn deltas(frames: Seq<Frame>, n: nat) -> Seq<i128> {
    gather(
        |i: int|
            if segment_time(frames, i) > 0 {
                Some(segment_time(frames, i) as i128)
            } else {
                None
            },
        n,
    )
}

/// The bucket of a spacing.
pub open spec fn delta_bucket(d: i128) -> int {
    if d / 1_000_000 < 40 {
        d / 1_000_000
    } else {
        40
    }
}

/// The spacings in a bucket.
pub open spec fn in_bucket_fn(d: Seq<i128>, b: int) -> spec_fn(int) -> bool {
    |i: int| delta_bucket(d[i]) == b
}

/// Whether this is the spacing of the frames.
pub open spec fn is_deltas(fd: FrameDeltas, frames: Seq<Frame>) -> bool {
    let d = deltas(frames, segments(frames));
    &&& fd.avg_ms == average(d)
    &&& is_percentile(d, 1, 2, fd.median_ms as int)
    &&& fd.hist@.len() == 41
    &&& forall|b: int| 0 <= b < 41 ==> #[trigger] fd.hist@[b] == tally(in_bucket_fn(d, b), d.len())
}

/// The times between frames, without pauses.
pub fn spacings(frames: &[Frame], k: &Kinematics, pace: i64) -> (d: Vec<i128>)
    requires
        is_kinematics(*k, frames@, pace as int),
    ensures
        d@ == deltas(frames@, segments(frames@)),
        d@.len() <= segments(frames@),
        forall|i: int| 0 <= i < d@.len() ==> 0 < #[trigger] d@[i] <= 500_000_000,
{
    let mut d: Vec<i128> = Vec::new();
    let n: usize = k.seg_dt.len();
    let mut i: usize = 0;
    while i < n
        invariant
            i <= n == segments(frames@),
            is_kinematics(*k, frames@, pace as int),
            d@ == deltas(frames@, i as nat),
            d@.len() <= i,
            forall|j: int| 0 <= j < d@.len() ==> 0 < #[trigger] d@[j] <= 500_000_000,
        decreases n - i,
    {
        assert(k.seg_dt@[i as int] == segment_time(frames@, i as int));
        if k.seg_dt[i] > 0 {
            d.push(k.seg_dt[i] as i128);
        }
        i = i + 1;
    }
    d
}

/// The spacing of the frames.
pub fn frame_deltas(frames: &[Frame], d: &[i128]) -> (fd: FrameDeltas)
    requires
        trackable(frames@),
        d@ == deltas(frames@, segments(frames@)),
        d@.len() <= segments(frames@),
        forall|i: int| 0 <= i < d@.len() ==> 0 < #[trigger] d@[i] <= 500_000_000,
    ensures
        is_deltas(fd, frames@),
{
    let mut hist: Vec<u32> = Vec::new();
    let mut b: usize = 0;
    while b < 41
        invariant
            b <= 41,
            hist@.len() == b,
            forall|c: int| 0 <= c < b ==> #[trigger] hist@[c] == 0,
        decreases 41 - b,
    {
        hist.push(0);
        b = b + 1;
    }
    let n: usize = d.len();
    let mut i: usize = 0;
    while i < n
        invariant
            i <= n == d@.len() <= u32::MAX,
            forall|j: int| 0 <= j < d@.len() ==> 0 < #[trigger] d@[j] <= 500_000_000,
            hist@.len() == 41,
            forall|c: int|
                0 <= c < 41 ==> #[trigger] hist@[c] == tally(in_bucket_fn(d@, c), i as nat)
                    && hist@[c] <= i,
        decreases n - i,
    {
        assert(0 < d@[i as int] <= 500_000_000);
        let ms: i128 = d[i] / 1_000_000;
        let b: usize = if ms < 40 {
            ms as usize
        } else {
            40
        };
        let ghost before = hist@;
        assert(before[b as int] <= i);
        let more: u32 = hist[b] + 1;
        hist.set(b, more);
        assert forall|c: int| 0 <= c < 41 implies #[trigger] hist@[c] == tally(
            in_bucket_fn(d@, c),
            (i + 1) as nat,
        ) && hist@[c] <= i + 1 by {
            assert(before[c] == tally(in_bucket_fn(d@, c), i as nat));
        }
        i = i + 1;
    }
    assert(limited(d@, VALUE_LIMIT)) by {
        assert forall|i: int| 0 <= i < d@.len() implies magnitude(#[trigger] d@[i] as int)
            <= VALUE_LIMIT by {}
    }
    FrameDeltas { avg_ms: mean(d), median_ms: percentile(d, 1, 2), hist }
}

/// An overshoot is how far the cursor goes on in the direction in which it came: for a cursor that
/// moves along one axis it is the way past the hit, and a cursor that stays or turns back has none.
pub proof fn law_overshoots_go_on_in_the_same_direction(frames: Seq<Frame>, h: int, later: int)
    requires
        place(frames, h - 60_000_000) != place(frames, h),
    ensures
        ({
            let (a, b) = (place(frames, h - 60_000_000), place(frames, h));
            let q = place(frames, h + later);
            &&& a.1 == b.1 && a.0 < b.0 ==> along(frames, h, later) == q.0 - b.0
            &&& a.1 == b.1 && a.0 > b.0 ==> along(frames, h, later) == b.0 - q.0
            &&& a.0 == b.0 && a.1 < b.1 ==> along(frames, h, later) == q.1 - b.1
            &&& a.0 == b.0 && a.1 > b.1 ==> along(frames, h, later) == b.1 - q.1
            &&& q == b ==> along(frames, h, later) == 0
            &&& q == a ==> along(frames, h, later) <= 0
        }),
{
    let (a, b) = (place(frames, h - 60_000_000), place(frames, h));
    let q = place(frames, h + later);
    law_distances_are_those_of_the_plane(a.0, a.1, b.0, b.1);
    law_distances_are_those_of_the_plane(a.0, a.1, b.0, a.1);
    let d = travel(frames, h);
    let (dx, dy) = (q.0 - b.0, q.1 - b.1);
    if a.1 == b.1 {
        let s = b.0 - a.0;
        assert(dx * s + dy * 0 == s * dx) by (nonlinear_arith);
        if s > 0 {
            law_rounding_keeps_whole_numbers(dx, 0, d);
        } else {
            assert(s * dx == d * (-dx)) by (nonlinear_arith)
                requires
                    d == -s,
            ;
            law_rounding_keeps_whole_numbers(-dx, 0, d);
        }
    }
    if a.0 == b.0 {
        let s = b.1 - a.1;
        assert(dx * 0 + dy * s == s * dy) by (nonlinear_arith);
        if s > 0 {
            law_rounding_keeps_whole_numbers(dy, 0, d);
        } else {
            assert(s * dy == d * (-dy)) by (nonlinear_arith)
                requires
                    d == -s,
            ;
            law_rounding_keeps_whole_numbers(-dy, 0, d);
        }
    }
    if q == b {
        assert(0 * (b.0 - a.0) + 0 * (b.1 - a.1) == d * 0) by (nonlinear_arith);
        law_rounding_keeps_whole_numbers(0, 0, d);
    }
    if q == a {
        assert((a.0 - b.0) * (b.0 - a.0) + (a.1 - b.1) * (b.1 - a.1) <= 0) by (nonlinear_arith);
        law_rounding_is_monotone(
            (a.0 - b.0) * (b.0 - a.0) + (a.1 - b.1) * (b.1 - a.1),
            d * 0,
            d,
        );
        assert(d * 0 == 0);
        law_rounding_keeps_whole_numbers(0, 0, d);
    }
}

/// An overshoot is looked for in the 40, 80 and 120 ms after a hit that the cursor came to over
/// 0.15 cells or more in 60 ms, and counts from more than 0.15 cells.
pub proof fn law_overshoots_are_looked_for_after_hits(frames: Seq<Frame>, na: NoteAnalysis)
    ensures
        na.hit_ms is None ==> overshoot_of(frames, na) == 0,
        na.hit_ms matches Some(h) ==> {
            let (a, b) = (place(frames, h - 60_000_000), place(frames, h as int));
            let o = overshoot_of(frames, na);
            &&& distance(a.0, a.1, b.0, b.1) < 150_000 ==> o == 0
            &&& o == 0 || o > 150_000
            &&& o > 0 ==> o == along(frames, h as int, 40_000_000) || o == along(
                frames,
                h as int,
                80_000_000,
            ) || o == along(frames, h as int, 120_000_000)
            &&& distance(a.0, a.1, b.0, b.1) >= 150_000 && along(frames, h as int, 40_000_000)
                > 150_000 ==> o >= along(frames, h as int, 40_000_000)
            &&& distance(a.0, a.1, b.0, b.1) >= 150_000 && along(frames, h as int, 80_000_000)
                > 150_000 ==> o >= along(frames, h as int, 80_000_000)
            &&& distance(a.0, a.1, b.0, b.1) >= 150_000 && along(frames, h as int, 120_000_000)
                > 150_000 ==> o >= along(frames, h as int, 120_000_000)
        },
{
}

/// The overshoots of a run: none outside what was looked at, a share of no more than 100 percent,
/// and the worst is no less than any of them.
pub proof fn law_overshoots_of_a_run(
    o: Overshoot,
    frames: Seq<Frame>,
    list: Seq<NoteAnalysis>,
    i: int,
)
    requires
        is_overshoot(o, frames, list),
        0 <= i < list.len(),
    ensures
        0 <= o.rate_pct <= 100_000_000,
        overshoot_of(frames, list[i]) > 0 ==> o.worst is Some && o.worst->0.v >= overshoot_of(
            frames,
            list[i],
        ),
        o.worst is None ==> o.rate_pct == 0 && o.avg_cells == 0,
{
    let n = list.len();
    let f = overshoots_fn(frames, list);
    let over = overshot_fn(frames, list);
    let seen = travelled_fn(frames, list);
    law_the_top_is_the_greatest(f, n);
    assert(f(i) == overshoot_of(frames, list[i]));
    lemma_tally_implies(over, seen, n);
    if tally(seen, n) > 0 {
        law_shares_are_parts_of_a_hundred(tally(over, n) as int, tally(seen, n) as int);
    }
    if o.worst is None {
        law_counts_are_complete(over, n);
        assert forall|k: int| 0 <= k < n implies !#[trigger] over(k) by {
            assert(f(k) <= 0);
        }
    }
}

/// The bias of a run lies between the least and the greatest offset of its hits, to the right as
/// upwards, and its size is the distance from the middle.
pub proof fn law_biases_lie_among_the_offsets(
    b: DirectionBias,
    list: Seq<NoteAnalysis>,
    lo: int,
    hi: int,
)
    requires
        is_bias(b, list),
        all_bounded(list),
        exists|i: int| 0 <= i < list.len() && #[trigger] list[i].hit,
    ensures
        (forall|i: int|
            0 <= i < list.len() && #[trigger] list[i].hit ==> lo <= list[i].off_x->0 <= hi) ==> lo
            <= b.dx <= hi,
        (forall|i: int|
            0 <= i < list.len() && #[trigger] list[i].hit ==> lo <= list[i].off_y->0 <= hi) ==> lo
            <= b.dy <= hi,
        b.magnitude == distance(0, 0, b.dx as int, b.dy as int),
{
    let n = list.len();
    let (x, y) = (right_offsets(list, n), upward_offsets(list, n));
    let i = choose|i: int| 0 <= i < list.len() && #[trigger] list[i].hit;
    if forall|i: int|
        0 <= i < list.len() && #[trigger] list[i].hit ==> lo <= list[i].off_x->0 <= hi {
        let f = |j: int| list[j].off_x;
        assert forall|j: int| 0 <= j < n implies (#[trigger] f(j) matches Some(x) ==> lo <= x <= hi) by {
            assert(is_bounded(list[j]));
        }
        assert(is_bounded(list[i]));
        assert(f(i) is Some);
        lemma_present(f, n, i, lo, hi);
        law_means_lie_between(x, x, lo, hi);
    }
    if forall|i: int|
        0 <= i < list.len() && #[trigger] list[i].hit ==> lo <= list[i].off_y->0 <= hi {
        let f = |j: int| list[j].off_y;
        assert forall|j: int| 0 <= j < n implies (#[trigger] f(j) matches Some(x) ==> lo <= x <= hi) by {
            assert(is_bounded(list[j]));
        }
        assert(is_bounded(list[i]));
        assert(f(i) is Some);
        lemma_present(f, n, i, lo, hi);
        law_means_lie_between(y, y, lo, hi);
    }
    assert((b.dx - 0) * (b.dx - 0) + (b.dy - 0) * (b.dy - 0) == b.dx * b.dx + b.dy * b.dy);
}

proof fn lemma_present(f: spec_fn(int) -> Option<i64>, n: nat, i: int, lo: int, hi: int)
    requires
        forall|j: int| 0 <= j < n ==> (#[trigger] f(j) matches Some(x) ==> lo <= x <= hi),
    ensures
        forall|k: int| 0 <= k < present(f, n).len() ==> lo <= #[trigger] present(f, n)[k] <= hi,
        0 <= i < n && f(i) is Some ==> present(f, n).len() > 0,
    decreases n,
{
    if n > 0 {
        let m = (n - 1) as nat;
        lemma_present(f, m, i, lo, hi);
        let (before, v) = (present(f, m), present(f, n));
        let last = f(m as int);
        assert forall|k: int| 0 <= k < v.len() implies lo <= #[trigger] v[k] <= hi by {
            if k < before.len() {
                assert(v[k] == before[k]);
            } else {
                assert(last is Some && v[k] == last->0);
            }
        }
    }
}

/// A step is looked at where both its notes were hit, lie half a cell apart or more, and follow
/// each other by 50 ms to 1.2 s; a cursor that moves over it at one speed flows and does not snap.
/// Snaps and flows make up everything that was looked at.
pub proof fn law_steps_snap_or_flow(
    sf: SnapFlow,
    frames: Seq<Frame>,
    pace: int,
    list: Seq<NoteAnalysis>,
    i: int,
    v: int,
)
    requires
        is_snap_flow(sf, frames, pace, list),
        0 <= i < list.len() - 1,
        v > 0,
    ensures
        is_step(frames, pace, list, i) ==> {
            &&& list[i].hit && list[i + 1].hit
            &&& 50_000_000 <= list[i + 1].t - list[i].t <= 1_200_000_000
            &&& leg(list, i) >= 500_000
        },
        is_step(frames, pace, list, i) && (forall|j: int|
            segment_from(frames, list[i].t as int) <= j < segment_from(frames, list[i + 1].t + 1)
                ==> #[trigger] smooth(frames, pace, j) == v) ==> !is_snap(frames, pace, list, i),
        sf.samples == tally(|k: int| is_step(frames, pace, list, k), (list.len() - 1) as nat),
        sf.samples > 0 ==> magnitude(sf.snap_pct + sf.flow_pct - 100_000_000) <= 1,
        sf.samples == 0 ==> sf.snap_pct == 0 && sf.flow_pct == 0,
{
    let n = steps(list);
    lemma_steps(frames, pace, list, n);
    let (s, f) = (tally(snaps_fn(frames, pace, list), n), tally(flows_fn(frames, pace, list), n));
    if s + f > 0 {
        law_shares_are_parts_of_a_hundred(s as int, (s + f) as int);
    }
    let lo = segment_from(frames, list[i].t as int);
    let hi = segment_from(frames, list[i + 1].t + 1);
    if is_step(frames, pace, list, i) && (forall|j: int|
        lo <= j < hi ==> #[trigger] smooth(frames, pace, j) == v) {
        let g = speeds_fn(frames, pace);
        lemma_from_start(frames, list[i].t as int);
        assert forall|j: int| lo <= j < hi implies v <= #[trigger] g(j) <= v by {
            assert(smooth(frames, pace, j) == v);
        }
        lemma_stretch_bound(g, lo as nat, hi as nat, v, v);
        let m = hi - lo;
        let sum = total(g, hi as nat) - total(g, lo as nat);
        let h = |j: int|
            if j >= lo {
                smooth(frames, pace, j)
            } else {
                0
            };
        law_the_top_is_the_greatest(h, hi as nat);
        let peak = fastest(frames, pace, lo, hi);
        assert(peak == top(h, hi as nat).0);
        let at = top(h, hi as nat).1;
        assert(peak == v) by {
            assert(h(at) == peak);
        }
        assert(sum == m * v);
        assert(10 * peak * m < 22 * greater(sum, m)) by (nonlinear_arith)
            requires
                peak == v,
                sum == m * v,
                m >= 2,
                v > 0,
        ;
    }
}

proof fn lemma_from_start(frames: Seq<Frame>, t: int)
    ensures
        segment_from(frames, t) >= 0,
{
    if frames.len() > 0 {
        lemma_first_is_later(frames, 1, t);
    }
}

proof fn lemma_first_is_later(frames: Seq<Frame>, from: int, t: int)
    ensures
        first_not_before(frames, from, t) >= from,
    decreases frames.len() - from,
{
    if from >= 0 && from < frames.len() && frames[from].ms < t {
        lemma_first_is_later(frames, from + 1, t);
    }
}

proof fn lemma_steps(frames: Seq<Frame>, pace: int, list: Seq<NoteAnalysis>, n: nat)
    ensures
        tally(snaps_fn(frames, pace, list), n) + tally(flows_fn(frames, pace, list), n) == tally(
            |k: int| is_step(frames, pace, list, k),
            n,
        ),
    decreases n,
{
    if n > 0 {
        lemma_steps(frames, pace, list, (n - 1) as nat);
    }
}

/// A cursor that goes straight on by even steps shows no tremor, on whichever line; tremor is the
/// same in both axes.
pub proof fn law_straight_lines_do_not_tremble(frames: Seq<Frame>, i: int, dx: int, dy: int)
    requires
        3 <= i < frames.len() - 3,
        forall|j: int|
            i - 3 <= j <= i + 3 ==> (#[trigger] frames[j]).x == frames[i].x + (j - i) * dx
                && frames[j].y == frames[i].y + (j - i) * dy,
    ensures
        tremor(frames, i) == 0,
{
    reveal_with_fuel(total, 8);
    let f = |j: int| frames[i - 3 + j].x as int;
    let g = |j: int| frames[i - 3 + j].y as int;
    assert(frames[i - 3].x == frames[i].x - 3 * dx && frames[i - 3].y == frames[i].y - 3 * dy) by {
        assert(((i - 3) - i) * dx == -3 * dx && ((i - 3) - i) * dy == -3 * dy)
            by (nonlinear_arith);
    }
    assert(frames[i - 2].x == frames[i].x - 2 * dx && frames[i - 2].y == frames[i].y - 2 * dy) by {
        assert(((i - 2) - i) * dx == -2 * dx && ((i - 2) - i) * dy == -2 * dy)
            by (nonlinear_arith);
    }
    assert(frames[i - 1].x == frames[i].x - dx && frames[i - 1].y == frames[i].y - dy) by {
        assert(((i - 1) - i) * dx == -dx && ((i - 1) - i) * dy == -dy) by (nonlinear_arith);
    }
    assert(frames[i + 1].x == frames[i].x + dx && frames[i + 1].y == frames[i].y + dy) by {
        assert(((i + 1) - i) * dx == dx && ((i + 1) - i) * dy == dy) by (nonlinear_arith);
    }
    assert(frames[i + 2].x == frames[i].x + 2 * dx && frames[i + 2].y == frames[i].y + 2 * dy) by {
        assert(((i + 2) - i) * dx == 2 * dx && ((i + 2) - i) * dy == 2 * dy) by (nonlinear_arith);
    }
    assert(frames[i + 3].x == frames[i].x + 3 * dx && frames[i + 3].y == frames[i].y + 3 * dy) by {
        assert(((i + 3) - i) * dx == 3 * dx && ((i + 3) - i) * dy == 3 * dy) by (nonlinear_arith);
    }
    assert(around_x(frames, i) == f(0) + f(1) + f(2) + f(3) + f(4) + f(5) + f(6));
    assert(around_y(frames, i) == g(0) + g(1) + g(2) + g(3) + g(4) + g(5) + g(6));
    assert(around_x(frames, i) == 7 * frames[i].x);
    assert(around_y(frames, i) == 7 * frames[i].y);
}

/// A bucket of the map is a fifteenth of a cell wide; they go from left to right and from the top
/// down, and a place further than 1.6 cells from the middle has none.
pub proof fn law_buckets_lie_in_the_plane(f: Frame)
    ensures
        bucket(f) is Some <==> -1_600_000 <= f.x && f.x < 1_600_000 && -1_600_000 < f.y && f.y
            <= 1_600_000,
        bucket(f) matches Some(c) ==> {
            &&& 0 <= c < 2304
            &&& (c % 48) * 1_000_000 <= (f.x + 1_600_000) * 15 < (c % 48 + 1) * 1_000_000
            &&& (c / 48) * 1_000_000 <= (1_600_000 - f.y) * 15 < (c / 48 + 1) * 1_000_000
        },
{
}

/// The bucket in which the cursor dwelt longest is the brightest there is; one in which it was no
/// longer than in another is no brighter, one in which it never was is dark.
pub proof fn law_long_dwelling_is_bright(h: Heatmap, frames: Seq<Frame>, a: int, b: int)
    requires
        is_heatmap(h, frames),
        0 <= a < 2304,
        0 <= b < 2304,
        dwell(frames, a) <= dwell(frames, b),
    ensures
        h.counts@[a] <= h.counts@[b],
        dwell(frames, a) == 0 ==> h.counts@[a] == 0,
        (forall|c: int| 0 <= c < 2304 ==> #[trigger] dwell(frames, c) <= dwell(frames, b)) && dwell(
            frames,
            b,
        ) > 0 ==> h.counts@[b] == 255,
{
    let most = longest_dwell(frames);
    let f = |c: int| dwell(frames, c);
    law_the_top_is_the_greatest(f, 2304);
    let (p, q) = (dwell(frames, a), dwell(frames, b));
    lemma_dwell(frames, a, segments(frames));
    assert(f(a) == p && f(b) == q);
    if most > 0 {
        let (u, v) = (p * 65_025 / most, q * 65_025 / most);
        assert(0 <= u <= v) by {
            vstd::arithmetic::div_mod::lemma_div_is_ordered(p * 65_025, q * 65_025, most);
            vstd::arithmetic::div_mod::lemma_div_pos_is_pos(p * 65_025, most);
        }
        lemma_root_of(u);
        lemma_root_of(v);
        let (r, s) = (root(u), root(v));
        assert(r <= s) by (nonlinear_arith)
            requires
                r >= 0,
                s >= 0,
                r * r <= u,
                u <= v,
                v < (s + 1) * (s + 1),
        ;
        if p == 0 {
            assert(0int / most == 0) by (nonlinear_arith)
                requires
                    most > 0,
            ;
        }
        if (forall|c: int| 0 <= c < 2304 ==> #[trigger] dwell(frames, c) <= q) && q > 0 {
            let at = top(f, 2304).1;
            assert(f(at) == most);
            assert(most == q) by {
                assert(dwell(frames, at) <= q);
            }
            assert(v == 65_025) by {
                vstd::arithmetic::div_mod::lemma_div_by_multiple(65_025, most);
            }
            assert(s == 255) by (nonlinear_arith)
                requires
                    s >= 0,
                    s * s <= 65_025,
                    65_025 < (s + 1) * (s + 1),
            ;
        }
    }
}

proof fn lemma_dwell(frames: Seq<Frame>, c: int, n: nat)
    ensures
        total(dwell_fn(frames, c), n) >= 0,
    decreases n,
{
    if n > 0 {
        lemma_dwell(frames, c, (n - 1) as nat);
    }
}

/// Every spacing of the frames is in the histogram, in the bucket of its whole milliseconds; those
/// of 40 ms and more share the last.
pub proof fn law_every_spacing_is_counted(fd: FrameDeltas, frames: Seq<Frame>, i: int)
    requires
        is_deltas(fd, frames),
        0 <= i < segments(frames),
    ensures
        total(|b: int| fd.hist@[b] as int, 41) == deltas(frames, segments(frames)).len(),
        ({
            let dt = frames[i + 1].ms - frames[i].ms;
            &&& 0 < dt < 40_000_000 ==> fd.hist@[dt / 1_000_000] > 0
            &&& 40_000_000 <= dt <= 500_000_000 ==> fd.hist@[40] > 0
        }),
{
    let n = segments(frames);
    let d = deltas(frames, n);
    lemma_spacings(frames, n, i);
    lemma_spacings_are_sorted_in(fd.hist@, d);
    let dt = frames[i + 1].ms - frames[i].ms;
    if 0 < dt <= 500_000_000 {
        let k = choose|k: int| 0 <= k < d.len() && #[trigger] d[k] == dt;
        let b = delta_bucket(d[k]);
        law_counts_are_complete(in_bucket_fn(d, b), d.len());
        assert(in_bucket_fn(d, b)(k));
        assert(fd.hist@[b] > 0);
    }
}

proof fn lemma_spacings(frames: Seq<Frame>, n: nat, i: int)
    requires
        n <= segments(frames),
        0 <= i,
    ensures
        ({
            let d = deltas(frames, n);
            let dt = frames[i + 1].ms - frames[i].ms;
            &&& forall|k: int| 0 <= k < d.len() ==> 0 < #[trigger] d[k] <= 500_000_000
            &&& i < n && 0 < dt <= 500_000_000 ==> exists|k: int|
                0 <= k < d.len() && #[trigger] d[k] == dt
        }),
    decreases n,
{
    if n > 0 {
        let m = (n - 1) as nat;
        lemma_spacings(frames, m, i);
        let (before, d) = (deltas(frames, m), deltas(frames, n));
        assert forall|k: int| 0 <= k < d.len() implies 0 < #[trigger] d[k] <= 500_000_000 by {
            if k < before.len() {
                assert(d[k] == before[k]);
            }
        }
        let dt = frames[i + 1].ms - frames[i].ms;
        if i < n && 0 < dt <= 500_000_000 {
            if i < m {
                let k = choose|k: int| 0 <= k < before.len() && #[trigger] before[k] == dt;
                assert(d[k] == dt);
            } else {
                assert(segment_time(frames, i) == dt);
                assert(d[d.len() - 1] == dt);
            }
        }
    }
}

proof fn lemma_spacings_are_sorted_in(hist: Seq<u32>, d: Seq<i128>)
    requires
        hist.len() == 41,
        forall|b: int| 0 <= b < 41 ==> #[trigger] hist[b] == tally(in_bucket_fn(d, b), d.len()),
        forall|k: int| 0 <= k < d.len() ==> 0 < #[trigger] d[k] <= 500_000_000,
    ensures
        total(|b: int| hist[b] as int, 41) == d.len(),
{
    let bucket = |k: int| delta_bucket(d[k]);
    assert forall|k: int| 0 <= k < d.len() implies 0 <= #[trigger] bucket(k) < 41 by {
        assert(0 < d[k]);
    }
    law_buckets_hold_everything(bucket, d.len(), 41);
    let counts = |b: int| tally(|k: int| bucket(k) == b, d.len()) as int;
    assert forall|b: int| 0 <= b < 41 implies #[trigger] counts(b) == hist[b] by {
        lemma_tally_same(|k: int| bucket(k) == b, in_bucket_fn(d, b), d.len());
    }
    lemma_total_same(counts, |b: int| hist[b] as int, 41);
}

/// No more windows are calm than were looked at; a cursor without tremor is calm in all of them, and
/// one that is nowhere moving has none to look at.
pub proof fn law_calm_windows_are_windows(frames: Seq<Frame>, pace: int, i: int)
    ensures
        ({
            let w = windows_at(frames, pace, i);
            &&& 0 <= w.calm <= w.seen
            &&& 0 <= w.n
            &&& (forall|k: int| 3 <= k < i ==> #[trigger] tremor(frames, k) == 0) ==> w.calm == w.seen
                && w.dev == 0
            &&& (forall|k: int| 3 <= k < i ==> !#[trigger] arrives(frames, pace, k)) ==> w.seen == 0
                && w.n == 0
            &&& i > 3 && frames[i - 1].ms - windows_at(frames, pace, i - 1).start < 500_000_000
                ==> w.start == windows_at(frames, pace, i - 1).start && w.seen == windows_at(
                frames,
                pace,
                i - 1,
            ).seen
        }),
    decreases i,
{
    if i > 3 {
        law_calm_windows_are_windows(frames, pace, i - 1);
        if forall|k: int| 3 <= k < i ==> #[trigger] tremor(frames, k) == 0 {
            assert(tremor(frames, i - 1) == 0);
        }
        if forall|k: int| 3 <= k < i ==> !#[trigger] arrives(frames, pace, k) {
            assert(!arrives(frames, pace, i - 1));
        }
    }
}

} // verus!
