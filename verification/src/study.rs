//! What is known of each attempted note, and how the cursor moved over the run.
//!
//! Distances are in millionths of a cell, speeds in millionths of a cell per second of real
//! time, times in millionths of a millisecond of song time, shares in millionths of a percent.

use vstd::prelude::*;

use crate::count::{
    gather, law_gathering_keeps_all_in_order, lemma_tally_same, lemma_total_same, tally, total,
};
use crate::fixed::{
    div_nearest, law_rounding_is_closest, law_rounding_is_monotone, law_rounding_keeps_whole_numbers,
    lemma_nearest_bound, lesser, magnitude, nearest, COORDINATE_LIMIT, ONE,
};
use crate::hitreg::{
    attribution, chart_time, first_not_before, flagged, frames_in_time, is_outcome,
    law_flags_are_shared_out, MatchOutcome,
};
use crate::motion::{
    distance, distance_between, first_frame, is_kinematics, law_distances_are_those_of_the_plane,
    moving, pace_of, place, place_at, segment_time, segment_way, segments, smooth, speed_over, times_fn, trackable, velocity,
    ways_fn, Kinematics, PLANE_LIMIT, SPEED_LIMIT,
};
use crate::replay::{Frame, Note, Replay};
use crate::stats::{is_percentile, limited, percentile, VALUE_LIMIT};

verus! {

/// The latest chart time that timing is worked out for, in whole milliseconds.
pub const CHART_LIMIT: i64 = 10_000_000_000;

/// The largest hit window that timing is worked out for.
pub const WINDOW_LIMIT: i64 = 1_000_000_000_000;

/// Whether the play of some notes can be worked out.
pub open spec fn chartable(notes: Seq<Note>) -> bool {
    &&& notes.len() <= u32::MAX
    &&& forall|i: int|
        0 <= i < notes.len() ==> {
            &&& magnitude((#[trigger] notes[i]).x as int) <= PLANE_LIMIT
            &&& magnitude(notes[i].y as int) <= PLANE_LIMIT
            &&& magnitude(notes[i].time_ms as int) <= CHART_LIMIT
        }
}

/// What is known of one attempted note.
#[derive(Debug, Clone, Copy)]
pub struct NoteAnalysis {
    /// Index into the map's notes.
    pub i: u32,
    /// Chart time.
    pub t: i64,
    /// Column.
    pub gx: i64,
    /// Row.
    pub gy: i64,
    /// Whether it was hit.
    pub hit: bool,
    /// When it was hit.
    pub hit_ms: Option<i64>,
    /// How late it was hit.
    pub err_ms: Option<i64>,
    /// Cursor to the right of the note's centre when it was hit.
    pub off_x: Option<i64>,
    /// Cursor above the note's centre when it was hit.
    pub off_y: Option<i64>,
    /// Distance of the cursor from the note's centre when it was hit.
    pub dist: Option<i64>,
    /// Closest that the cursor came to a missed note, within 250 ms.
    pub near_dist: Option<i64>,
    /// Mean cursor speed in the 150 ms before the note.
    pub approach_v: i128,
}

/// Whether a note was attempted: not before a practice run starts, and not after a failed run
/// ends.
pub open spec fn tried(note: Note, start_from_ms: i32, fail_time_ms: i32, window: int) -> bool {
    &&& start_from_ms > 0 ==> note.time_ms >= start_from_ms
    &&& fail_time_ms >= 0 ==> chart_time(note) <= fail_time_ms * ONE + window
}

/// The attempted notes among the first `n`, by index.
pub open spec fn tried_below(
    notes: Seq<Note>,
    start_from_ms: i32,
    fail_time_ms: i32,
    window: int,
    n: nat,
) -> Seq<int> {
    gather(
        |i: int|
            if tried(notes[i], start_from_ms, fail_time_ms, window) {
                Some(i)
            } else {
                None
            },
        n,
    )
}

/// Where a column lies in the world.
pub open spec fn world_x(gx: int) -> int {
    gx - ONE
}

/// Where a row lies in the world.
pub open spec fn world_y(gy: int) -> int {
    ONE - gy
}

/// The first segment that ends at or after a time.
pub open spec fn segment_from(frames: Seq<Frame>, t: int) -> int {
    if frames.len() == 0 {
        0
    } else {
        first_not_before(frames, 1, t) - 1
    }
}

/// The smoothed speeds.
pub open spec fn speeds_fn(frames: Seq<Frame>, pace: int) -> spec_fn(int) -> int {
    |i: int| smooth(frames, pace, i)
}

/// The mean speed over the segments that end in a span of time.
pub open spec fn mean_speed(frames: Seq<Frame>, pace: int, from: int, to: int) -> int {
    let lo = segment_from(frames, from);
    let hi = segment_from(frames, to + 1);
    if hi > lo {
        nearest(
            total(speeds_fn(frames, pace), hi as nat) - total(speeds_fn(frames, pace), lo as nat),
            hi - lo,
        )
    } else {
        0
    }
}

/// The closest that the cursor comes to a point, over the frames from one on up to a time.
pub open spec fn closest(frames: Seq<Frame>, from: int, until: int, x: int, y: int) -> Option<int>
    decreases frames.len() - from,
{
    if from < 0 || from >= frames.len() || frames[from].ms > until {
        None
    } else {
        let d = distance(frames[from].x as int, frames[from].y as int, x, y);
        match closest(frames, from + 1, until, x, y) {
            Some(rest) => if rest < d {
                Some(rest)
            } else {
                Some(d)
            },
            None => Some(d),
        }
    }
}

/// Whether an optional number is a given one.
pub open spec fn same(a: Option<i64>, b: Option<int>) -> bool {
    match (a, b) {
        (Some(x), Some(y)) => x == y,
        (None, None) => true,
        _ => false,
    }
}

/// Whether this is what is known of note `i`, hit when `hit_ms` says.
pub open spec fn is_note(
    na: NoteAnalysis,
    notes: Seq<Note>,
    frames: Seq<Frame>,
    pace: int,
    i: int,
    hit_ms: Option<i64>,
) -> bool {
    let note = notes[i];
    let t = chart_time(note);
    let nx = world_x(note.x as int);
    let ny = world_y(note.y as int);
    &&& na.i == i
    &&& na.t == t
    &&& na.gx == note.x
    &&& na.gy == note.y
    &&& na.hit == hit_ms is Some
    &&& na.hit_ms == hit_ms
    &&& na.approach_v == mean_speed(frames, pace, t - 150_000_000, t)
    &&& match hit_ms {
        Some(h) => {
            let (cx, cy) = place(frames, h as int);
            &&& same(na.err_ms, Some(h - t))
            &&& same(na.off_x, Some(cx - nx))
            &&& same(na.off_y, Some(cy - ny))
            &&& same(na.dist, Some(distance(nx, ny, cx, cy)))
            &&& na.near_dist is None
        },
        None => {
            &&& na.err_ms is None
            &&& na.off_x is None
            &&& na.off_y is None
            &&& na.dist is None
            &&& same(
                na.near_dist,
                closest(
                    frames,
                    first_not_before(frames, 0, t - 250_000_000),
                    t + 250_000_000,
                    nx,
                    ny,
                ),
            )
        },
    }
}

/// Bounds that hold of what is known of any note.
pub open spec fn is_bounded(na: NoteAnalysis) -> bool {
    &&& magnitude(na.t as int) <= CHART_LIMIT * ONE
    &&& magnitude(na.gx as int) <= PLANE_LIMIT
    &&& magnitude(na.gy as int) <= PLANE_LIMIT
    &&& na.hit == na.hit_ms is Some
    &&& na.hit == na.err_ms is Some
    &&& na.hit == na.off_x is Some
    &&& na.hit == na.off_y is Some
    &&& na.hit == na.dist is Some
    &&& na.hit_ms matches Some(h) ==> magnitude(h as int) <= COORDINATE_LIMIT
    &&& na.err_ms matches Some(e) ==> magnitude(e as int) <= WINDOW_LIMIT
    &&& na.off_x matches Some(x) ==> magnitude(x as int) <= 5 * PLANE_LIMIT
    &&& na.off_y matches Some(y) ==> magnitude(y as int) <= 5 * PLANE_LIMIT
    &&& na.dist matches Some(d) ==> 0 <= d <= 20 * PLANE_LIMIT
    &&& na.near_dist matches Some(d) ==> 0 <= d <= 20 * PLANE_LIMIT
    &&& 0 <= na.approach_v <= VALUE_LIMIT
}

/// The first segment that ends at or after a time.
pub(crate) fn find_segment(frames: &[Frame], t: i128) -> (i: usize)
    ensures
        i == segment_from(frames@, t as int),
        i <= segments(frames@),
{
    if frames.len() == 0 {
        0
    } else {
        first_frame(frames, 1, t) - 1
    }
}

/// The mean speed over the segments that end in a span of time.
fn approach(frames: &[Frame], k: &Kinematics, pace: i64, from: i128, to: i128) -> (v: i128)
    requires
        trackable(frames@),
        is_kinematics(*k, frames@, pace as int),
        magnitude(to as int) <= 4 * COORDINATE_LIMIT,
    ensures
        v == mean_speed(frames@, pace as int, from as int, to as int),
        0 <= v <= 9_000_000_000_000_000_000_000_000,
{
    let lo: usize = find_segment(frames, from);
    let hi: usize = find_segment(frames, to + 1);
    if hi <= lo {
        return 0;
    }
    let ghost f = speeds_fn(frames@, pace as int);
    let ghost top = 9_000_000_000_000_000_000_000_000int;
    let mut s: i128 = 0;
    let mut j: usize = lo;
    while j < hi
        invariant
            lo <= j <= hi <= segments(frames@),
            segments(frames@) <= u32::MAX,
            is_kinematics(*k, frames@, pace as int),
            f == speeds_fn(frames@, pace as int),
            top == 9_000_000_000_000_000_000_000_000,
            s == total(f, j as nat) - total(f, lo as nat),
            0 <= s <= (j - lo) * top,
        decreases hi - j,
    {
        assert(k.smooth_v@[j as int] == smooth(frames@, pace as int, j as int));
        assert((j - lo) * top + top == (j + 1 - lo) * top) by (nonlinear_arith);
        assert((j + 1 - lo) * top <= 0x1_0000_0000 * top) by (nonlinear_arith)
            requires
                j + 1 - lo <= 0x1_0000_0000,
                top > 0,
        ;
        s = s + k.smooth_v[j];
        j = j + 1;
    }
    proof {
        let n = hi - lo;
        let ss = s as int;
        assert(ss <= 0x1_0000_0000 * top) by (nonlinear_arith)
            requires
                ss <= n * top,
                n <= 0x1_0000_0000,
                top > 0,
        ;
        assert(0 <= (2 * ss + n) / (2 * n) <= top) by (nonlinear_arith)
            requires
                0 <= ss <= n * top,
                n > 0,
        {
            assert(2 * ss + n < (top + 1) * (2 * n)) by (nonlinear_arith)
                requires
                    ss <= n * top,
                    n > 0,
            ;
        }
    }
    div_nearest(s, (hi - lo) as i128)
}

/// The closest that the cursor comes to a point in a span of time.
fn nearest_pass(frames: &[Frame], from: i128, until: i128, x: i64, y: i64) -> (d: Option<i64>)
    requires
        trackable(frames@),
        magnitude(x as int) <= 2 * PLANE_LIMIT,
        magnitude(y as int) <= 2 * PLANE_LIMIT,
    ensures
        same(
            d,
            closest(
                frames@,
                first_not_before(frames@, 0, from as int),
                until as int,
                x as int,
                y as int,
            ),
        ),
        d matches Some(v) ==> 0 <= v <= 20 * PLANE_LIMIT,
{
    let lo: usize = first_frame(frames, 0, from);
    let mut end: usize = lo;
    while end < frames.len() && frames[end].ms as i128 <= until
        invariant
            lo <= end <= frames@.len(),
            forall|j: int| lo <= j < end ==> #[trigger] frames@[j].ms <= until,
        decreases frames@.len() - end,
    {
        end = end + 1;
    }
    let mut best: Option<i64> = None;
    let mut i: usize = end;
    while i > lo
        invariant
            lo <= i <= end <= frames@.len(),
            trackable(frames@),
            magnitude(x as int) <= 2 * PLANE_LIMIT,
            magnitude(y as int) <= 2 * PLANE_LIMIT,
            forall|j: int| lo <= j < end ==> #[trigger] frames@[j].ms <= until,
            same(best, closest(frames@, i as int, until as int, x as int, y as int)),
            best matches Some(v) ==> 0 <= v <= 20 * PLANE_LIMIT,
        decreases i,
    {
        i = i - 1;
        assert(magnitude(frames@[i as int].x as int) <= PLANE_LIMIT);
        let f: Frame = frames[i];
        let d: i64 = distance_between(f.x as i128, f.y as i128, x as i128, y as i128) as i64;
        match best {
            Some(rest) => {
                if rest >= d {
                    best = Some(d);
                }
            },
            None => {
                best = Some(d);
            },
        }
    }
    best
}

/// Works out what is known of one note.
fn study_note(
    notes: &[Note],
    frames: &[Frame],
    k: &Kinematics,
    pace: i64,
    i: usize,
    hit_ms: Option<i64>,
) -> (na: NoteAnalysis)
    requires
        chartable(notes@),
        trackable(frames@),
        is_kinematics(*k, frames@, pace as int),
        i < notes@.len(),
        hit_ms matches Some(h) ==> magnitude(h as int) <= COORDINATE_LIMIT && magnitude(
            h - chart_time(notes@[i as int]),
        ) <= WINDOW_LIMIT,
    ensures
        is_note(na, notes@, frames@, pace as int, i as int, hit_ms),
        is_bounded(na),
{
    let note: Note = notes[i];
    assert(magnitude(notes@[i as int].x as int) <= PLANE_LIMIT);
    let t: i64 = note.time_ms * ONE;
    let nx: i64 = note.x - ONE;
    let ny: i64 = ONE - note.y;
    let mut na: NoteAnalysis = NoteAnalysis {
        i: i as u32,
        t,
        gx: note.x,
        gy: note.y,
        hit: hit_ms.is_some(),
        hit_ms,
        err_ms: None,
        off_x: None,
        off_y: None,
        dist: None,
        near_dist: None,
        approach_v: approach(frames, k, pace, t as i128 - 150_000_000, t as i128),
    };
    match hit_ms {
        Some(h) => {
            let (cx, cy) = place_at(frames, h as i128);
            na.err_ms = Some(h - t);
            na.off_x = Some((cx - nx as i128) as i64);
            na.off_y = Some((cy - ny as i128) as i64);
            na.dist = Some(distance_between(nx as i128, ny as i128, cx, cy) as i64);
        },
        None => {
            na.near_dist = nearest_pass(
                frames,
                t as i128 - 250_000_000,
                t as i128 + 250_000_000,
                nx,
                ny,
            );
        },
    }
    na
}

/// When a note was hit, from the run's flags and cursor.
pub open spec fn struck(notes: Seq<Note>, frames: Seq<Frame>, window: int, i: int) -> Option<i64> {
    match attribution(notes, frames, window, true)[i] {
        Some(k) => Some(flagged(frames)[k].ms),
        None => None,
    }
}

/// Whether these are the attempted notes of a run, in order.
pub open spec fn is_notes(
    list: Seq<NoteAnalysis>,
    notes: Seq<Note>,
    replay: Replay,
    window: int,
) -> bool {
    let ids = tried_below(
        notes,
        replay.start_from_ms,
        replay.fail_time_ms,
        window,
        notes.len(),
    );
    &&& list.len() == ids.len()
    &&& forall|k: int|
        0 <= k < list.len() ==> {
            &&& is_note(
                #[trigger] list[k],
                notes,
                replay.frames@,
                pace_of(replay.speed),
                ids[k],
                struck(notes, replay.frames@, window, ids[k]),
            )
            &&& is_bounded(list[k])
        }
}

proof fn lemma_flags_are_frames(frames: Seq<Frame>, k: int)
    requires
        trackable(frames),
        0 <= k < flagged(frames).len(),
    ensures
        magnitude(flagged(frames)[k].ms as int) <= COORDINATE_LIMIT,
    decreases frames.len(),
{
    assert(trackable(frames.drop_last())) by {
        assert forall|i: int| 0 <= i < frames.len() - 1 implies {
            &&& magnitude((#[trigger] frames.drop_last()[i]).x as int) <= PLANE_LIMIT
            &&& magnitude(frames.drop_last()[i].y as int) <= PLANE_LIMIT
            &&& magnitude(frames.drop_last()[i].ms as int) <= COORDINATE_LIMIT
        } by {
            assert(magnitude(frames[i].x as int) <= PLANE_LIMIT);
        }
    }
    let n = frames.len();
    assert(magnitude(frames[n - 1].ms as int) <= COORDINATE_LIMIT);
    if k < flagged(frames.drop_last()).len() {
        lemma_flags_are_frames(frames.drop_last(), k);
    }
}

/// Works out what is known of the attempted notes.
pub(crate) fn study_notes(
    notes: &[Note],
    replay: &Replay,
    k: &Kinematics,
    pace: i64,
    window_ms: i64,
    outcome: &MatchOutcome,
) -> (list: Vec<NoteAnalysis>)
    requires
        chartable(notes@),
        trackable(replay.frames@),
        pace == pace_of(replay.speed),
        is_kinematics(*k, replay.frames@, pace as int),
        0 <= window_ms <= WINDOW_LIMIT,
        is_outcome(*outcome, notes@, replay.frames@, window_ms as int, true),
    ensures
        is_notes(list@, notes@, *replay, window_ms as int),
        list@.len() <= notes@.len(),
{
    let mut list: Vec<NoteAnalysis> = Vec::new();
    let ghost frames = replay.frames@;
    let ghost owned = attribution(notes@, frames, window_ms as int, true);
    let ghost pick = |i: int|
        if tried(notes@[i], replay.start_from_ms, replay.fail_time_ms, window_ms as int) {
            Some(i)
        } else {
            None
        };
    proof {
        law_flags_are_shared_out(notes@, frames, window_ms as int, true);
    }
    let mut i: usize = 0;
    while i < notes.len()
        invariant
            i <= notes@.len(),
            frames == replay.frames@,
            chartable(notes@),
            trackable(frames),
            pace == pace_of(replay.speed),
            is_kinematics(*k, frames, pace as int),
            0 <= window_ms <= WINDOW_LIMIT,
            is_outcome(*outcome, notes@, frames, window_ms as int, true),
            owned == attribution(notes@, frames, window_ms as int, true),
            owned.len() == notes@.len(),
            crate::hitreg::distinct_owners(owned, flagged(frames).len() as int),
            crate::hitreg::fitting(notes@, flagged(frames), window_ms as int, owned),
            pick == (|i: int|
                if tried(notes@[i], replay.start_from_ms, replay.fail_time_ms, window_ms as int) {
                    Some(i)
                } else {
                    None
                }),
            list@.len() == gather(pick, i as nat).len() <= i,
            forall|j: int|
                0 <= j < list@.len() ==> {
                    &&& is_note(
                        #[trigger] list@[j],
                        notes@,
                        frames,
                        pace as int,
                        gather(pick, i as nat)[j],
                        struck(notes@, frames, window_ms as int, gather(pick, i as nat)[j]),
                    )
                    &&& is_bounded(list@[j])
                },
        decreases notes@.len() - i,
    {
        let note: Note = notes[i];
        assert(magnitude(notes@[i as int].time_ms as int) <= CHART_LIMIT);
        let from_start: bool = replay.start_from_ms <= 0 || note.time_ms
            >= replay.start_from_ms as i64;
        let before_end: bool = replay.fail_time_ms < 0 || note.time_ms * ONE
            <= replay.fail_time_ms as i64 * ONE + window_ms;
        let ghost ids = gather(pick, i as nat);
        if from_start && before_end {
            assert(outcome.results@[i as int].hit_ms == struck(
                notes@,
                frames,
                window_ms as int,
                i as int,
            ));
            let hit_ms: Option<i64> = outcome.results[i].hit_ms;
            proof {
                if let Some(own) = owned[i as int] {
                    lemma_flags_are_frames(frames, own);
                }
            }
            let na: NoteAnalysis = study_note(
                notes,
                replay.frames.as_slice(),
                k,
                pace,
                i,
                hit_ms,
            );
            list.push(na);
            assert(pick(i as int) == Some(i as int));
            assert(gather(pick, (i + 1) as nat) == ids.push(i as int));
        } else {
            assert(pick(i as int) is None);
        }
        i = i + 1;
    }
    list
}

/// The largest of something, and when it was.
#[derive(Debug, Clone, Copy, PartialEq, Eq, Structural)]
pub struct Extremum {
    pub v: i128,
    pub t: i64,
}

/// How the cursor moved over the run.
#[derive(Debug, Clone, Copy)]
pub struct CursorStats {
    /// Mean speed.
    pub avg_speed: i128,
    /// Speed that 95 percent of the moving samples do not exceed.
    pub p95_speed: i128,
    pub max_speed: Extremum,
    pub max_accel: Extremum,
    /// Way of the cursor.
    pub total_path_cells: i128,
    /// Way from note to note.
    pub optimal_path_cells: i128,
    /// Shortest way over actual way, at most 100 percent.
    pub efficiency_pct: i128,
    /// Share of the time in which the cursor moved.
    pub moving_pct: i128,
}

/// A share in millionths of a percent; 0 of nothing.
pub open spec fn share(part: int, whole: int) -> int {
    if whole > 0 {
        nearest(part * 100_000_000, whole)
    } else {
        0
    }
}

/// The first of the largest positive values of `f` below `n`, and where it is; -1 where none is
/// positive.
pub open spec fn top(f: spec_fn(int) -> int, n: nat) -> (int, int)
    decreases n,
{
    if n == 0 {
        (0, -1)
    } else {
        let (v, at) = top(f, (n - 1) as nat);
        if f(n - 1) > v {
            (f(n - 1), n - 1)
        } else {
            (v, at)
        }
    }
}

/// Whether an extremum is the top of `f` over the segments of some frames.
pub open spec fn is_top(e: Extremum, f: spec_fn(int) -> int, frames: Seq<Frame>) -> bool {
    let (v, at) = top(f, segments(frames));
    &&& e.v == v
    &&& e.t == (if at < 0 {
        0
    } else {
        frames[at + 1].ms
    })
}

/// The acceleration at a segment, from the smoothed speeds.
pub open spec fn acceleration(frames: Seq<Frame>, pace: int, i: int) -> int {
    if i < 1 || segment_time(frames, i) <= 0 {
        0
    } else {
        nearest(
            magnitude(smooth(frames, pace, i) - smooth(frames, pace, i - 1)) * pace * 1000,
            segment_time(frames, i),
        )
    }
}

/// The accelerations.
pub open spec fn accelerations_fn(frames: Seq<Frame>, pace: int) -> spec_fn(int) -> int {
    |i: int| acceleration(frames, pace, i)
}

/// The times in which the cursor moved.
pub open spec fn moving_fn(frames: Seq<Frame>, pace: int) -> spec_fn(int) -> int {
    |i: int|
        if moving(frames, pace, i) {
            segment_time(frames, i)
        } else {
            0
        }
}

/// The positive smoothed speeds.
pub open spec fn positive_speeds(frames: Seq<Frame>, pace: int, n: nat) -> Seq<i128> {
    gather(
        |i: int|
            if smooth(frames, pace, i) > 0 {
                Some(smooth(frames, pace, i) as i128)
            } else {
                None
            },
        n,
    )
}

/// The way from attempted note `i` to the next.
pub open spec fn leg(list: Seq<NoteAnalysis>, i: int) -> int {
    distance(
        world_x(list[i].gx as int),
        world_y(list[i].gy as int),
        world_x(list[i + 1].gx as int),
        world_y(list[i + 1].gy as int),
    )
}

/// The ways from note to note.
pub open spec fn legs_fn(list: Seq<NoteAnalysis>) -> spec_fn(int) -> int {
    |i: int| leg(list, i)
}

/// The way from each attempted note to the next, added up.
pub open spec fn shortest_way(list: Seq<NoteAnalysis>) -> int {
    if list.len() == 0 {
        0
    } else {
        total(legs_fn(list), (list.len() - 1) as nat)
    }
}

/// Whether this is how the cursor moved.
pub open spec fn is_cursor(
    c: CursorStats,
    frames: Seq<Frame>,
    pace: int,
    list: Seq<NoteAnalysis>,
) -> bool {
    let n = segments(frames);
    let way = total(ways_fn(frames), n);
    let time = total(times_fn(frames), n);
    let best = shortest_way(list);
    &&& c.avg_speed == velocity(way, time, pace)
    &&& is_percentile(positive_speeds(frames, pace, n), 95, 100, c.p95_speed as int)
    &&& is_top(c.max_speed, speeds_fn(frames, pace), frames)
    &&& is_top(c.max_accel, accelerations_fn(frames, pace), frames)
    &&& c.total_path_cells == way
    &&& c.optimal_path_cells == best
    &&& c.efficiency_pct == lesser(share(best, way), 100_000_000)
    &&& c.moving_pct == share(total(moving_fn(frames, pace), n), time)
}

/// A share in millionths of a percent; 0 of nothing.
pub fn percentage(part: i128, whole: i128) -> (p: i128)
    requires
        0 <= part <= 20_000_000_000_000_000_000_000_000_000,
        0 <= whole <= 20_000_000_000_000_000_000_000_000_000,
    ensures
        p == share(part as int, whole as int),
        0 <= p,
        part <= whole ==> p <= 100_000_000,
{
    if whole > 0 {
        proof {
            lemma_nearest_bound(part * 100_000_000, whole as int);
            if part <= whole {
                assert((2 * (part * 100_000_000) + whole) / (2 * (whole as int)) <= 100_000_000)
                    by (nonlinear_arith)
                    requires
                        0 <= part <= whole,
                        whole > 0,
                {
                    assert(2 * (part * 100_000_000) + whole < (100_000_000 + 1) * (2 * whole))
                        by (nonlinear_arith)
                        requires
                            0 <= part <= whole,
                            whole > 0,
                    ;
                }
            }
        }
        div_nearest(part * 100_000_000, whole)
    } else {
        0
    }
}

/// The way of the cursor, its time, and the time in which it moved.
fn walk_segments(frames: &[Frame], k: &Kinematics, pace: i64) -> (r: (i128, i128, i128))
    requires
        trackable(frames@),
        is_kinematics(*k, frames@, pace as int),
        0 < pace <= SPEED_LIMIT,
    ensures
        r.0 == total(ways_fn(frames@), segments(frames@)),
        r.1 == total(times_fn(frames@), segments(frames@)),
        r.2 == total(moving_fn(frames@, pace as int), segments(frames@)),
        0 <= r.0 <= 20_000_000_000_000_000_000_000,
        0 <= r.1 <= 10_000_000_000_000_000_000,
        0 <= r.2 <= r.1,
{
    let mut way: i128 = 0;
    let mut time: i128 = 0;
    let mut moved: i128 = 0;
    let n: usize = k.seg_dt.len();
    let mut i: usize = 0;
    while i < n
        invariant
            i <= n == segments(frames@),
            n <= u32::MAX,
            is_kinematics(*k, frames@, pace as int),
            0 < pace <= SPEED_LIMIT,
            way == total(ways_fn(frames@), i as nat),
            time == total(times_fn(frames@), i as nat),
            moved == total(moving_fn(frames@, pace as int), i as nat),
            0 <= way <= i * 3_000_000_000_000,
            0 <= moved <= time <= i * 500_000_000,
        decreases n - i,
    {
        assert(k.seg_dt@[i as int] == segment_time(frames@, i as int));
        assert(k.seg_dist@[i as int] == segment_way(frames@, i as int));
        let d: i128 = k.seg_dist[i] as i128;
        let dt: i128 = k.seg_dt[i] as i128;
        assert(0 <= d * pace <= 3_000_000_000_000 * 1_000_000_000) by (nonlinear_arith)
            requires
                0 <= d <= 3_000_000_000_000,
                0 < pace <= 1_000_000_000,
        ;
        way = way + d;
        time = time + dt;
        if d * pace as i128 * 1000 > 500_000 * dt {
            moved = moved + dt;
        }
        i = i + 1;
    }
    (way, time, moved)
}

/// The first of the largest smoothed speeds.
fn top_speed(frames: &[Frame], k: &Kinematics, pace: i64) -> (e: Extremum)
    requires
        is_kinematics(*k, frames@, pace as int),
    ensures
        is_top(e, speeds_fn(frames@, pace as int), frames@),
{
    let ghost f = speeds_fn(frames@, pace as int);
    let mut e: Extremum = Extremum { v: 0, t: 0 };
    let n: usize = k.smooth_v.len();
    let mut i: usize = 0;
    while i < n
        invariant
            i <= n == segments(frames@),
            is_kinematics(*k, frames@, pace as int),
            f == speeds_fn(frames@, pace as int),
            e.v == top(f, i as nat).0,
            -1 <= top(f, i as nat).1 < i,
            e.t == (if top(f, i as nat).1 < 0 {
                0
            } else {
                frames@[top(f, i as nat).1 + 1].ms
            }),
        decreases n - i,
    {
        assert(k.smooth_v@[i as int] == smooth(frames@, pace as int, i as int));
        assert(k.smooth_t@[i as int] == frames@[i + 1].ms);
        if k.smooth_v[i] > e.v {
            e = Extremum { v: k.smooth_v[i], t: k.smooth_t[i] };
        }
        i = i + 1;
    }
    e
}

/// The acceleration at a segment.
fn acceleration_at(frames: &[Frame], k: &Kinematics, pace: i64, i: usize) -> (a: i128)
    requires
        is_kinematics(*k, frames@, pace as int),
        0 < pace <= SPEED_LIMIT,
        i < segments(frames@),
    ensures
        a == acceleration(frames@, pace as int, i as int),
        0 <= a,
{
    assert(k.seg_dt@[i as int] == segment_time(frames@, i as int));
    if i < 1 || k.seg_dt[i] <= 0 {
        return 0;
    }
    assert(k.smooth_v@[i as int] == smooth(frames@, pace as int, i as int));
    assert(k.smooth_v@[i - 1] == smooth(frames@, pace as int, i - 1));
    let dv: i128 = if k.smooth_v[i] >= k.smooth_v[i - 1] {
        k.smooth_v[i] - k.smooth_v[i - 1]
    } else {
        k.smooth_v[i - 1] - k.smooth_v[i]
    };
    assert(0 <= dv * pace <= 9_000_000_000_000_000_000_000_000_000_000_000) by (nonlinear_arith)
        requires
            0 <= dv <= 9_000_000_000_000_000_000_000_000,
            0 < pace <= 1_000_000_000,
    ;
    let n: i128 = dv * pace as i128 * 1000;
    proof {
        lemma_nearest_bound(n as int, k.seg_dt@[i as int] as int);
    }
    div_nearest(n, k.seg_dt[i] as i128)
}

/// Accelerations above this are counted: 4000 cells per second, every second.
pub const EXTREME_ACCELERATION: i128 = 4_000_000_000;

/// When the acceleration was extreme.
pub open spec fn spikes(frames: Seq<Frame>, pace: int, n: nat) -> Seq<i64> {
    gather(
        |i: int|
            if acceleration(frames, pace, i) > EXTREME_ACCELERATION {
                Some(frames[i + 1].ms)
            } else {
                None
            },
        n,
    )
}

/// The first of the largest accelerations, and when the acceleration was extreme.
fn study_acceleration(frames: &[Frame], k: &Kinematics, pace: i64) -> (r: (Extremum, Vec<i64>))
    requires
        is_kinematics(*k, frames@, pace as int),
        0 < pace <= SPEED_LIMIT,
    ensures
        is_top(r.0, accelerations_fn(frames@, pace as int), frames@),
        r.1@ == spikes(frames@, pace as int, segments(frames@)),
{
    let ghost f = accelerations_fn(frames@, pace as int);
    let mut e: Extremum = Extremum { v: 0, t: 0 };
    let mut times: Vec<i64> = Vec::new();
    let n: usize = k.smooth_v.len();
    let mut i: usize = 0;
    while i < n
        invariant
            i <= n == segments(frames@),
            is_kinematics(*k, frames@, pace as int),
            0 < pace <= SPEED_LIMIT,
            f == accelerations_fn(frames@, pace as int),
            times@ == spikes(frames@, pace as int, i as nat),
            e.v == top(f, i as nat).0,
            -1 <= top(f, i as nat).1 < i,
            e.t == (if top(f, i as nat).1 < 0 {
                0
            } else {
                frames@[top(f, i as nat).1 + 1].ms
            }),
        decreases n - i,
    {
        assert(k.smooth_t@[i as int] == frames@[i + 1].ms);
        let a: i128 = acceleration_at(frames, k, pace, i);
        if a > e.v {
            e = Extremum { v: a, t: k.smooth_t[i] };
        }
        if a > EXTREME_ACCELERATION {
            times.push(k.smooth_t[i]);
        }
        i = i + 1;
    }
    (e, times)
}

/// The positive smoothed speeds.
fn moving_speeds(frames: &[Frame], k: &Kinematics, pace: i64) -> (v: Vec<i128>)
    requires
        is_kinematics(*k, frames@, pace as int),
    ensures
        v@ == positive_speeds(frames@, pace as int, segments(frames@)),
        limited(v@, VALUE_LIMIT),
        v@.len() <= segments(frames@),
{
    let mut v: Vec<i128> = Vec::new();
    let n: usize = k.smooth_v.len();
    let mut i: usize = 0;
    while i < n
        invariant
            i <= n == segments(frames@),
            is_kinematics(*k, frames@, pace as int),
            v@ == positive_speeds(frames@, pace as int, i as nat),
            limited(v@, VALUE_LIMIT),
            v@.len() <= i,
        decreases n - i,
    {
        assert(k.smooth_v@[i as int] == smooth(frames@, pace as int, i as int));
        if k.smooth_v[i] > 0 {
            v.push(k.smooth_v[i]);
        }
        i = i + 1;
    }
    v
}

/// Whether all notes of a list are bounded.
pub open spec fn all_bounded(list: Seq<NoteAnalysis>) -> bool {
    forall|k: int| 0 <= k < list.len() ==> is_bounded(#[trigger] list[k])
}

/// The way from an attempted note to another.
pub(crate) fn leg_between(a: &NoteAnalysis, b: &NoteAnalysis) -> (d: i128)
    requires
        is_bounded(*a),
        is_bounded(*b),
    ensures
        d == distance(
            world_x(a.gx as int),
            world_y(a.gy as int),
            world_x(b.gx as int),
            world_y(b.gy as int),
        ),
        0 <= d <= 3 * PLANE_LIMIT,
{
    let one: i128 = ONE as i128;
    distance_between(
        a.gx as i128 - one,
        one - a.gy as i128,
        b.gx as i128 - one,
        one - b.gy as i128,
    )
}

/// The way from each attempted note to the next, added up.
fn way_between_notes(list: &[NoteAnalysis]) -> (d: i128)
    requires
        list@.len() <= u32::MAX,
        all_bounded(list@),
    ensures
        d == shortest_way(list@),
        0 <= d <= 20_000_000_000_000_000_000_000,
{
    if list.len() == 0 {
        return 0;
    }
    let n: usize = list.len() - 1;
    let mut d: i128 = 0;
    let mut i: usize = 0;
    while i < n
        invariant
            i <= n,
            n + 1 == list@.len() <= u32::MAX,
            all_bounded(list@),
            d == total(legs_fn(list@), i as nat),
            0 <= d <= i * 3_000_000_000_000,
        decreases n - i,
    {
        assert(is_bounded(list@[i as int]));
        assert(is_bounded(list@[i + 1]));
        d = d + leg_between(&list[i], &list[i + 1]);
        i = i + 1;
    }
    d
}

/// How the cursor moved, and when its acceleration was extreme.
pub fn cursor_stats(frames: &[Frame], k: &Kinematics, pace: i64, list: &[NoteAnalysis]) -> (r: (
    CursorStats,
    Vec<i64>,
))
    requires
        trackable(frames@),
        is_kinematics(*k, frames@, pace as int),
        0 < pace <= SPEED_LIMIT,
        list@.len() <= u32::MAX,
        all_bounded(list@),
    ensures
        is_cursor(r.0, frames@, pace as int, list@),
        r.1@ == spikes(frames@, pace as int, segments(frames@)),
{
    let (way, time, moved) = walk_segments(frames, k, pace);
    let best: i128 = way_between_notes(list);
    let speeds: Vec<i128> = moving_speeds(frames, k, pace);
    let (max_accel, times) = study_acceleration(frames, k, pace);
    let efficiency: i128 = percentage(best, way);
    (
        CursorStats {
            avg_speed: speed_over(way, time, pace),
            p95_speed: percentile(speeds.as_slice(), 95, 100),
            max_speed: top_speed(frames, k, pace),
            max_accel,
            total_path_cells: way,
            optimal_path_cells: best,
            efficiency_pct: if efficiency < 100_000_000 {
                efficiency
            } else {
                100_000_000
            },
            moving_pct: percentage(moved, time),
        },
        times,
    )
}

/// A hit is measured from where its note is drawn: the offsets lead from the note in the scene to
/// the cursor, the distance is theirs, and the cursor lies in the hit area of the note exactly
/// where neither offset is more than half of it.
pub proof fn law_hits_are_measured_in_the_scene(
    na: NoteAnalysis,
    notes: Seq<Note>,
    frames: Seq<Frame>,
    pace: int,
    i: int,
    h: i64,
    f: int,
)
    requires
        is_note(na, notes, frames, pace, i, Some(h)),
        0 <= i < notes.len(),
        frames_in_time(frames),
        0 <= f < frames.len(),
        frames[f].ms == h,
        f == frames.len() - 1 || frames[f].ms < frames[f + 1].ms,
    ensures
        na.hit,
        na.hit_ms == Some(h),
        na.err_ms matches Some(e) && e == h - notes[i].time_ms * 1_000_000,
        na.off_x matches Some(dx) && na.off_y matches Some(dy) && na.dist matches Some(d) && ({
            let drawn = crate::scene::world_of(notes[i].x as int, notes[i].y as int);
            &&& drawn.0 + dx == frames[f].x
            &&& drawn.1 + dy == frames[f].y
            &&& d >= 0
            &&& d * d <= dx * dx + dy * dy < (d + 1) * (d + 1)
            &&& d == 0 <==> dx == 0 && dy == 0
            &&& crate::hitreg::covered(frames[f], notes[i]) <==> magnitude(dx as int)
                <= crate::hitreg::HITBOX_HALF && magnitude(dy as int) <= crate::hitreg::HITBOX_HALF
        }),
{
    crate::motion::law_places_lie_on_the_frames(frames, f, h as int);
    let (cx, cy) = place(frames, h as int);
    law_distances_are_those_of_the_plane(
        world_x(notes[i].x as int),
        world_y(notes[i].y as int),
        cx,
        cy,
    );
}

proof fn lemma_closest(frames: Seq<Frame>, from: int, until: int, x: int, y: int)
    requires
        0 <= from,
    ensures
        match closest(frames, from, until, x, y) {
            Some(d) => {
                &&& exists|j: int|
                    from <= j < frames.len() && (#[trigger] frames[j]).ms <= until && d == distance(
                        frames[j].x as int,
                        frames[j].y as int,
                        x,
                        y,
                    )
                &&& frames_in_time(frames) ==> forall|j: int|
                    from <= j < frames.len() && (#[trigger] frames[j]).ms <= until ==> d <= distance(
                        frames[j].x as int,
                        frames[j].y as int,
                        x,
                        y,
                    )
            },
            None => from >= frames.len() || frames[from].ms > until,
        },
    decreases frames.len() - from,
{
    if from < frames.len() && frames[from].ms <= until {
        lemma_closest(frames, from + 1, until, x, y);
        let d = distance(frames[from].x as int, frames[from].y as int, x, y);
        match closest(frames, from + 1, until, x, y) {
            Some(rest) => {
                let j = choose|j: int|
                    from + 1 <= j < frames.len() && (#[trigger] frames[j]).ms <= until && rest
                        == distance(frames[j].x as int, frames[j].y as int, x, y);
                assert(frames[j].ms <= until);
                assert(frames[from].ms <= until);
            },
            None => {
                assert(frames[from].ms <= until);
                if frames_in_time(frames) {
                    assert forall|j: int|
                        from <= j < frames.len() && (#[trigger] frames[j]).ms
                            <= until implies d <= distance(
                        frames[j].x as int,
                        frames[j].y as int,
                        x,
                        y,
                    ) by {
                        if j > from {
                            assert(frames[from + 1].ms <= frames[j].ms);
                        }
                    }
                }
            },
        }
    }
}

/// A missed note knows how near the cursor came: some frame within a quarter of a second was as
/// near to the drawn note, and none of them was nearer. Without such a frame nothing is known.
pub proof fn law_misses_know_how_near_they_were(
    na: NoteAnalysis,
    notes: Seq<Note>,
    frames: Seq<Frame>,
    pace: int,
    i: int,
)
    requires
        is_note(na, notes, frames, pace, i, None),
        0 <= i < notes.len(),
        frames_in_time(frames),
    ensures
        !na.hit,
        na.hit_ms is None,
        na.err_ms is None,
        na.dist is None,
        ({
            let drawn = crate::scene::world_of(notes[i].x as int, notes[i].y as int);
            let due = notes[i].time_ms * 1_000_000;
            let near = |j: int|
                {
                    &&& 0 <= j < frames.len()
                    &&& due - 250_000_000 <= frames[j].ms <= due + 250_000_000
                };
            match na.near_dist {
                Some(d) => {
                    &&& exists|j: int|
                        near(j) && d == #[trigger] distance(
                            frames[j].x as int,
                            frames[j].y as int,
                            drawn.0,
                            drawn.1,
                        )
                    &&& forall|j: int|
                        near(j) ==> d <= #[trigger] distance(
                            frames[j].x as int,
                            frames[j].y as int,
                            drawn.0,
                            drawn.1,
                        )
                },
                None => forall|j: int| !#[trigger] near(j),
            }
        }),
{
    let drawn = crate::scene::world_of(notes[i].x as int, notes[i].y as int);
    let due = notes[i].time_ms * 1_000_000;
    let from = first_not_before(frames, 0, due - 250_000_000);
    lemma_first_of(frames, 0, due - 250_000_000);
    lemma_closest(frames, from, due + 250_000_000, drawn.0, drawn.1);
    assert forall|j: int|
        from <= j < frames.len() implies (#[trigger] frames[j]).ms >= due - 250_000_000 by {
        assert(frames[from].ms <= frames[j].ms);
    }
    match closest(frames, from, due + 250_000_000, drawn.0, drawn.1) {
        Some(d) => {
            let j = choose|j: int|
                from <= j < frames.len() && (#[trigger] frames[j]).ms <= due + 250_000_000 && d
                    == distance(frames[j].x as int, frames[j].y as int, drawn.0, drawn.1);
            assert(frames[j].ms >= due - 250_000_000);
        },
        None => {
            if from < frames.len() {
                assert forall|j: int|
                    0 <= j < frames.len() && due - 250_000_000 <= (#[trigger] frames[j]).ms <= due
                        + 250_000_000 implies false by {
                    if j >= from {
                        assert(frames[from].ms <= frames[j].ms);
                    }
                }
            }
        },
    }
}

proof fn lemma_first_of(frames: Seq<Frame>, from: int, t: int)
    requires
        0 <= from <= frames.len(),
    ensures
        from <= first_not_before(frames, from, t) <= frames.len(),
        first_not_before(frames, from, t) < frames.len() ==> frames[first_not_before(
            frames,
            from,
            t,
        )].ms >= t,
        forall|k: int|
            from <= k < first_not_before(frames, from, t) ==> (#[trigger] frames[k]).ms < t,
    decreases frames.len() - from,
{
    if from < frames.len() && frames[from].ms < t {
        lemma_first_of(frames, from + 1, t);
    }
}

/// A share is what the part is of the whole, in millionths of a percent and rounded; the whole
/// makes 100 percent, nothing 0, and a part no more than 100.
pub proof fn law_shares_are_parts_of_a_hundred(part: int, whole: int)
    requires
        0 <= part <= whole,
        whole > 0,
    ensures
        2 * magnitude(whole * share(part, whole) - 100_000_000 * part) <= whole,
        0 <= share(part, whole) <= 100_000_000,
        share(0, whole) == 0,
        share(whole, whole) == 100_000_000,
        magnitude(share(part, whole) + share(whole - part, whole) - 100_000_000) <= 1,
        share(part, 0) == 0,
{
    let (a, b) = (share(part, whole), share(whole - part, whole));
    law_rounding_is_closest(part * 100_000_000, whole);
    law_rounding_is_closest((whole - part) * 100_000_000, whole);
    law_rounding_keeps_whole_numbers(100_000_000, 0, whole);
    law_rounding_keeps_whole_numbers(0, 0, whole);
    law_rounding_is_monotone(0, part * 100_000_000, whole);
    law_rounding_is_monotone(part * 100_000_000, whole * 100_000_000, whole);
    assert(magnitude(a + b - 100_000_000) <= 1) by (nonlinear_arith)
        requires
            2 * magnitude(whole * a - part * 100_000_000) <= whole,
            2 * magnitude(whole * b - (whole - part) * 100_000_000) <= whole,
            whole > 0,
    ;
}

/// The top of a list is its greatest value where that is positive, found where it first occurs.
pub proof fn law_the_top_is_the_greatest(f: spec_fn(int) -> int, n: nat)
    ensures
        forall|i: int| 0 <= i < n ==> #[trigger] f(i) <= top(f, n).0,
        top(f, n).0 >= 0,
        top(f, n).1 >= 0 <==> top(f, n).0 > 0,
        top(f, n).1 >= 0 ==> {
            &&& top(f, n).1 < n
            &&& f(top(f, n).1) == top(f, n).0
            &&& forall|i: int| 0 <= i < top(f, n).1 ==> #[trigger] f(i) < top(f, n).0
        },
    decreases n,
{
    if n > 0 {
        law_the_top_is_the_greatest(f, (n - 1) as nat);
    }
}

/// The way from note to note is that between their places in the grid.
pub proof fn law_legs_join_neighbouring_notes(list: Seq<NoteAnalysis>, i: int)
    requires
        0 <= i < list.len() - 1,
    ensures
        ({
            let d = leg(list, i);
            let (dx, dy) = (list[i + 1].gx - list[i].gx, list[i + 1].gy - list[i].gy);
            d >= 0 && d * d <= dx * dx + dy * dy < (d + 1) * (d + 1)
        }),
        shortest_way(list) >= leg(list, i),
        list.len() >= 2 ==> shortest_way(list) == shortest_way(list.drop_last()) + leg(
            list,
            list.len() - 2,
        ),
{
    let (a, b) = (list[i], list[i + 1]);
    law_distances_are_those_of_the_plane(
        world_x(a.gx as int),
        world_y(a.gy as int),
        world_x(b.gx as int),
        world_y(b.gy as int),
    );
    let (dx, dy) = (b.gx - a.gx, b.gy - a.gy);
    assert((a.gy - b.gy) * (a.gy - b.gy) == dy * dy) by (nonlinear_arith)
        requires
            dy == b.gy - a.gy,
    ;
    let (ax, ay) = (world_x(a.gx as int), world_y(a.gy as int));
    let (bx, by) = (world_x(b.gx as int), world_y(b.gy as int));
    assert(bx - ax == dx && by - ay == a.gy - b.gy);
    lemma_way_holds_its_legs(list, (list.len() - 1) as nat, i);
    let less = list.drop_last();
    let n = (list.len() - 2) as nat;
    lemma_total_same(legs_fn(less), legs_fn(list), n);
}

proof fn lemma_way_holds_its_legs(list: Seq<NoteAnalysis>, n: nat, i: int)
    requires
        n < list.len(),
        0 <= i,
    ensures
        total(legs_fn(list), n) >= 0,
        i < n ==> total(legs_fn(list), n) >= leg(list, i),
    decreases n,
{
    if n > 0 {
        let m = (n - 1) as nat;
        lemma_way_holds_its_legs(list, m, i);
        let (a, b) = (list[m as int], list[m as int + 1]);
        law_distances_are_those_of_the_plane(
            world_x(a.gx as int),
            world_y(a.gy as int),
            world_x(b.gx as int),
            world_y(b.gy as int),
        );
        assert(leg(list, m as int) >= 0);
    }
}

/// What is studied are the notes from where the run started until the hit window after it failed,
/// each of them once and in order, at its place and its time in the chart; a note counts as hit
/// where a flag was matched to it, and its error is how much later than the note that flag came.
pub proof fn law_the_notes_of_the_run_are_studied(
    list: Seq<NoteAnalysis>,
    notes: Seq<Note>,
    replay: Replay,
    window: int,
)
    requires
        is_notes(list, notes, replay, window),
        notes.len() <= u32::MAX,
    ensures
        forall|k: int|
            0 <= k < list.len() ==> {
                let na = #[trigger] list[k];
                &&& na.i < notes.len()
                &&& na.t == notes[na.i as int].time_ms * 1_000_000
                &&& na.gx == notes[na.i as int].x
                &&& na.gy == notes[na.i as int].y
                &&& replay.start_from_ms > 0 ==> na.t >= replay.start_from_ms * 1_000_000
                &&& replay.fail_time_ms >= 0 ==> na.t - replay.fail_time_ms * 1_000_000 <= window
                &&& na.hit == attribution(notes, replay.frames@, window, true)[na.i as int] is Some
                &&& na.hit ==> na.err_ms == Some((na.hit_ms->0 - na.t) as i64)
            },
        forall|i: int|
            0 <= i < notes.len() && (replay.start_from_ms > 0 ==> notes[i].time_ms
                >= replay.start_from_ms) && (replay.fail_time_ms >= 0 ==> notes[i].time_ms
                * 1_000_000 <= replay.fail_time_ms * 1_000_000 + window) ==> #[trigger] is_studied(list, i),
        forall|j: int, k: int|
            0 <= j < k < list.len() ==> (#[trigger] list[j]).i < (#[trigger] list[k]).i,
{
    let ids = tried_below(
        notes,
        replay.start_from_ms,
        replay.fail_time_ms,
        window,
        notes.len(),
    );
    lemma_ids(notes, replay, window);
    assert forall|k: int| 0 <= k < list.len() implies {
        let na = #[trigger] list[k];
        &&& na.i == ids[k]
        &&& na.i < notes.len()
        &&& na.t == notes[na.i as int].time_ms * 1_000_000
        &&& na.gx == notes[na.i as int].x
        &&& na.gy == notes[na.i as int].y
        &&& replay.start_from_ms > 0 ==> na.t >= replay.start_from_ms * 1_000_000
        &&& replay.fail_time_ms >= 0 ==> na.t - replay.fail_time_ms * 1_000_000 <= window
        &&& na.hit == attribution(notes, replay.frames@, window, true)[na.i as int] is Some
        &&& na.hit ==> na.err_ms == Some((na.hit_ms->0 - na.t) as i64)
    } by {
        let i = ids[k];
        assert(0 <= i < notes.len());
        assert(is_note(
            list[k],
            notes,
            replay.frames@,
            pace_of(replay.speed),
            i,
            struck(notes, replay.frames@, window, i),
        ));
    }
    assert forall|i: int|
        0 <= i < notes.len() && (replay.start_from_ms > 0 ==> notes[i].time_ms
            >= replay.start_from_ms) && (replay.fail_time_ms >= 0 ==> notes[i].time_ms * 1_000_000
            <= replay.fail_time_ms * 1_000_000 + window) implies #[trigger] is_studied(list, i) by {
        assert(tried(notes[i], replay.start_from_ms, replay.fail_time_ms, window));
        assert(ids.contains(i));
        let k = choose|k: int| 0 <= k < ids.len() && ids[k] == i;
        assert(list[k].i == ids[k]);
    }
}

proof fn lemma_ids(notes: Seq<Note>, replay: Replay, window: int)
    ensures
        ({
            let ids = tried_below(
                notes,
                replay.start_from_ms,
                replay.fail_time_ms,
                window,
                notes.len(),
            );
            &&& forall|k: int|
                0 <= k < ids.len() ==> 0 <= #[trigger] ids[k] < notes.len() && tried(
                    notes[ids[k]],
                    replay.start_from_ms,
                    replay.fail_time_ms,
                    window,
                )
            &&& forall|j: int, k: int|
                0 <= j < k < ids.len() ==> #[trigger] ids[j] < #[trigger] ids[k]
            &&& forall|i: int|
                0 <= i < notes.len() && #[trigger] tried(
                    notes[i],
                    replay.start_from_ms,
                    replay.fail_time_ms,
                    window,
                ) ==> ids.contains(i)
        }),
{
    let f = |i: int|
        if tried(notes[i], replay.start_from_ms, replay.fail_time_ms, window) {
            Some(i)
        } else {
            None
        };
    let ids = gather(f, notes.len());
    law_gathering_keeps_all_in_order(f, notes.len());
    lemma_ids_rise(f, notes.len());
    assert forall|k: int| 0 <= k < ids.len() implies 0 <= #[trigger] ids[k] < notes.len() && tried(
        notes[ids[k]],
        replay.start_from_ms,
        replay.fail_time_ms,
        window,
    ) by {
        let i = choose|i: int| 0 <= i < notes.len() && #[trigger] f(i) == Some(ids[k]);
        assert(f(i) == Some(ids[k]));
    }
    assert forall|i: int|
        0 <= i < notes.len() && #[trigger] tried(
            notes[i],
            replay.start_from_ms,
            replay.fail_time_ms,
            window,
        ) implies ids.contains(i) by {
        assert(f(i) is Some);
        let k = tally(|j: int| f(j) is Some, i as nat) as int;
        assert(ids[k] == i);
    }
}

/// Whether a note is among those studied.
pub open spec fn is_studied(list: Seq<NoteAnalysis>, i: int) -> bool {
    exists|k: int| 0 <= k < list.len() && (#[trigger] list[k]).i == i
}

proof fn lemma_ids_rise(f: spec_fn(int) -> Option<int>, n: nat)
    requires
        forall|i: int| #[trigger] f(i) is Some ==> f(i) == Some(i),
    ensures
        forall|j: int| 0 <= j < gather(f, n).len() ==> 0 <= #[trigger] gather(f, n)[j] < n,
        forall|j: int, k: int|
            0 <= j < k < gather(f, n).len() ==> #[trigger] gather(f, n)[j]
                < #[trigger] gather(f, n)[k],
    decreases n,
{
    if n > 0 {
        let m = (n - 1) as nat;
        lemma_ids_rise(f, m);
        let before = gather(f, m);
        let last = f(m as int);
        assert(last is Some ==> last == Some(m as int));
        assert forall|j: int| 0 <= j < gather(f, n).len() implies 0 <= #[trigger] gather(f, n)[j]
            < n && (j < before.len() ==> gather(f, n)[j] == before[j]) by {
            if j < before.len() {
                assert(gather(f, n)[j] == before[j]);
            }
        }
    }
}

/// The speed at which a note is come to lies between the least and the greatest of the speeds
/// sampled in the 150 ms before it, and is 0 where there is none.
pub proof fn law_approaches_take_the_last_moments(
    na: NoteAnalysis,
    notes: Seq<Note>,
    frames: Seq<Frame>,
    pace: int,
    i: int,
    hit_ms: Option<i64>,
    lo: int,
    hi: int,
)
    requires
        is_note(na, notes, frames, pace, i, hit_ms),
        frames_in_time(frames),
        forall|j: int|
            0 <= j < segments(frames) && notes[i].time_ms * 1_000_000 - 150_000_000 <= frames[j
                + 1].ms <= notes[i].time_ms * 1_000_000 ==> lo <= #[trigger] smooth(frames, pace, j)
                <= hi,
    ensures
        (exists|j: int|
            1 <= j < frames.len() && notes[i].time_ms * 1_000_000 - 150_000_000
                <= (#[trigger] frames[j]).ms <= notes[i].time_ms * 1_000_000) ==> lo
            <= na.approach_v <= hi,
        (forall|j: int|
            1 <= j < frames.len() ==> !(notes[i].time_ms * 1_000_000 - 150_000_000
                <= (#[trigger] frames[j]).ms <= notes[i].time_ms * 1_000_000)) ==> na.approach_v
            == 0,
{
    let t = notes[i].time_ms * 1_000_000;
    let from = t - 150_000_000;
    let a = segment_from(frames, from);
    let b = segment_from(frames, t + 1);
    if frames.len() > 0 {
        lemma_first_of(frames, 1, from);
        lemma_first_of(frames, 1, t + 1);
        let f = speeds_fn(frames, pace);
        if b > a {
            assert(from <= frames[a + 1].ms <= t) by {
                assert(frames[a + 1].ms < t + 1);
            }
            assert forall|j: int| a <= j < b implies lo <= #[trigger] f(j) <= hi by {
                assert(frames[j + 1].ms < t + 1);
                assert(frames[a + 1].ms <= frames[j + 1].ms);
                assert(lo <= smooth(frames, pace, j) <= hi);
            }
            lemma_stretch_bound(f, a as nat, b as nat, lo, hi);
            let s = total(f, b as nat) - total(f, a as nat);
            let n = b - a;
            law_rounding_is_monotone(n * lo, s, n);
            law_rounding_is_monotone(s, n * hi, n);
            law_rounding_keeps_whole_numbers(lo, 0, n);
            law_rounding_keeps_whole_numbers(hi, 0, n);
        } else {
            assert forall|j: int| 1 <= j < frames.len() implies !(from
                <= (#[trigger] frames[j]).ms <= t) by {
                if j >= b + 1 {
                    assert(frames[b + 1].ms <= frames[j].ms);
                }
            }
        }
    }
}

pub proof fn lemma_stretch_bound(f: spec_fn(int) -> int, a: nat, b: nat, lo: int, hi: int)
    requires
        a <= b,
        forall|j: int| a <= j < b ==> lo <= #[trigger] f(j) <= hi,
    ensures
        (b - a) * lo <= total(f, b) - total(f, a) <= (b - a) * hi,
    decreases b - a,
{
    if b > a {
        let c = (b - 1) as nat;
        lemma_stretch_bound(f, a, c, lo, hi);
        assert(lo <= f(c as int) <= hi);
        assert((b - a) * lo == (c - a) * lo + lo) by (nonlinear_arith)
            requires
                b == c + 1,
        ;
        assert((b - a) * hi == (c - a) * hi + hi) by (nonlinear_arith)
            requires
                b == c + 1,
        ;
    } else {
        assert((b - a) * lo == 0 && (b - a) * hi == 0) by (nonlinear_arith)
            requires
                a == b,
        ;
    }
}

/// The cursor's extremes are no less than any of its samples and stand at the end of a segment
/// that has them; a cursor that never moves faster or slower is not accelerated; no more than
/// 95 percent of the moving samples lie below the speed that is named for that.
pub proof fn law_extremes_of_the_cursor(
    c: CursorStats,
    frames: Seq<Frame>,
    pace: int,
    list: Seq<NoteAnalysis>,
    i: int,
)
    requires
        is_cursor(c, frames, pace, list),
        0 <= i < segments(frames),
        pace > 0,
    ensures
        c.max_speed.v >= smooth(frames, pace, i),
        c.max_speed.v > 0 ==> is_sampled(c.max_speed, speeds_fn(frames, pace), frames),
        c.max_accel.v > 0 ==> is_sampled(c.max_accel, accelerations_fn(frames, pace), frames),
        i >= 1 && frames[i].ms < frames[i + 1].ms <= frames[i].ms + 500_000_000 ==> ({
            let dt = frames[i + 1].ms - frames[i].ms;
            let dv = magnitude(smooth(frames, pace, i) - smooth(frames, pace, i - 1));
            &&& 2 * magnitude(dt * acceleration(frames, pace, i) - dv * pace * 1000) <= dt
            &&& c.max_accel.v >= acceleration(frames, pace, i)
        }),
        c.efficiency_pct <= 100_000_000,
{
    let n = segments(frames);
    let f = speeds_fn(frames, pace);
    let g = accelerations_fn(frames, pace);
    law_the_top_is_the_greatest(f, n);
    law_the_top_is_the_greatest(g, n);
    assert(f(i) == smooth(frames, pace, i));
    assert(g(i) == acceleration(frames, pace, i));
    if c.max_speed.v > 0 {
        let at = top(f, n).1;
        assert(f(at) == c.max_speed.v && frames[at + 1].ms == c.max_speed.t);
    }
    if c.max_accel.v > 0 {
        let at = top(g, n).1;
        assert(g(at) == c.max_accel.v && frames[at + 1].ms == c.max_accel.t);
    }
    if i >= 1 && segment_time(frames, i) > 0 {
        let dv = magnitude(smooth(frames, pace, i) - smooth(frames, pace, i - 1));
        law_rounding_is_closest(dv * pace * 1000, segment_time(frames, i));
    }
}

/// Whether an extreme is the value of one of the segments, at that segment's end.
pub open spec fn is_sampled(e: Extremum, f: spec_fn(int) -> int, frames: Seq<Frame>) -> bool {
    exists|at: int|
        0 <= at < segments(frames) && #[trigger] f(at) == e.v && frames[at + 1].ms == e.t
}

/// Spikes are the ends of the segments with an acceleration beyond 4000 cells per second squared,
/// all of them and in order.
pub proof fn law_spikes_are_the_hard_accelerations(frames: Seq<Frame>, pace: int, n: nat)
    ensures
        spikes(frames, pace, n).len() == tally(
            |i: int| acceleration(frames, pace, i) > 4_000_000_000,
            n,
        ),
        forall|i: int|
            0 <= i < n && #[trigger] acceleration(frames, pace, i) > 4_000_000_000 ==> spikes(
                frames,
                pace,
                n,
            ).contains(frames[i + 1].ms),
{
    let f = |i: int|
        if acceleration(frames, pace, i) > EXTREME_ACCELERATION {
            Some(frames[i + 1].ms)
        } else {
            None
        };
    law_gathering_keeps_all_in_order(f, n);
    lemma_tally_same(
        |i: int| f(i) is Some,
        |i: int| acceleration(frames, pace, i) > 4_000_000_000,
        n,
    );
    assert forall|i: int|
        0 <= i < n && #[trigger] acceleration(frames, pace, i) > 4_000_000_000 implies spikes(
        frames,
        pace,
        n,
    ).contains(frames[i + 1].ms) by {
        assert(f(i) is Some);
        let k = tally(|j: int| f(j) is Some, i as nat) as int;
        assert(spikes(frames, pace, n)[k] == frames[i + 1].ms);
    }
}

} // verus!
